//! Dependency checking: the decisions over probe results.
//!
//! Probing — running a version command, calling a local service — is
//! outside work that the binary around this library performs; it hands
//! the outcomes in as plain values and the verdicts are decided here.

use vstd::prelude::*;
use crate::chars::{chars_to_string, string_to_chars, trim, trim_spec};
use crate::error::CyxError;

verus! {

/// The verdict on one dependency.
#[derive(Debug, Clone)]
pub enum DependencyStatus {
    Installed { version: String },
    NotInstalled,
    WrongVersion { current: String, required: String },
}

/// One dependency's verdict with its name and install instructions.
#[derive(Debug, Clone)]
pub struct DepCheckResult {
    pub name: String,
    pub status: DependencyStatus,
    pub instructions: String,
}

/// What probing for a local Ollama found: the output of its version
/// command, if it ran, and whether the service answered.
#[derive(Debug, Clone)]
pub struct OllamaProbe {
    pub version_output: Option<String>,
    pub service_responds: bool,
}

/// `s` with every non-overlapping occurrence of `pat` removed, scanning
/// left to right; an empty pattern removes nothing.
pub open spec fn remove_pat(s: Seq<char>, pat: Seq<char>) -> Seq<char>
    decreases s.len(),
{
    if pat.len() == 0 || s.len() == 0 {
        s
    } else if s.len() >= pat.len() && s.subrange(0, pat.len() as int) == pat {
        remove_pat(s.skip(pat.len() as int), pat)
    } else {
        seq![s[0]] + remove_pat(s.drop_first(), pat)
    }
}

/// Removes every occurrence of `pat` from `s`.
fn remove_all(s: &Vec<char>, pat: &Vec<char>) -> (r: Vec<char>)
    ensures
        r@ == remove_pat(s@, pat@),
{
    let n = s.len();
    let m = pat.len();
    let mut out: Vec<char> = Vec::new();
    let mut i: usize = 0;
    if m == 0 {
        let r = crate::chars::string_to_chars(chars_to_string(s).as_str());
        return r;
    }
    proof {
        assert(s@.skip(0) =~= s@);
    }
    while i < n
        invariant
            n == s@.len(),
            m == pat@.len(),
            m >= 1,
            0 <= i <= n,
            remove_pat(s@, pat@) == out@ + remove_pat(s@.skip(i as int), pat@),
        decreases n - i,
    {
        let rest_len = n - i;
        let mut is_match = false;
        let ghost mut bad: int = 0;
        if rest_len >= m {
            let mut j: usize = 0;
            is_match = true;
            while j < m && is_match
                invariant
                    n == s@.len(),
                    m == pat@.len(),
                    i + m <= n,
                    0 <= j <= m,
                    is_match ==> forall|p: int| 0 <= p < j ==> s@[i + p] == pat@[p],
                    !is_match ==> 0 <= bad < m && bad < j && s@[i + bad] != pat@[bad],
                decreases m - j,
            {
                if s[i + j] != pat[j] {
                    is_match = false;
                    proof {
                        bad = j as int;
                    }
                    j = j + 1;
                } else {
                    j = j + 1;
                }
            }
        }
        let ghost tail = s@.skip(i as int);
        if is_match {
            proof {
                assert(tail.subrange(0, m as int) =~= pat@);
                assert(tail.skip(m as int) =~= s@.skip(i + m));
                assert(remove_pat(tail, pat@) == remove_pat(s@.skip(i + m), pat@));
            }
            i = i + m;
        } else {
            proof {
                if tail.len() >= m && tail.subrange(0, m as int) == pat@ {
                    assert(rest_len >= m);
                    assert(tail.subrange(0, m as int)[bad] == s@[i + bad]);
                    assert(false);
                }
                assert(tail[0] == s@[i as int]);
                assert(tail.drop_first() =~= s@.skip(i as int + 1));
                assert(remove_pat(tail, pat@) == seq![s@[i as int]] + remove_pat(
                    s@.skip(i as int + 1),
                    pat@,
                ));
                assert(out@.push(s@[i as int]) + remove_pat(s@.skip(i as int + 1), pat@) =~= out@
                    + remove_pat(tail, pat@));
            }
            out.push(s[i]);
            i = i + 1;
        }
    }
    proof {
        assert(s@.skip(n as int) =~= Seq::<char>::empty());
        assert(out@ + remove_pat(Seq::<char>::empty(), pat@) =~= out@);
    }
    out
}

/// The version a trimmed version-command output stands for: the output
/// with every occurrence of the command's own prefix text removed.
pub open spec fn ollama_version_of(out: Seq<char>) -> Seq<char> {
    remove_pat(trim_spec(out), "ollama version "@)
}

/// The verdict for the embedded SQLite: always present, since it is
/// compiled in.
pub fn sqlite_status() -> (r: DependencyStatus)
    ensures
        r matches DependencyStatus::Installed { version } && version@ == "bundled"@,
{
    DependencyStatus::Installed { version: "bundled".to_owned() }
}

/// The verdict for Ollama, decided from the probe: a version command
/// that ran names the installed version (its output trimmed and the
/// `ollama version ` prefix text removed); otherwise a responding
/// service counts as installed, and nothing else does.
pub fn evaluate_ollama_probe(probe: &OllamaProbe) -> (r: DependencyStatus)
    ensures
        match probe.version_output {
            Some(out) => r matches DependencyStatus::Installed { version } && version@
                == ollama_version_of(out@),
            None => {
                if probe.service_responds {
                    r matches DependencyStatus::Installed { version } && version@ == "running"@
                } else {
                    r is NotInstalled
                }
            },
        },
{
    match &probe.version_output {
        Some(out) => {
            let cs = string_to_chars(out.as_str());
            let trimmed = trim(&cs);
            let pat = string_to_chars("ollama version ");
            let cleaned = remove_all(&trimmed, &pat);
            DependencyStatus::Installed { version: chars_to_string(&cleaned) }
        },
        None => {
            if probe.service_responds {
                DependencyStatus::Installed { version: "running".to_owned() }
            } else {
                DependencyStatus::NotInstalled
            }
        },
    }
}

/// The install instructions for Ollama on the named operating system.
pub fn ollama_install_instructions(os: &str) -> (r: String)
    ensures
        (os@ == "macos"@ || os@ == "linux"@) ==> r@
            == "Install via: curl -fsSL https://ollama.com/install.sh | sh"@,
        os@ == "windows"@ ==> r@ == "Download installer from: https://ollama.com/download/windows"@,
{
    proof {
        reveal_strlit("macos");
        reveal_strlit("linux");
        reveal_strlit("windows");
        assert("macos"@.len() == 5 && "linux"@.len() == 5 && "windows"@.len() == 7);
        assert("macos"@[0] == 'm' && "linux"@[0] == 'l');
    }
    if crate::chars::str_eq(os, "macos") || crate::chars::str_eq(os, "linux") {
        "Install via: curl -fsSL https://ollama.com/install.sh | sh".to_owned()
    } else if crate::chars::str_eq(os, "windows") {
        "Download installer from: https://ollama.com/download/windows".to_owned()
    } else {
        "Visit https://ollama.com for installation instructions".to_owned()
    }
}

/// The fixed set of dependency checks.
pub struct DependencyChecker {}

impl DependencyChecker {
    pub fn new() -> (r: Result<DependencyChecker, CyxError>)
        ensures
            r is Ok,
    {
        Ok(DependencyChecker {  })
    }

    /// All verdicts, given the Ollama probe outcome and the running
    /// operating system's name.
    pub fn check_all(&self, probe: &OllamaProbe, os: &str) -> (r: Result<
        Vec<DepCheckResult>,
        CyxError,
    >)
        ensures
            r is Ok,
            r matches Ok(v) ==> v@.len() == 2 && v@[0].name@ == "SQLite"@ && v@[1].name@
                == "Ollama"@,
    {
        let mut results: Vec<DepCheckResult> = Vec::new();
        results.push(
            DepCheckResult {
                name: "SQLite".to_owned(),
                status: sqlite_status(),
                instructions: "SQLite is bundled with Cyx (no installation needed)".to_owned(),
            },
        );
        results.push(
            DepCheckResult {
                name: "Ollama".to_owned(),
                status: evaluate_ollama_probe(probe),
                instructions: ollama_install_instructions(os),
            },
        );
        Ok(results)
    }

    /// The verdict for one dependency by name; unknown names report an
    /// error.
    pub fn check_dependency(&self, name: &str, probe: &OllamaProbe) -> (r: Result<
        DependencyStatus,
        CyxError,
    >)
        ensures
            name@ == "SQLite"@ ==> r is Ok,
            name@ == "Ollama"@ ==> r is Ok,
            (name@ != "SQLite"@ && name@ != "Ollama"@) ==> r is Err,
    {
        if crate::chars::str_eq(name, "SQLite") {
            Ok(sqlite_status())
        } else if crate::chars::str_eq(name, "Ollama") {
            Ok(evaluate_ollama_probe(probe))
        } else {
            Err(CyxError::new("unknown dependency".to_owned()))
        }
    }
}

} // verus!
