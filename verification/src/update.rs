//! Update checking: version ordering and the decision of when a new
//! check is due.  Fetching the latest release number is network work and
//! happens outside this crate; the decisions here take plain values.

use vstd::prelude::*;

verus! {

/// A release version as its three numeric parts.
#[derive(Debug, Clone, PartialEq, Eq, Structural)]
pub struct Version {
    pub major: u64,
    pub minor: u64,
    pub patch: u64,
}

/// Strict precedence of numeric versions, most significant part first.
pub open spec fn version_lt(a: Version, b: Version) -> bool {
    a.major < b.major || (a.major == b.major && (a.minor < b.minor || (a.minor == b.minor
        && a.patch < b.patch)))
}

/// Whether `b` is a strictly newer release than `a`.
pub fn version_newer(a: &Version, b: &Version) -> (r: bool)
    ensures
        r == version_lt(*a, *b),
{
    if b.major != a.major {
        b.major > a.major
    } else if b.minor != a.minor {
        b.minor > a.minor
    } else {
        b.patch > a.patch
    }
}

/// The outcome of an update check.
#[derive(Debug, Clone)]
pub struct UpdateInfo {
    pub current_version: Version,
    pub latest_version: Version,
    pub needs_update: bool,
}

impl UpdateInfo {
    /// Pairs the two versions and decides whether an update is due.
    pub fn new(current_version: Version, latest_version: Version) -> (r: UpdateInfo)
        ensures
            r.current_version == current_version,
            r.latest_version == latest_version,
            r.needs_update == version_lt(current_version, latest_version),
    {
        let needs_update = version_newer(&current_version, &latest_version);
        UpdateInfo { current_version, latest_version, needs_update }
    }
}

/// How long a previous check stays fresh, in seconds: one day.
pub const CHECK_INTERVAL_SECONDS: i64 = 86400;

/// Whether enough time has passed since the last check: always when none
/// was recorded, otherwise when strictly more than a day has elapsed.
/// Times are seconds since the epoch.
pub fn should_check_now(last_check: Option<i64>, now: i64) -> (r: bool)
    ensures
        r == match last_check {
            None => true,
            Some(t) => (if now >= t {
                now - t
            } else {
                0int
            }) > CHECK_INTERVAL_SECONDS,
        },
{
    match last_check {
        None => true,
        Some(t) => {
            if now < t {
                false
            } else if now >= 0 && t < 0 {
                // elapsed = now - t cannot overflow only when within range;
                // widen through i128 to stay exact
                let elapsed: i128 = (now as i128) - (t as i128);
                elapsed > (CHECK_INTERVAL_SECONDS as i128)
            } else {
                (now - t) > CHECK_INTERVAL_SECONDS
            }
        },
    }
}

/// When updates were last checked and last applied, as epoch seconds;
/// loading and saving this record is the caller's concern.
#[derive(Debug, Clone)]
pub struct UpdateMetadata {
    pub last_check: Option<i64>,
    pub last_update: Option<i64>,
}

impl UpdateMetadata {
    /// A record with no check and no update on file.
    pub fn new() -> (r: UpdateMetadata)
        ensures
            r.last_check is None,
            r.last_update is None,
    {
        UpdateMetadata { last_check: None, last_update: None }
    }

    /// Records that a check happened at time `now`.
    pub fn update_last_check(&mut self, now: i64)
        ensures
            final(self).last_check == Some(now),
            final(self).last_update == old(self).last_update,
    {
        self.last_check = Some(now);
    }

    /// Records that an update happened at time `now`.
    pub fn update_last_update(&mut self, now: i64)
        ensures
            final(self).last_update == Some(now),
            final(self).last_check == old(self).last_check,
    {
        self.last_update = Some(now);
    }
}

} // verus!
