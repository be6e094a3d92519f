//! Local recovery of unsaved changes.
//!
//! Copies live outside the document and do not replace saving. They hold
//! unencrypted text under the user's profile, so they are made only for an
//! active edit and removed after a confirmed save. Reading and writing the
//! files is the caller's; here are the names and the choices.
use vstd::prelude::*;
use crate::strings::{decimal, decimal_text, ends_with, starts_with};

verus! {

/// Recovery copies older than this are removed at the next start.
pub const RETENTION_SECS: u64 = 1_209_600;

/// The marker left once the privacy notice was shown.
pub const PRIVACY_NOTICE_FILE: &'static str = "privacy-notice-v1";

pub open spec fn is_session_name(name: Seq<char>) -> bool {
    &&& "session-"@.len() <= name.len()
    &&& name.take("session-"@.len() as int) == "session-"@
    &&& ".md"@.len() <= name.len()
    &&& name.skip(name.len() - ".md"@.len()) == ".md"@
}

/// Whether a file name is one of the recovery copies this program writes.
pub fn is_session_file_name(name: &str) -> (b: bool)
    ensures
        b == is_session_name(name@),
{
    starts_with(name, "session-") && ends_with(name, ".md")
}

pub open spec fn session_name_text(process: u32, suffix: u128) -> Seq<char> {
    "session-"@ + decimal_text(process as nat) + "-"@ + decimal_text(suffix as nat) + ".md"@
}

/// The name of this session's recovery copy, from the process id and a
/// unique suffix.
pub fn session_file_name(process: u32, suffix: u128) -> (r: String)
    ensures
        r@ == session_name_text(process, suffix),
{
    let mut name = String::from_str("session-");
    name.append(decimal(process as u128).as_str());
    name.append("-");
    name.append(decimal(suffix).as_str());
    name.append(".md");
    name
}

/// Whether an age, in seconds and nanoseconds, exceeds the retention period.
pub open spec fn older_than_retention(secs: u64, nanos: u32) -> bool {
    secs > RETENTION_SECS || (secs == RETENTION_SECS && nanos > 0)
}

/// Whether a directory entry is an old recovery copy to remove: only plain
/// files (never links) with a session name, older than the retention period.
pub fn is_stale_session(name: &str, is_file: bool, is_symlink: bool, age: Option<(u64, u32)>) -> (b: bool)
    ensures
        b == (is_session_name(name@) && is_file && !is_symlink && (age matches Some((s, n))
            && older_than_retention(s, n))),
{
    if !is_session_file_name(name) || !is_file || is_symlink {
        return false;
    }
    match age {
        Some((secs, nanos)) => secs > RETENTION_SECS || (secs == RETENTION_SECS && nanos > 0),
        None => false,
    }
}

/// A directory entry offered as a recovery copy.
#[derive(Clone, Debug)]
pub struct SessionCandidate {
    pub name: String,
    pub is_file: bool,
    pub byte_len: u64,
    /// Modification time in nanoseconds since the Unix epoch, when known.
    pub modified: Option<u128>,
}

pub open spec fn eligible(c: SessionCandidate, limit: u64) -> bool {
    c.is_file && is_session_name(c.name@) && c.byte_len <= limit
}

/// Order of modification times: unknown first.
pub open spec fn time_le(a: Option<u128>, b: Option<u128>) -> bool {
    match (a, b) {
        (None, _) => true,
        (Some(_), None) => false,
        (Some(x), Some(y)) => x <= y,
    }
}

/// The candidate to restore among the first `n`: the most recently modified
/// eligible one, the later in the list on a tie.
pub open spec fn latest_among(cs: Seq<SessionCandidate>, limit: u64, n: nat) -> Option<int>
    decreases n,
{
    if n == 0 {
        None
    } else {
        let best = latest_among(cs, limit, (n - 1) as nat);
        if !eligible(cs[n - 1], limit) {
            best
        } else {
            match best {
                None => Some(n - 1),
                Some(b) => if time_le(cs[b].modified, cs[n - 1].modified) {
                    Some(n - 1)
                } else {
                    best
                },
            }
        }
    }
}

proof fn lemma_latest_among(cs: Seq<SessionCandidate>, limit: u64, n: nat)
    requires
        n <= cs.len(),
    ensures
        latest_among(cs, limit, n) matches Some(b) ==> 0 <= b < n,
    decreases n,
{
    if n > 0 {
        lemma_latest_among(cs, limit, (n - 1) as nat);
    }
}

/// Which recovery copy an explicit restore reads, if any: a regular file
/// with a session name within the opening limit, the most recent one.
pub fn latest_session(candidates: &[SessionCandidate], limit: u64) -> (r: Option<usize>)
    ensures
        match r {
            Some(i) => latest_among(candidates@, limit, candidates@.len()) == Some(i as int),
            None => latest_among(candidates@, limit, candidates@.len()) is None,
        },
{
    let mut best: Option<usize> = None;
    let mut i: usize = 0;
    while i < candidates.len()
        invariant
            i <= candidates@.len(),
            match best {
                Some(b) => latest_among(candidates@, limit, i as nat) == Some(b as int),
                None => latest_among(candidates@, limit, i as nat) is None,
            },
        decreases candidates@.len() - i,
    {
        proof {
            lemma_latest_among(candidates@, limit, i as nat);
        }
        let c = &candidates[i];
        if c.is_file && is_session_file_name(c.name.as_str()) && c.byte_len <= limit {
            best = match best {
                None => Some(i),
                Some(b) => {
                    let later = match (candidates[b].modified, c.modified) {
                        (None, _) => true,
                        (Some(_), None) => false,
                        (Some(x), Some(y)) => x <= y,
                    };
                    if later {
                        Some(i)
                    } else {
                        Some(b)
                    }
                },
            };
        }
        i = i + 1;
    }
    best
}

/// The recovery copy this program names is recognised as one of its own.
pub proof fn lemma_session_name_recognised(process: u32, suffix: u128)
    ensures
        is_session_name(session_name_text(process, suffix)),
{
    reveal_strlit("session-");
    reveal_strlit(".md");
    let name = session_name_text(process, suffix);
    let head = "session-"@;
    let tail = ".md"@;
    let middle = decimal_text(process as nat) + "-"@ + decimal_text(suffix as nat);
    assert(name =~= head + middle + tail);
    assert(name.take(head.len() as int) =~= head);
    assert(name.skip(name.len() - tail.len()) =~= tail);
}

} // verus!
