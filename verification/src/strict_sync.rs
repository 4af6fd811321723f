//! The policy for strict synchronous completion, fixed at startup.
use crate::lines::{is_white, white};
use crate::refusal::{refuse, seen, Refusal};
use crate::text::{chars_of, same_text};
use vstd::prelude::*;

verus! {

/// When a setting may be changed.
#[derive(Clone, Copy, Debug, PartialEq, Eq, Structural)]
pub enum Context {
    Internal,
    Postmaster,
    Sighup,
    SuBackend,
    Backend,
    SuSet,
    UserSet,
}

/// What a commit waits for.
#[derive(Clone, Copy, Debug, PartialEq, Eq, Structural)]
pub enum CommitLevel {
    Off,
    LocalFlush,
    RemoteWrite,
    RemoteFlush,
    RemoteApply,
}

/// A setting that strict completion fixes at startup.
pub open spec fn is_fixed(name: Seq<char>) -> bool {
    name == "synchronous_commit"@ || name == "synchronous_standby_names"@ || name == "fsync"@
        || name == "restart_after_crash"@
}

/// When the setting `name` may be changed, which without strict completion is `ordinary`.
pub fn context(strict: bool, name: &str, ordinary: Context) -> (r: Context)
    ensures
        r == (if strict && is_fixed(name@) {
            Context::Postmaster
        } else {
            ordinary
        }),
{
    if strict && (same_text(name, "synchronous_commit") || same_text(
        name,
        "synchronous_standby_names",
    ) || same_text(name, "fsync") || same_text(name, "restart_after_crash")) {
        Context::Postmaster
    } else {
        ordinary
    }
}

/// The settings that strict completion depends on, where they are known.
pub struct Settings {
    pub fsync: Option<bool>,
    pub restart_after_crash: Option<bool>,
    pub synchronous_commit: Option<CommitLevel>,
    pub synchronous_standby_names: Option<String>,
    pub max_wal_senders: Option<i32>,
}

/// White space only.
pub open spec fn is_blank(s: Seq<char>) -> bool {
    forall|i: int| 0 <= i < s.len() ==> white(#[trigger] s[i])
}

/// White space only.
pub fn blank(s: &str) -> (r: bool)
    ensures
        r == is_blank(s@),
{
    let cs = chars_of(s);
    let mut i: usize = 0;
    while i < cs.len()
        invariant
            i <= cs@.len(),
            cs@ == s@,
            forall|j: int| 0 <= j < i ==> white(#[trigger] cs@[j]),
        decreases cs@.len() - i,
    {
        if !is_white(cs[i]) {
            return false;
        }
        i += 1;
    }
    true
}

impl Settings {
    /// No standby is named.
    pub open spec fn no_standbys(&self) -> bool {
        match self.synchronous_standby_names {
            None => true,
            Some(s) => is_blank(s@),
        }
    }

    /// Strict completion can be had: everything reaches the disk, a crash is not papered over,
    /// and commits wait either for the object store alone or for standbys.
    pub open spec fn complete(&self, object: bool) -> bool {
        &&& self.fsync == Some(true)
        &&& self.restart_after_crash == Some(false)
        &&& if object {
            self.synchronous_commit == Some(CommitLevel::RemoteFlush) && self.no_standbys()
        } else {
            &&& self.synchronous_commit == Some(CommitLevel::RemoteFlush)
                || self.synchronous_commit == Some(CommitLevel::RemoteApply)
            &&& self.max_wal_senders matches Some(n) && n > 0
            &&& !self.no_standbys()
        }
    }

    /// Checks the settings at startup. `true` where strict completion is on and the settings
    /// it depends on are to be fixed.
    pub fn configure(&self, strict: bool, object: bool) -> (r: Result<bool, Refusal>)
        ensures
            seen(r) == (if !strict {
                Ok(false)
            } else if self.complete(object) {
                Ok(true)
            } else {
                Err("invalid configuration for pgrust.strict_synchronous_commit"@)
            }),
    {
        if !strict {
            return Ok(false);
        }
        let durable: bool = match self.fsync {
            Some(b) => b,
            None => false,
        };
        let stays_down: bool = match self.restart_after_crash {
            Some(b) => !b,
            None => false,
        };
        let (flush, apply) = match self.synchronous_commit {
            Some(CommitLevel::RemoteFlush) => (true, false),
            Some(CommitLevel::RemoteApply) => (false, true),
            _ => (false, false),
        };
        let alone: bool = match &self.synchronous_standby_names {
            None => true,
            Some(s) => blank(s.as_str()),
        };
        let senders: bool = match self.max_wal_senders {
            Some(n) => n > 0,
            None => false,
        };
        let valid: bool = durable && stays_down && (if object {
            flush && alone
        } else {
            (flush || apply) && senders && !alone
        });
        if !valid {
            return Err(refuse("invalid configuration for pgrust.strict_synchronous_commit"));
        }
        Ok(true)
    }
}

} // verus!
