//! The decision core of the external reader's supervisor.
//!
//! The runtime around the library spawns the reader binary, streams its
//! standard output line by line, and hands every line to a [`UidFilter`];
//! whatever the filter returns is published on the event bus.  The filter
//! applies the line pattern match and the debounce policy: requiring two
//! consecutive identical matched lines suppresses the single-frame
//! misreads common to the underlying hardware.

use vstd::prelude::*;

use crate::parser::{parse_line, uid_line_matches};

verus! {

/// Whether repeated confirmation is required before a read is emitted.
#[derive(Debug, Clone, Copy, PartialEq, Eq, Structural)]
pub enum DebouncePolicy {
    /// Every matched line emits its identifier at once.
    Immediate,
    /// An identifier is emitted only when two consecutive matched lines
    /// carry it, suppressing single-frame misreads.
    ConfirmTwice,
}

/// The line-by-line state of the reader supervisor: the debounce policy
/// and the identifier of the most recent matched line.
pub struct UidFilter {
    policy: DebouncePolicy,
    last: Option<String>,
}

impl UidFilter {
    /// The configured debounce policy.
    pub closed spec fn policy_spec(&self) -> DebouncePolicy {
        self.policy
    }

    /// The identifier of the most recent matched line, if any.
    pub closed spec fn last_spec(&self) -> Option<Seq<char>> {
        match self.last {
            Some(s) => Some(s@),
            None => None,
        }
    }

    /// A fresh filter under the given policy; no line seen yet.
    pub fn new(policy: DebouncePolicy) -> (r: Self)
        ensures
            r.policy_spec() == policy,
            r.last_spec() is None,
    {
        UidFilter { policy, last: None }
    }

    /// Consumes one line of reader output and returns the identifier to
    /// emit, if any.  An unmatched line is ignored.  A matched line
    /// becomes the remembered last read; it is emitted at once under
    /// [`DebouncePolicy::Immediate`], and only when it equals the previous
    /// matched line under [`DebouncePolicy::ConfirmTwice`].
    pub fn on_line(&mut self, line: &str) -> (r: Option<String>)
        ensures
            final(self).policy_spec() == old(self).policy_spec(),
            !uid_line_matches(line@) ==> r is None && final(self).last_spec() == old(
                self,
            ).last_spec(),
            uid_line_matches(line@) ==> final(self).last_spec() == Some(
                line@.subrange(12, line@.len() as int),
            ),
            uid_line_matches(line@) ==> (r is Some <==> (old(self).policy_spec() is Immediate
                || old(self).last_spec() == Some(line@.subrange(12, line@.len() as int)))),
            r matches Some(u) ==> u@ == line@.subrange(12, line@.len() as int),
    {
        match parse_line(line) {
            None => None,
            Some(uid) => {
                let emit: bool = match self.policy {
                    DebouncePolicy::Immediate => true,
                    DebouncePolicy::ConfirmTwice => match &self.last {
                        Some(prev) => prev.eq(&uid),
                        None => false,
                    },
                };
                let result: Option<String> = if emit {
                    Some(uid.clone())
                } else {
                    None
                };
                self.last = Some(uid);
                result
            },
        }
    }
}

} // verus!
