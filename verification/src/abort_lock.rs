use std::sync::Arc;
use std::sync::atomic::AtomicBool;
use vstd::prelude::*;

verus! {

/// A token by which a caller withdraws a request while a search runs.
///
/// The token is raised for good by `abort`. It may also watch a flag that it
/// shares with another thread: the search then stops as soon as it finds
/// that flag set, and nothing is known beforehand of when that happens.
#[derive(Clone, Debug)]
pub struct AbortLock {
    raised: bool,
    signal: Option<Arc<AtomicBool>>,
}

impl AbortLock {
    /// The token was raised through this handle.
    pub closed spec fn is_set(&self) -> bool {
        self.raised
    }

    /// The token watches no shared flag, so only `abort` raises it.
    pub closed spec fn is_local(&self) -> bool {
        self.signal is None
    }

    /// A fresh token that is not raised and watches no shared flag.
    pub fn prepare() -> (r: AbortLock)
        ensures
            !r.is_set(),
            r.is_local(),
    {
        AbortLock { raised: false, signal: None }
    }

    /// A fresh token that is not raised and watches `signal`.
    pub fn watching(signal: Arc<AtomicBool>) -> (r: AbortLock)
        ensures
            !r.is_set(),
            !r.is_local(),
    {
        AbortLock { raised: false, signal: Some(signal) }
    }

    /// Raises the token, and sets the flag that it watches.
    pub fn abort(&mut self)
        ensures
            final(self).is_set(),
            final(self).is_local() == old(self).is_local(),
    {
        self.raised = true;
        match &self.signal {
            Some(flag) => {
                flag.store(true, std::sync::atomic::Ordering::SeqCst);
            },
            None => {},
        }
    }

    /// Whether the request was withdrawn: the token was raised, or the flag
    /// that it watches is found set.
    pub fn is_aborted(&self) -> (r: bool)
        ensures
            self.is_set() ==> r,
            self.is_local() ==> r == self.is_set(),
    {
        if self.raised {
            true
        } else {
            match &self.signal {
                Some(flag) => flag.load(std::sync::atomic::Ordering::SeqCst),
                None => false,
            }
        }
    }
}

} // verus!
