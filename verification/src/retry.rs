//! Bounded retry with backoff, for backends that fail for the moment.
//!
//! Only this layer retries. An operation is tried again while it fails
//! with `BackendTransient` and attempts are left; the wait between two
//! attempts doubles each time, up to a cap.

use crate::backend::{Backend, Objects};
use crate::error::{Error, ErrorKind, FileType};
use crate::id::Id;
use vstd::prelude::*;

verus! {

/// How often an operation is tried, and how long the waits are.
#[derive(Clone, Copy, Debug, PartialEq, Eq, Structural)]
pub struct Backoff {
    /// Milliseconds before the second attempt.
    pub base_ms: u64,
    /// The longest wait, in milliseconds.
    pub cap_ms: u64,
    /// Attempts in all; an operation is tried once in any case.
    pub attempts: u32,
}

/// The wait after `failures` failed attempts: the base doubled for each
/// failure after the first, and never more than the cap.
pub open spec fn spec_delay(base_ms: u64, cap_ms: u64, failures: nat) -> u64
    decreases failures,
{
    if failures <= 1 {
        if base_ms < cap_ms {
            base_ms
        } else {
            cap_ms
        }
    } else {
        let before = spec_delay(base_ms, cap_ms, (failures - 1) as nat);
        if 2 * before < cap_ms {
            (2 * before) as u64
        } else {
            cap_ms
        }
    }
}

impl Backoff {
    /// Three attempts, with waits of a quarter and of half a second.
    pub fn standard() -> (b: Backoff)
        ensures
            b == (Backoff { base_ms: 250, cap_ms: 10_000, attempts: 3 }),
    {
        Backoff { base_ms: 250, cap_ms: 10_000, attempts: 3 }
    }

    /// What follows the failure that makes `failures` failed attempts:
    /// the wait before another attempt, where the failure is for the
    /// moment and attempts are left, and no other attempt otherwise.
    pub open spec fn spec_next(self, kind: ErrorKind, failures: nat) -> Option<u64> {
        if kind == ErrorKind::BackendTransient && failures < self.attempts {
            Some(spec_delay(self.base_ms, self.cap_ms, failures))
        } else {
            None
        }
    }

    /// Decides what follows a failure: the milliseconds to wait before
    /// another attempt, or `None` where the failure stands.
    pub fn next(&self, e: &Error, failures: u32) -> (r: Option<u64>)
        ensures
            r == self.spec_next(e.kind, failures as nat),
    {
        if e.is_transient() && failures < self.attempts {
            Some(self.delay(failures))
        } else {
            None
        }
    }

    /// The wait in milliseconds after `failures` failed attempts.
    pub fn delay(&self, failures: u32) -> (ms: u64)
        ensures
            ms == spec_delay(self.base_ms, self.cap_ms, failures as nat),
            ms <= self.cap_ms,
    {
        let first: u64 = if self.base_ms < self.cap_ms {
            self.base_ms
        } else {
            self.cap_ms
        };
        if failures <= 1 {
            return first;
        }
        let mut ms: u64 = first;
        let mut n: u32 = 1;
        while n < failures
            invariant
                1 <= n <= failures,
                ms == spec_delay(self.base_ms, self.cap_ms, n as nat),
                ms <= self.cap_ms,
            decreases failures - n,
        {
            let ghost before = ms;
            ms = if ms < self.cap_ms - ms {
                2 * ms
            } else {
                self.cap_ms
            };
            n += 1;
            assert(spec_delay(self.base_ms, self.cap_ms, n as nat) == (if 2 * before
                < self.cap_ms {
                (2 * before) as u64
            } else {
                self.cap_ms
            }));
        }
        ms
    }
}

/// A way to let time pass.
pub trait Pause {
    /// Waits for the given number of milliseconds.
    fn pause(&self, millis: u64);
}

/// Does not wait at all.
#[derive(Clone, Copy, Debug)]
pub struct NoPause;

impl Pause for NoPause {
    fn pause(&self, millis: u64) {
    }
}

/// A backend whose operations are tried again where they fail for the
/// moment.
pub struct Retrying<B: Backend, P: Pause> {
    pub inner: B,
    pub policy: Backoff,
    pub pause: P,
}

impl<B: Backend, P: Pause> Retrying<B, P> {
    /// Wraps a backend.
    pub fn new(inner: B, policy: Backoff, pause: P) -> (r: Retrying<B, P>)
        requires
            inner.inv(),
        ensures
            r.inv(),
            r.objects() == inner.objects(),
            r.reliable() == inner.reliable(),
    {
        Retrying { inner, policy, pause }
    }

    /// Whether a failure is followed by another attempt: it is where the
    /// failure is for the moment and attempts are left. Waits if it is.
    fn again(&self, e: &Error, failures: u32) -> (r: bool)
        ensures
            r == (e.kind == ErrorKind::BackendTransient && failures < self.policy.attempts),
    {
        match self.policy.next(e, failures) {
            Some(millis) => {
                self.pause.pause(millis);
                true
            },
            None => false,
        }
    }
}

impl<B: Backend, P: Pause> Backend for Retrying<B, P> {
    open spec fn objects(&self) -> Objects {
        self.inner.objects()
    }

    open spec fn reliable(&self) -> bool {
        self.inner.reliable()
    }

    open spec fn inv(&self) -> bool {
        self.inner.inv()
    }

    fn list(&self, file_type: FileType) -> (r: Result<Vec<Id>, Error>) {
        let mut failures: u32 = 0;
        loop
            invariant
                self.inv(),
                failures <= self.policy.attempts || failures == 0,
            decreases self.policy.attempts - failures,
        {
            match self.inner.list(file_type) {
                Ok(ids) => {
                    return Ok(ids);
                },
                Err(e) => {
                    if failures == u32::MAX {
                        return Err(e);
                    }
                    failures += 1;
                    if !self.again(&e, failures) {
                        return Err(e);
                    }
                },
            }
        }
    }

    fn size(&self, file_type: FileType, id: &Id) -> (r: Result<u64, Error>) {
        let mut failures: u32 = 0;
        loop
            invariant
                self.inv(),
                failures <= self.policy.attempts || failures == 0,
            decreases self.policy.attempts - failures,
        {
            match self.inner.size(file_type, id) {
                Ok(n) => {
                    return Ok(n);
                },
                Err(e) => {
                    if failures == u32::MAX {
                        return Err(e);
                    }
                    failures += 1;
                    if !self.again(&e, failures) {
                        return Err(e);
                    }
                },
            }
        }
    }

    fn read_all(&self, file_type: FileType, id: &Id) -> (r: Result<Vec<u8>, Error>) {
        let mut failures: u32 = 0;
        loop
            invariant
                self.inv(),
                failures <= self.policy.attempts || failures == 0,
            decreases self.policy.attempts - failures,
        {
            match self.inner.read_all(file_type, id) {
                Ok(d) => {
                    return Ok(d);
                },
                Err(e) => {
                    if failures == u32::MAX {
                        return Err(e);
                    }
                    failures += 1;
                    if !self.again(&e, failures) {
                        return Err(e);
                    }
                },
            }
        }
    }

    fn read(&self, file_type: FileType, id: &Id, offset: u64, length: u64) -> (r: Result<
        Vec<u8>,
        Error,
    >) {
        let mut failures: u32 = 0;
        loop
            invariant
                self.inv(),
                failures <= self.policy.attempts || failures == 0,
            decreases self.policy.attempts - failures,
        {
            match self.inner.read(file_type, id, offset, length) {
                Ok(d) => {
                    return Ok(d);
                },
                Err(e) => {
                    if failures == u32::MAX {
                        return Err(e);
                    }
                    failures += 1;
                    if !self.again(&e, failures) {
                        return Err(e);
                    }
                },
            }
        }
    }

    fn write(&mut self, file_type: FileType, id: &Id, data: &[u8]) -> (r: Result<(), Error>) {
        let mut failures: u32 = 0;
        loop
            invariant
                self.inv(),
                self.objects() == old(self).objects(),
                self.reliable() == old(self).reliable(),
                failures <= self.policy.attempts || failures == 0,
            decreases self.policy.attempts - failures,
        {
            match self.inner.write(file_type, id, data) {
                Ok(()) => {
                    return Ok(());
                },
                Err(e) => {
                    if failures == u32::MAX {
                        return Err(e);
                    }
                    failures += 1;
                    if !self.again(&e, failures) {
                        return Err(e);
                    }
                },
            }
        }
    }

    fn remove(&mut self, file_type: FileType, id: &Id) -> (r: Result<(), Error>) {
        let mut failures: u32 = 0;
        loop
            invariant
                self.inv(),
                self.objects() == old(self).objects(),
                self.reliable() == old(self).reliable(),
                failures <= self.policy.attempts || failures == 0,
            decreases self.policy.attempts - failures,
        {
            match self.inner.remove(file_type, id) {
                Ok(()) => {
                    return Ok(());
                },
                Err(e) => {
                    if failures == u32::MAX {
                        return Err(e);
                    }
                    failures += 1;
                    if !self.again(&e, failures) {
                        return Err(e);
                    }
                },
            }
        }
    }
}

} // verus!
