//! A key table that knows when it goes stale.
use vstd::prelude::*;

use crate::fetch::{headers_spec, Instant};
use crate::keys::{extend_outcome, id_hashes, FetchExtendError, ValidateError};
use crate::parse::pairs_of;

verus! {

/// Error when validating a token through the cache.
#[derive(Debug)]
pub enum Error {
    /// The keys could not be refreshed.
    FetchExtend(FetchExtendError),
    /// The keys were fresh, but the token is not valid.
    Validate(ValidateError),
}

/// A key table together with the instant at which its keys go stale.
pub struct Keys<I> {
    pub keys: crate::keys::Keys,
    expiration: Option<I>,
}

impl<I: Instant> Default for Keys<I> {
    fn default() -> (r: Self)
        ensures
            r.wf(),
            r.table() == Seq::<u64>::empty(),
            r.deadline() is None,
    {
        Self::new()
    }
}

impl<I: Instant> Keys<I> {
    /// The instant at which the keys go stale, once the table has been filled.
    pub closed spec fn deadline(&self) -> Option<I> {
        self.expiration
    }

    /// Well-formedness of the table.
    pub closed spec fn wf(&self) -> bool {
        self.keys.wf()
    }

    /// The id hashes of the table's keys.
    pub closed spec fn table(&self) -> Seq<u64> {
        self.keys@
    }

    /// Whether the keys may still be used at `now`: the table holds keys and `now` comes
    /// before the deadline.
    pub open spec fn fresh_at(&self, now: I) -> bool {
        &&& self.table().len() > 0
        &&& self.deadline() is Some
        &&& now.precedes(self.deadline()->0)
    }

    /// New empty cache, stale until filled.
    pub fn new() -> (r: Self)
        ensures
            r.wf(),
            r.table() == Seq::<u64>::empty(),
            r.deadline() is None,
    {
        Keys { keys: crate::keys::Keys::new(), expiration: None }
    }

    /// Whether the cache is fresh at `now`.
    pub fn is_valid_at(&self, now: &I) -> (r: bool)
        ensures
            r == self.fresh_at(*now),
    {
        if self.keys.is_empty() {
            return false;
        }
        match &self.expiration {
            Some(deadline) => now.is_before(deadline),
            None => false,
        }
    }

    /// Whether the cache is fresh now.
    pub fn is_valid(&self) -> (r: bool)
        ensures
            r ==> self.table().len() > 0 && self.deadline() is Some,
    {
        let now = I::now();
        self.is_valid_at(&now)
    }

    /// Refills the cache from a fetched response, received at `now`.
    ///
    /// The table is cleared first; on any failure it is left empty and the cache stale, so the
    /// next call starts over. On success the deadline is `now` plus the response's remaining
    /// freshness, and the result says whether every key found room.
    pub fn refresh(&mut self, response: &mut [u8], now: I) -> (r: Result<bool, Error>)
        ensures
            final(self).wf(),
            r is Err ==> final(self).table().len() == 0 && final(self).deadline() is None,
            match headers_spec(old(response)@) {
                Err(_) => r matches Err(Error::FetchExtend(FetchExtendError::HttpProcess(_))),
                Ok((age, b)) => {
                    let ps = pairs_of(old(response)@.skip(b as int));
                    let out = extend_outcome(0, ps);
                    match out.0 {
                        None => r matches Err(Error::FetchExtend(FetchExtendError::Jwt(_))),
                        Some(all) => {
                            &&& (r matches Ok(a) && a == all)
                            &&& final(self).table() == id_hashes(ps.take(out.1 as int))
                            &&& final(self).deadline() == Some(now.later(age.remaining_spec()))
                        },
                    }
                },
            },
    {
        self.keys.clear();
        self.expiration = None;
        match self.keys.extend_response(response) {
            Ok((all, age)) => {
                self.expiration = Some(age.expiration(now));
                Ok(all)
            },
            Err(e) => {
                self.keys.clear();
                Err(Error::FetchExtend(e))
            },
        }
    }
}

} // verus!
