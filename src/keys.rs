//! A bounded table of verification keys, looked up by the hash of their key id.
use std::collections::hash_map::DefaultHasher;
use std::hash::Hasher;
use jsonwebtoken::errors::Error as JwtError;
use vstd::prelude::*;
use vstd::std_specs::hash::DefaultHasherAdditionalSpecFns;
use vstd::string::StringSliceAdditionalSpecFns;

use crate::fetch::{headers_spec, process_headers, Age, ErrorFetch, ErrorProcess};
use crate::parse::{pairs_of, Parse};

verus! {

/// How many keys the table holds at most: the provider's usual rotation count, plus slack.
pub const KEYS_CAPACITY: usize = 4;

/// Declares the key type of jsonwebtoken.
#[verifier::external_type_specification]
#[verifier::external_body]
pub struct ExDecodingKey(jsonwebtoken::DecodingKey);

/// Declares the error type of jsonwebtoken.
#[verifier::external_type_specification]
#[verifier::external_body]
pub struct ExJwtError(JwtError);

/// The hash under which a key id is stored.
pub open spec fn id_hash(id: Seq<u8>) -> u64 {
    DefaultHasher::spec_finish(seq![id])
}

/// Hashes a key id.
pub fn hash(id: &[u8]) -> (r: u64)
    ensures
        r == id_hash(id@),
{
    let mut hasher = DefaultHasher::new();
    hasher.write(id);
    hasher.finish()
}

/// Whether jsonwebtoken reads `pem` as an RSA key.
pub uninterp spec fn rsa_pem_valid(pem: Seq<u8>) -> bool;

/// Relies on jsonwebtoken::DecodingKey::from_rsa_pem: it succeeds or fails depending on
/// the bytes of the key alone.
#[verifier::external_body]
fn decoding_key_from_rsa_pem(pem: &[u8]) -> (r: Result<jsonwebtoken::DecodingKey, JwtError>)
    ensures
        r is Ok == rsa_pem_valid(pem@),
{
    jsonwebtoken::DecodingKey::from_rsa_pem(pem)
}

/// The hashes of the ids of `pairs`, in order.
pub open spec fn id_hashes(pairs: Seq<(Seq<u8>, Seq<u8>)>) -> Seq<u64> {
    pairs.map_values(|p: (Seq<u8>, Seq<u8>)| id_hash(p.0))
}

/// How many leading pairs of `pairs` hold a key that parses.
pub open spec fn valid_prefix(pairs: Seq<(Seq<u8>, Seq<u8>)>) -> nat
    decreases pairs.len(),
{
    if pairs.len() > 0 && rsa_pem_valid(pairs[0].1) {
        1 + valid_prefix(pairs.skip(1))
    } else {
        0
    }
}

/// What extending a table of `len` keys with `pairs` gives: `None` when a key fails to
/// parse, else whether every pair found room; and how many pairs were inserted.
pub open spec fn extend_outcome(len: nat, pairs: Seq<(Seq<u8>, Seq<u8>)>) -> (Option<bool>, nat) {
    let room = if len <= KEYS_CAPACITY { (KEYS_CAPACITY - len) as nat } else { 0 };
    let tried = if pairs.len() <= room { pairs.len() } else { room };
    if valid_prefix(pairs) < tried {
        (None, valid_prefix(pairs))
    } else if pairs.len() <= room {
        (Some(true), pairs.len())
    } else {
        (Some(false), room)
    }
}

proof fn lemma_valid_prefix(pairs: Seq<(Seq<u8>, Seq<u8>)>)
    ensures
        valid_prefix(pairs) <= pairs.len(),
        forall|j: int| 0 <= j < valid_prefix(pairs) ==> rsa_pem_valid(#[trigger] pairs[j].1),
        valid_prefix(pairs) < pairs.len() ==> !rsa_pem_valid(pairs[valid_prefix(pairs) as int].1),
    decreases pairs.len(),
{
    if pairs.len() > 0 && rsa_pem_valid(pairs[0].1) {
        let rest = pairs.skip(1);
        lemma_valid_prefix(rest);
        assert forall|j: int| 0 <= j < valid_prefix(pairs) implies rsa_pem_valid(#[trigger] pairs[j].1) by {
            if j > 0 {
                assert(pairs[j] == rest[j - 1]);
            }
        }
        if valid_prefix(pairs) < pairs.len() {
            assert(pairs[valid_prefix(pairs) as int] == rest[valid_prefix(rest) as int]);
        }
    }
}

/// The first index at or after `i` where `ids` holds `h`, or -1.
pub open spec fn position_from(ids: Seq<u64>, h: u64, i: int) -> int
    decreases ids.len() - i,
{
    if i < 0 || i >= ids.len() {
        -1
    } else if ids[i] == h {
        i
    } else {
        position_from(ids, h, i + 1)
    }
}

/// The first index where `ids` holds `h`, or -1.
pub open spec fn position(ids: Seq<u64>, h: u64) -> int {
    position_from(ids, h, 0)
}

proof fn lemma_position_from(ids: Seq<u64>, h: u64, i: int)
    requires
        0 <= i,
    ensures
        position_from(ids, h, i) == -1 || (i <= position_from(ids, h, i) < ids.len() && ids[position_from(ids, h, i)] == h),
        position_from(ids, h, i) == -1 ==> forall|j: int| i <= j < ids.len() ==> ids[j] != h,
    decreases ids.len() - i,
{
    if i < ids.len() && ids[i] != h {
        lemma_position_from(ids, h, i + 1);
    }
}

/// A table of at most `KEYS_CAPACITY` keys, each under the hash of its key id.
pub struct Keys {
    id: Vec<u64>,
    key: Vec<jsonwebtoken::DecodingKey>,
}

impl View for Keys {
    type V = Seq<u64>;

    /// The hashes of the key ids, in insertion order.
    closed spec fn view(&self) -> Seq<u64> {
        self.id@
    }
}

impl Keys {
    /// Well-formedness: one key per id hash, within capacity.
    pub closed spec fn wf(&self) -> bool {
        &&& self.id@.len() == self.key@.len()
        &&& self.id@.len() <= KEYS_CAPACITY
    }

    /// The keys, in insertion order, each beside its id hash in the view.
    pub closed spec fn keys(&self) -> Seq<jsonwebtoken::DecodingKey> {
        self.key@
    }

    /// New empty table.
    pub fn new() -> (r: Self)
        ensures
            r.wf(),
            r@ == Seq::<u64>::empty(),
    {
        Keys { id: Vec::new(), key: Vec::new() }
    }

    /// Gets the count of keys.
    pub fn len(&self) -> (r: usize)
        requires
            self.wf(),
        ensures
            r == self@.len(),
            r <= KEYS_CAPACITY,
    {
        self.id.len()
    }

    /// Clears all the keys.
    pub fn clear(&mut self)
        ensures
            final(self).wf(),
            final(self)@ == Seq::<u64>::empty(),
            final(self).keys() == Seq::<jsonwebtoken::DecodingKey>::empty(),
    {
        self.id.clear();
        self.key.clear();
    }

    /// Pushes an already parsed key under the hash of `id`; the table must have room for it.
    pub fn push_key(&mut self, id: &[u8], key: jsonwebtoken::DecodingKey)
        requires
            old(self).wf(),
            old(self)@.len() < KEYS_CAPACITY,
        ensures
            final(self).wf(),
            final(self)@ == old(self)@.push(id_hash(id@)),
            final(self).keys() == old(self).keys().push(key),
    {
        let id_hash = hash(id);
        self.id.push(id_hash);
        self.key.push(key);
    }

    /// Pushes a key.
    ///
    /// Returns whether there was room for it; fails, changing nothing, if the key does not
    /// parse.
    pub fn push(&mut self, id: &[u8], key: &[u8]) -> (r: Result<bool, JwtError>)
        requires
            old(self).wf(),
        ensures
            final(self).wf(),
            old(self)@.len() >= KEYS_CAPACITY ==> (r matches Ok(false)) && *final(self) == *old(self),
            old(self)@.len() < KEYS_CAPACITY ==> (r is Ok == rsa_pem_valid(key@)),
            old(self)@.len() < KEYS_CAPACITY && rsa_pem_valid(key@) ==> {
                &&& (r matches Ok(true))
                &&& final(self)@ == old(self)@.push(id_hash(id@))
                &&& final(self).keys().len() == old(self).keys().len() + 1
                &&& final(self).keys().take(old(self).keys().len() as int) == old(self).keys()
            },
            r is Err ==> *final(self) == *old(self),
    {
        if self.len() >= KEYS_CAPACITY {
            return Ok(false);
        }
        match decoding_key_from_rsa_pem(key) {
            Ok(k) => {
                self.push_key(id, k);
                assert(self.keys().take(old(self).keys().len() as int) =~= old(self).keys());
                Ok(true)
            },
            Err(e) => Err(e),
        }
    }
}

/// What the key id of a token's header is: `None` when the header does not decode, else
/// the key id it declares, if any.
pub uninterp spec fn header_kid(token: Seq<char>) -> Option<Option<Seq<char>>>;

/// Relies on jsonwebtoken::decode_header: whether the header decodes, and the key id it
/// declares, depend on the token's text alone.
#[verifier::external_body]
fn decode_header_kid(token: &str) -> (r: Result<Option<String>, JwtError>)
    ensures
        r is Err <==> header_kid(token@) is None,
        r matches Ok(Some(k)) ==> header_kid(token@) == Some(Some(k@)),
        r matches Ok(None) ==> header_kid(token@) == Some(None::<Seq<char>>),
{
    jsonwebtoken::decode_header(token).map(|h| h.kid)
}

/// Error when finding the key of a token.
#[derive(Debug)]
pub enum ValidateError {
    /// The token's header does not decode.
    DecodeHeader(JwtError),
    /// The token declares no key id.
    TokenMissingKeyId,
    /// The token does not decode or verify against its key.
    DecodeToken(JwtError),
    /// No key in the table has the token's key id.
    UnknownKey,
}

/// Error when extending a table from a fetched response.
#[derive(Debug)]
pub enum FetchExtendError {
    /// The response could not be fetched.
    Fetch(ErrorFetch),
    /// The response's headers lack what is needed.
    HttpProcess(ErrorProcess),
    /// A key did not parse.
    Jwt(JwtError),
}

impl Default for Keys {
    fn default() -> (r: Self)
        ensures
            r.wf(),
            r@ == Seq::<u64>::empty(),
    {
        Self::new()
    }
}

impl Keys {
    /// Whether this table is empty.
    pub fn is_empty(&self) -> (r: bool)
        ensures
            r == (self@.len() == 0),
    {
        self.id.len() == 0
    }

    /// Extends the table with the pairs that `pairs` yields, until it is full.
    ///
    /// Returns whether there was room for all of them. Fails on the first key that does not
    /// parse, keeping the keys pushed before it.
    pub fn extend_try<'i>(&mut self, pairs: &mut Parse<'i>) -> (r: Result<bool, JwtError>)
        requires
            old(self).wf(),
        ensures
            final(self).wf(),
            ({
                let ps = pairs_of(old(pairs)@);
                let out = extend_outcome(old(self)@.len(), ps);
                &&& final(self)@ == old(self)@ + id_hashes(ps.take(out.1 as int))
                &&& final(self).keys().take(old(self).keys().len() as int) == old(self).keys()
                &&& match out.0 {
                    None => r is Err,
                    Some(all) => r == Ok::<bool, JwtError>(all),
                }
            }),
    {
        let ghost ps = pairs_of(pairs@);
        let ghost start = self@;
        let ghost start_keys = self.keys();
        let ghost mut k: int = 0;
        proof {
            lemma_valid_prefix(ps);
            assert(ps.skip(0) =~= ps);
            assert(start + id_hashes(ps.take(0)) =~= start);
            assert(self.keys().take(start_keys.len() as int) =~= start_keys);
        }
        loop
            invariant
                self.wf(),
                0 <= k <= ps.len(),
                ps == pairs_of(old(pairs)@),
                start == old(self)@,
                start_keys == old(self).keys(),
                start_keys.len() == start.len(),
                pairs_of(pairs@) == ps.skip(k),
                self@ == start + id_hashes(ps.take(k)),
                self@.len() == start.len() + k,
                self.keys().take(start_keys.len() as int) == start_keys,
                forall|j: int| 0 <= j < k ==> rsa_pem_valid(#[trigger] ps[j].1),
                valid_prefix(ps) <= ps.len(),
                forall|j: int| 0 <= j < valid_prefix(ps) ==> rsa_pem_valid(#[trigger] ps[j].1),
                valid_prefix(ps) < ps.len() ==> !rsa_pem_valid(ps[valid_prefix(ps) as int].1),
            decreases ps.len() - k,
        {
            assert(valid_prefix(ps) >= k) by {
                if valid_prefix(ps) < k {
                    assert(rsa_pem_valid(ps[valid_prefix(ps) as int].1));
                }
            }
            let ghost before = self@;
            let ghost before_keys = self.keys();
            let ghost cur = pairs@;
            match pairs.next() {
                None => {
                    assert(ps.skip(k).len() == 0);
                    assert(ps.take(k) =~= ps);
                    return Ok(true);
                },
                Some((id, key)) => {
                    assert(pairs_of(cur) == seq![(id@, key@)] + pairs_of(pairs@));
                    assert(ps.skip(k).len() > 0);
                    assert(ps.skip(k)[0] == ps[k]);
                    assert(ps[k] == (id@, key@));
                    assert(pairs_of(pairs@) =~= ps.skip(k + 1)) by {
                        assert(ps.skip(k + 1) =~= ps.skip(k).skip(1));
                        assert((seq![(id@, key@)] + pairs_of(pairs@)).skip(1) =~= pairs_of(pairs@));
                    }
                    match self.push(id, key) {
                        Err(e) => {
                            assert(valid_prefix(ps) == k) by {
                                if valid_prefix(ps) > k {
                                    assert(rsa_pem_valid(ps[k].1));
                                }
                            }
                            return Err(e);
                        },
                        Ok(false) => {
                            return Ok(false);
                        },
                        Ok(true) => {
                            assert(ps.take(k + 1) =~= ps.take(k).push(ps[k]));
                            assert(id_hashes(ps.take(k + 1)) =~= id_hashes(ps.take(k)).push(id_hash(id@)));
                            assert(self.keys().take(start_keys.len() as int) =~= self.keys().take(
                                before_keys.len() as int,
                            ).take(start_keys.len() as int));
                            proof {
                                k = k + 1;
                            }
                        },
                    }
                },
            }
        }
    }

    /// Gets the key whose id hashes as `id` does: the first such one in insertion order.
    pub fn get(&self, id: &[u8]) -> (r: Option<&jsonwebtoken::DecodingKey>)
        requires
            self.wf(),
        ensures
            position(self@, id_hash(id@)) == -1 ==> r is None,
            position(self@, id_hash(id@)) != -1 ==> (r matches Some(k) && *k == self.keys()[position(self@, id_hash(id@))]),
    {
        let h = hash(id);
        let mut i: usize = 0;
        while i < self.id.len()
            invariant
                self.wf(),
                i <= self@.len(),
                h == id_hash(id@),
                position(self@, h) == position_from(self@, h, i as int),
            decreases self@.len() - i,
        {
            if self.id[i] == h {
                return Some(&self.key[i]);
            }
            i = i + 1;
        }
        None
    }

    /// The id hashes and keys, in insertion order.
    pub fn iter(&self) -> (r: Vec<(u64, &jsonwebtoken::DecodingKey)>)
        requires
            self.wf(),
        ensures
            r@.len() == self@.len(),
            forall|i: int| 0 <= i < r@.len() ==> (#[trigger] r@[i]).0 == self@[i] && *r@[i].1 == self.keys()[i],
    {
        let mut r: Vec<(u64, &jsonwebtoken::DecodingKey)> = Vec::new();
        let mut i: usize = 0;
        while i < self.id.len()
            invariant
                self.wf(),
                i <= self@.len(),
                r@.len() == i,
                forall|j: int| 0 <= j < i ==> (#[trigger] r@[j]).0 == self@[j] && *r@[j].1 == self.keys()[j],
            decreases self@.len() - i,
        {
            r.push((self.id[i], &self.key[i]));
            i = i + 1;
        }
        r
    }

    /// Finds the key for a token that declares the key id `kid`.
    pub fn key_for_kid(&self, kid: Option<&str>) -> (r: Result<&jsonwebtoken::DecodingKey, ValidateError>)
        requires
            self.wf(),
        ensures
            match kid {
                None => r matches Err(ValidateError::TokenMissingKeyId),
                Some(k) => {
                    let p = position(self@, id_hash(k.spec_bytes()));
                    &&& p == -1 ==> (r matches Err(ValidateError::UnknownKey))
                    &&& p != -1 ==> (r matches Ok(key) && *key == self.keys()[p])
                },
            },
    {
        match kid {
            None => Err(ValidateError::TokenMissingKeyId),
            Some(k) => match self.get(k.as_bytes()) {
                Some(key) => Ok(key),
                None => Err(ValidateError::UnknownKey),
            },
        }
    }

    /// Finds the key that a token's header names.
    pub fn key_for_token(&self, token: &str) -> (r: Result<&jsonwebtoken::DecodingKey, ValidateError>)
        requires
            self.wf(),
        ensures
            match header_kid(token@) {
                None => r matches Err(ValidateError::DecodeHeader(_)),
                Some(None) => r matches Err(ValidateError::TokenMissingKeyId),
                Some(Some(k)) => {
                    let p = position(self@, id_hash(vstd::utf8::encode_utf8(k)));
                    &&& p == -1 ==> (r matches Err(ValidateError::UnknownKey))
                    &&& p != -1 ==> (r matches Ok(key) && *key == self.keys()[p])
                },
            },
    {
        match decode_header_kid(token) {
            Err(e) => Err(ValidateError::DecodeHeader(e)),
            Ok(None) => self.key_for_kid(None),
            Ok(Some(kid)) => self.key_for_kid(Some(kid.as_str())),
        }
    }

    /// Reads a fetched response, and extends the table with the keys in its body.
    ///
    /// Returns whether there was room for all keys, and the response's freshness window.
    pub fn extend_response(&mut self, response: &mut [u8]) -> (r: Result<(bool, Age), FetchExtendError>)
        requires
            old(self).wf(),
        ensures
            final(self).wf(),
            match headers_spec(old(response)@) {
                Err(e) => (r matches Err(FetchExtendError::HttpProcess(e2)) && e2 == e) && *final(self) == *old(self),
                Ok((age, b)) => {
                    let ps = pairs_of(old(response)@.skip(b as int));
                    let out = extend_outcome(old(self)@.len(), ps);
                    &&& final(self)@ == old(self)@ + id_hashes(ps.take(out.1 as int))
                    &&& final(self).keys().take(old(self).keys().len() as int) == old(self).keys()
                    &&& match out.0 {
                        None => r matches Err(FetchExtendError::Jwt(_)),
                        Some(all) => r matches Ok((a, g)) && a == all && g == age,
                    }
                },
            },
    {
        let (age, b) = match process_headers(response) {
            Ok(x) => x,
            Err(e) => return Err(FetchExtendError::HttpProcess(e)),
        };
        let (_, body) = response.split_at_mut(b);
        let mut pairs = Parse::new(body);
        match self.extend_try(&mut pairs) {
            Ok(all) => Ok((all, age)),
            Err(e) => Err(FetchExtendError::Jwt(e)),
        }
    }
}

} // verus!
