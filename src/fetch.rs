//! Reading the freshness window and the body offset out of a raw key set response.
use vstd::prelude::*;

verus! {

/// The line feed byte.
pub const LF: u8 = 0x0a;

/// Declares std's I/O error, which the transport reports.
#[verifier::external_type_specification]
#[verifier::external_body]
pub struct ExIoError(std::io::Error);

/// Error when fetching the key set.
#[derive(Debug)]
pub enum ErrorFetch {
    /// The connection could not be opened.
    Connect(std::io::Error),
    /// The secure session could not be established.
    ConnectTcp(std::io::Error),
    /// The request could not be written.
    RequestWrite(std::io::Error),
}

/// A point in time on some clock.
pub trait Instant: Sized {
    /// The instant `seconds` later than this one.
    spec fn later(self, seconds: nat) -> Self;

    /// Whether this instant comes strictly before `other`.
    spec fn precedes(self, other: Self) -> bool;

    /// The current instant.
    fn now() -> Self;

    /// Whether this instant comes strictly before `other`.
    fn is_before(&self, other: &Self) -> (r: bool)
        ensures
            r == (*self).precedes(*other),
    ;

    /// Moves this instant `seconds` later.
    fn add_seconds(&mut self, seconds: u64)
        ensures
            *final(self) == old(self).later(seconds as nat),
    ;

    /// Whether this instant has been reached, that is, the current instant is not before it.
    fn is_expired(&self) -> bool {
        !Self::now().is_before(self)
    }
}

/// Relies on std::time::SystemTime::now, read as whole seconds since the Unix epoch (0 for a
/// clock set before it); nothing is promised of the value.
#[verifier::external_body]
fn unix_now() -> u64 {
    match std::time::SystemTime::now().duration_since(std::time::UNIX_EPOCH) {
        Ok(d) => d.as_secs(),
        Err(_) => 0,
    }
}

/// A wall-clock instant, in whole seconds since the Unix epoch.
#[derive(Clone, Copy, Debug, PartialEq, Eq, Hash, Default, PartialOrd, Ord, Structural)]
pub struct UnixTime {
    pub secs: u64,
}

impl Instant for UnixTime {
    /// Saturates at the largest representable second.
    open spec fn later(self, seconds: nat) -> Self {
        UnixTime {
            secs: if self.secs + seconds <= u64::MAX {
                (self.secs + seconds) as u64
            } else {
                u64::MAX
            },
        }
    }

    open spec fn precedes(self, other: Self) -> bool {
        self.secs < other.secs
    }

    fn now() -> Self {
        UnixTime { secs: unix_now() }
    }

    fn is_before(&self, other: &Self) -> (r: bool) {
        assert(self.precedes(*other) == (self.secs < other.secs));
        self.secs < other.secs
    }

    fn add_seconds(&mut self, seconds: u64) {
        self.secs = self.secs.saturating_add(seconds);
    }
}

/// The freshness window of a response: seconds already elapsed and seconds of validity.
#[derive(Clone, Copy, Debug, PartialEq, Eq, Hash, Default, PartialOrd, Ord, Structural)]
pub struct Age {
    pub age: u64,
    pub max_age: u64,
}

impl Age {
    /// Seconds of validity that are left, never below zero.
    pub open spec fn remaining_spec(self) -> nat {
        if self.max_age >= self.age {
            (self.max_age - self.age) as nat
        } else {
            0
        }
    }

    /// Seconds of validity that are left: `max_age - age`, or 0 when `age` exceeds `max_age`.
    pub fn remaining(self) -> (r: u64)
        ensures
            r == self.remaining_spec(),
    {
        self.max_age.saturating_sub(self.age)
    }

    /// The instant at which a response received at `time` goes stale.
    pub fn expiration<I: Instant>(self, time: I) -> (r: I)
        ensures
            r == time.later(self.remaining_spec()),
    {
        let mut time = time;
        time.add_seconds(self.remaining());
        time
    }

    /// The instant at which a response received now goes stale.
    pub fn expiration_now<I: Instant>(self) -> (r: I)
        ensures
            exists|now: I| r == now.later(self.remaining_spec()),
    {
        let now = I::now();
        let r = self.expiration(now);
        assert(r == now.later(self.remaining_spec()));
        r
    }
}

/// Error when processing a response.
#[derive(Clone, Copy, Debug, PartialEq, Eq, Structural)]
pub enum ErrorProcess {
    /// No maximum-age directive was found.
    MaxAge,
    /// No blank line separates the headers from the body.
    Body,
}

/// Whether `needle` occurs in `hay` starting at index `i`.
pub open spec fn occurs_at(hay: Seq<u8>, needle: Seq<u8>, i: int) -> bool {
    0 <= i && i + needle.len() <= hay.len() && hay.subrange(i, i + needle.len()) == needle
}

/// The first index at or after `i` where `needle` occurs in `hay`, or -1 if there is none.
pub open spec fn find_from(hay: Seq<u8>, needle: Seq<u8>, i: int) -> int
    decreases hay.len() + 1 - i,
{
    if i < 0 || i + needle.len() > hay.len() {
        -1
    } else if occurs_at(hay, needle, i) {
        i
    } else {
        find_from(hay, needle, i + 1)
    }
}

/// The first index where `needle` occurs in `hay`.
pub open spec fn first_index(hay: Seq<u8>, needle: Seq<u8>) -> Option<int> {
    if find_from(hay, needle, 0) >= 0 {
        Some(find_from(hay, needle, 0))
    } else {
        None
    }
}

proof fn lemma_find_from_bounds(hay: Seq<u8>, needle: Seq<u8>, i: int)
    ensures
        find_from(hay, needle, i) == -1 || (i <= find_from(hay, needle, i) && occurs_at(
            hay,
            needle,
            find_from(hay, needle, i),
        )),
    decreases hay.len() + 1 - i,
{
    if !(i < 0 || i + needle.len() > hay.len()) && !occurs_at(hay, needle, i) {
        lemma_find_from_bounds(hay, needle, i + 1);
    }
}

/// Relies on memchr::memmem::find: the index of the first occurrence of `needle` in
/// `hay`, or `None`; an empty needle occurs at 0.
#[verifier::external_body]
fn find_bytes(hay: &[u8], needle: &[u8]) -> (r: Option<usize>)
    ensures
        r matches Some(i) ==> first_index(hay@, needle@) == Some(i as int),
        r is None ==> first_index(hay@, needle@) is None,
{
    memchr::memmem::find(hay, needle)
}

/// Relies on memchr::memchr: the index of the first occurrence of the byte `b` in `hay`,
/// or `None`.
#[verifier::external_body]
fn find_byte(b: u8, hay: &[u8]) -> (r: Option<usize>)
    ensures
        r matches Some(i) ==> first_index(hay@, seq![b]) == Some(i as int),
        r is None ==> first_index(hay@, seq![b]) is None,
{
    memchr::memchr(b, hay)
}

/// Whether `b` is an ASCII decimal digit.
pub open spec fn is_digit(b: u8) -> bool {
    0x30 <= b <= 0x39
}

/// The number of ASCII digits at the start of `s`.
pub open spec fn digit_run(s: Seq<u8>) -> nat
    decreases s.len(),
{
    if s.len() > 0 && is_digit(s[0]) {
        1 + digit_run(s.skip(1))
    } else {
        0
    }
}

/// The value of a sequence of ASCII digits read in base ten.
pub open spec fn decimal(s: Seq<u8>) -> nat
    decreases s.len(),
{
    if s.len() == 0 {
        0
    } else {
        decimal(s.drop_last()) * 10 + (s.last() - 0x30) as nat
    }
}

/// The number that a run of digits spells, if there is at least one digit and it fits in `u64`.
pub open spec fn digits_value(s: Seq<u8>) -> Option<u64> {
    if s.len() > 0 && decimal(s) <= u64::MAX {
        Some(decimal(s) as u64)
    } else {
        None
    }
}

/// Relies on atoi::atoi for `u64`: on ASCII digits alone it yields their value in base
/// ten, or `None` when there are none or the value overflows.
#[verifier::external_body]
fn parse_decimal(digits: &[u8]) -> (r: Option<u64>)
    requires
        forall|i: int| 0 <= i < digits@.len() ==> is_digit(#[trigger] digits@[i]),
    ensures
        r == digits_value(digits@),
{
    atoi::atoi::<u64>(digits)
}

/// The number written right after the first occurrence of `prefix` in `data`.
pub open spec fn prefixed_number(data: Seq<u8>, prefix: Seq<u8>) -> Option<u64> {
    match first_index(data, prefix) {
        None => None,
        Some(p) => {
            let start = p + prefix.len();
            digits_value(data.subrange(start, start + digit_run(data.skip(start))))
        },
    }
}

proof fn lemma_digit_run_bound(s: Seq<u8>)
    ensures
        digit_run(s) <= s.len(),
        forall|i: int| 0 <= i < digit_run(s) ==> is_digit(#[trigger] s[i]),
    decreases s.len(),
{
    if s.len() > 0 && is_digit(s[0]) {
        lemma_digit_run_bound(s.skip(1));
        assert forall|i: int| 0 <= i < digit_run(s) implies is_digit(#[trigger] s[i]) by {
            if i > 0 {
                assert(s[i] == s.skip(1)[i - 1]);
            }
        }
    }
}

/// Reads the number that follows the first occurrence of `prefix` in `data`.
fn find_prefixed_number(data: &[u8], prefix: &[u8]) -> (r: Option<u64>)
    ensures
        r == prefixed_number(data@, prefix@),
{
    let p = match find_bytes(data, prefix) {
        Some(p) => p,
        None => return None,
    };
    proof {
        lemma_find_from_bounds(data@, prefix@, 0);
    }
    let len = data.len();
    let start = p + prefix.len();
    let mut end = start;
    proof {
        lemma_digit_run_bound(data@.skip(start as int));
    }
    while end < len && is_ascii_digit(data[end])
        invariant
            len == data@.len(),
            start <= end <= len,
            digit_run(data@.skip(start as int)) == (end - start) + digit_run(data@.skip(end as int)),
        decreases data@.len() - end,
    {
        assert(data@.skip(end as int).skip(1) =~= data@.skip(end + 1));
        end = end + 1;
    }
    let (head, _) = data.split_at(end);
    let (_, number) = head.split_at(start);
    proof {
        assert(number@ =~= data@.subrange(start as int, start + digit_run(data@.skip(start as int))));
        assert forall|i: int| 0 <= i < number@.len() implies is_digit(#[trigger] number@[i]) by {
            assert(number@[i] == data@.skip(start as int)[i]);
        }
    }
    parse_decimal(number)
}

/// Whether `b` is an ASCII decimal digit.
fn is_ascii_digit(b: u8) -> (r: bool)
    ensures
        r == is_digit(b),
{
    0x30 <= b && b <= 0x39
}

/// The marker of the maximum-age directive, `max-age=`.
pub open spec fn max_age_marker() -> Seq<u8> {
    seq![0x6du8, 0x61, 0x78, 0x2d, 0x61, 0x67, 0x65, 0x3d]
}

/// The marker of the elapsed-age header, `Age: `.
pub open spec fn age_marker() -> Seq<u8> {
    seq![0x41u8, 0x67, 0x65, 0x3a, 0x20]
}

/// The blank line between headers and body, `\r\n\r\n`.
pub open spec fn blank_line() -> Seq<u8> {
    seq![0x0du8, 0x0a, 0x0d, 0x0a]
}

/// The index right after the first blank line of `response`.
pub open spec fn body_spec(response: Seq<u8>) -> Option<int> {
    match first_index(response, blank_line()) {
        Some(i) => Some(i + 4),
        None => None,
    }
}

/// Gets the index of the body of an HTTP response: the byte right after the first blank line.
pub fn body(response: &[u8]) -> (r: Option<usize>)
    ensures
        r matches Some(i) ==> body_spec(response@) == Some(i as int) && i <= response@.len(),
        r is None ==> body_spec(response@) is None,
{
    let len = response.len();
    let marker: [u8; 4] = [0x0d, 0x0a, 0x0d, 0x0a];
    assert(marker@ =~= blank_line());
    match find_bytes(response, marker.as_slice()) {
        Some(i) => {
            proof {
                lemma_find_from_bounds(response@, blank_line(), 0);
            }
            assert(i + 4 <= len);
            Some(i + 4)
        },
        None => None,
    }
}

/// The number of leading bytes skipped before the headers are searched: up to the first
/// line feed, or none when there is none.
pub open spec fn skipped(response: Seq<u8>) -> int {
    match first_index(response, seq![LF]) {
        Some(i) => i,
        None => 0,
    }
}

/// What processing the headers of `response` gives.
pub open spec fn headers_spec(response: Seq<u8>) -> Result<(Age, usize), ErrorProcess> {
    let sk = skipped(response);
    let rest = response.skip(sk);
    match prefixed_number(rest, max_age_marker()) {
        None => Err(ErrorProcess::MaxAge),
        Some(max_age) => {
            let age = match prefixed_number(rest, age_marker()) {
                Some(a) => a,
                None => 0,
            };
            match body_spec(rest) {
                None => Err(ErrorProcess::Body),
                Some(b) => Ok((Age { age, max_age }, (b + sk) as usize)),
            }
        },
    }
}

/// Yields the freshness window of a response and the index where its body starts.
pub fn process_headers(response: &[u8]) -> (r: Result<(Age, usize), ErrorProcess>)
    ensures
        r == headers_spec(response@),
        r matches Ok((_, b)) ==> b <= response@.len(),
{
    let len = response.len();
    let skipped = match find_byte(LF, response) {
        Some(i) => i,
        None => 0,
    };
    proof {
        lemma_find_from_bounds(response@, seq![LF], 0);
    }
    let (_, rest) = response.split_at(skipped);
    let max_age_bytes: [u8; 8] = [0x6d, 0x61, 0x78, 0x2d, 0x61, 0x67, 0x65, 0x3d];
    assert(max_age_bytes@ =~= max_age_marker());
    let max_age = match find_prefixed_number(rest, max_age_bytes.as_slice()) {
        Some(m) => m,
        None => return Err(ErrorProcess::MaxAge),
    };
    let age_bytes: [u8; 5] = [0x41, 0x67, 0x65, 0x3a, 0x20];
    assert(age_bytes@ =~= age_marker());
    let age = match find_prefixed_number(rest, age_bytes.as_slice()) {
        Some(a) => a,
        None => 0,
    };
    let b = match body(rest) {
        Some(b) => b,
        None => return Err(ErrorProcess::Body),
    };
    assert(b + skipped <= len);
    Ok((Age { age, max_age }, b + skipped))
}

} // verus!
