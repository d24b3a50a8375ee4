//! Zero-copy parsing of the key set body.
use vstd::prelude::*;

verus! {

/// The quote byte `"`.
pub const QUOTE: u8 = 0x22;

/// The backslash byte.
pub const BACKSLASH: u8 = 0x5c;

/// The byte `n`.
pub const LETTER_N: u8 = 0x6e;

/// The newline byte.
pub const NEWLINE: u8 = 0x0a;

/// Whether `s` holds the two-byte escape `\n` (a backslash, then `n`) at `i`.
pub open spec fn escape_at(s: Seq<u8>, i: int) -> bool {
    0 <= i && i + 1 < s.len() && s[i] == BACKSLASH && s[i + 1] == LETTER_N
}

/// `s` with each escape `\n`, scanned left to right, turned into a newline byte.
pub open spec fn unescaped(s: Seq<u8>) -> Seq<u8>
    decreases s.len(),
{
    if s.len() == 0 {
        Seq::empty()
    } else if escape_at(s, 0) {
        seq![NEWLINE] + unescaped(s.skip(2))
    } else {
        seq![s[0]] + unescaped(s.skip(1))
    }
}

/// Index of the first quote byte of `s` at or after `i`, or `s.len()` when there is none.
pub open spec fn find_quote(s: Seq<u8>, i: int) -> int
    decreases s.len() - i,
{
    if i < 0 || i >= s.len() {
        s.len() as int
    } else if s[i] == QUOTE {
        i
    } else {
        find_quote(s, i + 1)
    }
}

/// The positions of the four quotes that delimit the first pair of `s`.
pub open spec fn quote_1(s: Seq<u8>) -> int {
    find_quote(s, 0)
}

pub open spec fn quote_2(s: Seq<u8>) -> int {
    find_quote(s, quote_1(s) + 1)
}

pub open spec fn quote_3(s: Seq<u8>) -> int {
    find_quote(s, quote_2(s) + 1)
}

pub open spec fn quote_4(s: Seq<u8>) -> int {
    find_quote(s, quote_3(s) + 1)
}

/// Whether `s` holds at least four quotes, that is one more pair.
pub open spec fn has_pair(s: Seq<u8>) -> bool {
    quote_4(s) < s.len()
}

/// The pairs that parsing `s` yields, in order: the bytes between the first two quotes
/// of each group of four, and the unescaped bytes between the last two.
pub open spec fn pairs_of(s: Seq<u8>) -> Seq<(Seq<u8>, Seq<u8>)>
    decreases s.len(),
    via pairs_of_decreases
{
    if has_pair(s) {
        seq![(s.subrange(quote_1(s) + 1, quote_2(s)), unescaped(s.subrange(quote_3(s) + 1, quote_4(s))))]
            + pairs_of(s.skip(quote_4(s) + 1))
    } else {
        Seq::empty()
    }
}

proof fn lemma_find_quote_bounds(s: Seq<u8>, i: int)
    requires
        0 <= i,
    ensures
        i <= find_quote(s, i) || find_quote(s, i) == s.len(),
        find_quote(s, i) <= s.len(),
        find_quote(s, i) < s.len() ==> s[find_quote(s, i)] == QUOTE,
    decreases s.len() - i,
{
    if i < s.len() && s[i] != QUOTE {
        lemma_find_quote_bounds(s, i + 1);
    }
}

/// The quotes of a pair stand in order within the buffer.
proof fn lemma_quotes_ordered(s: Seq<u8>)
    requires
        has_pair(s),
    ensures
        0 <= quote_1(s) < quote_2(s) < quote_3(s) < quote_4(s) < s.len(),
{
    lemma_find_quote_bounds(s, 0);
    lemma_find_quote_bounds(s, quote_1(s) + 1);
    lemma_find_quote_bounds(s, quote_2(s) + 1);
    lemma_find_quote_bounds(s, quote_3(s) + 1);
}

#[via_fn]
proof fn pairs_of_decreases(s: Seq<u8>) {
    if has_pair(s) {
        lemma_quotes_ordered(s);
    }
}

/// The number of quote bytes in `s`.
pub open spec fn quote_count(s: Seq<u8>) -> nat
    decreases s.len(),
{
    if s.len() == 0 {
        0
    } else {
        (if s[0] == QUOTE { 1nat } else { 0nat }) + quote_count(s.skip(1))
    }
}

/// Counting the quotes from `i` on amounts to finding the next one and counting past it.
proof fn lemma_count_from(s: Seq<u8>, i: int)
    requires
        0 <= i <= s.len(),
    ensures
        quote_count(s.skip(i)) == (if find_quote(s, i) < s.len() {
            1 + quote_count(s.skip(find_quote(s, i) + 1))
        } else {
            0
        }),
    decreases s.len() - i,
{
    if i < s.len() {
        assert(s.skip(i).skip(1) =~= s.skip(i + 1));
        if s[i] != QUOTE {
            lemma_count_from(s, i + 1);
        }
    }
}

/// The parser yields one pair for each full group of four quotes in the buffer.
pub proof fn lemma_pair_count(s: Seq<u8>)
    ensures
        pairs_of(s).len() == quote_count(s) / 4,
    decreases s.len(),
{
    assert(s.skip(0) =~= s);
    lemma_count_from(s, 0);
    let q1 = quote_1(s);
    let q2 = quote_2(s);
    let q3 = quote_3(s);
    let q4 = quote_4(s);
    lemma_find_quote_bounds(s, 0);
    if q1 < s.len() {
        lemma_count_from(s, q1 + 1);
        lemma_find_quote_bounds(s, q1 + 1);
        if q2 < s.len() {
            lemma_count_from(s, q2 + 1);
            lemma_find_quote_bounds(s, q2 + 1);
            if q3 < s.len() {
                lemma_count_from(s, q3 + 1);
                lemma_find_quote_bounds(s, q3 + 1);
                if q4 < s.len() {
                    lemma_pair_count(s.skip(q4 + 1));
                }
            }
        }
    }
}

/// The first byte of an unescaped sequence is a newline or the first byte of the input.
proof fn lemma_unescaped_first(s: Seq<u8>)
    requires
        s.len() > 0,
    ensures
        unescaped(s).len() > 0,
        unescaped(s)[0] == (if escape_at(s, 0) { NEWLINE } else { s[0] }),
{
}

/// No escape `\n` is left in an unescaped sequence.
pub proof fn lemma_unescaped_has_no_escape(s: Seq<u8>)
    ensures
        forall|i: int| !escape_at(unescaped(s), i),
    decreases s.len(),
{
    if s.len() > 0 {
        let k: int = if escape_at(s, 0) { 2 } else { 1 };
        let rest = s.skip(k);
        lemma_unescaped_has_no_escape(rest);
        let u = unescaped(s);
        assert(u == seq![u[0]] + unescaped(rest));
        assert forall|i: int| !escape_at(u, i) by {
            if i > 0 && escape_at(u, i) {
                assert(escape_at(unescaped(rest), i - 1));
            }
            if i == 0 && escape_at(u, 0) {
                assert(k == 1 && s[0] == BACKSLASH);
                lemma_unescaped_first(rest);
                assert(rest[0] == s[1]);
            }
        }
    }
}

/// Each key that the parser yields is free of escapes.
pub proof fn lemma_keys_unescaped(s: Seq<u8>)
    ensures
        forall|j: int, i: int| 0 <= j < pairs_of(s).len() ==> !#[trigger] escape_at(pairs_of(s)[j].1, i),
    decreases s.len(),
{
    if has_pair(s) {
        lemma_quotes_ordered(s);
        let rest = s.skip(quote_4(s) + 1);
        lemma_keys_unescaped(rest);
        lemma_unescaped_has_no_escape(s.subrange(quote_3(s) + 1, quote_4(s)));
        assert forall|j: int, i: int| 0 <= j < pairs_of(s).len() implies !#[trigger] escape_at(pairs_of(s)[j].1, i) by {
            if j > 0 {
                assert(pairs_of(s)[j] == pairs_of(rest)[j - 1]);
            }
        }
    }
}

/// Finds the first quote byte of `s` at or after `from`.
fn find_quote_from(s: &[u8], from: usize) -> (r: usize)
    requires
        from <= s@.len(),
    ensures
        r == find_quote(s@, from as int),
        from <= r <= s@.len(),
{
    proof {
        lemma_find_quote_bounds(s@, from as int);
    }
    let mut i = from;
    while i < s.len()
        invariant
            from <= i <= s@.len(),
            find_quote(s@, i as int) == find_quote(s@, from as int),
        decreases s@.len() - i,
    {
        if s[i] == QUOTE {
            return i;
        }
        i = i + 1;
    }
    i
}

/// Turns each escape `\n` into a newline byte, in place.
///
/// The unescaped bytes are moved to the front of `s`; their count is returned.
pub fn unescape(s: &mut [u8]) -> (n: usize)
    ensures
        final(s)@.len() == old(s)@.len(),
        n <= old(s)@.len(),
        final(s)@.subrange(0, n as int) == unescaped(old(s)@),
{
    let ghost orig = s@;
    let len = s.len();
    let mut r: usize = 0;
    let mut w: usize = 0;
    assert(orig.subrange(0, len as int) =~= orig);
    assert(s@.subrange(0, 0) =~= Seq::<u8>::empty());
    while r < len
        invariant
            len == orig.len(),
            s@.len() == len,
            w <= r <= len,
            s@.subrange(r as int, len as int) == orig.subrange(r as int, len as int),
            s@.subrange(0, w as int) + unescaped(orig.subrange(r as int, len as int))
                == unescaped(orig),
        decreases len - r,
    {
        let ghost rest = orig.subrange(r as int, len as int);
        assert(rest[0] == s@[r as int]);
        if s[r] == BACKSLASH && r + 1 < len && s[r + 1] == LETTER_N {
            assert(rest[1] == s@[r + 1]);
            assert(rest.skip(2) =~= orig.subrange(r + 2, len as int));
            s[w] = NEWLINE;
            r = r + 2;
            assert(s@.subrange(0, w + 1) =~= s@.subrange(0, w as int).push(NEWLINE));
        } else {
            let b = s[r];
            assert(!escape_at(rest, 0));
            assert(rest.skip(1) =~= orig.subrange(r + 1, len as int));
            s[w] = b;
            r = r + 1;
        }
        w = w + 1;
    }
    w
}

/// A parser over a mutable byte buffer, yielding (key id, key) pairs that borrow from it.
///
/// The key of each pair is unescaped in place, so the buffer no longer holds its original
/// bytes where a pair was taken from it.
pub struct Parse<'a> {
    data: &'a mut [u8],
}

impl<'a> View for Parse<'a> {
    type V = Seq<u8>;

    /// The bytes that are still to be parsed.
    closed spec fn view(&self) -> Seq<u8> {
        self.data@
    }
}

impl<'a> Parse<'a> {
    /// Creates a parser over `data`.
    pub fn new(data: &'a mut [u8]) -> (r: Self)
        ensures
            r@ == old(data)@,
    {
        Parse { data }
    }

    /// Yields the next pair, or `None` once fewer than four quotes are left.
    pub fn next(&mut self) -> (r: Option<(&'a [u8], &'a [u8])>)
        ensures
            match r {
                Some(p) => pairs_of(old(self)@) == seq![(p.0@, p.1@)] + pairs_of(final(self)@),
                None => pairs_of(old(self)@) == Seq::<(Seq<u8>, Seq<u8>)>::empty() && final(self)@.len() == 0,
            },
    {
        let ghost s = self.data@;
        let len = self.data.len();
        let q1 = find_quote_from(self.data, 0);
        assert(q1 == quote_1(s));
        if q1 == len {
            self.data = &mut [];
            return None;
        }
        let q2 = find_quote_from(self.data, q1 + 1);
        if q2 == len {
            self.data = &mut [];
            return None;
        }
        let q3 = find_quote_from(self.data, q2 + 1);
        if q3 == len {
            self.data = &mut [];
            return None;
        }
        let q4 = find_quote_from(self.data, q3 + 1);
        if q4 == len {
            self.data = &mut [];
            return None;
        }
        assert(q2 == quote_2(s));
        assert(q3 == quote_3(s));
        assert(q4 == quote_4(s));
        proof {
            lemma_quotes_ordered(s);
        }
        let mut data: &'a mut [u8] = &mut [];
        core::mem::swap(&mut data, &mut self.data);
        let (head, tail) = data.split_at_mut(q4 + 1);
        self.data = tail;
        let (left, right) = head.split_at_mut(q3 + 1);
        let (key_region, _closing) = right.split_at_mut(q4 - q3 - 1);
        let n = unescape(key_region);
        let key: &'a [u8] = key_region;
        let id: &'a [u8] = left;
        let id_part = &id[q1 + 1..q2];
        let key_part = &key[0..n];
        assert(self.data@ =~= s.skip(q4 + 1));
        assert(id_part@ =~= s.subrange(q1 + 1, q2 as int));
        assert(s.subrange(q3 + 1, q4 as int) =~= s.subrange(0, q4 + 1).subrange(q3 + 1, q4 + 1).subrange(0, q4 - q3 - 1));
        assert(key_part@ == unescaped(s.subrange(q3 + 1, q4 as int)));
        Some((id_part, key_part))
    }
}

} // verus!
