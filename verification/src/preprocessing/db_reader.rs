//! Reader of the SPMF transaction format: `items:transaction_utility:utilities`.
use vstd::prelude::*;
use vstd::utf8::valid_utf8;
use crate::types::{ItemEntry, RawTransaction};

verus! {

/// Why a line of the database could not be read.
#[derive(Debug, Clone, Copy, PartialEq, Eq, Structural)]
pub enum ParseError {
    /// The line is not valid UTF-8.
    InvalidUtf8,
    /// The line has no `:` before the transaction utility.
    MissingTransactionUtility,
    /// The line has no second `:` before the utilities.
    MissingUtilities,
    /// An item is not a `u32`.
    BadItem,
    /// The transaction utility is not an `i64`.
    BadTransactionUtility,
    /// A utility is not an `i64`.
    BadUtility,
    /// The numbers of items and of utilities differ.
    CountMismatch,
}

/// Whitespace as `str::trim` and `split_whitespace` see it in ASCII text.
pub open spec fn is_ws(b: u8) -> bool {
    b == 32 || (9 <= b && b <= 13)
}

pub open spec fn is_digit(b: u8) -> bool {
    48 <= b && b <= 57
}

/// Length of the word at the start of `s` (up to the first whitespace).
pub open spec fn word_len(s: Seq<u8>) -> nat
    decreases s.len(),
{
    if s.len() == 0 || is_ws(s[0]) {
        0
    } else {
        1 + word_len(s.drop_first())
    }
}

pub proof fn lemma_word_len_bounds(s: Seq<u8>)
    ensures
        word_len(s) <= s.len(),
        s.len() > 0 && !is_ws(s[0]) ==> word_len(s) >= 1,
    decreases s.len(),
{
    if s.len() > 0 && !is_ws(s[0]) {
        lemma_word_len_bounds(s.drop_first());
    }
}

/// The whitespace-separated words of `s`, in order.
pub open spec fn spec_tokens(s: Seq<u8>) -> Seq<Seq<u8>>
    decreases s.len(),
{
    if s.len() == 0 {
        Seq::empty()
    } else if is_ws(s[0]) {
        spec_tokens(s.drop_first())
    } else {
        proof {
            lemma_word_len_bounds(s);
        }
        seq![s.take(word_len(s) as int)] + spec_tokens(s.skip(word_len(s) as int))
    }
}

/// `s` without leading whitespace.
pub open spec fn trim_start(s: Seq<u8>) -> Seq<u8>
    decreases s.len(),
{
    if s.len() > 0 && is_ws(s[0]) { trim_start(s.drop_first()) } else { s }
}

/// `s` without trailing whitespace.
pub open spec fn trim_end(s: Seq<u8>) -> Seq<u8>
    decreases s.len(),
{
    if s.len() > 0 && is_ws(s.last()) { trim_end(s.drop_last()) } else { s }
}

/// `s` without leading and trailing whitespace.
pub open spec fn spec_trim(s: Seq<u8>) -> Seq<u8> {
    trim_end(trim_start(s))
}

/// Value of a string of decimal digits.
pub open spec fn digits_value(s: Seq<u8>) -> nat
    decreases s.len(),
{
    if s.len() == 0 {
        0
    } else {
        digits_value(s.drop_last()) * 10 + (s.last() - 48) as nat
    }
}

pub open spec fn all_digits(s: Seq<u8>) -> bool {
    forall|i: int| 0 <= i < s.len() ==> is_digit(#[trigger] s[i])
}

/// What `u32::from_str` accepts: an optional `+`, then one or more digits, in range.
pub open spec fn spec_parse_u32(t: Seq<u8>) -> Option<u32> {
    let d = if t.len() > 0 && t[0] == 43 { t.drop_first() } else { t };
    if d.len() > 0 && all_digits(d) && digits_value(d) <= u32::MAX {
        Some(digits_value(d) as u32)
    } else {
        None
    }
}

/// What `i64::from_str` accepts: an optional `+` or `-`, then one or more digits, in range.
pub open spec fn spec_parse_i64(t: Seq<u8>) -> Option<i64> {
    let neg = t.len() > 0 && t[0] == 45;
    let d = if t.len() > 0 && (t[0] == 43 || t[0] == 45) { t.drop_first() } else { t };
    if d.len() > 0 && all_digits(d) && (if neg { digits_value(d) <= 0x8000_0000_0000_0000 } else { digits_value(d) <= i64::MAX }) {
        Some((if neg { -(digits_value(d) as int) } else { digits_value(d) as int }) as i64)
    } else {
        None
    }
}

/// Every word parses as a `u32`; their values.
pub open spec fn spec_parse_u32s(toks: Seq<Seq<u8>>) -> Option<Seq<u32>> {
    if forall|i: int| 0 <= i < toks.len() ==> (#[trigger] spec_parse_u32(toks[i])) is Some {
        Some(Seq::new(toks.len(), |i: int| spec_parse_u32(toks[i]).unwrap()))
    } else {
        None
    }
}

/// Every word parses as an `i64`; their values.
pub open spec fn spec_parse_i64s(toks: Seq<Seq<u8>>) -> Option<Seq<i64>> {
    if forall|i: int| 0 <= i < toks.len() ==> (#[trigger] spec_parse_i64(toks[i])) is Some {
        Some(Seq::new(toks.len(), |i: int| spec_parse_i64(toks[i]).unwrap()))
    } else {
        None
    }
}

/// Index of the first `:` in `s`, or -1.
pub open spec fn colon_index(s: Seq<u8>) -> int
    decreases s.len(),
{
    if s.len() == 0 {
        -1
    } else if s[0] == 58 {
        0
    } else {
        let r = colon_index(s.drop_first());
        if r < 0 { -1 } else { r + 1 }
    }
}

/// The transaction utility and entries that a (trimmed) line holds, or the first error.
pub open spec fn spec_parse_line(s: Seq<u8>) -> Result<(i64, Seq<ItemEntry>), ParseError> {
    let c1 = colon_index(s);
    if c1 < 0 {
        Err(ParseError::MissingTransactionUtility)
    } else {
        let rest = s.skip(c1 + 1);
        let c2r = colon_index(rest);
        if c2r < 0 {
            Err(ParseError::MissingUtilities)
        } else {
            let items_part = s.take(c1);
            let tu_part = rest.take(c2r);
            let utils_part = rest.skip(c2r + 1);
            match spec_parse_u32s(spec_tokens(items_part)) {
                None => Err(ParseError::BadItem),
                Some(items) => match spec_parse_i64(spec_trim(tu_part)) {
                    None => Err(ParseError::BadTransactionUtility),
                    Some(tu) => match spec_parse_i64s(spec_tokens(utils_part)) {
                        None => Err(ParseError::BadUtility),
                        Some(utils) => if items.len() != utils.len() {
                            Err(ParseError::CountMismatch)
                        } else {
                            Ok((tu, Seq::new(items.len(), |i: int| ItemEntry { item: items[i], utility: utils[i] })))
                        },
                    },
                },
            }
        }
    }
}

proof fn lemma_digits_mono(s: Seq<u8>, k: int)
    requires
        all_digits(s),
        0 <= k <= s.len(),
    ensures
        digits_value(s.take(k)) <= digits_value(s),
    decreases s.len() - k,
{
    if k < s.len() {
        lemma_digits_mono(s, k + 1);
        let t = s.take(k + 1);
        assert(t.drop_last() =~= s.take(k));
        assert(is_digit(s[k]));
        assert(t.last() == s[k]);
        assert(digits_value(t) == digits_value(s.take(k)) * 10 + (s[k] - 48) as nat);
    } else {
        assert(s.take(k) =~= s);
    }
}

/// Parses `s[lo..hi]` as a `u32` the way `u32::from_str` does.
pub(crate) fn parse_u32_range(s: &[u8], lo: usize, hi: usize) -> (r: Option<u32>)
    requires
        lo <= hi <= s@.len(),
    ensures
        r == spec_parse_u32(s@.subrange(lo as int, hi as int)),
{
    let ghost t = s@.subrange(lo as int, hi as int);
    let mut start = lo;
    if start < hi && s[start] == 43u8 {
        start = start + 1;
    }
    let ghost d = s@.subrange(start as int, hi as int);
    proof {
        if t.len() > 0 && t[0] == 43 {
            assert(d =~= t.drop_first());
        } else {
            assert(d =~= t);
        }
    }
    if start == hi {
        proof {
            assert(d.len() == 0);
        }
        return None;
    }
    let mut acc: u64 = 0;
    let mut k = start;
    while k < hi
        invariant
            lo <= start < hi <= s@.len(),
            start <= k <= hi,
            d == s@.subrange(start as int, hi as int),
            forall|i: int| start <= i < k ==> is_digit(#[trigger] s@[i]),
            acc == digits_value(s@.subrange(start as int, k as int)),
            acc <= u32::MAX,
            t == s@.subrange(lo as int, hi as int),
            d == (if t.len() > 0 && t[0] == 43 { t.drop_first() } else { t }),
        decreases hi - k,
    {
        let b = s[k];
        if b < 48u8 || b > 57u8 {
            proof {
                assert(d[k - start] == b);
                assert(!is_digit(d[k - start]));
            }
            return None;
        }
        proof {
            let u = s@.subrange(start as int, k + 1);
            assert(u.drop_last() =~= s@.subrange(start as int, k as int));
        }
        acc = acc * 10 + (b - 48u8) as u64;
        k = k + 1;
        if acc > 0xFFFF_FFFFu64 {
            proof {
                if all_digits(d) {
                    lemma_digits_mono(d, k - start);
                    assert(d.take(k - start) =~= s@.subrange(start as int, k as int));
                }
            }
            return None;
        }
    }
    proof {
        assert(d =~= s@.subrange(start as int, k as int));
        assert(all_digits(d));
    }
    Some(acc as u32)
}

/// Parses `s[lo..hi]` as an `i64` the way `i64::from_str` does.
pub(crate) fn parse_i64_range(s: &[u8], lo: usize, hi: usize) -> (r: Option<i64>)
    requires
        lo <= hi <= s@.len(),
    ensures
        r == spec_parse_i64(s@.subrange(lo as int, hi as int)),
{
    let ghost t = s@.subrange(lo as int, hi as int);
    let neg = lo < hi && s[lo] == 45u8;
    let mut start = lo;
    if start < hi && (s[start] == 43u8 || s[start] == 45u8) {
        start = start + 1;
    }
    let ghost d = s@.subrange(start as int, hi as int);
    proof {
        if t.len() > 0 && (t[0] == 43 || t[0] == 45) {
            assert(d =~= t.drop_first());
        } else {
            assert(d =~= t);
        }
    }
    if start == hi {
        proof {
            assert(d.len() == 0);
        }
        return None;
    }
    let limit: u64 = if neg { 0x8000_0000_0000_0000u64 } else { 0x7FFF_FFFF_FFFF_FFFFu64 };
    let mut acc: u64 = 0;
    let mut k = start;
    while k < hi
        invariant
            lo <= start < hi <= s@.len(),
            start <= k <= hi,
            d == s@.subrange(start as int, hi as int),
            forall|i: int| start <= i < k ==> is_digit(#[trigger] s@[i]),
            acc == digits_value(s@.subrange(start as int, k as int)),
            acc <= limit,
            limit <= 0x8000_0000_0000_0000u64,
            t == s@.subrange(lo as int, hi as int),
            d == (if t.len() > 0 && (t[0] == 43 || t[0] == 45) { t.drop_first() } else { t }),
            neg == (t.len() > 0 && t[0] == 45),
            limit == (if neg { 0x8000_0000_0000_0000u64 } else { 0x7FFF_FFFF_FFFF_FFFFu64 }),
        decreases hi - k,
    {
        let b = s[k];
        if b < 48u8 || b > 57u8 {
            proof {
                assert(d[k - start] == b);
                assert(!is_digit(d[k - start]));
            }
            return None;
        }
        proof {
            let u = s@.subrange(start as int, k + 1);
            assert(u.drop_last() =~= s@.subrange(start as int, k as int));
        }
        let next: u128 = (acc as u128) * 10 + (b - 48u8) as u128;
        k = k + 1;
        if next > limit as u128 {
            proof {
                if all_digits(d) {
                    lemma_digits_mono(d, k - start);
                    assert(d.take(k - start) =~= s@.subrange(start as int, k as int));
                }
            }
            return None;
        }
        acc = next as u64;
    }
    proof {
        assert(d =~= s@.subrange(start as int, k as int));
        assert(all_digits(d));
    }
    if neg {
        if acc == 0x8000_0000_0000_0000u64 {
            Some(i64::MIN)
        } else {
            Some(-(acc as i64))
        }
    } else {
        Some(acc as i64)
    }
}

pub(crate) proof fn lemma_word_len_at(s: Seq<u8>, k: int, e: int)
    requires
        0 <= k <= e <= s.len(),
        forall|i: int| k <= i < e ==> !is_ws(#[trigger] s[i]),
        e == s.len() || is_ws(s[e]),
    ensures
        word_len(s.skip(k)) == e - k,
    decreases e - k,
{
    if k < e {
        lemma_word_len_at(s, k + 1, e);
        assert(s.skip(k).drop_first() =~= s.skip(k + 1));
    } else {
        if e < s.len() {
            assert(s.skip(k)[0] == s[e]);
        }
    }
}

/// Parses the words of `s[lo..hi]` as `u32`s.
fn parse_u32_words(s: &[u8], lo: usize, hi: usize) -> (r: Option<Vec<u32>>)
    requires
        lo <= hi <= s@.len(),
    ensures
        match r {
            Some(v) => spec_parse_u32s(spec_tokens(s@.subrange(lo as int, hi as int))) == Some(v@),
            None => spec_parse_u32s(spec_tokens(s@.subrange(lo as int, hi as int))) is None,
        },
{
    let ghost part = s@.subrange(lo as int, hi as int);
    let ghost mut done: Seq<Seq<u8>> = Seq::empty();
    let mut out: Vec<u32> = Vec::new();
    let mut k = lo;
    proof {
        assert(part.skip(0) =~= part);
    }
    while k < hi
        invariant
            lo <= k <= hi <= s@.len(),
            part == s@.subrange(lo as int, hi as int),
            spec_tokens(part) == done + spec_tokens(part.skip(k - lo)),
            out@.len() == done.len(),
            forall|i: int| 0 <= i < done.len() ==> spec_parse_u32(#[trigger] done[i]) == Some(out@[i]),
        decreases hi - k,
    {
        let ghost rest = part.skip(k - lo);
        if s[k] == 32u8 || (s[k] >= 9u8 && s[k] <= 13u8) {
            proof {
                assert(rest[0] == s@[k as int]);
                assert(rest.drop_first() =~= part.skip(k + 1 - lo));
            }
            k = k + 1;
        } else {
            let mut e = k;
            while e < hi && !(s[e] == 32u8 || (s[e] >= 9u8 && s[e] <= 13u8))
                invariant
                    k <= e <= hi <= s@.len(),
                    forall|i: int| k <= i < e ==> !is_ws(#[trigger] s@[i]),
                decreases hi - e,
            {
                e = e + 1;
            }
            proof {
                assert forall|i: int| k - lo <= i < e - lo implies !is_ws(#[trigger] part[i]) by {
                    assert(part[i] == s@[lo + i]);
                }
                if e < hi {
                    assert(part[e - lo] == s@[e as int]);
                }
                lemma_word_len_at(part, k - lo, e - lo);
                assert(rest[0] == s@[k as int]);
                assert(rest.take(e - k) =~= s@.subrange(k as int, e as int));
                assert(rest.skip(e - k) =~= part.skip(e - lo));
            }
            let v = parse_u32_range(s, k, e);
            match v {
                Some(x) => {
                    out.push(x);
                    proof {
                        let w = s@.subrange(k as int, e as int);
                        assert(spec_tokens(rest) == seq![w] + spec_tokens(part.skip(e - lo)));
                        let old_done = done;
                        done = done.push(w);
                        assert(spec_tokens(part) =~= done + spec_tokens(part.skip(e - lo)));
                        assert forall|i: int| 0 <= i < done.len() implies spec_parse_u32(#[trigger] done[i]) == Some(out@[i]) by {
                            if i < old_done.len() {
                                assert(done[i] == old_done[i]);
                            }
                        }
                    }
                    k = e;
                },
                None => {
                    proof {
                        let w = s@.subrange(k as int, e as int);
                        let toks = spec_tokens(part);
                        assert(spec_tokens(rest) == seq![w] + spec_tokens(part.skip(e - lo)));
                        assert(toks[done.len() as int] == w);
                    }
                    return None;
                },
            }
        }
    }
    proof {
        assert(part.skip(k - lo).len() == 0);
        assert(spec_tokens(part) =~= done);
        assert(spec_parse_u32s(done).unwrap() =~= out@);
    }
    Some(out)
}

/// Parses the words of `s[lo..hi]` as `i64`s.
fn parse_i64_words(s: &[u8], lo: usize, hi: usize) -> (r: Option<Vec<i64>>)
    requires
        lo <= hi <= s@.len(),
    ensures
        match r {
            Some(v) => spec_parse_i64s(spec_tokens(s@.subrange(lo as int, hi as int))) == Some(v@),
            None => spec_parse_i64s(spec_tokens(s@.subrange(lo as int, hi as int))) is None,
        },
{
    let ghost part = s@.subrange(lo as int, hi as int);
    let ghost mut done: Seq<Seq<u8>> = Seq::empty();
    let mut out: Vec<i64> = Vec::new();
    let mut k = lo;
    proof {
        assert(part.skip(0) =~= part);
    }
    while k < hi
        invariant
            lo <= k <= hi <= s@.len(),
            part == s@.subrange(lo as int, hi as int),
            spec_tokens(part) == done + spec_tokens(part.skip(k - lo)),
            out@.len() == done.len(),
            forall|i: int| 0 <= i < done.len() ==> spec_parse_i64(#[trigger] done[i]) == Some(out@[i]),
        decreases hi - k,
    {
        let ghost rest = part.skip(k - lo);
        if s[k] == 32u8 || (s[k] >= 9u8 && s[k] <= 13u8) {
            proof {
                assert(rest[0] == s@[k as int]);
                assert(rest.drop_first() =~= part.skip(k + 1 - lo));
            }
            k = k + 1;
        } else {
            let mut e = k;
            while e < hi && !(s[e] == 32u8 || (s[e] >= 9u8 && s[e] <= 13u8))
                invariant
                    k <= e <= hi <= s@.len(),
                    forall|i: int| k <= i < e ==> !is_ws(#[trigger] s@[i]),
                decreases hi - e,
            {
                e = e + 1;
            }
            proof {
                assert forall|i: int| k - lo <= i < e - lo implies !is_ws(#[trigger] part[i]) by {
                    assert(part[i] == s@[lo + i]);
                }
                if e < hi {
                    assert(part[e - lo] == s@[e as int]);
                }
                lemma_word_len_at(part, k - lo, e - lo);
                assert(rest[0] == s@[k as int]);
                assert(rest.take(e - k) =~= s@.subrange(k as int, e as int));
                assert(rest.skip(e - k) =~= part.skip(e - lo));
            }
            let v = parse_i64_range(s, k, e);
            match v {
                Some(x) => {
                    out.push(x);
                    proof {
                        let w = s@.subrange(k as int, e as int);
                        assert(spec_tokens(rest) == seq![w] + spec_tokens(part.skip(e - lo)));
                        let old_done = done;
                        done = done.push(w);
                        assert(spec_tokens(part) =~= done + spec_tokens(part.skip(e - lo)));
                        assert forall|i: int| 0 <= i < done.len() implies spec_parse_i64(#[trigger] done[i]) == Some(out@[i]) by {
                            if i < old_done.len() {
                                assert(done[i] == old_done[i]);
                            }
                        }
                    }
                    k = e;
                },
                None => {
                    proof {
                        let w = s@.subrange(k as int, e as int);
                        let toks = spec_tokens(part);
                        assert(spec_tokens(rest) == seq![w] + spec_tokens(part.skip(e - lo)));
                        assert(toks[done.len() as int] == w);
                    }
                    return None;
                },
            }
        }
    }
    proof {
        assert(part.skip(k - lo).len() == 0);
        assert(spec_tokens(part) =~= done);
        assert(spec_parse_i64s(done).unwrap() =~= out@);
    }
    Some(out)
}

} // verus!

verus! {

proof fn lemma_trim_start(s: Seq<u8>, a: int)
    requires
        0 <= a <= s.len(),
        forall|i: int| 0 <= i < a ==> is_ws(#[trigger] s[i]),
        a == s.len() || !is_ws(s[a]),
    ensures
        trim_start(s) == s.skip(a),
    decreases a,
{
    if a == 0 {
        assert(s.skip(0) =~= s);
    } else {
        lemma_trim_start(s.drop_first(), a - 1);
        assert(s.drop_first().skip(a - 1) =~= s.skip(a));
    }
}

proof fn lemma_trim_end(s: Seq<u8>, b: int)
    requires
        0 <= b <= s.len(),
        forall|i: int| b <= i < s.len() ==> is_ws(#[trigger] s[i]),
        b == 0 || !is_ws(s[b - 1]),
    ensures
        trim_end(s) == s.take(b),
    decreases s.len() - b,
{
    if b == s.len() {
        assert(s.take(b) =~= s);
    } else {
        lemma_trim_end(s.drop_last(), b);
        assert(s.drop_last().take(b) =~= s.take(b));
    }
}

proof fn lemma_colon_at(s: Seq<u8>, c: int)
    requires
        0 <= c <= s.len(),
        forall|i: int| 0 <= i < c ==> #[trigger] s[i] != 58,
        c == s.len() || s[c] == 58,
    ensures
        colon_index(s) == (if c == s.len() { -1 } else { c }),
    decreases c,
{
    if c > 0 {
        lemma_colon_at(s.drop_first(), c - 1);
    }
}

/// The bounds of `s[lo..hi]` without leading and trailing whitespace.
pub(crate) fn trim_range(s: &[u8], lo: usize, hi: usize) -> (r: (usize, usize))
    requires
        lo <= hi <= s@.len(),
    ensures
        lo <= r.0 <= r.1 <= hi,
        spec_trim(s@.subrange(lo as int, hi as int)) == s@.subrange(r.0 as int, r.1 as int),
{
    let ghost part = s@.subrange(lo as int, hi as int);
    let mut a = lo;
    while a < hi && (s[a] == 32u8 || (s[a] >= 9u8 && s[a] <= 13u8))
        invariant
            lo <= a <= hi <= s@.len(),
            forall|i: int| lo <= i < a ==> is_ws(#[trigger] s@[i]),
        decreases hi - a,
    {
        a = a + 1;
    }
    let mut b = hi;
    while b > a && (s[b - 1] == 32u8 || (s[b - 1] >= 9u8 && s[b - 1] <= 13u8))
        invariant
            lo <= a <= b <= hi <= s@.len(),
            forall|i: int| b <= i < hi ==> is_ws(#[trigger] s@[i]),
        decreases b - a,
    {
        b = b - 1;
    }
    proof {
        assert forall|i: int| 0 <= i < a - lo implies is_ws(#[trigger] part[i]) by {
            assert(part[i] == s@[lo + i]);
        }
        if a < hi {
            assert(part[a - lo] == s@[a as int]);
        }
        lemma_trim_start(part, a - lo);
        let ts = part.skip(a - lo);
        assert(ts =~= s@.subrange(a as int, hi as int));
        assert forall|i: int| b - a <= i < ts.len() implies is_ws(#[trigger] ts[i]) by {
            assert(ts[i] == s@[a + i]);
        }
        if b > a {
            assert(ts[b - a - 1] == s@[b - 1]);
        }
        lemma_trim_end(ts, b - a);
        assert(ts.take(b - a) =~= s@.subrange(a as int, b as int));
    }
    (a, b)
}

/// Index of the first `:` in `s[lo..hi]`, or `hi`.
pub(crate) fn find_colon(s: &[u8], lo: usize, hi: usize) -> (c: usize)
    requires
        lo <= hi <= s@.len(),
    ensures
        lo <= c <= hi,
        colon_index(s@.subrange(lo as int, hi as int)) == (if c == hi { -1 } else { c - lo }),
{
    let mut c = lo;
    while c < hi && s[c] != 58u8
        invariant
            lo <= c <= hi <= s@.len(),
            forall|i: int| lo <= i < c ==> #[trigger] s@[i] != 58,
        decreases hi - c,
    {
        c = c + 1;
    }
    proof {
        let part = s@.subrange(lo as int, hi as int);
        assert forall|i: int| 0 <= i < c - lo implies #[trigger] part[i] != 58 by {
            assert(part[i] == s@[lo + i]);
        }
        if c < hi {
            assert(part[c - lo] == s@[c as int]);
        }
        lemma_colon_at(part, c - lo);
    }
    c
}

/// Parses one trimmed SPMF line `items:transaction_utility:utilities` into a
/// transaction with id `tid`.
pub fn parse_spmf_line(line: &[u8], tid: u32) -> (r: Result<RawTransaction, ParseError>)
    ensures
        match (r, spec_parse_line(line@)) {
            (Ok(t), Ok((tu, items))) => t.tid == tid && t.transaction_utility == tu && t.items@ == items,
            (Err(e1), Err(e2)) => e1 == e2,
            _ => false,
        },
{
    let n = line.len();
    let c1 = find_colon(line, 0, n);
    proof {
        assert(line@.subrange(0, n as int) =~= line@);
    }
    if c1 == n {
        return Err(ParseError::MissingTransactionUtility);
    }
    let c2 = find_colon(line, c1 + 1, n);
    proof {
        assert(line@.subrange(c1 + 1, n as int) =~= line@.skip(c1 + 1));
    }
    if c2 == n {
        return Err(ParseError::MissingUtilities);
    }
    proof {
        let rest = line@.skip(c1 + 1);
        assert(line@.take(c1 as int) =~= line@.subrange(0, c1 as int));
        assert(rest.take(c2 - c1 - 1) =~= line@.subrange(c1 + 1, c2 as int));
        assert(rest.skip(c2 - c1) =~= line@.subrange(c2 + 1, n as int));
    }
    let items = match parse_u32_words(line, 0, c1) {
        Some(v) => v,
        None => {
            return Err(ParseError::BadItem);
        },
    };
    let (ta, tb) = trim_range(line, c1 + 1, c2);
    let tu = match parse_i64_range(line, ta, tb) {
        Some(v) => v,
        None => {
            return Err(ParseError::BadTransactionUtility);
        },
    };
    let utils = match parse_i64_words(line, c2 + 1, n) {
        Some(v) => v,
        None => {
            return Err(ParseError::BadUtility);
        },
    };
    if items.len() != utils.len() {
        return Err(ParseError::CountMismatch);
    }
    let mut entries: Vec<ItemEntry> = Vec::new();
    let mut i: usize = 0;
    while i < items.len()
        invariant
            items@.len() == utils@.len(),
            i <= items@.len(),
            entries@.len() == i,
            forall|k: int| 0 <= k < i ==> #[trigger] entries@[k] == (ItemEntry { item: items@[k], utility: utils@[k] }),
        decreases items@.len() - i,
    {
        entries.push(ItemEntry { item: items[i], utility: utils[i] });
        i += 1;
    }
    proof {
        let (tu2, es) = spec_parse_line(line@).unwrap();
        assert(entries@ =~= es);
    }
    Ok(RawTransaction { tid, transaction_utility: tu, items: entries })
}

} // verus!

verus! {

/// `std::str::from_utf8(..).is_ok()`: whether the bytes are valid UTF-8.
#[verifier::external_body]
pub(crate) fn is_valid_utf8(bytes: &[u8]) -> (r: bool)
    ensures
        r == valid_utf8(bytes@),
{
    std::str::from_utf8(bytes).is_ok()
}

/// End of the line that starts at `pos`: the first newline at or after it, or the end.
pub open spec fn line_end(data: Seq<u8>, pos: int) -> int
    decreases data.len() - pos,
{
    if pos >= data.len() {
        data.len() as int
    } else if data[pos] == 10 {
        pos
    } else {
        line_end(data, pos + 1)
    }
}

pub(crate) proof fn lemma_line_end(data: Seq<u8>, pos: int, e: int)
    requires
        0 <= pos <= e <= data.len(),
        forall|i: int| pos <= i < e ==> #[trigger] data[i] != 10,
        e == data.len() || data[e] == 10,
    ensures
        line_end(data, pos) == e,
    decreases e - pos,
{
    if pos < e {
        lemma_line_end(data, pos + 1, e);
    }
}

/// One step of reading: skips blank and `#` lines, then yields the next transaction
/// (numbered `tid`) or the error of the next line, with the position after that line
/// and the next transaction number.
pub open spec fn spec_next(data: Seq<u8>, pos: int, tid: u32)
    -> (Option<Result<(u32, i64, Seq<ItemEntry>), ParseError>>, int, u32)
    decreases data.len() - pos,
{
    if pos < 0 || pos >= data.len() {
        (None, pos, tid)
    } else {
        let e = line_end(data, pos);
        let np = if e < data.len() { e + 1 } else { data.len() as int };
        let line = data.subrange(pos, e);
        if !valid_utf8(line) {
            (Some(Err(ParseError::InvalidUtf8)), np, tid)
        } else {
            let t = spec_trim(line);
            if t.len() == 0 || t[0] == 35 {
                if np > pos { spec_next(data, np, tid) } else { (None, pos, tid) }
            } else {
                match spec_parse_line(t) {
                    Ok((tu, items)) => (Some(Ok((tid, tu, items))), np, (tid + 1) as u32),
                    Err(e) => (Some(Err(e)), np, tid),
                }
            }
        }
    }
}

/// Streaming reader of an SPMF database held as bytes; numbers transactions from 0.
pub struct DbReader {
    data: Vec<u8>,
    pos: usize,
    current_tid: u32,
}

impl DbReader {
    #[verifier::type_invariant]
    spec fn inv(&self) -> bool {
        self.pos <= self.data@.len()
    }

    /// The database text.
    pub closed spec fn data(&self) -> Seq<u8> {
        self.data@
    }

    /// Position of the next unread line.
    pub closed spec fn pos(&self) -> int {
        self.pos as int
    }

    /// Number that the next transaction gets.
    pub closed spec fn tid(&self) -> u32 {
        self.current_tid
    }

    /// A reader at the start of `data`.
    pub fn new(data: Vec<u8>) -> (r: Self)
        ensures
            r.data() == data@,
            r.pos() == 0,
            r.tid() == 0,
    {
        DbReader { data, pos: 0, current_tid: 0 }
    }

    /// Number that the next transaction gets.
    pub fn current_tid(&self) -> (r: u32)
        ensures
            r == self.tid(),
    {
        self.current_tid
    }

    /// The next transaction, the error of the next non-blank line, or `None` at the end.
    /// Blank lines and lines starting with `#` (after trimming) are skipped; only
    /// transactions read successfully advance the numbering.
    pub fn next(&mut self) -> (r: Option<Result<RawTransaction, ParseError>>)
        requires
            old(self).tid() < u32::MAX,
        ensures
            ({
                let (res, np, nt) = spec_next(old(self).data(), old(self).pos(), old(self).tid());
                &&& final(self).data() == old(self).data()
                &&& final(self).pos() == np
                &&& final(self).tid() == nt
                &&& match (r, res) {
                    (None, None) => true,
                    (Some(Ok(t)), Some(Ok((id, tu, items)))) => t.tid == id && t.transaction_utility == tu && t.items@ == items,
                    (Some(Err(e1)), Some(Err(e2))) => e1 == e2,
                    _ => false,
                }
            }),
    {
        proof {
            use_type_invariant(&*self);
        }
        let ghost d = self.data@;
        let ghost p0 = self.pos as int;
        let ghost t0 = self.current_tid;
        loop
            invariant
                self.data@ == d,
                self.current_tid == t0,
                t0 < u32::MAX,
                self.pos <= d.len(),
                spec_next(d, p0, t0) == spec_next(d, self.pos as int, t0),
                old(self).pos() == p0,
                old(self).data() == d,
                old(self).tid() == t0,
            decreases d.len() - self.pos,
        {
            let len = self.data.len();
            if self.pos >= len {
                return None;
            }
            let start = self.pos;
            let mut e = start;
            while e < len && self.data[e] != 10u8
                invariant
                    self.data@ == d,
                    len == d.len(),
                    start <= e <= len,
                    forall|i: int| start <= i < e ==> #[trigger] d[i] != 10,
                decreases len - e,
            {
                e = e + 1;
            }
            proof {
                lemma_line_end(d, start as int, e as int);
            }
            let np = if e < len { e + 1 } else { len };
            self.pos = np;
            if !is_valid_utf8(&self.data[start..e]) {
                return Some(Err(ParseError::InvalidUtf8));
            }
            let (a, b) = trim_range(&self.data, start, e);
            if a == b || self.data[a] == 35u8 {
                proof {
                    let t = spec_trim(d.subrange(start as int, e as int));
                    assert(t =~= d.subrange(a as int, b as int));
                    if a < b {
                        assert(t[0] == d[a as int]);
                    }
                }
                continue;
            }
            proof {
                let t = spec_trim(d.subrange(start as int, e as int));
                assert(t =~= d.subrange(a as int, b as int));
                assert(t[0] == d[a as int]);
            }
            match parse_spmf_line(&self.data[a..b], self.current_tid) {
                Ok(tx) => {
                    self.current_tid = self.current_tid + 1;
                    return Some(Ok(tx));
                },
                Err(err) => {
                    return Some(Err(err));
                },
            }
        }
    }
}

} // verus!
