//! Comparison of two result listings: which itemsets are missing, extra, or carry
//! another utility.
use vstd::prelude::*;
use crate::preprocessing::db_reader::{
    is_ws, spec_tokens, spec_trim, spec_parse_u32, spec_parse_i64, line_end, lemma_line_end,
    lemma_word_len_at, parse_u32_range, parse_i64_range, trim_range,
};

verus! {

/// The outcome of comparing a result listing against a reference listing.
#[derive(Debug, Clone, Copy, PartialEq, Eq)]
pub struct ExactnessResult {
    /// Itemsets of the reference that the listing lacks.
    pub false_negatives: usize,
    /// Itemsets of the listing that the reference lacks.
    pub false_positives: usize,
    /// Itemsets in both whose utilities differ.
    pub utility_mismatches: usize,
    /// None of the three occurred.
    pub exact: bool,
}

/// The separator between the items and the utility of a result line: `#UTIL:`.
pub open spec fn util_marker() -> Seq<u8> {
    seq![35u8, 85u8, 84u8, 73u8, 76u8, 58u8]
}

/// Whether the separator starts at index `i` of `s`.
pub open spec fn marker_at(s: Seq<u8>, i: int) -> bool {
    0 <= i && i + 6 <= s.len() && s.subrange(i, i + 6) == util_marker()
}

/// Index of the first separator in `s`, or -1.
pub open spec fn marker_index(s: Seq<u8>) -> int
    decreases s.len(),
{
    if s.len() < 6 {
        -1
    } else if s.take(6) == util_marker() {
        0
    } else {
        let r = marker_index(s.drop_first());
        if r < 0 { -1 } else { r + 1 }
    }
}

/// The values of the words that parse as `u32`, in order; the other words are dropped.
pub open spec fn lenient_u32s(toks: Seq<Seq<u8>>) -> Seq<u32>
    decreases toks.len(),
{
    if toks.len() == 0 {
        Seq::empty()
    } else {
        lenient_u32s(toks.drop_last()) + match spec_parse_u32(toks.last()) {
            Some(v) => seq![v],
            None => Seq::<u32>::empty(),
        }
    }
}

/// `x` placed before the first element of `s` that is not smaller.
pub open spec fn insert_sorted(s: Seq<u32>, x: u32) -> Seq<u32>
    decreases s.len(),
{
    if s.len() == 0 {
        seq![x]
    } else if x <= s[0] {
        seq![x] + s
    } else {
        seq![s[0]] + insert_sorted(s.drop_first(), x)
    }
}

/// `s` in ascending order.
pub open spec fn spec_sort(s: Seq<u32>) -> Seq<u32>
    decreases s.len(),
{
    if s.len() == 0 { Seq::empty() } else { insert_sorted(spec_sort(s.drop_last()), s.last()) }
}

/// The itemset and utility of a trimmed, non-empty result line: the words before the
/// first `#UTIL:` that parse as items, sorted, and the utility after it (0 when it is
/// missing or does not parse).
pub open spec fn spec_hui_record(t: Seq<u8>) -> (Seq<u32>, i64) {
    let m = marker_index(t);
    let items_part = if m < 0 { t } else { t.take(m) };
    let util = if m < 0 {
        0i64
    } else {
        match spec_parse_i64(spec_trim(t.skip(m + 6))) {
            Some(u) => u,
            None => 0i64,
        }
    };
    (spec_sort(lenient_u32s(spec_tokens(items_part))), util)
}

pub proof fn lemma_line_end_bounds(data: Seq<u8>, pos: int)
    requires
        0 <= pos <= data.len(),
    ensures
        pos <= line_end(data, pos) <= data.len(),
    decreases data.len() - pos,
{
    if pos < data.len() && data[pos] != 10 {
        lemma_line_end_bounds(data, pos + 1);
    }
}

/// The records of the non-blank lines of `data` from `pos` on, in order.
pub open spec fn hui_records_from(data: Seq<u8>, pos: int) -> Seq<(Seq<u32>, i64)>
    decreases data.len() - pos,
{
    if pos < 0 || pos >= data.len() {
        Seq::empty()
    } else {
        proof {
            lemma_line_end_bounds(data, pos);
        }
        let e = line_end(data, pos);
        let np = if e < data.len() { e + 1 } else { data.len() as int };
        let t = spec_trim(data.subrange(pos, e));
        if t.len() == 0 {
            hui_records_from(data, np)
        } else {
            seq![spec_hui_record(t)] + hui_records_from(data, np)
        }
    }
}

/// The records of a whole listing.
pub open spec fn hui_records(data: Seq<u8>) -> Seq<(Seq<u32>, i64)> {
    hui_records_from(data, 0)
}

/// Records held in vectors, viewed as sequences.
pub open spec fn records_view(v: Seq<(Vec<u32>, i64)>) -> Seq<(Seq<u32>, i64)> {
    Seq::new(v.len(), |i: int| (v[i].0@, v[i].1))
}

/// Whether some record among the first `n` has itemset `s`.
pub open spec fn has_itemset(r: Seq<(Seq<u32>, i64)>, n: int, s: Seq<u32>) -> bool {
    exists|j: int| 0 <= j < n && j < r.len() && (#[trigger] r[j]).0 == s
}

/// Index of the first record with itemset `s`, or -1.
pub open spec fn first_with(r: Seq<(Seq<u32>, i64)>, s: Seq<u32>) -> int
    decreases r.len(),
{
    if r.len() == 0 {
        -1
    } else {
        let p = first_with(r.drop_last(), s);
        if p >= 0 { p } else if r.last().0 == s { r.len() - 1 } else { -1 }
    }
}

/// Record `i` is the first with its itemset.
pub open spec fn first_occurrence(r: Seq<(Seq<u32>, i64)>, i: int) -> bool {
    !has_itemset(r, i, r[i].0)
}

/// Number of distinct itemsets among the first `n` records of `r` that `a` lacks.
pub open spec fn count_missing(r: Seq<(Seq<u32>, i64)>, a: Seq<(Seq<u32>, i64)>, n: int) -> nat
    decreases n,
{
    if n <= 0 {
        0
    } else {
        count_missing(r, a, n - 1) + (if first_occurrence(r, n - 1) && !has_itemset(a, a.len() as int, r[n - 1].0) { 1nat } else { 0nat })
    }
}

/// Number of distinct itemsets among the first `n` records of `r` that `a` also holds,
/// with another utility at their first occurrence.
pub open spec fn count_mismatched(r: Seq<(Seq<u32>, i64)>, a: Seq<(Seq<u32>, i64)>, n: int) -> nat
    decreases n,
{
    if n <= 0 {
        0
    } else {
        count_mismatched(r, a, n - 1) + (if first_occurrence(r, n - 1) && has_itemset(a, a.len() as int, r[n - 1].0)
            && a[first_with(a, r[n - 1].0)].1 != r[n - 1].1 { 1nat } else { 0nat })
    }
}

/// Index of the first separator in `s[lo..hi]`, or `hi`.
fn find_marker(s: &[u8], lo: usize, hi: usize) -> (c: usize)
    requires
        lo <= hi <= s@.len(),
    ensures
        lo <= c <= hi,
        c < hi ==> c + 6 <= hi,
        marker_index(s@.subrange(lo as int, hi as int)) == (if c == hi { -1 } else { c - lo }),
{
    let ghost part = s@.subrange(lo as int, hi as int);
    let mut c = lo;
    while 6 <= hi - c
        invariant
            lo <= c <= hi <= s@.len(),
            part == s@.subrange(lo as int, hi as int),
            forall|i: int| 0 <= i < c - lo ==> !marker_at(part, i),
        decreases hi - c,
    {
        if s[c] == 35u8 && s[c + 1] == 85u8 && s[c + 2] == 84u8 && s[c + 3] == 73u8 && s[c + 4] == 76u8 && s[c + 5] == 58u8 {
            proof {
                assert(part.subrange(c - lo, c - lo + 6) =~= util_marker());
                lemma_marker_index(part, c - lo);
            }
            return c;
        }
        proof {
            assert(!marker_at(part, c - lo)) by {
                if part.subrange(c - lo, c - lo + 6) == util_marker() {
                    assert(part.subrange(c - lo, c - lo + 6)[0] == s@[c as int]);
                    assert(part.subrange(c - lo, c - lo + 6)[1] == s@[c + 1]);
                    assert(part.subrange(c - lo, c - lo + 6)[2] == s@[c + 2]);
                    assert(part.subrange(c - lo, c - lo + 6)[3] == s@[c + 3]);
                    assert(part.subrange(c - lo, c - lo + 6)[4] == s@[c + 4]);
                    assert(part.subrange(c - lo, c - lo + 6)[5] == s@[c + 5]);
                }
            }
        }
        c = c + 1;
    }
    proof {
        lemma_marker_index(part, c - lo);
    }
    hi
}

proof fn lemma_marker_index(s: Seq<u8>, c: int)
    requires
        0 <= c <= s.len(),
        forall|i: int| 0 <= i < c ==> !marker_at(s, i),
        marker_at(s, c) || c + 6 > s.len(),
    ensures
        marker_index(s) == (if marker_at(s, c) { c } else { -1 }),
    decreases c,
{
    if s.len() >= 6 {
        if c == 0 {
            assert(s.take(6) =~= s.subrange(0, 6));
        } else {
            assert(!marker_at(s, 0));
            assert(s.take(6) =~= s.subrange(0, 6));
            let t = s.drop_first();
            assert forall|i: int| 0 <= i < c - 1 implies !marker_at(t, i) by {
                if i + 6 <= t.len() {
                    assert(t.subrange(i, i + 6) =~= s.subrange(i + 1, i + 7));
                    assert(!marker_at(s, i + 1));
                }
            }
            if marker_at(s, c) {
                assert(t.subrange(c - 1, c + 5) =~= s.subrange(c, c + 6));
            }
            lemma_marker_index(t, c - 1);
        }
    }
}

/// The words of `s[lo..hi]` that parse as `u32`, in order.
pub(crate) fn parse_u32_words_lenient(s: &[u8], lo: usize, hi: usize) -> (r: Vec<u32>)
    requires
        lo <= hi <= s@.len(),
    ensures
        r@ == lenient_u32s(spec_tokens(s@.subrange(lo as int, hi as int))),
{
    let ghost part = s@.subrange(lo as int, hi as int);
    let ghost mut done: Seq<Seq<u8>> = Seq::empty();
    let mut out: Vec<u32> = Vec::new();
    let mut k = lo;
    proof {
        assert(part.skip(0) =~= part);
    }
    while k < hi
        invariant
            lo <= k <= hi <= s@.len(),
            part == s@.subrange(lo as int, hi as int),
            spec_tokens(part) == done + spec_tokens(part.skip(k - lo)),
            out@ == lenient_u32s(done),
        decreases hi - k,
    {
        let ghost rest = part.skip(k - lo);
        if s[k] == 32u8 || (s[k] >= 9u8 && s[k] <= 13u8) {
            proof {
                assert(rest[0] == s@[k as int]);
                assert(rest.drop_first() =~= part.skip(k + 1 - lo));
            }
            k = k + 1;
        } else {
            let mut e = k;
            while e < hi && !(s[e] == 32u8 || (s[e] >= 9u8 && s[e] <= 13u8))
                invariant
                    k <= e <= hi <= s@.len(),
                    forall|i: int| k <= i < e ==> !is_ws(#[trigger] s@[i]),
                decreases hi - e,
            {
                e = e + 1;
            }
            proof {
                assert forall|i: int| k - lo <= i < e - lo implies !is_ws(#[trigger] part[i]) by {
                    assert(part[i] == s@[lo + i]);
                }
                if e < hi {
                    assert(part[e - lo] == s@[e as int]);
                }
                lemma_word_len_at(part, k - lo, e - lo);
                assert(rest[0] == s@[k as int]);
                assert(rest.take(e - k) =~= s@.subrange(k as int, e as int));
                assert(rest.skip(e - k) =~= part.skip(e - lo));
            }
            let v = parse_u32_range(s, k, e);
            proof {
                let w = s@.subrange(k as int, e as int);
                assert(spec_tokens(rest) == seq![w] + spec_tokens(part.skip(e - lo)));
                let old_done = done;
                done = done.push(w);
                assert(done.drop_last() =~= old_done);
                assert(spec_tokens(part) =~= done + spec_tokens(part.skip(e - lo)));
            }
            match v {
                Some(x) => {
                    out.push(x);
                },
                None => {
                    proof {
                        assert(out@ =~= lenient_u32s(done));
                    }
                },
            }
            k = e;
        }
    }
    proof {
        assert(part.skip(k - lo).len() == 0);
        assert(spec_tokens(part) =~= done);
    }
    out
}

proof fn lemma_insert_at(s: Seq<u32>, x: u32, p: int)
    requires
        0 <= p <= s.len(),
        forall|i: int| 0 <= i < p ==> #[trigger] s[i] < x,
        p == s.len() || x <= s[p],
    ensures
        insert_sorted(s, x) == s.take(p) + seq![x] + s.skip(p),
    decreases p,
{
    if s.len() == 0 {
        assert(s.take(p) + seq![x] + s.skip(p) =~= seq![x]);
    } else if p == 0 {
        assert(s.take(p) + seq![x] + s.skip(p) =~= seq![x] + s);
    } else {
        let t = s.drop_first();
        assert forall|i: int| 0 <= i < p - 1 implies #[trigger] t[i] < x by {
            assert(t[i] == s[i + 1]);
        }
        if p < s.len() {
            assert(t[p - 1] == s[p]);
        }
        lemma_insert_at(t, x, p - 1);
        assert(seq![s[0]] + (t.take(p - 1) + seq![x] + t.skip(p - 1)) =~= s.take(p) + seq![x] + s.skip(p));
    }
}

/// `v` in ascending order, by insertion.
pub(crate) fn sort_items(v: &Vec<u32>) -> (r: Vec<u32>)
    ensures
        r@ == spec_sort(v@),
{
    let mut out: Vec<u32> = Vec::new();
    let mut i: usize = 0;
    while i < v.len()
        invariant
            i <= v@.len(),
            out@ == spec_sort(v@.take(i as int)),
        decreases v@.len() - i,
    {
        let x = v[i];
        let mut p: usize = 0;
        while p < out.len() && out[p] < x
            invariant
                p <= out@.len(),
                forall|q: int| 0 <= q < p ==> #[trigger] out@[q] < x,
            decreases out@.len() - p,
        {
            p = p + 1;
        }
        proof {
            lemma_insert_at(out@, x, p as int);
            assert(v@.take(i + 1).drop_last() =~= v@.take(i as int));
        }
        out.insert(p, x);
        proof {
            assert(out@ =~= spec_sort(v@.take(i + 1)));
        }
        i = i + 1;
    }
    proof {
        assert(v@.take(i as int) =~= v@);
    }
    out
}

/// The record of the trimmed, non-empty line `s[lo..hi]`.
fn parse_hui_line(s: &[u8], lo: usize, hi: usize) -> (r: (Vec<u32>, i64))
    requires
        lo <= hi <= s@.len(),
    ensures
        (r.0@, r.1) == spec_hui_record(s@.subrange(lo as int, hi as int)),
{
    let ghost t = s@.subrange(lo as int, hi as int);
    let m = find_marker(s, lo, hi);
    let items_end = m;
    let items = parse_u32_words_lenient(s, lo, items_end);
    let sorted = sort_items(&items);
    let util: i64 = if m == hi {
        0
    } else {
        let (a, b) = trim_range(s, m + 6, hi);
        match parse_i64_range(s, a, b) {
            Some(u) => u,
            None => 0,
        }
    };
    proof {
        if m == hi {
            assert(t =~= s@.subrange(lo as int, items_end as int));
        } else {
            assert(t.take(m - lo) =~= s@.subrange(lo as int, m as int));
            assert(t.skip(m - lo + 6) =~= s@.subrange(m + 6, hi as int));
        }
    }
    (sorted, util)
}

/// The records of the non-blank lines of a listing, in order.
fn parse_hui_records(data: &[u8]) -> (r: Vec<(Vec<u32>, i64)>)
    ensures
        records_view(r@) == hui_records(data@),
{
    let ghost d = data@;
    let len = data.len();
    let mut out: Vec<(Vec<u32>, i64)> = Vec::new();
    let mut pos: usize = 0;
    while pos < len
        invariant
            d == data@,
            len == d.len(),
            pos <= len,
            hui_records(d) == records_view(out@) + hui_records_from(d, pos as int),
        decreases len - pos,
    {
        let start = pos;
        let mut e = start;
        while e < len && data[e] != 10u8
            invariant
                len == d.len(),
                d == data@,
                start <= e <= len,
                forall|i: int| start <= i < e ==> #[trigger] d[i] != 10,
            decreases len - e,
        {
            e = e + 1;
        }
        proof {
            lemma_line_end(d, start as int, e as int);
        }
        let np = if e < len { e + 1 } else { len };
        let (a, b) = trim_range(data, start, e);
        let ghost old_out = out@;
        if a < b {
            let rec = parse_hui_line(data, a, b);
            out.push(rec);
            proof {
                assert(spec_trim(d.subrange(start as int, e as int)) == d.subrange(a as int, b as int));
                assert(records_view(out@) =~= records_view(old_out) + seq![spec_hui_record(d.subrange(a as int, b as int))]);
            }
        }
        pos = np;
    }
    proof {
        assert(records_view(out@) + hui_records_from(d, pos as int) =~= records_view(out@));
    }
    out
}

/// Whether two itemsets are equal.
fn same_items(x: &Vec<u32>, y: &Vec<u32>) -> (r: bool)
    ensures
        r == (x@ == y@),
{
    if x.len() != y.len() {
        return false;
    }
    let mut i: usize = 0;
    while i < x.len()
        invariant
            x@.len() == y@.len(),
            i <= x@.len(),
            forall|q: int| 0 <= q < i ==> x@[q] == y@[q],
        decreases x@.len() - i,
    {
        if x[i] != y[i] {
            return false;
        }
        i = i + 1;
    }
    proof {
        assert(x@ =~= y@);
    }
    true
}

proof fn lemma_first_with(r: Seq<(Seq<u32>, i64)>, s: Seq<u32>, j: int)
    requires
        0 <= j < r.len(),
        r[j].0 == s,
        !has_itemset(r, j, s),
    ensures
        first_with(r, s) == j,
    decreases r.len(),
{
    if j < r.len() - 1 {
        assert(r.drop_last()[j] == r[j]);
        assert(!has_itemset(r.drop_last(), j, s)) by {
            if has_itemset(r.drop_last(), j, s) {
                let q = choose|q: int| 0 <= q < j && q < r.drop_last().len() && (#[trigger] r.drop_last()[q]).0 == s;
                assert(r[q] == r.drop_last()[q]);
            }
        }
        lemma_first_with(r.drop_last(), s, j);
    } else {
        lemma_first_absent(r.drop_last(), s);
    }
}

proof fn lemma_first_absent(r: Seq<(Seq<u32>, i64)>, s: Seq<u32>)
    requires
        !has_itemset(r, r.len() as int, s),
    ensures
        first_with(r, s) == -1,
    decreases r.len(),
{
    if r.len() > 0 {
        assert(!has_itemset(r.drop_last(), r.len() - 1, s)) by {
            if has_itemset(r.drop_last(), r.len() - 1, s) {
                let q = choose|q: int| 0 <= q < r.len() - 1 && q < r.drop_last().len() && (#[trigger] r.drop_last()[q]).0 == s;
                assert(r[q] == r.drop_last()[q]);
            }
        }
        lemma_first_absent(r.drop_last(), s);
        assert(r[r.len() - 1] == r.last());
    }
}

/// Index of the first of the first `lim` records with the itemset `s`, if any.
fn find_itemset(recs: &Vec<(Vec<u32>, i64)>, lim: usize, s: &Vec<u32>) -> (r: Option<usize>)
    requires
        lim <= recs@.len(),
    ensures
        match r {
            Some(j) => j < lim && records_view(recs@)[j as int].0 == s@
                && !has_itemset(records_view(recs@), j as int, s@),
            None => !has_itemset(records_view(recs@), lim as int, s@),
        },
{
    let ghost rv = records_view(recs@);
    let mut j: usize = 0;
    while j < lim
        invariant
            lim <= recs@.len(),
            rv == records_view(recs@),
            j <= lim,
            !has_itemset(rv, j as int, s@),
        decreases lim - j,
    {
        if same_items(&recs[j].0, s) {
            return Some(j);
        }
        proof {
            assert(rv[j as int].0 != s@);
        }
        j = j + 1;
    }
    None
}

/// Counts of distinct itemsets of `r` missing from `a`, and of those present in `a`
/// with another utility.
fn compare_records(r: &Vec<(Vec<u32>, i64)>, a: &Vec<(Vec<u32>, i64)>) -> (res: (usize, usize))
    ensures
        res.0 == count_missing(records_view(r@), records_view(a@), r@.len() as int),
        res.1 == count_mismatched(records_view(r@), records_view(a@), r@.len() as int),
{
    let ghost rv = records_view(r@);
    let ghost av = records_view(a@);
    let mut missing: usize = 0;
    let mut mismatched: usize = 0;
    let mut i: usize = 0;
    while i < r.len()
        invariant
            rv == records_view(r@),
            av == records_view(a@),
            i <= r@.len(),
            missing == count_missing(rv, av, i as int),
            mismatched == count_mismatched(rv, av, i as int),
            missing <= i,
            mismatched <= i,
        decreases r@.len() - i,
    {
        let earlier = find_itemset(r, i, &r[i].0);
        let first = match earlier {
            Some(_) => false,
            None => true,
        };
        proof {
            if let Some(j) = earlier {
                assert(has_itemset(rv, i as int, rv[i as int].0)) by {
                    assert(rv[j as int].0 == rv[i as int].0);
                }
            }
        }
        if first {
            match find_itemset(a, a.len(), &r[i].0) {
                None => {
                    missing = missing + 1;
                },
                Some(j) => {
                    proof {
                        lemma_first_with(av, rv[i as int].0, j as int);
                    }
                    if a[j].1 != r[i].1 {
                        mismatched = mismatched + 1;
                    }
                },
            }
        }
        i = i + 1;
    }
    (missing, mismatched)
}

proof fn lemma_self_counts(r: Seq<(Seq<u32>, i64)>, n: int)
    requires
        0 <= n <= r.len(),
    ensures
        count_missing(r, r, n) == 0,
        count_mismatched(r, r, n) == 0,
    decreases n,
{
    if n > 0 {
        lemma_self_counts(r, n - 1);
        let k = n - 1;
        assert(has_itemset(r, r.len() as int, r[k].0));
        if first_occurrence(r, k) {
            lemma_first_with(r, r[k].0, k);
        }
    }
}

/// A listing compared against itself is exact.
pub proof fn law_identical_listings_are_exact(data: Seq<u8>)
    ensures
        count_missing(hui_records(data), hui_records(data), hui_records(data).len() as int) == 0,
        count_mismatched(hui_records(data), hui_records(data), hui_records(data).len() as int) == 0,
{
    lemma_self_counts(hui_records(data), hui_records(data).len() as int);
}

/// Compares a result listing (`output`) against a reference listing. Each non-blank
/// line `items #UTIL: u` is one record; items are compared as sorted sets, repeated
/// itemsets count once, and a repeated itemset is compared by its first utility.
pub fn verify_exactness(reference: &[u8], output: &[u8]) -> (r: ExactnessResult)
    ensures
        r.false_negatives == count_missing(hui_records(reference@), hui_records(output@), hui_records(reference@).len() as int),
        r.false_positives == count_missing(hui_records(output@), hui_records(reference@), hui_records(output@).len() as int),
        r.utility_mismatches == count_mismatched(hui_records(reference@), hui_records(output@), hui_records(reference@).len() as int),
        r.exact == (r.false_negatives == 0 && r.false_positives == 0 && r.utility_mismatches == 0),
{
    let refs = parse_hui_records(reference);
    let outs = parse_hui_records(output);
    let (false_negatives, utility_mismatches) = compare_records(&refs, &outs);
    let (false_positives, _) = compare_records(&outs, &refs);
    let exact = false_negatives == 0 && false_positives == 0 && utility_mismatches == 0;
    ExactnessResult { false_negatives, false_positives, utility_mismatches, exact }
}

} // verus!
