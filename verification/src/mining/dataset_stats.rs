//! Integer statistics of an SPMF dataset, gathered in one pass over its text.
use vstd::prelude::*;
use std::collections::HashSet;
use vstd::utf8::valid_utf8;
use crate::preprocessing::db_reader::{
    is_ws, spec_trim, spec_tokens, spec_parse_i64, colon_index, line_end, lemma_line_end, trim_range,
    parse_i64_range, find_colon, is_valid_utf8, word_len, lemma_word_len_bounds,
};
use crate::experiment::exactness_checker::{lenient_u32s, parse_u32_words_lenient, lemma_line_end_bounds};

verus! {

broadcast use vstd::std_specs::hash::group_hash_axioms;

/// What a trimmed line contributes, if it is not blank, not a comment (`#` or `@`) and
/// holds at least two `:`: the words before the first `:` that parse as items, and the
/// transaction utility between the first two `:` if it parses.
pub open spec fn line_record(t: Seq<u8>) -> Option<(Seq<u32>, Option<i64>)> {
    if t.len() == 0 || t[0] == 35 || t[0] == 64 {
        None
    } else {
        let c1 = colon_index(t);
        if c1 < 0 {
            None
        } else {
            let rest = t.skip(c1 + 1);
            let c2 = colon_index(rest);
            if c2 < 0 {
                None
            } else {
                Some((lenient_u32s(spec_tokens(t.take(c1))), spec_parse_i64(spec_trim(rest.take(c2)))))
            }
        }
    }
}

/// The records of the lines of `data` from `pos` on, in order.
pub open spec fn stat_records_from(data: Seq<u8>, pos: int) -> Seq<(Seq<u32>, Option<i64>)>
    decreases data.len() - pos,
{
    if pos < 0 || pos >= data.len() {
        Seq::empty()
    } else {
        proof {
            lemma_line_end_bounds(data, pos);
        }
        let e = line_end(data, pos);
        let np = if e < data.len() { e + 1 } else { data.len() as int };
        match line_record(spec_trim(data.subrange(pos, e))) {
            Some(r) => seq![r] + stat_records_from(data, np),
            None => stat_records_from(data, np),
        }
    }
}

/// Every line of `data` from `pos` on is valid UTF-8.
pub open spec fn lines_valid_from(data: Seq<u8>, pos: int) -> bool
    decreases data.len() - pos,
{
    if pos < 0 || pos >= data.len() {
        true
    } else {
        proof {
            lemma_line_end_bounds(data, pos);
        }
        let e = line_end(data, pos);
        let np = if e < data.len() { e + 1 } else { data.len() as int };
        valid_utf8(data.subrange(pos, e)) && lines_valid_from(data, np)
    }
}

/// The number of items over the records.
pub open spec fn items_total(recs: Seq<(Seq<u32>, Option<i64>)>) -> int
    decreases recs.len(),
{
    if recs.len() == 0 { 0 } else { items_total(recs.drop_last()) + recs.last().0.len() }
}

/// The largest number of items in a record (0 without records).
pub open spec fn longest(recs: Seq<(Seq<u32>, Option<i64>)>) -> int
    decreases recs.len(),
{
    if recs.len() == 0 {
        0
    } else if recs.last().0.len() > longest(recs.drop_last()) {
        recs.last().0.len() as int
    } else {
        longest(recs.drop_last())
    }
}

/// The transaction utilities that parse, summed with wrap-around at the ends of `i64`.
pub open spec fn utility_total(recs: Seq<(Seq<u32>, Option<i64>)>) -> i64
    decreases recs.len(),
{
    if recs.len() == 0 {
        0
    } else {
        match recs.last().1 {
            Some(tu) => vstd::wrapping::i64_specs::wrapping_add(utility_total(recs.drop_last()), tu),
            None => utility_total(recs.drop_last()),
        }
    }
}

/// The items that occur in the records.
pub open spec fn items_seen(recs: Seq<(Seq<u32>, Option<i64>)>) -> Set<u32>
    decreases recs.len(),
{
    if recs.len() == 0 { Set::empty() } else { items_seen(recs.drop_last()) + recs.last().0.to_set() }
}

/// Counts over the lines of a dataset.
#[derive(Debug, Clone, Copy, PartialEq, Eq)]
pub struct DatasetCounts {
    /// Lines that hold a transaction.
    pub num_transactions: usize,
    /// Items over all transactions.
    pub total_items: usize,
    /// Items of the longest transaction.
    pub max_transaction_length: usize,
    /// Summed transaction utilities, wrapping at the ends of `i64`.
    pub total_utility: i64,
    /// Distinct items.
    pub num_unique_items: usize,
}

/// Bytes one item of a loaded transaction takes: its id, utility and remaining utility.
pub const DB_ITEM_BYTES: usize = 20;

impl DatasetCounts {
    /// Estimated bytes of the transactions once loaded: `DB_ITEM_BYTES` per item,
    /// wrapping at the top of `usize`.
    pub fn estimated_db_ram_bytes(&self) -> (r: usize)
        ensures
            r == vstd::wrapping::usize_specs::wrapping_mul(self.total_items, DB_ITEM_BYTES),
    {
        self.total_items.wrapping_mul(DB_ITEM_BYTES)
    }
}

/// Each word is at least one byte: a text holds no more words than bytes.
proof fn lemma_tokens_len(s: Seq<u8>)
    ensures
        spec_tokens(s).len() <= s.len(),
    decreases s.len(),
{
    if s.len() > 0 {
        if is_ws(s[0]) {
            lemma_tokens_len(s.drop_first());
        } else {
            lemma_word_len_bounds(s);
            lemma_tokens_len(s.skip(word_len(s) as int));
        }
    }
}

proof fn lemma_lenient_len(toks: Seq<Seq<u8>>)
    ensures
        lenient_u32s(toks).len() <= toks.len(),
    decreases toks.len(),
{
    if toks.len() > 0 {
        lemma_lenient_len(toks.drop_last());
    }
}

/// Counts the transactions of an SPMF text in one pass: the lines that hold at least two
/// `:` once blank lines and comments (`#`, `@`) are set aside, their items (the words
/// before the first `:` that parse), the longest, the transaction utilities that parse,
/// and the distinct items. `None` when a line is not valid UTF-8.
pub fn dataset_counts(data: &[u8]) -> (r: Option<DatasetCounts>)
    ensures
        r is Some <==> lines_valid_from(data@, 0),
        r matches Some(c) ==> {
            let recs = stat_records_from(data@, 0);
            &&& c.num_transactions == recs.len()
            &&& c.total_items == items_total(recs)
            &&& c.max_transaction_length == longest(recs)
            &&& c.total_utility == utility_total(recs)
            &&& c.num_unique_items == items_seen(recs).len()
        },
{
    let ghost d = data@;
    let len = data.len();
    let mut num_transactions: usize = 0;
    let mut total_items: usize = 0;
    let mut max_len: usize = 0;
    let mut total_utility: i64 = 0;
    let mut seen: HashSet<u32> = HashSet::new();
    let ghost mut recs: Seq<(Seq<u32>, Option<i64>)> = Seq::empty();
    let mut pos: usize = 0;
    while pos < len
        invariant
            d == data@,
            len == d.len(),
            pos <= len,
            stat_records_from(d, 0) == recs + stat_records_from(d, pos as int),
            lines_valid_from(d, 0) == lines_valid_from(d, pos as int),
            num_transactions == recs.len(),
            num_transactions <= pos,
            total_items == items_total(recs),
            total_items <= pos,
            max_len == longest(recs),
            total_utility == utility_total(recs),
            seen@ == items_seen(recs),
        decreases len - pos,
    {
        let start = pos;
        let mut e = start;
        while e < len && data[e] != 10u8
            invariant
                d == data@,
                len == d.len(),
                start <= e <= len,
                forall|i: int| start <= i < e ==> #[trigger] d[i] != 10,
            decreases len - e,
        {
            e = e + 1;
        }
        proof {
            lemma_line_end(d, start as int, e as int);
        }
        let np = if e < len { e + 1 } else { len };
        if !is_valid_utf8(&data[start..e]) {
            proof {
                assert(data@.subrange(start as int, e as int) == d.subrange(start as int, e as int));
            }
            return None;
        }
        proof {
            assert(data@.subrange(start as int, e as int) == d.subrange(start as int, e as int));
        }
        pos = np;
        let (a, b) = trim_range(data, start, e);
        let ghost t = d.subrange(a as int, b as int);
        proof {
            assert(spec_trim(d.subrange(start as int, e as int)) == t);
        }
        if a == b || data[a] == 35u8 || data[a] == 64u8 {
            proof {
                if a < b {
                    assert(t[0] == d[a as int]);
                }
                assert(line_record(t) is None);
            }
            continue;
        }
        proof {
            assert(t[0] == d[a as int]);
        }
        let c1 = find_colon(data, a, b);
        if c1 == b {
            continue;
        }
        let c2 = find_colon(data, c1 + 1, b);
        proof {
            assert(d.subrange(c1 + 1, b as int) =~= t.skip(c1 - a + 1));
        }
        if c2 == b {
            continue;
        }
        let items = parse_u32_words_lenient(data, a, c1);
        let (x, y) = trim_range(data, c1 + 1, c2);
        let tu = parse_i64_range(data, x, y);
        let ghost rest = t.skip(c1 - a + 1);
        let ghost rec = (items@, tu);
        proof {
            assert(t.take(c1 - a) =~= d.subrange(a as int, c1 as int));
            assert(rest.take(c2 - c1 - 1) =~= d.subrange(c1 + 1, c2 as int));
            assert(line_record(t) == Some(rec));
            lemma_tokens_len(d.subrange(a as int, c1 as int));
            lemma_lenient_len(spec_tokens(d.subrange(a as int, c1 as int)));
        }
        let n = items.len();
        num_transactions = num_transactions + 1;
        total_items = total_items + n;
        if n > max_len {
            max_len = n;
        }
        match tu {
            Some(v) => {
                total_utility = total_utility.wrapping_add(v);
            },
            None => {},
        }
        let ghost base = seen@;
        let mut k: usize = 0;
        while k < items.len()
            invariant
                k <= items@.len(),
                base == items_seen(recs),
                seen@ == base + items@.take(k as int).to_set(),
            decreases items@.len() - k,
        {
            let ghost before = seen@;
            seen.insert(items[k]);
            proof {
                let s0 = items@.take(k as int);
                let s1 = items@.take(k + 1);
                assert(s1 =~= s0.push(items@[k as int]));
                assert(s1.to_set() =~= s0.to_set().insert(items@[k as int])) by {
                    assert forall|v: u32| s1.to_set().contains(v) <==> s0.to_set().insert(items@[k as int]).contains(v) by {
                        if s1.contains(v) {
                            let j = choose|j: int| 0 <= j < s1.len() && s1[j] == v;
                            if j < k {
                                assert(s0[j] == v);
                            }
                        }
                        if s0.contains(v) {
                            let j = choose|j: int| 0 <= j < s0.len() && s0[j] == v;
                            assert(s1[j] == v);
                        }
                        if v == items@[k as int] {
                            assert(s1[k as int] == v);
                        }
                    }
                }
                assert(seen@ =~= base + s1.to_set());
            }
            k = k + 1;
        }
        proof {
            let old_recs = recs;
            recs = recs.push(rec);
            assert(recs.drop_last() =~= old_recs);
            assert(items@.take(k as int) =~= items@);
            assert(seen@ =~= items_seen(recs));
            assert(stat_records_from(d, start as int) == seq![rec] + stat_records_from(d, np as int));
            assert(old_recs + (seq![rec] + stat_records_from(d, np as int)) =~= recs + stat_records_from(d, np as int));
        }
    }
    proof {
        assert(recs + stat_records_from(d, pos as int) =~= recs);
    }
    Some(DatasetCounts {
        num_transactions,
        total_items,
        max_transaction_length: max_len,
        total_utility,
        num_unique_items: seen.len(),
    })
}

} // verus!
