//! Utility-list bodies: their byte encoding and the join of two lists.
use vstd::prelude::*;
use crate::types::{PageId, ULEntry, UtilityList, RecomputeFlag};
use crate::types::itemset::{Itemset, itemset_items};
use crate::storage::{ChunkStore, StoreError};
use crate::storage::page_layout::PageFlags;
use crate::storage::le_bytes::{spec_u32_le, spec_i64_le, push_u32_le, push_i64_le, read_u32_le, read_i64_le, lemma_le_lengths, lemma_le_injective};

verus! {

/// Bodies of at least this many bytes are written to the store.
pub const MATERIALIZE_THRESHOLD_BYTES: usize = 4096;

/// The 20 bytes of one entry: tid, internal utility, remaining utility (little-endian).
pub open spec fn spec_ul_entry_bytes(e: ULEntry) -> Seq<u8> {
    spec_u32_le(e.tid) + spec_i64_le(e.iutils) + spec_i64_le(e.rutils)
}

/// The bytes of a body: its entries' bytes, one after another.
pub open spec fn spec_ul_body_bytes(s: Seq<ULEntry>) -> Seq<u8>
    decreases s.len(),
{
    if s.len() == 0 {
        Seq::empty()
    } else {
        spec_ul_body_bytes(s.drop_last()) + spec_ul_entry_bytes(s.last())
    }
}

pub proof fn lemma_ul_body_bytes(s: Seq<ULEntry>)
    ensures
        spec_ul_body_bytes(s).len() == 20 * s.len(),
        forall|i: int| 0 <= i < s.len() ==>
            #[trigger] spec_ul_body_bytes(s).subrange(20 * i, 20 * i + 20) == spec_ul_entry_bytes(s[i]),
    decreases s.len(),
{
    lemma_le_lengths();
    if s.len() > 0 {
        lemma_ul_body_bytes(s.drop_last());
        let b = spec_ul_body_bytes(s);
        let a = spec_ul_body_bytes(s.drop_last());
        assert forall|i: int| 0 <= i < s.len() implies
            #[trigger] b.subrange(20 * i, 20 * i + 20) == spec_ul_entry_bytes(s[i]) by {
            if i < s.len() - 1 {
                assert(b.subrange(20 * i, 20 * i + 20) =~= a.subrange(20 * i, 20 * i + 20));
            } else {
                assert(b.subrange(20 * i, 20 * i + 20) =~= spec_ul_entry_bytes(s.last()));
            }
        }
    }
}

/// Encodes a body as bytes.
pub fn serialize_ul_body(entries: &[ULEntry]) -> (r: Vec<u8>)
    ensures
        r@ == spec_ul_body_bytes(entries@),
{
    let mut buf: Vec<u8> = Vec::new();
    let mut i: usize = 0;
    while i < entries.len()
        invariant
            i <= entries@.len(),
            buf@ == spec_ul_body_bytes(entries@.subrange(0, i as int)),
        decreases entries@.len() - i,
    {
        let e = entries[i];
        push_u32_le(&mut buf, e.tid);
        push_i64_le(&mut buf, e.iutils);
        push_i64_le(&mut buf, e.rutils);
        proof {
            let t = entries@.subrange(0, i as int + 1);
            assert(t.drop_last() =~= entries@.subrange(0, i as int));
            assert(buf@ =~= spec_ul_body_bytes(t));
        }
        i += 1;
    }
    proof {
        assert(entries@.subrange(0, entries@.len() as int) =~= entries@);
    }
    buf
}

/// Decodes a body whose length is a multiple of 20 bytes; decoding the encoding of
/// a body gives the body back.
pub fn deserialize_ul_body(bytes: &[u8]) -> (r: Vec<ULEntry>)
    requires
        bytes@.len() % 20 == 0,
    ensures
        r@.len() == bytes@.len() / 20,
        forall|i: int| 0 <= i < r@.len() ==>
            #[trigger] spec_ul_entry_bytes(r@[i]) == bytes@.subrange(20 * i, 20 * i + 20),
        forall|s: Seq<ULEntry>| #[trigger] spec_ul_body_bytes(s) == bytes@ ==> r@ == s,
{
    let len = bytes.len();
    let n = len / 20;
    let mut out: Vec<ULEntry> = Vec::new();
    let mut k: usize = 0;
    while k < n
        invariant
            n == bytes@.len() / 20,
            len == bytes@.len(),
            bytes@.len() % 20 == 0,
            k <= n,
            out@.len() == k,
            forall|i: int| 0 <= i < k ==>
                #[trigger] spec_ul_entry_bytes(out@[i]) == bytes@.subrange(20 * i, 20 * i + 20),
        decreases n - k,
    {
        proof {
            assert(k * 20 + 20 <= bytes@.len()) by (nonlinear_arith)
                requires
                    k < n,
                    n == bytes@.len() / 20,
                    bytes@.len() % 20 == 0,
            ;
        }
        let base = k * 20;
        let tid = read_u32_le(bytes, base);
        let iutils = read_i64_le(bytes, base + 4);
        let rutils = read_i64_le(bytes, base + 12);
        let e = ULEntry { tid, iutils, rutils };
        proof {
            lemma_le_lengths();
            assert(spec_ul_entry_bytes(e) =~= bytes@.subrange(20 * k, 20 * k + 20));
        }
        out.push(e);
        k += 1;
    }
    proof {
        assert forall|s: Seq<ULEntry>| #[trigger] spec_ul_body_bytes(s) == bytes@ implies out@ == s by {
            lemma_ul_body_bytes(s);
            lemma_le_lengths();
            lemma_le_injective();
            assert forall|i: int| 0 <= i < s.len() implies out@[i] == s[i] by {
                let a = out@[i];
                let b = s[i];
                let ba = spec_ul_entry_bytes(a);
                let bb = spec_ul_entry_bytes(b);
                assert(ba == bb);
                assert(ba.subrange(0, 4) =~= spec_u32_le(a.tid));
                assert(bb.subrange(0, 4) =~= spec_u32_le(b.tid));
                assert(ba.subrange(4, 12) =~= spec_i64_le(a.iutils));
                assert(bb.subrange(4, 12) =~= spec_i64_le(b.iutils));
                assert(ba.subrange(12, 20) =~= spec_i64_le(a.rutils));
                assert(bb.subrange(12, 20) =~= spec_i64_le(b.rutils));
            }
            assert(out@ =~= s);
        }
    }
    out
}

} // verus!

verus! {

/// Whether a value fits in an `i64`.
pub open spec fn in_i64(v: int) -> bool {
    i64::MIN <= v <= i64::MAX
}

/// Entries ordered by strictly increasing tid, as every utility list is.
pub open spec fn tid_sorted(s: Seq<ULEntry>) -> bool {
    forall|i: int, j: int| 0 <= i < j < s.len() ==> s[i].tid < s[j].tid
}

/// The entry of `s` with tid `tid`, if any.
pub open spec fn find_tid(s: Seq<ULEntry>, tid: u32) -> Option<ULEntry>
    decreases s.len(),
{
    if s.len() == 0 {
        None
    } else if s.last().tid == tid {
        Some(s.last())
    } else {
        find_tid(s.drop_last(), tid)
    }
}

/// Internal utility of the prefix in transaction `tid` (0 if absent).
pub open spec fn prefix_iutils(p: Seq<ULEntry>, tid: u32) -> int {
    match find_tid(p, tid) {
        Some(e) => e.iutils as int,
        None => 0,
    }
}

/// Internal utility of the joined itemset in the transaction of `x` and `y`.
pub open spec fn join_iutils(p: Seq<ULEntry>, x: ULEntry, y: ULEntry) -> int {
    x.iutils + y.iutils - prefix_iutils(p, x.tid)
}

/// The joined body: for each tid that `xs` and `ys` share, in the order of `xs`, the
/// entry with utility `x + y - prefix` and the remaining utility of `y`.
pub open spec fn spec_join(p: Seq<ULEntry>, xs: Seq<ULEntry>, ys: Seq<ULEntry>) -> Seq<ULEntry>
    decreases xs.len(),
{
    if xs.len() == 0 {
        Seq::empty()
    } else {
        let r = spec_join(p, xs.drop_last(), ys);
        let x = xs.last();
        match find_tid(ys, x.tid) {
            Some(y) => r.push(ULEntry { tid: x.tid, iutils: join_iutils(p, x, y) as i64, rutils: y.rutils }),
            None => r,
        }
    }
}

/// Sum of internal utilities of a body.
pub open spec fn sum_iutils(s: Seq<ULEntry>) -> int
    decreases s.len(),
{
    if s.len() == 0 { 0 } else { sum_iutils(s.drop_last()) + s.last().iutils }
}

/// Sum of remaining utilities of a body.
pub open spec fn sum_rutils(s: Seq<ULEntry>) -> int
    decreases s.len(),
{
    if s.len() == 0 { 0 } else { sum_rutils(s.drop_last()) + s.last().rutils }
}

/// Every value the join computes, and every running sum, fits in an `i64`.
pub open spec fn join_fits(p: Seq<ULEntry>, xs: Seq<ULEntry>, ys: Seq<ULEntry>) -> bool
    decreases xs.len(),
{
    if xs.len() == 0 {
        true
    } else {
        let x = xs.last();
        &&& join_fits(p, xs.drop_last(), ys)
        &&& match find_tid(ys, x.tid) {
            Some(y) => {
                &&& in_i64(x.iutils + y.iutils)
                &&& in_i64(join_iutils(p, x, y))
                &&& in_i64(sum_iutils(spec_join(p, xs, ys)))
                &&& in_i64(sum_rutils(spec_join(p, xs, ys)))
            },
            None => true,
        }
    }
}

/// Where a joined body is kept.
#[derive(Debug)]
pub enum UlBody {
    /// Small body: entries kept in RAM.
    InMemory(Vec<ULEntry>),
    /// Large body: written to the store under this page.
    OnDisk(PageId),
}

pub(crate) proof fn lemma_find_sorted(s: Seq<ULEntry>, k: int)
    requires
        tid_sorted(s),
        0 <= k < s.len(),
    ensures
        find_tid(s, s[k].tid) == Some(s[k]),
    decreases s.len(),
{
    if k < s.len() - 1 {
        assert(s.last().tid != s[k].tid);
        assert(tid_sorted(s.drop_last()));
        lemma_find_sorted(s.drop_last(), k);
    }
}

proof fn lemma_find_absent(s: Seq<ULEntry>, tid: u32)
    requires
        forall|k: int| 0 <= k < s.len() ==> s[k].tid != tid,
    ensures
        find_tid(s, tid) is None,
    decreases s.len(),
{
    if s.len() > 0 {
        lemma_find_absent(s.drop_last(), tid);
    }
}

proof fn lemma_join_take_step(p: Seq<ULEntry>, xs: Seq<ULEntry>, ys: Seq<ULEntry>, i: int)
    requires
        0 <= i < xs.len(),
    ensures
        xs.take(i + 1).drop_last() == xs.take(i),
        xs.take(i + 1).last() == xs[i],
        spec_join(p, xs.take(i + 1), ys) == (match find_tid(ys, xs[i].tid) {
            Some(y) => spec_join(p, xs.take(i), ys).push(
                ULEntry { tid: xs[i].tid, iutils: join_iutils(p, xs[i], y) as i64, rutils: y.rutils }),
            None => spec_join(p, xs.take(i), ys),
        }),
        join_fits(p, xs.take(i + 1), ys) == (join_fits(p, xs.take(i), ys) && match find_tid(ys, xs[i].tid) {
            Some(y) => {
                &&& in_i64(xs[i].iutils + y.iutils)
                &&& in_i64(join_iutils(p, xs[i], y))
                &&& in_i64(sum_iutils(spec_join(p, xs.take(i + 1), ys)))
                &&& in_i64(sum_rutils(spec_join(p, xs.take(i + 1), ys)))
            },
            None => true,
        }),
{
    assert(xs.take(i + 1).drop_last() =~= xs.take(i));
}

proof fn lemma_join_fits_take(p: Seq<ULEntry>, xs: Seq<ULEntry>, ys: Seq<ULEntry>, i: int)
    requires
        join_fits(p, xs, ys),
        0 <= i <= xs.len(),
    ensures
        join_fits(p, xs.take(i), ys),
    decreases xs.len(),
{
    if i == xs.len() {
        assert(xs.take(i) =~= xs);
    } else {
        lemma_join_fits_take(p, xs.drop_last(), ys, i);
        assert(xs.drop_last().take(i) =~= xs.take(i));
    }
}

proof fn lemma_join_rest_absent(p: Seq<ULEntry>, xs: Seq<ULEntry>, ys: Seq<ULEntry>, i: int)
    requires
        0 <= i <= xs.len(),
        forall|k: int, m: int| i <= k < xs.len() && 0 <= m < ys.len() ==> xs[k].tid != ys[m].tid,
    ensures
        spec_join(p, xs, ys) == spec_join(p, xs.take(i), ys),
    decreases xs.len() - i,
{
    if i < xs.len() {
        lemma_join_rest_absent(p, xs, ys, i + 1);
        lemma_find_absent(ys, xs[i].tid);
        lemma_join_take_step(p, xs, ys, i);
    } else {
        assert(xs.take(i) =~= xs);
    }
}

/// Joins the utility lists of `prefix + X` and `prefix + Y` into that of
/// `prefix + X + Y`: an entry for each transaction that both lists share, with the
/// utility of X plus that of Y minus that of the prefix, and the remaining utility of
/// Y. Bodies of at least 4096 bytes are written to the store as a utility-list page.
pub fn join_utility_lists<S: ChunkStore>(
    itemset: Itemset,
    prefix_body: &[ULEntry],
    px_body: &[ULEntry],
    py_body: &[ULEntry],
    store: &S,
) -> (r: Result<(UtilityList, UlBody), StoreError>)
    requires
        tid_sorted(prefix_body@),
        tid_sorted(px_body@),
        tid_sorted(py_body@),
        join_fits(prefix_body@, px_body@, py_body@),
    ensures
        ({
            let j = spec_join(prefix_body@, px_body@, py_body@);
            &&& 20 * j.len() < MATERIALIZE_THRESHOLD_BYTES ==> r is Ok
            &&& r matches Ok((ul, body)) ==> {
                &&& ul.items() == itemset_items(&itemset)
                &&& ul.sum_iutils == sum_iutils(j)
                &&& ul.sum_rutils == sum_rutils(j)
                &&& ul.len == j.len() as u32
                &&& ul.resident
                &&& ul.recompute == (if ul.page_id == 0 { RecomputeFlag::Recomputable } else { RecomputeFlag::Materialized })
                &&& match body {
                    UlBody::InMemory(v) => 20 * j.len() < MATERIALIZE_THRESHOLD_BYTES && v@ == j && ul.page_id == 0,
                    UlBody::OnDisk(id) => 20 * j.len() >= MATERIALIZE_THRESHOLD_BYTES && ul.page_id == id,
                }
            }
        }),
{
    let ghost ps = prefix_body@;
    let ghost xs = px_body@;
    let ghost ys = py_body@;
    let mut result: Vec<ULEntry> = Vec::new();
    let mut sum_i: i64 = 0;
    let mut sum_r: i64 = 0;
    let mut i: usize = 0;
    let mut j: usize = 0;
    let mut p: usize = 0;
    proof {
        assert(xs.take(0) =~= Seq::<ULEntry>::empty());
    }
    while i < px_body.len() && j < py_body.len()
        invariant
            ps == prefix_body@,
            xs == px_body@,
            ys == py_body@,
            tid_sorted(ps),
            tid_sorted(xs),
            tid_sorted(ys),
            join_fits(ps, xs, ys),
            i <= xs.len(),
            j <= ys.len(),
            p <= ps.len(),
            result@ == spec_join(ps, xs.take(i as int), ys),
            sum_i == sum_iutils(result@),
            sum_r == sum_rutils(result@),
            i < xs.len() ==> forall|m: int| 0 <= m < j ==> ys[m].tid < xs[i as int].tid,
            j < ys.len() ==> forall|k: int| 0 <= k < i ==> xs[k].tid < ys[j as int].tid,
            i < xs.len() ==> forall|q: int| 0 <= q < p ==> ps[q].tid < xs[i as int].tid,
        decreases xs.len() - i + ys.len() - j,
    {
        let x = px_body[i];
        let y = py_body[j];
        if x.tid == y.tid {
            let tid = x.tid;
            while p < prefix_body.len() && prefix_body[p].tid < tid
                invariant
                    ps == prefix_body@,
                    p <= ps.len(),
                    forall|q: int| 0 <= q < p ==> ps[q].tid < tid,
                decreases ps.len() - p,
            {
                p += 1;
            }
            proof {
                lemma_find_sorted(ys, j as int);
                lemma_join_take_step(ps, xs, ys, i as int);
                lemma_join_fits_take(ps, xs, ys, i as int + 1);
                if p < ps.len() && ps[p as int].tid == tid {
                    lemma_find_sorted(ps, p as int);
                } else {
                    assert forall|q: int| 0 <= q < ps.len() implies ps[q].tid != tid by {
                        if q >= p {
                            if q > p {
                                assert(ps[p as int].tid < ps[q].tid);
                            }
                        }
                    }
                    lemma_find_absent(ps, tid);
                }
            }
            let pre: i64 = if p < prefix_body.len() && prefix_body[p].tid == tid {
                prefix_body[p].iutils
            } else {
                0
            };
            let iutils = x.iutils + y.iutils - pre;
            let rutils = y.rutils;
            let e = ULEntry { tid, iutils, rutils };
            result.push(e);
            proof {
                assert(result@.drop_last() =~= spec_join(ps, xs.take(i as int), ys));
            }
            sum_i = sum_i + iutils;
            sum_r = sum_r + rutils;
            proof {
                if i + 1 < xs.len() {
                    assert(xs[i as int].tid < xs[i + 1].tid);
                }
                if j + 1 < ys.len() {
                    assert(ys[j as int].tid < ys[j + 1].tid);
                }
            }
            i += 1;
            j += 1;
        } else if x.tid < y.tid {
            proof {
                assert forall|m: int| 0 <= m < ys.len() implies ys[m].tid != xs[i as int].tid by {
                    if m > j {
                        assert(ys[j as int].tid < ys[m].tid);
                    }
                }
                lemma_find_absent(ys, xs[i as int].tid);
                lemma_join_take_step(ps, xs, ys, i as int);
                if i + 1 < xs.len() {
                    assert(xs[i as int].tid < xs[i + 1].tid);
                }
            }
            i += 1;
        } else {
            proof {
                if j + 1 < ys.len() {
                    assert(ys[j as int].tid < ys[j + 1].tid);
                }
            }
            j += 1;
        }
    }
    proof {
        if j == ys.len() && i < xs.len() {
            assert forall|k: int, m: int| i <= k < xs.len() && 0 <= m < ys.len() implies xs[k].tid != ys[m].tid by {
                if k > i {
                    assert(xs[i as int].tid < xs[k].tid);
                }
            }
        }
        lemma_join_rest_absent(ps, xs, ys, i as int);
    }
    let body_bytes = serialize_ul_body(result.as_slice());
    proof {
        lemma_ul_body_bytes(result@);
    }
    let len = result.len() as u32;
    let body = if body_bytes.len() >= MATERIALIZE_THRESHOLD_BYTES {
        let page_id = store.next_page_id();
        match store.write_page(page_id, body_bytes.as_slice(), PageFlags::ul_body()) {
            Ok(()) => {},
            Err(e) => {
                return Err(e);
            },
        }
        UlBody::OnDisk(page_id)
    } else {
        UlBody::InMemory(result)
    };
    let page_id: PageId = match &body {
        UlBody::OnDisk(id) => *id,
        UlBody::InMemory(_) => 0,
    };
    let ul = UtilityList {
        itemset,
        sum_iutils: sum_i,
        sum_rutils: sum_r,
        len,
        page_id,
        resident: true,
        recompute: if page_id == 0 { RecomputeFlag::Recomputable } else { RecomputeFlag::Materialized },
    };
    Ok((ul, body))
}

} // verus!
