//! Synthetic retail transactions for benchmark datasets, drawn with `rand`.
use vstd::prelude::*;
use rand::Rng;
use rand::rngs::ThreadRng;

verus! {

#[verifier::external_type_specification]
#[verifier::external_body]
pub struct ExThreadRng(ThreadRng);

/// Number of transactions in a generated dataset.
pub const SYNTHETIC_TRANSACTIONS: u64 = 5_000_000;

/// Item ids are drawn below this bound.
pub const SYNTHETIC_ITEMS: u32 = 40_000;

/// `Rng::gen_range` on `lo..hi`: a uniformly drawn value, of which only that it lies
/// in `lo..hi` is stated. The crate panics on an empty range, which `requires` rules out.
#[verifier::external_body]
fn gen_range(rng: &mut ThreadRng, lo: u32, hi: u32) -> (r: u32)
    requires
        lo < hi,
    ensures
        lo <= r < hi,
{
    rng.gen_range(lo..hi)
}

/// `Rng::gen_ratio`: `true` with chance `num` in `den`. Stated is what the crate's
/// documentation guarantees: always `true` when `num == den`, never when `num == 0`.
/// The crate panics unless `num <= den` and `den > 0`, which `requires` rules out.
#[verifier::external_body]
fn gen_ratio(rng: &mut ThreadRng, num: u32, den: u32) -> (r: bool)
    requires
        num <= den,
        0 < den,
    ensures
        num == den ==> r,
        num == 0 ==> !r,
{
    rng.gen_ratio(num, den)
}

pub open spec fn increasing_u32(s: Seq<u32>) -> bool {
    forall|i: int, j: int| 0 <= i < j < s.len() ==> s[i] < s[j]
}

pub open spec fn sum_u32(s: Seq<u32>) -> int
    decreases s.len(),
{
    if s.len() == 0 { 0 } else { sum_u32(s.drop_last()) + s.last() }
}

/// One generated transaction, as a dataset line writes it: the distinct items in
/// ascending order, the transaction utility, and the utilities in the order in which
/// their items were drawn.
pub struct SyntheticTransaction {
    pub items: Vec<u32>,
    pub total: u64,
    pub utilities: Vec<u32>,
}

impl SyntheticTransaction {
    /// What holds of every transaction the generator can draw.
    pub open spec fn well_formed(&self) -> bool {
        &&& 1 <= self.items@.len() < 50
        &&& self.utilities@.len() == self.items@.len()
        &&& increasing_u32(self.items@)
        &&& forall|i: int| 0 <= i < self.items@.len() ==> 1 <= #[trigger] self.items@[i] < SYNTHETIC_ITEMS
        &&& forall|i: int| 0 <= i < self.utilities@.len() ==> 10 <= #[trigger] self.utilities@[i] < 1000
        &&& self.total == sum_u32(self.utilities@)
    }
}

/// Adds `x` to the ascending, duplicate-free `items` unless it is there already;
/// says whether it was added.
fn insert_item(items: &mut Vec<u32>, x: u32) -> (added: bool)
    requires
        increasing_u32(old(items)@),
    ensures
        added == !old(items)@.contains(x),
        increasing_u32(final(items)@),
        forall|y: u32| final(items)@.contains(y) <==> (old(items)@.contains(y) || y == x),
        final(items)@.len() == old(items)@.len() + (if added { 1int } else { 0int }),
{
    let ghost s = items@;
    let mut p: usize = 0;
    while p < items.len() && items[p] < x
        invariant
            items@ == s,
            p <= s.len(),
            forall|q: int| 0 <= q < p ==> #[trigger] s[q] < x,
        decreases s.len() - p,
    {
        p = p + 1;
    }
    if p < items.len() && items[p] == x {
        assert(s.contains(x)) by {
            assert(s[p as int] == x);
        }
        return false;
    }
    assert(!s.contains(x)) by {
        assert forall|q: int| 0 <= q < s.len() implies s[q] != x by {
            if q >= p {
                assert(s[p as int] >= x);
                assert(s[p as int] <= s[q]);
            }
        }
    }
    items.insert(p, x);
    proof {
        let t = items@;
        assert(t =~= s.insert(p as int, x));
        assert forall|i: int, j: int| 0 <= i < j < t.len() implies t[i] < t[j] by {
            if p < s.len() {
                assert(s[p as int] > x);
            }
            if i < p && j == p {
                assert(t[i] == s[i]);
            } else if i < p && j > p {
                assert(t[i] == s[i] && t[j] == s[j - 1]);
            } else if i == p && j > p {
                assert(t[j] == s[j - 1]);
                assert(s[p as int] <= s[j - 1]);
            } else if j < p {
                assert(t[i] == s[i] && t[j] == s[j]);
            } else {
                assert(t[i] == s[i - 1] && t[j] == s[j - 1]);
            }
        }
        assert forall|y: u32| t.contains(y) <==> (s.contains(y) || y == x) by {
            if t.contains(y) {
                let k = choose|k: int| 0 <= k < t.len() && t[k] == y;
                if k < p {
                    assert(s[k] == y);
                } else if k > p {
                    assert(s[k - 1] == y);
                }
            }
            if s.contains(y) {
                let k = choose|k: int| 0 <= k < s.len() && s[k] == y;
                if k < p {
                    assert(t[k] == y);
                } else {
                    assert(t[k + 1] == y);
                }
            }
            if y == x {
                assert(t[p as int] == x);
            }
        }
    }
    true
}

/// The draws kept: each item's first draw, in draw order; later draws of an item that
/// was drawn before are skipped.
pub open spec fn first_draws(d: Seq<(u32, u32)>) -> Seq<(u32, u32)>
    decreases d.len(),
{
    if d.len() == 0 {
        Seq::empty()
    } else {
        let p = first_draws(d.drop_last());
        if drawn_before(d.drop_last(), d.last().0) { p } else { p.push(d.last()) }
    }
}

/// Some draw of `d` is of item `x`.
pub open spec fn drawn_before(d: Seq<(u32, u32)>, x: u32) -> bool {
    exists|k: int| 0 <= k < d.len() && d[k].0 == x
}

/// The transaction a sequence of `(item, utility)` draws gives: the distinct items in
/// ascending order, each item's first-drawn utility in draw order, and their sum.
pub fn build_transaction(draws: &Vec<(u32, u32)>) -> (r: SyntheticTransaction)
    requires
        draws@.len() <= u32::MAX,
    ensures
        increasing_u32(r.items@),
        forall|y: u32| r.items@.contains(y) <==> drawn_before(draws@, y),
        r.utilities@ == first_draws(draws@).map_values(|p: (u32, u32)| p.1),
        r.items@.len() == r.utilities@.len(),
        r.total == sum_u32(r.utilities@),
{
    let mut items: Vec<u32> = Vec::new();
    let mut utilities: Vec<u32> = Vec::new();
    let mut total: u64 = 0;
    let mut k: usize = 0;
    while k < draws.len()
        invariant
            k <= draws@.len(),
            draws@.len() <= u32::MAX,
            increasing_u32(items@),
            forall|y: u32| items@.contains(y) <==> drawn_before(draws@.take(k as int), y),
            utilities@ == first_draws(draws@.take(k as int)).map_values(|p: (u32, u32)| p.1),
            items@.len() == utilities@.len(),
            utilities@.len() <= k,
            total == sum_u32(utilities@),
            total <= 0xffff_ffff * utilities@.len(),
        decreases draws@.len() - k,
    {
        let (item, util) = draws[k];
        let ghost d0 = draws@.take(k as int);
        let ghost d1 = draws@.take(k + 1);
        proof {
            assert(d1.drop_last() =~= d0);
            assert(d1.last() == (item, util));
        }
        let ghost seen = drawn_before(d0, item);
        let added = insert_item(&mut items, item);
        proof {
            assert(added == !seen);
            assert forall|y: u32| items@.contains(y) <==> drawn_before(d1, y) by {
                if drawn_before(d0, y) {
                    let j = choose|j: int| 0 <= j < d0.len() && d0[j].0 == y;
                    assert(d1[j] == d0[j]);
                }
                if drawn_before(d1, y) {
                    let j = choose|j: int| 0 <= j < d1.len() && d1[j].0 == y;
                    if j < d0.len() {
                        assert(d0[j] == d1[j]);
                    }
                }
                if y == item {
                    assert(d1[k as int].0 == item);
                }
            }
        }
        if added {
            let ghost u0 = utilities@;
            utilities.push(util);
            proof {
                assert(u0.push(util).drop_last() =~= u0);
                assert(utilities@ =~= first_draws(d1).map_values(|p: (u32, u32)| p.1));
                assert(total + util <= 0xffff_ffff * utilities@.len()) by (nonlinear_arith)
                    requires
                        total <= 0xffff_ffff * u0.len(),
                        util <= 0xffff_ffff,
                        utilities@.len() == u0.len() + 1;
                assert(utilities@.len() <= k + 1);
                assert(0xffff_ffff * utilities@.len() <= 0xffff_ffff * 0x1_0000_0000) by (nonlinear_arith)
                    requires utilities@.len() <= 0x1_0000_0000;
            }
            total = total + util as u64;
        } else {
            proof {
                assert(first_draws(d1) == first_draws(d0));
            }
        }
        k = k + 1;
    }
    proof {
        assert(draws@.take(k as int) =~= draws@);
    }
    SyntheticTransaction { items, total, utilities }
}

/// Draws one synthetic retail transaction: nine in ten have 1 to 9 draws of an item,
/// the rest 10 to 49; four in five items come from the 499 popular ids below 500, the
/// others from the long tail below `SYNTHETIC_ITEMS`. A repeated item is skipped; each
/// new item gets a utility drawn from 10 to 999. The transaction is then built from the
/// kept draws by `build_transaction`.
pub fn synthetic_transaction(rng: &mut ThreadRng) -> (r: SyntheticTransaction)
    ensures
        r.well_formed(),
{
    let tx_len: u32 = if gen_ratio(rng, 9, 10) {
        gen_range(rng, 1, 10)
    } else {
        gen_range(rng, 10, 50)
    };
    let mut draws: Vec<(u32, u32)> = Vec::new();
    let mut k: u32 = 0;
    while k < tx_len
        invariant
            1 <= tx_len < 50,
            k <= tx_len,
            draws@.len() <= k,
            k > 0 ==> draws@.len() >= 1,
            forall|i: int| 0 <= i < draws@.len() ==> 1 <= (#[trigger] draws@[i]).0 < SYNTHETIC_ITEMS && 10 <= draws@[i].1 < 1000,
            forall|i: int, j: int| 0 <= i < j < draws@.len() ==> draws@[i].0 != draws@[j].0,
        decreases tx_len - k,
    {
        let item: u32 = if gen_ratio(rng, 4, 5) {
            gen_range(rng, 1, 500)
        } else {
            gen_range(rng, 500, SYNTHETIC_ITEMS)
        };
        let mut seen = false;
        let mut q: usize = 0;
        while q < draws.len()
            invariant
                q <= draws@.len(),
                seen == exists|j: int| 0 <= j < q && draws@[j].0 == item,
            decreases draws@.len() - q,
        {
            if draws[q].0 == item {
                seen = true;
            }
            q = q + 1;
        }
        if !seen {
            let util = gen_range(rng, 10, 1000);
            let ghost d0 = draws@;
            draws.push((item, util));
            proof {
                assert forall|i: int, j: int| 0 <= i < j < draws@.len() implies draws@[i].0 != draws@[j].0 by {
                    if j < d0.len() {
                        assert(draws@[i] == d0[i] && draws@[j] == d0[j]);
                    } else {
                        assert(draws@[i] == d0[i]);
                    }
                }
            }
        }
        k = k + 1;
    }
    let r = build_transaction(&draws);
    proof {
        lemma_first_draws_distinct(draws@);
        let f = first_draws(draws@);
        assert(r.utilities@.len() == draws@.len());
        assert forall|i: int| 0 <= i < r.items@.len() implies 1 <= #[trigger] r.items@[i] < SYNTHETIC_ITEMS by {
            assert(r.items@.contains(r.items@[i]));
            assert(drawn_before(draws@, r.items@[i]));
            let j = choose|j: int| 0 <= j < draws@.len() && draws@[j].0 == r.items@[i];
        }
        assert forall|i: int| 0 <= i < r.utilities@.len() implies 10 <= #[trigger] r.utilities@[i] < 1000 by {
            assert(r.utilities@[i] == f[i].1);
            assert(f[i] == draws@[i]);
        }
        assert(r.items@.contains(draws@[0].0)) by {
            assert(drawn_before(draws@, draws@[0].0));
        }
    }
    r
}

/// With no item drawn twice, every draw is kept.
proof fn lemma_first_draws_distinct(d: Seq<(u32, u32)>)
    requires
        forall|i: int, j: int| 0 <= i < j < d.len() ==> d[i].0 != d[j].0,
    ensures
        first_draws(d) == d,
    decreases d.len(),
{
    if d.len() > 0 {
        let p = d.drop_last();
        assert forall|i: int, j: int| 0 <= i < j < p.len() implies p[i].0 != p[j].0 by {
            assert(p[i] == d[i] && p[j] == d[j]);
        }
        lemma_first_draws_distinct(p);
        assert(!drawn_before(p, d.last().0)) by {
            if drawn_before(p, d.last().0) {
                let k = choose|k: int| 0 <= k < p.len() && p[k].0 == d.last().0;
                assert(d[k] == p[k]);
            }
        }
        assert(p.push(d.last()) =~= d);
    }
}

} // verus!
