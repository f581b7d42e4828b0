//! Progress of a mining run, shown by the dashboard.
use vstd::prelude::*;
use vstd::string::*;
use crate::types::ItemId;

verus! {

/// The character of decimal digit `d`.
pub open spec fn digit_char(d: int) -> char {
    (48 + d) as char
}

/// Decimal representation of `n`, most significant digit first, no leading zeros.
pub open spec fn spec_decimal(n: nat) -> Seq<char>
    decreases n,
{
    if n < 10 {
        seq![digit_char(n as int)]
    } else {
        spec_decimal(n / 10).push(digit_char((n % 10) as int))
    }
}

/// The items joined by `", "`.
pub open spec fn spec_join_items(s: Seq<u32>) -> Seq<char>
    decreases s.len(),
{
    if s.len() == 0 {
        Seq::empty()
    } else if s.len() == 1 {
        spec_decimal(s[0] as nat)
    } else {
        spec_join_items(s.drop_last()) + seq![',', ' '] + spec_decimal(s.last() as nat)
    }
}

/// Debug rendering of a list of items: `[1, 2, 3]`.
pub open spec fn spec_item_list_text(s: Seq<u32>) -> Seq<char> {
    seq!['['] + spec_join_items(s) + seq![']']
}

fn digit_str(d: u32) -> (r: &'static str)
    requires
        d < 10,
    ensures
        r@ == seq![digit_char(d as int)],
{
    proof {
        reveal_strlit("0");
        reveal_strlit("1");
        reveal_strlit("2");
        reveal_strlit("3");
        reveal_strlit("4");
        reveal_strlit("5");
        reveal_strlit("6");
        reveal_strlit("7");
        reveal_strlit("8");
        reveal_strlit("9");
    }
    if d == 0 {
        "0"
    } else if d == 1 {
        "1"
    } else if d == 2 {
        "2"
    } else if d == 3 {
        "3"
    } else if d == 4 {
        "4"
    } else if d == 5 {
        "5"
    } else if d == 6 {
        "6"
    } else if d == 7 {
        "7"
    } else if d == 8 {
        "8"
    } else {
        "9"
    }
}

/// Appends the decimal representation of `n`.
pub fn push_decimal(s: &mut String, n: u32)
    ensures
        final(s)@ == old(s)@ + spec_decimal(n as nat),
    decreases n,
{
    if n >= 10 {
        push_decimal(s, n / 10);
    }
    s.append(digit_str(n % 10));
    proof {
        assert(final(s)@ =~= old(s)@ + spec_decimal(n as nat));
    }
}

/// Renders a list of items as `[1, 2, 3]`.
pub fn item_list_text(p: &[ItemId]) -> (r: String)
    ensures
        r@ == spec_item_list_text(p@),
{
    let mut s = String::new();
    proof {
        reveal_strlit("[");
        reveal_strlit("]");
        reveal_strlit(", ");
    }
    s.append("[");
    let mut i: usize = 0;
    while i < p.len()
        invariant
            i <= p@.len(),
            s@ == seq!['['] + spec_join_items(p@.subrange(0, i as int)),
        decreases p@.len() - i,
    {
        proof {
            let t = p@.subrange(0, i as int + 1);
            assert(t.drop_last() =~= p@.subrange(0, i as int));
            assert(t.last() == p@[i as int]);
        }
        if i > 0 {
            s.append(", ");
        }
        push_decimal(&mut s, p[i]);
        proof {
            let t = p@.subrange(0, i as int + 1);
            assert(t.len() == i + 1);
            if i == 0 {
                assert(s@ =~= seq!['['] + spec_join_items(t));
            } else {
                assert(spec_join_items(t) == spec_join_items(t.drop_last()) + seq![',', ' ']
                    + spec_decimal(t.last() as nat));
                reveal_strlit(", ");
                assert(", "@ =~= seq![',', ' ']);
                assert(s@ =~= seq!['['] + spec_join_items(t));
            }
        }
        i += 1;
    }
    s.append("]");
    proof {
        assert(p@.subrange(0, p@.len() as int) =~= p@);
        assert(s@ =~= spec_item_list_text(p@));
    }
    s
}

/// Progress counters of a mining run.
pub struct MiningProgress {
    pub stage: String,
    pub huis_found: u64,
    pub current_depth: usize,
    pub fast_path_reads: u64,
    pub fast_path_writes: u64,
    pub active_prefix: String,
}

impl MiningProgress {
    /// Stage "Initializing", empty prefix "[]", all counters zero.
    pub fn new() -> (r: Self)
        ensures
            r.stage@ == "Initializing"@,
            r.active_prefix@ == "[]"@,
            r.huis_found == 0,
            r.current_depth == 0,
            r.fast_path_reads == 0,
            r.fast_path_writes == 0,
    {
        MiningProgress {
            stage: "Initializing".to_owned(),
            huis_found: 0,
            current_depth: 0,
            fast_path_reads: 0,
            fast_path_writes: 0,
            active_prefix: "[]".to_owned(),
        }
    }

    /// Replaces the stage text.
    pub fn set_stage(&mut self, s: &str)
        ensures
            final(self).stage@ == s@,
            final(self).active_prefix == old(self).active_prefix,
            final(self).huis_found == old(self).huis_found,
            final(self).current_depth == old(self).current_depth,
            final(self).fast_path_reads == old(self).fast_path_reads,
            final(self).fast_path_writes == old(self).fast_path_writes,
    {
        self.stage = s.to_owned();
    }

    /// Records the prefix being explored, rendered as `[1, 2, 3]`.
    pub fn set_active_prefix(&mut self, p: &[ItemId])
        ensures
            final(self).active_prefix@ == spec_item_list_text(p@),
            final(self).stage == old(self).stage,
            final(self).huis_found == old(self).huis_found,
            final(self).current_depth == old(self).current_depth,
            final(self).fast_path_reads == old(self).fast_path_reads,
            final(self).fast_path_writes == old(self).fast_path_writes,
    {
        self.active_prefix = item_list_text(p);
    }
}

} // verus!
