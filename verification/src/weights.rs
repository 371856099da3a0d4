//! The validator-weight table: the sole authority on which validators are
//! considered when scoring blocks.

use vstd::prelude::*;
use crate::model::{Error, Validator, Weight};

verus! {

/// No validator occurs twice among the entries.
pub open spec fn unique_validators(ws: Seq<(Validator, Weight)>) -> bool {
    forall|i: int, j: int|
        0 <= i < j < ws.len() ==> (#[trigger] ws[i]).0 != (#[trigger] ws[j]).0
}

/// The total voting power of the entries.
pub open spec fn spec_sum(ws: Seq<(Validator, Weight)>) -> int
    decreases ws.len(),
{
    if ws.len() == 0 {
        0
    } else {
        spec_sum(ws.drop_last()) + ws.last().1
    }
}

/// The entries as a mapping from validator to weight.
pub open spec fn spec_weight_map(ws: Seq<(Validator, Weight)>) -> Map<Validator, Weight>
    decreases ws.len(),
{
    if ws.len() == 0 {
        Map::empty()
    } else {
        spec_weight_map(ws.drop_last()).insert(ws.last().0, ws.last().1)
    }
}

/// With unique validators, the mapping holds exactly the entries.
pub proof fn lemma_weight_map_props(ws: Seq<(Validator, Weight)>)
    requires
        unique_validators(ws),
    ensures
        forall|v: Validator|
            spec_weight_map(ws).contains_key(v) <==> exists|i: int|
                0 <= i < ws.len() && (#[trigger] ws[i]).0 == v,
        forall|i: int|
            0 <= i < ws.len() ==> spec_weight_map(ws).contains_key((#[trigger] ws[i]).0)
                && spec_weight_map(ws)[ws[i].0] == ws[i].1,
    decreases ws.len(),
{
    if ws.len() > 0 {
        let pre = ws.drop_last();
        lemma_weight_map_props(pre);
        assert(forall|i: int| 0 <= i < pre.len() ==> #[trigger] pre[i] == ws[i]);
        assert forall|i: int| 0 <= i < ws.len() implies spec_weight_map(ws).contains_key(
            (#[trigger] ws[i]).0,
        ) && spec_weight_map(ws)[ws[i].0] == ws[i].1 by {
            if i < ws.len() - 1 {
                assert(ws[i].0 != ws.last().0);
                assert(pre[i] == ws[i]);
            }
        }
        assert forall|v: Validator| spec_weight_map(ws).contains_key(v) implies exists|i: int|
            0 <= i < ws.len() && (#[trigger] ws[i]).0 == v by {
            if v == ws.last().0 {
                assert(ws[ws.len() - 1].0 == v);
            } else {
                assert(spec_weight_map(pre).contains_key(v));
                let i = choose|i: int| 0 <= i < pre.len() && (#[trigger] pre[i]).0 == v;
                assert(ws[i].0 == v);
            }
        }
        assert forall|v: Validator|
            (exists|i: int| 0 <= i < ws.len() && (#[trigger] ws[i]).0 == v) implies
            spec_weight_map(ws).contains_key(v) by {
            let i = choose|i: int| 0 <= i < ws.len() && (#[trigger] ws[i]).0 == v;
            if i < ws.len() - 1 {
                assert(pre[i] == ws[i]);
                assert(spec_weight_map(pre).contains_key(v));
            }
        }
    }
}

/// A validated weight table: validators unique and real, and the total weight
/// small enough that no score can overflow a [`Weight`].
pub struct Weights {
    entries: Vec<(Validator, Weight)>,
}

impl View for Weights {
    type V = Seq<(Validator, Weight)>;

    closed spec fn view(&self) -> Seq<(Validator, Weight)> {
        self.entries@
    }
}

impl Weights {
    /// The table's invariant, established by [`Weights::new`].
    pub open spec fn wf(self) -> bool {
        &&& unique_validators(self@)
        &&& forall|i: int| 0 <= i < self@.len() ==> (#[trigger] self@[i]).0 != 0
        &&& spec_sum(self@) <= Weight::MAX
    }

    /// The table as a mapping from validator to weight.
    pub open spec fn map(self) -> Map<Validator, Weight> {
        spec_weight_map(self@)
    }

    /// Validates a weight table at the boundary: rejects the reserved
    /// validator `0`, duplicate validators, and a total weight too large to
    /// score without overflow; otherwise keeps the entries as given.
    pub fn new(entries: Vec<(Validator, Weight)>) -> (r: Result<Weights, Error>)
        ensures
            ({
                let es = entries@;
                if exists|i: int| 0 <= i < es.len() && (#[trigger] es[i]).0 == 0 {
                    r == Err::<Weights, Error>(Error::ReservedValidator)
                } else if !unique_validators(es) {
                    r == Err::<Weights, Error>(Error::DuplicateValidator)
                } else if spec_sum(es) > Weight::MAX {
                    r == Err::<Weights, Error>(Error::WeightOverflow)
                } else {
                    r matches Ok(w) && w@ == es && w.wf()
                }
            }),
    {
        let n = entries.len();
        for i in 0..n
            invariant
                n == entries@.len(),
                forall|k: int| 0 <= k < i ==> (#[trigger] entries@[k]).0 != 0,
        {
            if entries[i].0 == 0 {
                return Err(Error::ReservedValidator);
            }
        }
        for i in 0..n
            invariant
                n == entries@.len(),
                forall|k: int| 0 <= k < n ==> (#[trigger] entries@[k]).0 != 0,
                forall|k1: int, k2: int|
                    0 <= k1 < k2 < entries@.len() && k1 < i ==> (#[trigger] entries@[k1]).0 != (
                    #[trigger] entries@[k2]).0,
        {
            for j in i + 1..n
                invariant
                    n == entries@.len(),
                    i < n,
                    forall|k: int| 0 <= k < n ==> (#[trigger] entries@[k]).0 != 0,
                    forall|k1: int, k2: int|
                        0 <= k1 < k2 < entries@.len() && k1 < i ==> (#[trigger] entries@[k1]).0
                            != (#[trigger] entries@[k2]).0,
                    forall|k2: int|
                        i < k2 < j ==> (#[trigger] entries@[k2]).0 != entries@[i as int].0,
            {
                if entries[j].0 == entries[i].0 {
                    proof {
                        assert(entries@[i as int].0 == entries@[j as int].0);
                        assert(!unique_validators(entries@));
                    }
                    return Err(Error::DuplicateValidator);
                }
            }
        }
        let mut total: u64 = 0;
        for i in 0..n
            invariant
                n == entries@.len(),
                forall|k: int| 0 <= k < n ==> (#[trigger] entries@[k]).0 != 0,
                unique_validators(entries@),
                total == spec_sum(entries@.subrange(0, i as int)),
        {
            proof {
                assert(entries@.subrange(0, i as int + 1).drop_last() =~= entries@.subrange(
                    0,
                    i as int,
                ));
                assert(entries@.subrange(0, i as int + 1).last() == entries@[i as int]);
            }
            let w = entries[i].1;
            if w > u64::MAX - total {
                proof {
                    lemma_sum_prefix_le(entries@, i as int + 1);
                }
                return Err(Error::WeightOverflow);
            }
            total = total + w;
        }
        proof {
            assert(entries@.subrange(0, n as int) =~= entries@);
        }
        Ok(Weights { entries })
    }

    /// How many validators the table holds.
    pub fn len(&self) -> (n: usize)
        ensures
            n == self@.len(),
    {
        self.entries.len()
    }

    /// The entry at a position, for walking the table in order.
    pub fn entry(&self, i: usize) -> (e: (Validator, Weight))
        requires
            i < self@.len(),
        ensures
            e == self@[i as int],
    {
        self.entries[i]
    }

    /// The weight of a validator, or `None` where the table does not know it.
    pub fn get(&self, v: Validator) -> (r: Option<Weight>)
        requires
            self.wf(),
        ensures
            match r {
                Some(w) => self.map().contains_key(v) && self.map()[v] == w,
                None => !self.map().contains_key(v),
            },
    {
        let n = self.entries.len();
        for i in 0..n
            invariant
                n == self@.len(),
                self.wf(),
                forall|k: int| 0 <= k < i ==> (#[trigger] self@[k]).0 != v,
        {
            if self.entries[i].0 == v {
                proof {
                    lemma_weight_map_props(self@);
                    assert(self.map()[self@[i as int].0] == self@[i as int].1);
                }
                return Some(self.entries[i].1);
            }
        }
        proof {
            lemma_weight_map_props(self@);
        }
        None
    }
}

/// Every prefix sum of non-negative weights is at most the total.
pub proof fn lemma_sum_prefix_le(ws: Seq<(Validator, Weight)>, j: int)
    requires
        0 <= j <= ws.len(),
    ensures
        spec_sum(ws.subrange(0, j)) <= spec_sum(ws),
    decreases ws.len() - j,
{
    if j == ws.len() {
        assert(ws.subrange(0, j) =~= ws);
    } else {
        lemma_sum_prefix_le(ws, j + 1);
        assert(ws.subrange(0, j + 1).drop_last() =~= ws.subrange(0, j));
        assert(spec_sum(ws.subrange(0, j + 1)) == spec_sum(ws.subrange(0, j)) + ws[j].1);
    }
}

} // verus!
