//! The fork-choice rule: the per-validator latest-message index, the
//! block-scoring function, and the greedy heaviest-observed-subtree descent
//! that selects the canonical head block.

use vstd::prelude::*;
use crate::model::{arena_wf, msg_wf, Arena, Message, Validator, Weight};
use crate::weights::{
    lemma_weight_map_props, spec_sum, spec_weight_map, Weights,
};

verus! {

/// Every handle of the justification names a message the arena owns.
pub open spec fn valid_handles(arena: Seq<Message>, just: Seq<usize>) -> bool {
    forall|k: int| 0 <= k < just.len() ==> (#[trigger] just[k]) < arena.len()
}

/// Among the justification entries authored by `v`, the one with the greatest
/// identifier; `None` where `v` authored none of them.
pub open spec fn spec_latest(arena: Seq<Message>, just: Seq<usize>, v: Validator) -> Option<usize>
    decreases just.len(),
{
    if just.len() == 0 {
        None
    } else {
        let rest = spec_latest(arena, just.drop_last(), v);
        let m = just.last();
        if arena[m as int].sender == v {
            match rest {
                None => Some(m),
                Some(r) => if m > r { Some(m) } else { Some(r) },
            }
        } else {
            rest
        }
    }
}

/// The latest-message index: one pair per validator of the weight table that
/// authored a justification entry, in table order, each carrying that
/// validator's latest justification entry.
pub open spec fn spec_latest_index(
    arena: Seq<Message>,
    just: Seq<usize>,
    ws: Seq<(Validator, Weight)>,
) -> Seq<(Validator, usize)>
    decreases ws.len(),
{
    if ws.len() == 0 {
        Seq::empty()
    } else {
        let rest = spec_latest_index(arena, just, ws.drop_last());
        match spec_latest(arena, just, ws.last().0) {
            Some(m) => rest.push((ws.last().0, m)),
            None => rest,
        }
    }
}

/// Whether the single-parent chain of `estimate` links starting at `from`
/// passes through `block`. This deliberately walks one linear path per
/// message, not the full justification DAG.
pub open spec fn spec_on_chain(arena: Seq<Message>, from: usize, block: usize) -> bool
    decreases from
        when arena_wf(arena) && from < arena.len()
        via spec_on_chain_decreases
{
    if from == block {
        true
    } else {
        match arena[from as int].estimate {
            Some(p) => spec_on_chain(arena, p, block),
            None => false,
        }
    }
}

#[via_fn]
proof fn spec_on_chain_decreases(arena: Seq<Message>, from: usize, block: usize) {
    assert(msg_wf(arena, from as int));
}

/// The score of `block`: the total weight of the indexed validators whose
/// latest message's estimate chain passes through `block`.
pub open spec fn spec_score(
    arena: Seq<Message>,
    latest: Seq<(Validator, usize)>,
    wmap: Map<Validator, Weight>,
    block: usize,
) -> int
    decreases latest.len(),
{
    if latest.len() == 0 {
        0
    } else {
        let share: int = if spec_on_chain(arena, latest.last().1, block)
            && wmap.contains_key(latest.last().0) {
            wmap[latest.last().0] as int
        } else {
            0
        };
        spec_score(arena, latest.drop_last(), wmap, block) + share
    }
}

/// `c` is a direct child of `b` within the justification set: it is owned by
/// the arena, observed, and builds directly upon `b`.
pub open spec fn is_child(arena: Seq<Message>, just: Seq<usize>, b: usize, c: usize) -> bool {
    &&& c < arena.len()
    &&& just.contains(c)
    &&& arena[c as int].estimate == Some(b)
}

/// The selection order between two candidate children: strictly greater
/// score wins, and on a score tie the smaller identifier wins.
pub open spec fn child_beats(
    arena: Seq<Message>,
    latest: Seq<(Validator, usize)>,
    wmap: Map<Validator, Weight>,
    c: usize,
    d: usize,
) -> bool {
    ||| spec_score(arena, latest, wmap, c) > spec_score(arena, latest, wmap, d)
    ||| (spec_score(arena, latest, wmap, c) == spec_score(arena, latest, wmap, d) && c < d)
}

/// `c` is the child of `b` that the descent selects: a direct child that
/// beats every other direct child.
pub open spec fn is_best_child(
    arena: Seq<Message>,
    just: Seq<usize>,
    latest: Seq<(Validator, usize)>,
    wmap: Map<Validator, Weight>,
    b: usize,
    c: usize,
) -> bool {
    &&& is_child(arena, just, b, c)
    &&& forall|d: usize|
        #[trigger] is_child(arena, just, b, d) && d != c ==> child_beats(arena, latest, wmap, c, d)
}

/// The greedy descent from `b`: while a best child exists, move into it; the
/// block where no child exists is the estimate.
pub open spec fn spec_estimate(
    arena: Seq<Message>,
    just: Seq<usize>,
    latest: Seq<(Validator, usize)>,
    wmap: Map<Validator, Weight>,
    b: usize,
) -> usize
    decreases arena.len() - b
        when arena_wf(arena) && b < arena.len()
        via spec_estimate_decreases
{
    if exists|c: usize| is_best_child(arena, just, latest, wmap, b, c) {
        spec_estimate(
            arena,
            just,
            latest,
            wmap,
            choose|c: usize| is_best_child(arena, just, latest, wmap, b, c),
        )
    } else {
        b
    }
}

#[via_fn]
proof fn spec_estimate_decreases(
    arena: Seq<Message>,
    just: Seq<usize>,
    latest: Seq<(Validator, usize)>,
    wmap: Map<Validator, Weight>,
    b: usize,
) {
    if exists|c: usize| is_best_child(arena, just, latest, wmap, b, c) {
        let c = choose|c: usize| is_best_child(arena, just, latest, wmap, b, c);
        assert(is_child(arena, just, b, c));
        assert(msg_wf(arena, c as int));
    }
}

/// The whole fork-choice rule, as the estimator computes it: derive the
/// latest-message index from the justification and the weight table, then
/// descend greedily from `genesis`.
pub open spec fn spec_fork_choice(
    arena: Seq<Message>,
    just: Seq<usize>,
    ws: Seq<(Validator, Weight)>,
    genesis: usize,
) -> usize {
    spec_estimate(arena, just, spec_latest_index(arena, just, ws), spec_weight_map(ws), genesis)
}

/// What the latest entry of a validator is: an observed message it authored,
/// with the greatest identifier among those; `None` exactly where it authored
/// no observed message.
pub proof fn lemma_latest_props(arena: Seq<Message>, just: Seq<usize>, v: Validator)
    requires
        valid_handles(arena, just),
    ensures
        match spec_latest(arena, just, v) {
            Some(m) => {
                &&& just.contains(m)
                &&& m < arena.len()
                &&& arena[m as int].sender == v
                &&& forall|k: int|
                    0 <= k < just.len() && arena[(#[trigger] just[k]) as int].sender == v
                        ==> just[k] <= m
            },
            None => forall|k: int|
                0 <= k < just.len() ==> arena[(#[trigger] just[k]) as int].sender != v,
        },
    decreases just.len(),
{
    if just.len() > 0 {
        let pre = just.drop_last();
        assert(forall|k: int| 0 <= k < pre.len() ==> #[trigger] pre[k] == just[k]);
        lemma_latest_props(arena, pre, v);
        let m = just.last();
        assert(just[just.len() - 1] == m);
        match spec_latest(arena, pre, v) {
            Some(r) => {
                assert(pre.contains(r));
                let t = choose|t: int| 0 <= t < pre.len() && pre[t] == r;
                assert(just[t] == r);
            },
            None => {},
        }
        match spec_latest(arena, just, v) {
            Some(res) => {
                assert forall|k: int|
                    0 <= k < just.len() && arena[(#[trigger] just[k]) as int].sender == v
                    implies just[k] <= res by {
                    if k < just.len() - 1 {
                        assert(pre[k] == just[k]);
                    }
                }
            },
            None => {
                assert forall|k: int| 0 <= k < just.len() implies arena[(
                #[trigger] just[k]) as int].sender != v by {
                    if k < just.len() - 1 {
                        assert(pre[k] == just[k]);
                    }
                }
            },
        }
    }
}

/// Every entry of the latest-message index names an observed message of the
/// arena and a validator the weight table knows.
pub proof fn lemma_latest_index_props(
    arena: Seq<Message>,
    just: Seq<usize>,
    ws: Seq<(Validator, Weight)>,
)
    requires
        valid_handles(arena, just),
        crate::weights::unique_validators(ws),
    ensures
        forall|k: int|
            0 <= k < spec_latest_index(arena, just, ws).len() ==> {
                let e = #[trigger] spec_latest_index(arena, just, ws)[k];
                &&& e.1 < arena.len()
                &&& just.contains(e.1)
                &&& spec_weight_map(ws).contains_key(e.0)
            },
    decreases ws.len(),
{
    lemma_weight_map_props(ws);
    if ws.len() > 0 {
        let pre = ws.drop_last();
        assert(forall|i: int| 0 <= i < pre.len() ==> #[trigger] pre[i] == ws[i]);
        assert forall|i: int, j: int| 0 <= i < j < pre.len() implies (#[trigger] pre[i]).0 != (
        #[trigger] pre[j]).0 by {
            assert(pre[i] == ws[i]);
            assert(pre[j] == ws[j]);
        }
        lemma_weight_map_props(pre);
        lemma_latest_index_props(arena, just, pre);
        lemma_latest_props(arena, just, ws.last().0);
        assert(ws[ws.len() - 1] == ws.last());
        let idx_pre = spec_latest_index(arena, just, pre);
        assert forall|k: int|
            0 <= k < spec_latest_index(arena, just, ws).len() implies {
            let e = #[trigger] spec_latest_index(arena, just, ws)[k];
            &&& e.1 < arena.len()
            &&& just.contains(e.1)
            &&& spec_weight_map(ws).contains_key(e.0)
        } by {
            let idx = spec_latest_index(arena, just, ws);
            if k < idx_pre.len() {
                assert(idx[k] == idx_pre[k]);
                assert(spec_weight_map(pre).contains_key(idx_pre[k].0));
                let i = choose|i: int| 0 <= i < pre.len() && (#[trigger] pre[i]).0 == idx_pre[k].0;
                assert(ws[i].0 == idx_pre[k].0);
            }
        }
    }
}

/// A score is non-negative and never exceeds the table's total weight.
pub proof fn lemma_score_le_sum(
    arena: Seq<Message>,
    just: Seq<usize>,
    ws: Seq<(Validator, Weight)>,
    wmap: Map<Validator, Weight>,
    block: usize,
)
    requires
        forall|i: int|
            0 <= i < ws.len() ==> wmap.contains_key((#[trigger] ws[i]).0) && wmap[ws[i].0]
                == ws[i].1,
    ensures
        0 <= spec_score(arena, spec_latest_index(arena, just, ws), wmap, block),
        spec_score(arena, spec_latest_index(arena, just, ws), wmap, block) <= spec_sum(ws),
    decreases ws.len(),
{
    if ws.len() > 0 {
        let pre = ws.drop_last();
        assert(forall|i: int| 0 <= i < pre.len() ==> #[trigger] pre[i] == ws[i]);
        lemma_score_le_sum(arena, just, pre, wmap, block);
        let idx_pre = spec_latest_index(arena, just, pre);
        assert(ws[ws.len() - 1] == ws.last());
        match spec_latest(arena, just, ws.last().0) {
            Some(m) => {
                let idx = idx_pre.push((ws.last().0, m));
                assert(idx.drop_last() =~= idx_pre);
                assert(idx.last() == (ws.last().0, m));
                assert(wmap[ws.last().0] == ws.last().1);
            },
            None => {},
        }
    }
}

/// A score over a prefix of the index never exceeds the score over all of it.
pub proof fn lemma_score_prefix_le(
    arena: Seq<Message>,
    latest: Seq<(Validator, usize)>,
    wmap: Map<Validator, Weight>,
    block: usize,
    j: int,
)
    requires
        0 <= j <= latest.len(),
    ensures
        spec_score(arena, latest.subrange(0, j), wmap, block) <= spec_score(
            arena,
            latest,
            wmap,
            block,
        ),
    decreases latest.len() - j,
{
    if j == latest.len() {
        assert(latest.subrange(0, j) =~= latest);
    } else {
        lemma_score_prefix_le(arena, latest, wmap, block, j + 1);
        assert(latest.subrange(0, j + 1).drop_last() =~= latest.subrange(0, j));
        assert(latest.subrange(0, j + 1).last() == latest[j]);
    }
}

/// At most one child is best: the selection order is total on distinct
/// children, so two mutual winners are the same child.
pub proof fn lemma_best_child_unique(
    arena: Seq<Message>,
    just: Seq<usize>,
    latest: Seq<(Validator, usize)>,
    wmap: Map<Validator, Weight>,
    b: usize,
    c1: usize,
    c2: usize,
)
    requires
        is_best_child(arena, just, latest, wmap, b, c1),
        is_best_child(arena, just, latest, wmap, b, c2),
    ensures
        c1 == c2,
{
    if c1 != c2 {
        assert(is_child(arena, just, b, c1));
        assert(is_child(arena, just, b, c2));
        assert(child_beats(arena, latest, wmap, c1, c2));
        assert(child_beats(arena, latest, wmap, c2, c1));
    }
}

/// The descent terminates and lands on an observed message or on its starting
/// block itself, never outside the arena.
pub proof fn lemma_estimate_reaches(
    arena: Seq<Message>,
    just: Seq<usize>,
    latest: Seq<(Validator, usize)>,
    wmap: Map<Validator, Weight>,
    b: usize,
)
    requires
        arena_wf(arena),
        b < arena.len(),
    ensures
        spec_estimate(arena, just, latest, wmap, b) < arena.len(),
        spec_estimate(arena, just, latest, wmap, b) == b || just.contains(
            spec_estimate(arena, just, latest, wmap, b),
        ),
    decreases arena.len() - b,
{
    if exists|c: usize| is_best_child(arena, just, latest, wmap, b, c) {
        let c = choose|c: usize| is_best_child(arena, just, latest, wmap, b, c);
        assert(is_child(arena, just, b, c));
        assert(msg_wf(arena, c as int));
        lemma_estimate_reaches(arena, just, latest, wmap, c);
    }
}

/// No child of `b` occurs among the first `k` justification entries.
spec fn no_child_in_prefix(arena: Seq<Message>, just: Seq<usize>, b: usize, k: int) -> bool {
    forall|t: int| 0 <= t < k ==> arena[(#[trigger] just[t]) as int].estimate != Some(b)
}

/// `c` is a child of `b` found among the first `k` justification entries, and
/// beats every other child found there.
spec fn best_in_prefix(
    arena: Seq<Message>,
    just: Seq<usize>,
    latest: Seq<(Validator, usize)>,
    wmap: Map<Validator, Weight>,
    b: usize,
    c: usize,
    k: int,
) -> bool {
    &&& c < arena.len()
    &&& arena[c as int].estimate == Some(b)
    &&& exists|t: int| 0 <= t < k && just[t] == c
    &&& forall|t: int|
        0 <= t < k && arena[(#[trigger] just[t]) as int].estimate == Some(b) && just[t] != c
            ==> child_beats(arena, latest, wmap, c, just[t])
}

/// The fork-choice estimator: starting at `genesis`, repeatedly scores the
/// direct children of the current block within the justification set and
/// descends into the highest-scoring one, breaking score ties towards the
/// smaller identifier, until no child exists.
pub fn estimator(
    arena: &Arena,
    justification: &Vec<usize>,
    genesis: usize,
    weights: &Weights,
) -> (r: usize)
    requires
        arena.wf(),
        weights.wf(),
        genesis < arena@.len(),
        valid_handles(arena@, justification@),
    ensures
        r == spec_fork_choice(arena@, justification@, weights@, genesis),
        r == genesis || justification@.contains(r),
        r < arena@.len(),
{
    let latest = latest_message_per_validator(arena, justification, weights);
    let mut b: usize = genesis;
    loop
        invariant
            arena.wf(),
            weights.wf(),
            genesis < arena@.len(),
            b < arena@.len(),
            valid_handles(arena@, justification@),
            latest@ == spec_latest_index(arena@, justification@, weights@),
            spec_estimate(arena@, justification@, latest@, weights.map(), b) == spec_estimate(
                arena@,
                justification@,
                latest@,
                weights.map(),
                genesis,
            ),
            b == genesis || justification@.contains(b),
        decreases arena@.len() - b,
    {
        let mut best: Option<(usize, Weight)> = None;
        let jn = justification.len();
        for k in 0..jn
            invariant
                jn == justification@.len(),
                arena.wf(),
                weights.wf(),
                b < arena@.len(),
                valid_handles(arena@, justification@),
                latest@ == spec_latest_index(arena@, justification@, weights@),
                match best {
                    None => no_child_in_prefix(arena@, justification@, b, k as int),
                    Some((c, s)) => best_in_prefix(
                        arena@,
                        justification@,
                        latest@,
                        weights.map(),
                        b,
                        c,
                        k as int,
                    ) && s as int == spec_score(arena@, latest@, weights.map(), c),
                },
        {
            let m = justification[k];
            let is_ch = match arena.get(m).estimate {
                Some(p) => p == b,
                None => false,
            };
            if is_ch {
                let s = score(arena, m, weights, &latest, Ghost(justification@));
                match best {
                    None => {
                        proof {
                            assert(justification@[k as int] == m);
                        }
                        best = Some((m, s));
                    },
                    Some((bc, bs)) => {
                        if s > bs || (s == bs && m < bc) {
                            proof {
                                assert(justification@[k as int] == m);
                            }
                            best = Some((m, s));
                        }
                    },
                }
            }
        }
        match best {
            None => {
                proof {
                    assert forall|c: usize|
                        !is_best_child(arena@, justification@, latest@, weights.map(), b, c) by {
                        if is_child(arena@, justification@, b, c) {
                            let t = choose|t: int|
                                0 <= t < justification@.len() && justification@[t] == c;
                            assert(arena@[justification@[t] as int].estimate != Some(b));
                        }
                    }
                }
                return b;
            },
            Some((c, _s)) => {
                proof {
                    let just = justification@;
                    let lat = latest@;
                    let wmap = weights.map();
                    let t = choose|t: int| 0 <= t < just.len() && just[t] == c;
                    assert(just.contains(c));
                    assert(is_child(arena@, just, b, c));
                    assert forall|d: usize|
                        #[trigger] is_child(arena@, just, b, d) && d != c implies child_beats(
                        arena@,
                        lat,
                        wmap,
                        c,
                        d,
                    ) by {
                        let u = choose|u: int| 0 <= u < just.len() && just[u] == d;
                        assert(arena@[just[u] as int].estimate == Some(b));
                        assert(child_beats(arena@, lat, wmap, c, just[u]));
                    }
                    assert(is_best_child(arena@, just, lat, wmap, b, c));
                    let cc = choose|x: usize| is_best_child(arena@, just, lat, wmap, b, x);
                    lemma_best_child_unique(arena@, just, lat, wmap, b, cc, c);
                    assert(spec_estimate(arena@, just, lat, wmap, b) == spec_estimate(
                        arena@,
                        just,
                        lat,
                        wmap,
                        c,
                    ));
                    assert(msg_wf(arena@, c as int));
                }
                b = c;
            },
        }
    }
}

/// Derives the latest-message index: for each validator of the weight table,
/// in table order, the observed message it authored with the greatest
/// identifier, where there is one.
pub fn latest_message_per_validator(
    arena: &Arena,
    justification: &Vec<usize>,
    weights: &Weights,
) -> (r: Vec<(Validator, usize)>)
    requires
        arena.wf(),
        valid_handles(arena@, justification@),
    ensures
        r@ == spec_latest_index(arena@, justification@, weights@),
{
    let mut r: Vec<(Validator, usize)> = Vec::new();
    let n = weights.len();
    for i in 0..n
        invariant
            n == weights@.len(),
            arena.wf(),
            valid_handles(arena@, justification@),
            r@ == spec_latest_index(arena@, justification@, weights@.subrange(0, i as int)),
    {
        let (v, _w) = weights.entry(i);
        let mut best: Option<usize> = None;
        let jn = justification.len();
        for k in 0..jn
            invariant
                jn == justification@.len(),
                arena.wf(),
                valid_handles(arena@, justification@),
                best == spec_latest(arena@, justification@.subrange(0, k as int), v),
        {
            proof {
                assert(justification@.subrange(0, k as int + 1).drop_last()
                    =~= justification@.subrange(0, k as int));
                assert(justification@.subrange(0, k as int + 1).last()
                    == justification@[k as int]);
            }
            let m = justification[k];
            if arena.get(m).sender == v {
                match best {
                    None => { best = Some(m); },
                    Some(b) => {
                        if m > b {
                            best = Some(m);
                        }
                    },
                }
            }
        }
        proof {
            assert(justification@.subrange(0, jn as int) =~= justification@);
            assert(weights@.subrange(0, i as int + 1).drop_last() =~= weights@.subrange(
                0,
                i as int,
            ));
            assert(weights@.subrange(0, i as int + 1).last() == weights@[i as int]);
        }
        match best {
            Some(m) => { r.push((v, m)); },
            None => {},
        }
    }
    proof {
        assert(weights@.subrange(0, n as int) =~= weights@);
    }
    r
}

/// Walks the single-parent chain from `from` until it reaches `block` or
/// runs out at genesis.
fn on_chain(arena: &Arena, from: usize, block: usize) -> (r: bool)
    requires
        arena.wf(),
        from < arena@.len(),
    ensures
        r == spec_on_chain(arena@, from, block),
{
    let mut cur: usize = from;
    loop
        invariant
            arena.wf(),
            cur < arena@.len(),
            spec_on_chain(arena@, cur, block) == spec_on_chain(arena@, from, block),
        decreases cur,
    {
        if cur == block {
            return true;
        }
        proof {
            assert(msg_wf(arena@, cur as int));
        }
        match arena.get(cur).estimate {
            Some(p) => { cur = p; },
            None => {
                return false;
            },
        }
    }
}

/// Computes the score of `block` against the latest-message index: the total
/// weight of the validators whose latest message builds, through its chain of
/// estimates, on `block`.
fn score(
    arena: &Arena,
    block: usize,
    weights: &Weights,
    latest: &Vec<(Validator, usize)>,
    just: Ghost<Seq<usize>>,
) -> (r: Weight)
    requires
        arena.wf(),
        weights.wf(),
        block < arena@.len(),
        valid_handles(arena@, just@),
        latest@ == spec_latest_index(arena@, just@, weights@),
    ensures
        r as int == spec_score(arena@, latest@, weights.map(), block),
{
    let mut total: u64 = 0;
    let n = latest.len();
    for i in 0..n
        invariant
            n == latest@.len(),
            arena.wf(),
            weights.wf(),
            block < arena@.len(),
            valid_handles(arena@, just@),
            latest@ == spec_latest_index(arena@, just@, weights@),
            total as int == spec_score(arena@, latest@.subrange(0, i as int), weights.map(), block),
    {
        proof {
            lemma_weight_map_props(weights@);
            lemma_latest_index_props(arena@, just@, weights@);
            lemma_score_le_sum(arena@, just@, weights@, weights.map(), block);
            lemma_score_prefix_le(arena@, latest@, weights.map(), block, i as int + 1);
            assert(latest@.subrange(0, i as int + 1).drop_last() =~= latest@.subrange(0, i as int));
            assert(latest@.subrange(0, i as int + 1).last() == latest@[i as int]);
        }
        let (v, m) = latest[i];
        let hit = on_chain(arena, m, block);
        let share: u64 = if hit {
            match weights.get(v) {
                Some(w) => w,
                None => {
                    proof {
                        assert(false);
                    }
                    0
                },
            }
        } else {
            0
        };
        total = total + share;
    }
    proof {
        assert(latest@.subrange(0, n as int) =~= latest@);
    }
    total
}

impl Message {
    /// Builds a message from a sender and a justification: validates both,
    /// runs the fork-choice estimator over the justification, and packs the
    /// selected head block as the new message's estimate.
    pub fn new(
        sender: Validator,
        justification: Vec<usize>,
        genesis: usize,
        id: usize,
        arena: &Arena,
        weights: &Weights,
    ) -> (r: Result<Message, crate::model::Error>)
        requires
            arena.wf(),
            weights.wf(),
        ensures
            ({
                let just = justification@;
                if sender == 0 {
                    r == Err::<Message, crate::model::Error>(crate::model::Error::InvalidSender)
                } else if just.len() == 0 {
                    r == Err::<Message, crate::model::Error>(
                        crate::model::Error::EmptyJustification,
                    )
                } else if !(genesis < arena@.len() && valid_handles(arena@, just)) {
                    r == Err::<Message, crate::model::Error>(crate::model::Error::InvalidHandle)
                } else {
                    &&& r matches Ok(m)
                    &&& r matches Ok(m) ==> {
                        &&& m.id == id
                        &&& m.sender == sender
                        &&& m.justification@ == just
                        &&& m.estimate == Some(spec_fork_choice(arena@, just, weights@, genesis))
                        &&& (m.estimate matches Some(e) && e < arena@.len() && (e == genesis
                            || just.contains(e)))
                    }
                }
            }),
    {
        if sender == 0 {
            return Err(crate::model::Error::InvalidSender);
        }
        if justification.len() == 0 {
            return Err(crate::model::Error::EmptyJustification);
        }
        if genesis >= arena.len() {
            return Err(crate::model::Error::InvalidHandle);
        }
        let jn = justification.len();
        for k in 0..jn
            invariant
                jn == justification@.len(),
                sender != 0,
                justification@.len() > 0,
                genesis < arena@.len(),
                forall|t: int| 0 <= t < k ==> (#[trigger] justification@[t]) < arena@.len(),
        {
            if justification[k] >= arena.len() {
                proof {
                    assert(justification@[k as int] >= arena@.len());
                }
                return Err(crate::model::Error::InvalidHandle);
            }
        }
        let est = estimator(arena, &justification, genesis, weights);
        Ok(Message { id, sender, estimate: Some(est), justification })
    }

    /// Builds a message using the justification and a sender; behaves
    /// exactly as [`Message::new`].
    pub fn build_message(
        sender: Validator,
        justification: Vec<usize>,
        genesis: usize,
        id: usize,
        arena: &Arena,
        weights: &Weights,
    ) -> (r: Result<Message, crate::model::Error>)
        requires
            arena.wf(),
            weights.wf(),
        ensures
            ({
                let just = justification@;
                if sender == 0 {
                    r == Err::<Message, crate::model::Error>(crate::model::Error::InvalidSender)
                } else if just.len() == 0 {
                    r == Err::<Message, crate::model::Error>(
                        crate::model::Error::EmptyJustification,
                    )
                } else if !(genesis < arena@.len() && valid_handles(arena@, just)) {
                    r == Err::<Message, crate::model::Error>(crate::model::Error::InvalidHandle)
                } else {
                    &&& r matches Ok(m)
                    &&& r matches Ok(m) ==> {
                        &&& m.id == id
                        &&& m.sender == sender
                        &&& m.justification@ == just
                        &&& m.estimate == Some(spec_fork_choice(arena@, just, weights@, genesis))
                    }
                }
            }),
    {
        Message::new(sender, justification, genesis, id, arena, weights)
    }
}

impl Arena {
    /// Creates a message: validates the request, delegates estimate
    /// computation to the fork-choice estimator, then stores the new message
    /// under a fresh identifier, which it returns.
    pub fn create_message(
        &mut self,
        sender: Validator,
        justification: Vec<usize>,
        genesis: usize,
        weights: &Weights,
    ) -> (r: Result<usize, crate::model::Error>)
        requires
            old(self).wf(),
            weights.wf(),
        ensures
            final(self).wf(),
            ({
                let just = justification@;
                let arena0 = old(self)@;
                if sender == 0 {
                    &&& r == Err::<usize, crate::model::Error>(crate::model::Error::InvalidSender)
                    &&& final(self)@ == arena0
                } else if just.len() == 0 {
                    &&& r == Err::<usize, crate::model::Error>(
                        crate::model::Error::EmptyJustification,
                    )
                    &&& final(self)@ == arena0
                } else if !(genesis < arena0.len() && valid_handles(arena0, just)) {
                    &&& r == Err::<usize, crate::model::Error>(crate::model::Error::InvalidHandle)
                    &&& final(self)@ == arena0
                } else {
                    &&& r == Ok::<usize, crate::model::Error>(arena0.len() as usize)
                    &&& final(self)@.len() == arena0.len() + 1
                    &&& final(self)@.subrange(0, arena0.len() as int) == arena0
                    &&& final(self)@.last().id == arena0.len()
                    &&& final(self)@.last().sender == sender
                    &&& final(self)@.last().justification@ == just
                    &&& final(self)@.last().estimate == Some(
                        spec_fork_choice(arena0, just, weights@, genesis),
                    )
                }
            }),
    {
        let id = self.len();
        match Message::new(sender, justification, genesis, id, self, weights) {
            Ok(m) => {
                proof {
                    assert(arena_wf(self@));
                }
                self.push_msg(m);
                proof {
                    let arena0 = old(self)@;
                    let a1 = self@;
                    assert(a1.subrange(0, arena0.len() as int) =~= arena0);
                    assert forall|i: int| 0 <= i < a1.len() implies msg_wf(a1, i) by {
                        if i < arena0.len() {
                            assert(msg_wf(arena0, i));
                            assert(a1[i] == arena0[i]);
                        } else {
                            assert(a1[i] == a1.last());
                            assert forall|k: int|
                                0 <= k < a1[i].justification@.len() implies a1[i].justification@[k]
                                < i by {
                                assert(a1[i].justification@[k] < arena0.len());
                            }
                        }
                    }
                }
                Ok(id)
            },
            Err(e) => Err(e),
        }
    }
}

} // verus!
