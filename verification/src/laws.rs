//! The laws the fork-choice rule obeys, stated over the specification
//! functions and proved once and for all.

use vstd::prelude::*;
use crate::model::{arena_wf, is_genesis, msg_wf, Message, Validator, Weight};
use crate::fork_choice::{
    child_beats, is_best_child, is_child, lemma_best_child_unique, spec_estimate, spec_score,
};

verus! {

/// In a well-formed arena the genesis block is exactly the first message: an
/// absent estimate, an empty justification, and the genesis shape each single
/// out index `0`, so exactly one message has them.
pub proof fn lemma_genesis_unique(arena: Seq<Message>, i: int)
    requires
        arena_wf(arena),
        0 <= i < arena.len(),
    ensures
        is_genesis(arena[i]) <==> i == 0,
        arena[i].estimate is None <==> i == 0,
        arena[i].justification@.len() == 0 <==> i == 0,
{
    assert(msg_wf(arena, i));
}

/// Where the direct children of `b` within the justification are at most `c1`
/// and `c2`, and `c1` scores strictly higher, the descent at `b` moves into
/// `c1`, whatever the identifier order.
pub proof fn lemma_heavier_child_selected(
    arena: Seq<Message>,
    just: Seq<usize>,
    latest: Seq<(Validator, usize)>,
    wmap: Map<Validator, Weight>,
    b: usize,
    c1: usize,
    c2: usize,
)
    requires
        arena_wf(arena),
        b < arena.len(),
        is_child(arena, just, b, c1),
        forall|d: usize| #[trigger] is_child(arena, just, b, d) ==> d == c1 || d == c2,
        spec_score(arena, latest, wmap, c1) > spec_score(arena, latest, wmap, c2),
    ensures
        spec_estimate(arena, just, latest, wmap, b) == spec_estimate(
            arena,
            just,
            latest,
            wmap,
            c1,
        ),
{
    assert forall|d: usize| #[trigger] is_child(arena, just, b, d) && d != c1 implies child_beats(
        arena,
        latest,
        wmap,
        c1,
        d,
    ) by {
        assert(d == c2);
    }
    assert(is_best_child(arena, just, latest, wmap, b, c1));
    let cc = choose|x: usize| is_best_child(arena, just, latest, wmap, b, x);
    lemma_best_child_unique(arena, just, latest, wmap, b, cc, c1);
}

/// Where the direct children of `b` within the justification are at most `c1`
/// and `c2`, and the two score exactly equal, the descent at `b` moves into
/// the one with the smaller identifier.
pub proof fn lemma_tie_selects_smaller_id(
    arena: Seq<Message>,
    just: Seq<usize>,
    latest: Seq<(Validator, usize)>,
    wmap: Map<Validator, Weight>,
    b: usize,
    c1: usize,
    c2: usize,
)
    requires
        arena_wf(arena),
        b < arena.len(),
        is_child(arena, just, b, c1),
        forall|d: usize| #[trigger] is_child(arena, just, b, d) ==> d == c1 || d == c2,
        spec_score(arena, latest, wmap, c1) == spec_score(arena, latest, wmap, c2),
        c1 < c2,
    ensures
        spec_estimate(arena, just, latest, wmap, b) == spec_estimate(
            arena,
            just,
            latest,
            wmap,
            c1,
        ),
{
    assert forall|d: usize| #[trigger] is_child(arena, just, b, d) && d != c1 implies child_beats(
        arena,
        latest,
        wmap,
        c1,
        d,
    ) by {
        assert(d == c2);
    }
    assert(is_best_child(arena, just, latest, wmap, b, c1));
    let cc = choose|x: usize| is_best_child(arena, just, latest, wmap, b, x);
    lemma_best_child_unique(arena, just, latest, wmap, b, cc, c1);
}

/// Consecutive estimate links: the chain's first entry builds on `g`, and
/// each later entry builds on its predecessor.
pub open spec fn is_chain(arena: Seq<Message>, g: usize, cs: Seq<usize>) -> bool {
    &&& forall|k: int| 0 <= k < cs.len() ==> (#[trigger] cs[k]) < arena.len()
    &&& (cs.len() > 0 ==> arena[cs[0] as int].estimate == Some(g))
    &&& forall|k: int|
        1 <= k < cs.len() ==> arena[(#[trigger] cs[k]) as int].estimate == Some(cs[k - 1])
}

/// The justification observes exactly `g` and the chain's messages.
pub open spec fn observes_exactly(just: Seq<usize>, g: usize, cs: Seq<usize>) -> bool {
    forall|x: usize| #[trigger] just.contains(x) <==> x == g || cs.contains(x)
}

/// Handles strictly increase along a chain.
proof fn lemma_chain_increasing(arena: Seq<Message>, g: usize, cs: Seq<usize>, k1: int, k2: int)
    requires
        arena_wf(arena),
        is_chain(arena, g, cs),
        0 <= k1 < k2 < cs.len(),
    ensures
        cs[k1] < cs[k2],
    decreases k2 - k1,
{
    assert(msg_wf(arena, cs[k2] as int));
    if k1 < k2 - 1 {
        lemma_chain_increasing(arena, g, cs, k1, k2 - 1);
    }
}

/// The inductive step behind [`lemma_chain_estimate`]: from position `i` of
/// the chain (position `0` standing for `g` itself), the descent reaches the
/// chain's tip.
proof fn lemma_chain_estimate_from(
    arena: Seq<Message>,
    just: Seq<usize>,
    latest: Seq<(Validator, usize)>,
    wmap: Map<Validator, Weight>,
    g: usize,
    cs: Seq<usize>,
    i: int,
)
    requires
        arena_wf(arena),
        g < arena.len(),
        arena[g as int].estimate is None,
        is_chain(arena, g, cs),
        observes_exactly(just, g, cs),
        0 <= i <= cs.len(),
    ensures
        spec_estimate(arena, just, latest, wmap, if i == 0 { g } else { cs[i - 1] }) == (
        if cs.len() == 0 {
            g
        } else {
            cs[cs.len() - 1]
        }),
    decreases cs.len() - i,
{
    let b = if i == 0 { g } else { cs[i - 1] };
    if i > 0 {
        assert(cs[i - 1] < arena.len());
    }
    if i == cs.len() {
        assert forall|d: usize| !is_best_child(arena, just, latest, wmap, b, d) by {
            if is_child(arena, just, b, d) {
                assert(just.contains(d));
                if d == g {
                    assert(arena[d as int].estimate == Some(b));
                } else {
                    assert(cs.contains(d));
                    let k = choose|k: int| 0 <= k < cs.len() && cs[k] == d;
                    if k == 0 {
                        assert(arena[cs[0] as int].estimate == Some(g));
                        assert(b == g);
                        if i - 1 == 0 {
                            assert(arena[cs[0] as int].estimate == Some(g));
                        } else {
                            assert(arena[cs[i - 1] as int].estimate == Some(cs[i - 2]));
                        }
                    } else {
                        assert(arena[cs[k] as int].estimate == Some(cs[k - 1]));
                        assert(cs[k - 1] == b);
                        if k - 1 < i - 1 {
                            lemma_chain_increasing(arena, g, cs, k - 1, i - 1);
                        }
                    }
                }
            }
        }
        assert(!exists|c: usize| is_best_child(arena, just, latest, wmap, b, c));
    } else {
        let c = cs[i];
        assert(cs[i] == c);
        assert(cs.contains(c));
        assert(just.contains(c));
        if i == 0 {
            assert(arena[cs[0] as int].estimate == Some(g));
        } else {
            assert(arena[cs[i] as int].estimate == Some(cs[i - 1]));
        }
        assert(is_child(arena, just, b, c));
        assert forall|d: usize| #[trigger] is_child(arena, just, b, d) implies d == c by {
            assert(just.contains(d));
            if d == g {
                assert(arena[d as int].estimate == Some(b));
            } else {
                assert(cs.contains(d));
                let k = choose|k: int| 0 <= k < cs.len() && cs[k] == d;
                if k == 0 {
                    assert(arena[cs[0] as int].estimate == Some(g));
                    if i != 0 {
                        assert(b == g);
                        if i - 1 == 0 {
                            assert(arena[cs[0] as int].estimate == Some(g));
                        } else {
                            assert(arena[cs[i - 1] as int].estimate == Some(cs[i - 2]));
                        }
                    }
                } else {
                    assert(arena[cs[k] as int].estimate == Some(cs[k - 1]));
                    assert(cs[k - 1] == b);
                    if i == 0 {
                        if k - 1 == 0 {
                            assert(arena[cs[0] as int].estimate == Some(g));
                        } else {
                            assert(arena[cs[k - 1] as int].estimate == Some(cs[k - 2]));
                        }
                    } else {
                        if k - 1 < i - 1 {
                            lemma_chain_increasing(arena, g, cs, k - 1, i - 1);
                        }
                        if i - 1 < k - 1 {
                            lemma_chain_increasing(arena, g, cs, i - 1, k - 1);
                        }
                    }
                }
            }
        }
        assert(is_best_child(arena, just, latest, wmap, b, c));
        let cc = choose|x: usize| is_best_child(arena, just, latest, wmap, b, x);
        lemma_best_child_unique(arena, just, latest, wmap, b, cc, c);
        lemma_chain_estimate_from(arena, just, latest, wmap, g, cs, i + 1);
    }
}

/// A justification whose only content beyond genesis is a single chain of
/// messages drives the descent to the chain's tip, whatever the
/// latest-message index and the weights hold.
pub proof fn lemma_chain_estimate(
    arena: Seq<Message>,
    just: Seq<usize>,
    latest: Seq<(Validator, usize)>,
    wmap: Map<Validator, Weight>,
    g: usize,
    cs: Seq<usize>,
)
    requires
        arena_wf(arena),
        g < arena.len(),
        arena[g as int].estimate is None,
        is_chain(arena, g, cs),
        observes_exactly(just, g, cs),
    ensures
        spec_estimate(arena, just, latest, wmap, g) == (if cs.len() == 0 {
            g
        } else {
            cs[cs.len() - 1]
        }),
{
    lemma_chain_estimate_from(arena, just, latest, wmap, g, cs, 0);
}

} // verus!
