//! General properties of the generation engine, stated over the engine's
//! mathematical model and proved once for every tree and source state.

use vstd::prelude::*;

use rand::rngs::StdRng;

use crate::node::NodeModel;
use crate::engine::{gen_model, gen_rep_model, gen_many_model};
use crate::rng::{count_step, index_step};

verus! {

/// Determinism: generation is a function of the tree and of the random
/// source's state. Two runs over the same tree whose sources are in the
/// same state — in particular, two sources seeded identically — produce
/// identical output strings and leave their sources in identical states.
pub proof fn lemma_determinism(node: NodeModel, rng1: StdRng, rng2: StdRng)
    requires
        rng1 == rng2,
    ensures
        gen_model(node, rng1) == gen_model(node, rng2),
{
}

/// Determinism of a whole run: the same holds for any number of successive
/// evaluations drawing from the one advancing source.
pub proof fn lemma_run_determinism(node: NodeModel, rng1: StdRng, rng2: StdRng, n: nat)
    requires
        rng1 == rng2,
    ensures
        gen_many_model(node, rng1, n) == gen_many_model(node, rng2, n),
{
}

/// Range law: a repetition evaluates its child a number of times that
/// always lies within `[min, max]`, concatenating the sub-results; when
/// `min == max`, the number of sub-results is exactly that bound, for
/// every draw.
pub proof fn lemma_range_law(child: NodeModel, min: u32, max: u32, rng: StdRng)
    requires
        min <= max,
    ensures
        exists|k: u32|
            min <= k <= max && gen_model(NodeModel::Repeat(Box::new(child), min, max), rng)
                == #[trigger] gen_rep_model(child, k as nat, count_step(rng, min, max).1),
        min == max ==> gen_model(NodeModel::Repeat(Box::new(child), min, max), rng)
            == gen_rep_model(child, min as nat, count_step(rng, min, max).1),
{
    let k0 = count_step(rng, min, max).0;
    let k = if min <= k0 <= max {
        k0
    } else {
        min
    };
    assert(min <= k <= max && gen_model(NodeModel::Repeat(Box::new(child), min, max), rng)
        == gen_rep_model(child, k as nat, count_step(rng, min, max).1));
}

/// Alternation closure: an alternation's output, for any draw, equals the
/// output of exactly one of its children evaluated against the source as
/// the draw left it; it never interleaves characters of several children.
pub proof fn lemma_alternation_closure(children: Seq<NodeModel>, rng: StdRng)
    requires
        children.len() > 0,
    ensures
        exists|i: int|
            0 <= i < children.len() && gen_model(NodeModel::Alternation(children), rng)
                == gen_model(
                #[trigger] children[i],
                index_step(rng, #[verifier::truncate] (children.len() as usize)).1,
            ),
{
    let n = #[verifier::truncate] (children.len() as usize);
    let i0 = index_step(rng, n).0;
    let i = if (i0 as int) < children.len() as int {
        i0 as int
    } else {
        0int
    };
    assert(0 <= i < children.len() && gen_model(NodeModel::Alternation(children), rng)
        == gen_model(children[i], index_step(rng, n).1));
}

/// Subsequence contract: a subsequence node's output has length 0 or 1;
/// it has length 0 exactly when the child's output is empty, and otherwise
/// its one character is a character of the child's output.
pub proof fn lemma_subsequence_contract(child: NodeModel, rng: StdRng)
    ensures
        gen_model(NodeModel::Subsequence(Box::new(child)), rng).0.len() <= 1,
        gen_model(NodeModel::Subsequence(Box::new(child)), rng).0.len() == 0 <==> gen_model(
            child,
            rng,
        ).0.len() == 0,
        gen_model(child, rng).0.len() > 0 ==> gen_model(child, rng).0.contains(
            gen_model(NodeModel::Subsequence(Box::new(child)), rng).0[0],
        ),
{
    let s1 = gen_model(child, rng).0;
    let r2 = gen_model(child, rng).1;
    if s1.len() > 0 {
        let i0 = index_step(r2, #[verifier::truncate] (s1.len() as usize)).0;
        let i = if (i0 as int) < s1.len() as int {
            i0 as int
        } else {
            0int
        };
        assert(gen_model(NodeModel::Subsequence(Box::new(child)), rng).0 == seq![s1[i]]);
        assert(s1.contains(s1[i]));
    }
}

} // verus!
