//! The generation engine: evaluating a compiled pattern tree against a
//! seeded pseudo-random source.
//!
//! Because the random source is a pure state machine (see the rng module),
//! generation is a mathematical function of the tree and of the source's
//! starting state. `gen_model` is that function; the engine is proved to
//! compute exactly it.

use vstd::prelude::*;

use rand::rngs::StdRng;

use crate::node::{Node, NodeModel, nodes_model, wf, lemma_nodes_model};
use crate::rng::{
    count_step, index_step, ratio_step, draw_count, draw_index, draw_ratio, chars_to_string,
};

verus! {

/// The string a tree generates from a given source state, with the state
/// the source is left in. Out-of-range draws never happen (the wrappers in
/// the rng module exclude them); where the model must still be total, an
/// out-of-range draw is read as the smallest legal one.
pub open spec fn gen_model(n: NodeModel, rng: StdRng) -> (Seq<char>, StdRng)
    decreases n, 0int, 0int,
{
    match n {
        NodeModel::Literal(text) => (text, rng),
        NodeModel::Class(c) => {
            let (i0, r2) = index_step(rng, c.spec_charset().len() as usize);
            let i = if (i0 as int) < c.spec_charset().len() as int {
                i0 as int
            } else {
                0int
            };
            (seq![c.spec_charset()[i]], r2)
        },
        NodeModel::Repeat(child, min, max) => {
            let (k0, r2) = count_step(rng, min, max);
            let k = if min <= k0 <= max {
                k0
            } else {
                min
            };
            gen_rep_model(*child, k as nat, r2)
        },
        NodeModel::Sequence(children) => gen_seq_model(children, rng),
        NodeModel::Alternation(children) => {
            if children.len() == 0 {
                (Seq::empty(), rng)
            } else {
                let (i0, r2) = index_step(rng, #[verifier::truncate] (children.len() as usize));
                let i = if (i0 as int) < children.len() as int {
                    i0 as int
                } else {
                    0int
                };
                gen_model(children[i], r2)
            }
        },
        NodeModel::Subsequence(child) => {
            let (s1, r2) = gen_model(*child, rng);
            if s1.len() == 0 {
                (s1, r2)
            } else {
                let (i0, r3) = index_step(r2, #[verifier::truncate] (s1.len() as usize));
                let i = if (i0 as int) < s1.len() as int {
                    i0 as int
                } else {
                    0int
                };
                (seq![s1[i]], r3)
            }
        },
        NodeModel::ProbabilisticInclusion(child, percent) => {
            let (b0, r2) = ratio_step(rng, percent, 100);
            let b = if percent == 0 {
                false
            } else if percent == 100 {
                true
            } else {
                b0
            };
            if b {
                gen_model(*child, r2)
            } else {
                (Seq::empty(), r2)
            }
        },
    }
}

/// The child evaluated `k` times from the given state, results concatenated.
pub open spec fn gen_rep_model(child: NodeModel, k: nat, rng: StdRng) -> (Seq<char>, StdRng)
    decreases child, k, 1int,
{
    if k == 0 {
        (Seq::empty(), rng)
    } else {
        let (s1, r1) = gen_rep_model(child, (k - 1) as nat, rng);
        let (s2, r2) = gen_model(child, r1);
        (s1 + s2, r2)
    }
}

/// The children evaluated in order from the given state, results
/// concatenated.
pub open spec fn gen_seq_model(children: Seq<NodeModel>, rng: StdRng) -> (Seq<char>, StdRng)
    decreases children, 0int, 0int,
{
    if children.len() == 0 {
        (Seq::empty(), rng)
    } else {
        let (s1, r1) = gen_seq_model(children.drop_last(), rng);
        let (s2, r2) = gen_model(children.last(), r1);
        (s1 + s2, r2)
    }
}

/// Evaluates the tree once, appending the generated characters to `out`.
#[verifier::loop_isolation(false)]
fn gen_chars(node: &Node, rng: &mut StdRng, out: &mut Vec<char>)
    requires
        wf(node@),
    ensures
        final(out)@ == old(out)@ + gen_model(node@, *old(rng)).0,
        *final(rng) == gen_model(node@, *old(rng)).1,
    decreases *node,
{
    match node {
        Node::Literal(text) => {
            out.extend_from_slice(text.as_slice());
        },
        Node::Class(c) => {
            let cs = c.charset();
            let i = draw_index(rng, cs.len());
            out.push(cs[i]);
        },
        Node::Repeat(child, min, max) => {
            let k = draw_count(rng, *min, *max);
            let ghost r1 = *rng;
            let ghost out0 = out@;
            for j in 0..k
                invariant
                    wf(node_model_child(node@)),
                    out@ == out0 + gen_rep_model(node_model_child(node@), j as nat, r1).0,
                    *rng == gen_rep_model(node_model_child(node@), j as nat, r1).1,
            {
                gen_chars(&**child, rng, out);
            }
        },
        Node::Sequence(children) => {
            let ghost cm = nodes_model(children@);
            let ghost r0 = *rng;
            let ghost out0 = out@;
            proof {
                lemma_nodes_model(children@);
            }
            for i in 0..children.len()
                invariant
                    nodes_model(children@) == cm,
                    cm.len() == children@.len(),
                    forall|j: int| 0 <= j < children@.len() ==> #[trigger] cm[j] == children@[j]@,
                    forall|j: int| 0 <= j < cm.len() ==> wf(#[trigger] cm[j]),
                    out@ == out0 + gen_seq_model(cm.take(i as int), r0).0,
                    *rng == gen_seq_model(cm.take(i as int), r0).1,
            {
                proof {
                    assert(cm[i as int] == children@[i as int]@);
                    assert(wf(children@[i as int]@));
                    assert(decreases_to!(*node => children@[i as int]));
                }
                gen_chars(&children[i], rng, out);
                proof {
                    assert(cm.take(i + 1).drop_last() =~= cm.take(i as int));
                    assert(cm.take(i + 1).last() == cm[i as int]);
                }
            }
            proof {
                assert(cm.take(children@.len() as int) =~= cm);
            }
        },
        Node::Alternation(children) => {
            proof {
                lemma_nodes_model(children@);
            }
            let i = draw_index(rng, children.len());
            proof {
                let ghost cm = nodes_model(children@);
                assert(cm[i as int] == children@[i as int]@);
                assert(wf(children@[i as int]@));
                assert(decreases_to!(*node => children@[i as int]));
            }
            gen_chars(&children[i], rng, out);
        },
        Node::Subsequence(child) => {
            let mut sub: Vec<char> = Vec::new();
            gen_chars(&**child, rng, &mut sub);
            if sub.len() > 0 {
                let i = draw_index(rng, sub.len());
                out.push(sub[i]);
            }
        },
        Node::ProbabilisticInclusion(child, percent) => {
            let b = draw_ratio(rng, *percent, 100);
            if b {
                gen_chars(&**child, rng, out);
            }
        },
    }
}

/// The child model of a repetition, subsequence or inclusion node.
spec fn node_model_child(n: NodeModel) -> NodeModel {
    match n {
        NodeModel::Repeat(child, _, _) => *child,
        NodeModel::Subsequence(child) => *child,
        NodeModel::ProbabilisticInclusion(child, _) => *child,
        _ => n,
    }
}

/// Evaluates a compiled, well-formed tree once against the random source,
/// returning exactly the string of the model and leaving the source in
/// exactly the state of the model. A well-formed tree never fails.
pub fn generate(node: &Node, rng: &mut StdRng) -> (s: String)
    requires
        wf(node@),
    ensures
        s@ == gen_model(node@, *old(rng)).0,
        *final(rng) == gen_model(node@, *old(rng)).1,
{
    let mut out: Vec<char> = Vec::new();
    gen_chars(node, rng, &mut out);
    chars_to_string(&out)
}

/// The strings of `n` successive evaluations, each starting from the state
/// the one before left behind, with the final source state.
pub open spec fn gen_many_model(node: NodeModel, rng: StdRng, n: nat) -> (Seq<Seq<char>>, StdRng)
    decreases n,
{
    if n == 0 {
        (Seq::empty(), rng)
    } else {
        let (ss, r1) = gen_many_model(node, rng, (n - 1) as nat);
        let (s, r2) = gen_model(node, r1);
        (ss.push(s), r2)
    }
}

/// Evaluates the tree `n` times, advancing the one random source through
/// all of them, as one generation run does.
#[verifier::loop_isolation(false)]
pub fn generate_many(node: &Node, rng: &mut StdRng, n: u32) -> (outputs: Vec<String>)
    requires
        wf(node@),
    ensures
        outputs@.len() == n as int,
        forall|i: int|
            0 <= i < n as int ==> #[trigger] outputs@[i]@ == gen_many_model(
                node@,
                *old(rng),
                n as nat,
            ).0[i],
        *final(rng) == gen_many_model(node@, *old(rng), n as nat).1,
{
    let ghost r0 = *rng;
    let mut outputs: Vec<String> = Vec::new();
    for j in 0..n
        invariant
            wf(node@),
            outputs@.len() == j as int,
            forall|i: int|
                0 <= i < j as int ==> #[trigger] outputs@[i]@ == gen_many_model(
                    node@,
                    r0,
                    j as nat,
                ).0[i],
            *rng == gen_many_model(node@, r0, j as nat).1,
    {
        let ghost before = gen_many_model(node@, r0, j as nat);
        let s = generate(node, rng);
        outputs.push(s);
        proof {
            lemma_gen_many_model_len(node@, r0, j as nat);
            assert(gen_many_model(node@, r0, (j + 1) as nat).0 == before.0.push(s@));
            assert(gen_many_model(node@, r0, (j + 1) as nat).1 == *rng);
        }
    }
    outputs
}

/// A run of `n` evaluations yields `n` outputs.
proof fn lemma_gen_many_model_len(node: NodeModel, rng: StdRng, n: nat)
    ensures
        gen_many_model(node, rng, n).0.len() == n,
    decreases n,
{
    if n > 0 {
        lemma_gen_many_model_len(node, rng, (n - 1) as nat);
    }
}

} // verus!
