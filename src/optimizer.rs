//! The peephole optimizer: merges and cancels adjacent operations to a fixed point.
use vstd::prelude::*;

use crate::parser::{is_marker, loop_scan, scan_step, well_formed, Node};

verus! {

/// The rule of one pass: `node` against the most recently kept node.
/// Adds merge with 8-bit wraparound; shifts in one direction add up (two
/// shifts whose sum does not fit in 64 bits stay apart); shifts in opposite
/// directions cancel down to their difference, or to nothing.
pub open spec fn combine(kept: Seq<Node>, node: Node) -> Seq<Node> {
    if kept.len() == 0 {
        kept.push(node)
    } else {
        let rest = kept.drop_last();
        match (kept.last(), node) {
            (Node::Add(o), Node::Add(n)) => rest.push(Node::Add(((o + n) % 256) as u8)),
            (Node::ShiftLeft(o), Node::ShiftLeft(n)) => if o + n <= u64::MAX {
                rest.push(Node::ShiftLeft((o + n) as u64))
            } else {
                kept.push(node)
            },
            (Node::ShiftRight(o), Node::ShiftRight(n)) => if o + n <= u64::MAX {
                rest.push(Node::ShiftRight((o + n) as u64))
            } else {
                kept.push(node)
            },
            (Node::ShiftRight(o), Node::ShiftLeft(n)) => if o == n {
                rest
            } else if o > n {
                rest.push(Node::ShiftRight((o - n) as u64))
            } else {
                rest.push(Node::ShiftLeft((n - o) as u64))
            },
            (Node::ShiftLeft(o), Node::ShiftRight(n)) => if o == n {
                rest
            } else if o > n {
                rest.push(Node::ShiftLeft((o - n) as u64))
            } else {
                rest.push(Node::ShiftRight((n - o) as u64))
            },
            _ => kept.push(node),
        }
    }
}

/// One left-to-right pass over `s`.
pub open spec fn pass(s: Seq<Node>) -> Seq<Node>
    decreases s.len(),
{
    if s.len() == 0 {
        seq![]
    } else {
        combine(pass(s.drop_last()), s.last())
    }
}

/// Passes repeated until one leaves the length unchanged.
pub open spec fn optimized(s: Seq<Node>) -> Seq<Node>
    decreases s.len(),
{
    if pass(s).len() < s.len() {
        optimized(pass(s))
    } else {
        s
    }
}

proof fn lemma_combine(kept: Seq<Node>, node: Node)
    ensures
        combine(kept, node).len() <= kept.len() + 1,
        combine(kept, node).len() == kept.len() + 1 ==> combine(kept, node) == kept.push(node),
        loop_scan(combine(kept, node)) == scan_step(loop_scan(kept), node),
{
    assert(kept.push(node).drop_last() == kept);
    if kept.len() > 0 {
        let rest = kept.drop_last();
        assert(rest.push(kept.last()) == kept);
        let c = combine(kept, node);
        if c != kept.push(node) {
            // a merge: both nodes are plain operations
            assert(!is_marker(kept.last()) && !is_marker(node));
            assert(loop_scan(kept) == loop_scan(rest));
            assert(scan_step(loop_scan(kept), node) == loop_scan(kept));
            if c.len() == rest.len() + 1 {
                assert(c.drop_last() == rest);
                assert(!is_marker(c.last()));
            }
        }
    }
}

/// A pass never lengthens a sequence.
pub proof fn lemma_pass_len(s: Seq<Node>)
    ensures
        pass(s).len() <= s.len(),
{
    lemma_pass(s);
}

proof fn lemma_pass(s: Seq<Node>)
    ensures
        pass(s).len() <= s.len(),
        pass(s).len() == s.len() ==> pass(s) == s,
        loop_scan(pass(s)) == loop_scan(s),
    decreases s.len(),
{
    if s.len() > 0 {
        lemma_pass(s.drop_last());
        lemma_combine(pass(s.drop_last()), s.last());
        assert(s.drop_last().push(s.last()) == s);
    }
}

proof fn lemma_optimized(s: Seq<Node>)
    ensures
        pass(optimized(s)) == optimized(s),
        loop_scan(optimized(s)) == loop_scan(s),
    decreases s.len(),
{
    lemma_pass(s);
    if pass(s).len() < s.len() {
        lemma_optimized(pass(s));
    }
}

/// Optimizing twice gives what optimizing once gives.
pub proof fn optimize_idempotent(s: Seq<Node>)
    ensures
        optimized(optimized(s)) == optimized(s),
{
    lemma_optimized(s);
}

/// Optimizing keeps the loop markers, so a well-formed sequence stays well formed.
pub proof fn optimize_keeps_loops(s: Seq<Node>)
    ensures
        loop_scan(optimized(s)) == loop_scan(s),
        well_formed(s) ==> well_formed(optimized(s)),
{
    lemma_optimized(s);
}

fn run_pass(nodes: &Vec<Node>) -> (r: Vec<Node>)
    ensures
        r@ == pass(nodes@),
{
    let mut next: Vec<Node> = vec![];
    let n = nodes.len();
    for i in 0..n
        invariant
            n == nodes@.len(),
            next@ == pass(nodes@.take(i as int)),
    {
        proof {
            assert(nodes@.take(i + 1).drop_last() == nodes@.take(i as int));
            assert(nodes@.take(i + 1).last() == nodes@[i as int]);
        }
        let ghost kept = next@;
        let node = nodes[i];
        match next.pop() {
            None => next.push(node),
            Some(old) => {
                proof {
                    assert(next@ == kept.drop_last());
                }
                match (old, node) {
                    (Node::Add(o), Node::Add(a)) => next.push(Node::Add(a.wrapping_add(o))),
                    (Node::ShiftLeft(o), Node::ShiftLeft(a)) => match a.checked_add(o) {
                        Some(sum) => next.push(Node::ShiftLeft(sum)),
                        None => {
                            next.push(old);
                            next.push(node);
                        },
                    },
                    (Node::ShiftRight(o), Node::ShiftRight(a)) => match a.checked_add(o) {
                        Some(sum) => next.push(Node::ShiftRight(sum)),
                        None => {
                            next.push(old);
                            next.push(node);
                        },
                    },
                    (Node::ShiftRight(o), Node::ShiftLeft(a)) => {
                        if o > a {
                            next.push(Node::ShiftRight(o - a));
                        } else if a > o {
                            next.push(Node::ShiftLeft(a - o));
                        }
                    },
                    (Node::ShiftLeft(o), Node::ShiftRight(a)) => {
                        if o > a {
                            next.push(Node::ShiftLeft(o - a));
                        } else if a > o {
                            next.push(Node::ShiftRight(a - o));
                        }
                    },
                    _ => {
                        next.push(old);
                        next.push(node);
                    },
                }
                proof {
                    assert(kept.drop_last().push(old) == kept);
                }
            },
        }
    }
    proof {
        assert(nodes@.take(n as int) == nodes@);
    }
    next
}

/// Merges and cancels adjacent operations until a whole pass changes nothing.
/// The result is a fixed point of the pass, and its loop markers are those of
/// the input.
pub fn optimize(nodes: &[Node]) -> (r: Vec<Node>)
    ensures
        r@ == optimized(nodes@),
        pass(r@) == r@,
        loop_scan(r@) == loop_scan(nodes@),
{
    let mut optimized_nodes: Vec<Node> = vec![];
    for i in 0..nodes.len()
        invariant
            optimized_nodes@ == nodes@.take(i as int),
    {
        optimized_nodes.push(nodes[i]);
    }
    proof {
        assert(optimized_nodes@ == nodes@);
    }
    let mut l: usize = 0;
    while optimized_nodes.len() != l
        invariant
            optimized(optimized_nodes@) == optimized(nodes@),
            loop_scan(optimized_nodes@) == loop_scan(nodes@),
            optimized_nodes@.len() == l ==> pass(optimized_nodes@) == optimized_nodes@,
        decreases (if optimized_nodes@.len() == l {
            0
        } else {
            optimized_nodes@.len() + 1
        }),
    {
        let next_nodes = run_pass(&optimized_nodes);
        proof {
            lemma_pass(optimized_nodes@);
        }
        l = optimized_nodes.len();
        optimized_nodes = next_nodes;
    }
    proof {
        lemma_pass(optimized_nodes@);
    }
    optimized_nodes
}

} // verus!
