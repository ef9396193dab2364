//! Lowering nodes into a block-structured function body.
use vstd::prelude::*;

use crate::optimizer::{optimize, optimize_keeps_loops, optimized};
use crate::parser::{
    begin_count, begin_tokens, dense, dense_state, lemma_dense, lemma_dense_prefix, nested_unique,
    balanced, is_balanced, is_marker, lemma_begun_bound, lemma_loop_ids, lemma_scan_ids, loop_scan,
    loops_begun, parse, parsed, token_of, tokens, well_formed, Node, Token,
};

verus! {

/// Bytes in the tape of a compiled program.
pub const TAPE_SIZE: u64 = 1024;

/// Status that a compiled program returns.
pub const SUCCESS: i32 = 0;

/// One operation of a block; `ptr` is the pointer variable, `*ptr` the byte it points at.
#[derive(Debug, Clone, Copy, PartialEq, Eq, Structural)]
pub enum Op {
    /// `ptr` = base address of the tape.
    InitPointer,
    /// Fill the whole tape with zero, through the zero-fill primitive.
    ZeroTape,
    /// `*ptr` = byte from the input primitive (unchecked store).
    ReadCell,
    /// Hand `*ptr` to the output primitive, discarding its result.
    WriteCell,
    /// `*ptr` = `*ptr` + n, with 8-bit wraparound.
    AddCell(u8),
    /// `ptr` = `ptr` - n, at pointer width, unchecked.
    MoveLeft(u64),
    /// `ptr` = `ptr` + n, at pointer width, unchecked.
    MoveRight(u64),
}

/// How control leaves a block.
#[derive(Debug, Clone, Copy, PartialEq, Eq, Structural)]
pub enum Exit {
    Jump(usize),
    /// Test `*ptr`: to `zero` if it is 0, else to `nonzero`.
    Branch { zero: usize, nonzero: usize },
    Return(i32),
}

/// A block: its operations, then its exit (`None` while it is being filled).
#[derive(Debug)]
pub struct Block {
    pub ops: Vec<Op>,
    pub exit: Option<Exit>,
}

/// The four blocks of one loop.
#[derive(Debug, Clone, Copy, PartialEq, Eq, Structural)]
pub struct LoopBlocks {
    /// Tests `*ptr` before the first iteration.
    pub header: usize,
    /// The loop's operations.
    pub body: usize,
    /// Tests `*ptr` again after an iteration.
    pub latch: usize,
    /// Where control goes once the loop is done.
    pub exit: usize,
}

/// A lowered function: its blocks, the block table indexed by loop id, the
/// entry block and the tape size.
#[derive(Debug)]
pub struct Lowered {
    pub blocks: Vec<Block>,
    pub loops: Vec<LoopBlocks>,
    pub entry: usize,
    pub tape_size: u64,
}

/// The blocks of the `j`-th loop: allocated four at a time, in the order
/// the loops begin.
pub open spec fn quad(j: int) -> LoopBlocks {
    LoopBlocks {
        header: (4 * j) as usize,
        body: (4 * j + 1) as usize,
        latch: (4 * j + 2) as usize,
        exit: (4 * j + 3) as usize,
    }
}

/// The test at the top and at the bottom of a loop.
pub open spec fn loop_test(q: LoopBlocks) -> Exit {
    Exit::Branch { zero: q.exit, nonzero: q.body }
}

/// Whether control can leave through `e` to block `t`.
pub open spec fn targets(e: Option<Exit>, t: int) -> bool {
    match e {
        Some(Exit::Jump(x)) => x == t,
        Some(Exit::Branch { zero, nonzero }) => zero == t || nonzero == t,
        _ => false,
    }
}

/// Whether every block that `e` names is one of `n` blocks.
pub open spec fn exit_in_range(e: Option<Exit>, n: int) -> bool {
    match e {
        Some(Exit::Jump(x)) => x < n,
        Some(Exit::Branch { zero, nonzero }) => zero < n && nonzero < n,
        _ => true,
    }
}

/// The operation that a plain (non-loop) node lowers to.
pub open spec fn op_of(node: Node) -> Op {
    match node {
        Node::Add(n) => Op::AddCell(n),
        Node::Read => Op::ReadCell,
        Node::Print => Op::WriteCell,
        Node::ShiftLeft(n) => Op::MoveLeft(n),
        Node::ShiftRight(n) => Op::MoveRight(n),
        _ => Op::InitPointer,
    }
}

/// The operations the entry block starts with: point `ptr` at the tape, zero it.
pub open spec fn prelude() -> Seq<Op> {
    seq![Op::InitPointer, Op::ZeroTape]
}

/// The block that receives the operations following the prefix `p`: the body
/// of the loop begun last, the exit of the loop ended last, or the entry block.
pub open spec fn current_block(p: Seq<Node>, entry: int) -> int
    decreases p.len(),
{
    if p.len() == 0 {
        entry
    } else {
        match p.last() {
            Node::BeginLoop(id) => 4 * id + 1,
            Node::EndLoop(id) => 4 * id + 3,
            _ => current_block(p.drop_last(), entry),
        }
    }
}

/// The operations of the plain nodes of `s` that land in block `b`, in order.
pub open spec fn ops_into(s: Seq<Node>, entry: int, b: int) -> Seq<Op>
    decreases s.len(),
{
    if s.len() == 0 {
        seq![]
    } else {
        let p = s.drop_last();
        if !is_marker(s.last()) && current_block(p, entry) == b {
            ops_into(p, entry, b).push(op_of(s.last()))
        } else {
            ops_into(p, entry, b)
        }
    }
}

spec fn fresh(b: Block) -> bool {
    b.exit is None && b.ops@.len() == 0
}

/// How far emission has come with loop `j` after the prefix `p`.
spec fn loop_state(blocks: Seq<Block>, p: Seq<Node>, entry: int, cur: int, j: int) -> bool {
    let q = quad(j);
    let (h, bo, la, ex) = (4 * j, 4 * j + 1, 4 * j + 2, 4 * j + 3);
    &&& ops_into(p, entry, h) == Seq::<Op>::empty()
    &&& ops_into(p, entry, la) == Seq::<Op>::empty()
    &&& j >= loops_begun(p) ==> {
        &&& fresh(blocks[h]) && fresh(blocks[bo]) && fresh(blocks[la]) && fresh(blocks[ex])
        &&& ops_into(p, entry, bo) == Seq::<Op>::empty()
        &&& ops_into(p, entry, ex) == Seq::<Op>::empty()
    }
    &&& j < loops_begun(p) ==> {
        &&& blocks[h].exit == Some(loop_test(q)) && blocks[h].ops@ == Seq::<Op>::empty()
        &&& cur != bo ==> blocks[bo].exit is Some && blocks[bo].ops@ == ops_into(p, entry, bo)
        &&& fresh(blocks[la]) ==> fresh(blocks[ex]) && ops_into(p, entry, ex) == Seq::<Op>::empty()
        &&& !fresh(blocks[la]) ==> {
            &&& blocks[la].exit == Some(loop_test(q)) && blocks[la].ops@ == Seq::<Op>::empty()
            &&& cur != ex ==> blocks[ex].exit is Some && blocks[ex].ops@ == ops_into(p, entry, ex)
        }
    }
}

#[verifier::opaque]
spec fn inv_loops(blocks: Seq<Block>, p: Seq<Node>, e: int, nl: int, cur: int) -> bool {
    forall|j: int| 0 <= j < nl ==> #[trigger] loop_state(blocks, p, e, cur, j)
}

/// Open loops have fresh latches, and a begun loop with a fresh latch is open.
#[verifier::opaque]
spec fn inv_stack(blocks: Seq<Block>, p: Seq<Node>) -> bool {
    let st = loop_scan(p).unwrap().0;
    &&& forall|m: int| 0 <= m < st.len() ==> fresh(blocks[4 * #[trigger] st[m] + 2])
    &&& forall|j: int|
        0 <= j < loops_begun(p) && fresh(#[trigger] blocks[4 * j + 2]) ==> exists|m: int|
            0 <= m < st.len() && st[m] as int == j
}

#[verifier::opaque]
spec fn inv_edges(blocks: Seq<Block>, nl: int) -> bool {
    &&& forall|b: int, j: int|
        0 <= b < blocks.len() && 0 <= j < nl && #[trigger] targets(blocks[b].exit, 4 * j + 3) ==> b
            == 4 * j || b == 4 * j + 2
    &&& forall|b: int| 0 <= b < blocks.len() ==> exit_in_range(#[trigger] blocks[b].exit, blocks.len() as int)
}

#[verifier::opaque]
spec fn inv_marks(nodes: Seq<Node>, i: int, blocks: Seq<Block>, e: int) -> bool {
    &&& forall|k: int|
        0 <= k < i && #[trigger] nodes[k] is BeginLoop ==> 0 <= current_block(nodes.take(k), e)
            < blocks.len() && blocks[current_block(nodes.take(k), e)].exit == Some(
            Exit::Jump((4 * nodes[k]->BeginLoop_0) as usize),
        )
    &&& forall|k: int|
        0 <= k < i && #[trigger] nodes[k] is EndLoop ==> 0 <= current_block(nodes.take(k), e)
            < blocks.len() && blocks[current_block(nodes.take(k), e)].exit == Some(
            Exit::Jump((4 * nodes[k]->EndLoop_0 + 2) as usize),
        )
}

/// What holds after emitting the first `i` nodes: `cur` is the block being
/// filled and `ops` its operations so far.
spec fn emit_inv(
    nodes: Seq<Node>,
    i: int,
    blocks: Seq<Block>,
    e: int,
    nl: int,
    cur: int,
    g: int,
    ops: Seq<Op>,
) -> bool {
    let p = nodes.take(i);
    let st = loop_scan(p).unwrap().0;
    let n = loops_begun(p);
    &&& 0 <= i <= nodes.len()
    &&& loop_scan(p) is Some
    &&& n <= nl
    &&& blocks.len() == 4 * nl + 1
    &&& 4 * nl + 1 <= usize::MAX
    &&& e == 4 * nl
    &&& cur == current_block(p, e)
    &&& 0 <= cur < blocks.len()
    &&& blocks[cur].exit is None
    &&& cur == e ==> ops == prelude() + ops_into(p, e, e)
    &&& cur != e ==> {
        &&& ops == ops_into(p, e, cur)
        &&& blocks[e].exit is Some
        &&& blocks[e].ops@ == prelude() + ops_into(p, e, e)
        &&& 0 <= g < n
        &&& cur == 4 * g + 1 || cur == 4 * g + 3
        &&& cur == 4 * g + 1 ==> st.len() > 0 && st.last() == g
        &&& cur == 4 * g + 3 ==> blocks[4 * g + 2].exit == Some(loop_test(quad(g)))
    }
    &&& inv_loops(blocks, p, e, nl, cur)
    &&& inv_stack(blocks, p)
    &&& inv_edges(blocks, nl)
    &&& inv_marks(nodes, i, blocks, e)
}

proof fn lemma_prefix_step(nodes: Seq<Node>, i: int)
    requires
        0 <= i < nodes.len(),
    ensures
        nodes.take(i + 1) == nodes.take(i).push(nodes[i]),
        nodes.take(i + 1).drop_last() == nodes.take(i),
        nodes.take(i + 1).last() == nodes[i],
{
    assert(nodes.take(i + 1) == nodes.take(i).push(nodes[i]));
}

proof fn lemma_ops_marker(p: Seq<Node>, x: Node, e: int)
    requires
        is_marker(x),
    ensures
        forall|b: int| #[trigger] ops_into(p.push(x), e, b) == ops_into(p, e, b),
{
    assert(p.push(x).drop_last() == p);
}

proof fn lemma_emit_start(nodes: Seq<Node>, blocks: Seq<Block>, nl: int)
    requires
        blocks.len() == 4 * nl + 1,
        4 * nl + 1 <= usize::MAX,
        nl >= 0,
        forall|b: int| 0 <= b < blocks.len() ==> fresh(#[trigger] blocks[b]),
    ensures
        emit_inv(nodes, 0, blocks, 4 * nl, nl, 4 * nl, 0, prelude()),
{
    let p = nodes.take(0);
    assert(p.len() == 0);
    assert(inv_loops(blocks, p, 4 * nl, nl, 4 * nl)) by {
        reveal(inv_loops);
        assert forall|j: int| 0 <= j < nl implies #[trigger] loop_state(blocks, p, 4 * nl, 4 * nl, j) by {
            assert(fresh(blocks[4 * j + 3]));
            assert(fresh(blocks[4 * j + 2]));
            assert(fresh(blocks[4 * j + 1]));
            assert(fresh(blocks[4 * j]));
        }
    }
    assert(inv_stack(blocks, p)) by {
        reveal(inv_stack);
    }
    assert(inv_edges(blocks, nl)) by {
        reveal(inv_edges);
        assert forall|b: int| 0 <= b < blocks.len() implies exit_in_range(#[trigger] blocks[b].exit, blocks.len() as int) by {
            assert(fresh(blocks[b]));
        }
        assert forall|b: int, j: int|
            0 <= b < blocks.len() && 0 <= j < nl && #[trigger] targets(blocks[b].exit, 4 * j + 3) implies b
            == 4 * j || b == 4 * j + 2 by {
            assert(fresh(blocks[b]));
        }
    }
    assert(inv_marks(nodes, 0, blocks, 4 * nl)) by {
        reveal(inv_marks);
    }
    assert(prelude() + ops_into(p, 4 * nl, 4 * nl) == prelude());
}

proof fn lemma_emit_plain(
    nodes: Seq<Node>,
    i: int,
    blocks: Seq<Block>,
    e: int,
    nl: int,
    cur: int,
    g: int,
    ops: Seq<Op>,
)
    requires
        emit_inv(nodes, i, blocks, e, nl, cur, g, ops),
        i < nodes.len(),
        !is_marker(nodes[i]),
    ensures
        emit_inv(nodes, i + 1, blocks, e, nl, cur, g, ops.push(op_of(nodes[i]))),
{
    let p = nodes.take(i);
    let p1 = nodes.take(i + 1);
    lemma_prefix_step(nodes, i);
    assert(loop_scan(p1) == loop_scan(p));
    assert(current_block(p1, e) == cur);
    assert forall|b: int| b != cur implies #[trigger] ops_into(p1, e, b) == ops_into(p, e, b) by {}
    assert(ops_into(p1, e, cur) == ops_into(p, e, cur).push(op_of(nodes[i])));
    if cur == e {
        assert(prelude() + ops_into(p1, e, e) == (prelude() + ops_into(p, e, e)).push(op_of(nodes[i])));
    }
    assert(inv_loops(blocks, p1, e, nl, cur)) by {
        reveal(inv_loops);
        assert forall|j: int| 0 <= j < nl implies #[trigger] loop_state(blocks, p1, e, cur, j) by {
            assert(loop_state(blocks, p, e, cur, j));
            if cur != e {
                if cur == 4 * g + 3 {
                    assert(!fresh(blocks[4 * g + 2]));
                }
            }
        }
    }
    assert(inv_stack(blocks, p1)) by {
        reveal(inv_stack);
    }
    assert(inv_marks(nodes, i + 1, blocks, e)) by {
        reveal(inv_marks);
    }
}

#[verifier::spinoff_prover]
#[verifier::rlimit(100)]
proof fn lemma_emit_begin(
    nodes: Seq<Node>,
    i: int,
    blocks: Seq<Block>,
    e: int,
    nl: int,
    cur: int,
    g: int,
    ops: Seq<Op>,
    jump: Block,
    test: Block,
)
    requires
        emit_inv(nodes, i, blocks, e, nl, cur, g, ops),
        i < nodes.len(),
        nodes[i] is BeginLoop,
        loop_scan(nodes.take(i + 1)) is Some,
        loops_begun(nodes.take(i + 1)) <= nl,
        jump.exit == Some(Exit::Jump((4 * nodes[i]->BeginLoop_0) as usize)),
        jump.ops@ == ops,
        test.exit == Some(loop_test(quad(nodes[i]->BeginLoop_0 as int))),
        test.ops@ == Seq::<Op>::empty(),
    ensures
        ({
            let id = nodes[i]->BeginLoop_0 as int;
            &&& 4 * id + 3 < blocks.len()
            &&& cur != 4 * id
            &&& emit_inv(
                nodes,
                i + 1,
                blocks.update(cur, jump).update(4 * id, test),
                e,
                nl,
                4 * id + 1,
                id,
                Seq::<Op>::empty(),
            )
        }),
{
    let id = nodes[i]->BeginLoop_0 as int;
    let p = nodes.take(i);
    let p1 = nodes.take(i + 1);
    lemma_prefix_step(nodes, i);
    let st = loop_scan(p).unwrap().0;
    let n = loops_begun(p);
    assert(id == n);
    let st1 = st.push(id as u32);
    assert(loop_scan(p1) == Some((st1, n + 1)));
    assert(loop_state(blocks, p, e, cur, id)) by {
        reveal(inv_loops);
    }
    assert(cur != 4 * id);
    let b2 = blocks.update(cur, jump).update(4 * id, test);
    let c1 = 4 * id + 1;
    assert(current_block(p1, e) == c1);
    lemma_ops_marker(p, nodes[i], e);
    assert(inv_loops(b2, p1, e, nl, c1)) by {
        reveal(inv_loops);
        assert forall|j: int| 0 <= j < nl implies #[trigger] loop_state(b2, p1, e, c1, j) by {
            assert(loop_state(blocks, p, e, cur, j));
            if cur != e && cur == 4 * g + 3 {
                assert(!fresh(blocks[4 * g + 2]));
            }
        }
    }
    assert(inv_stack(b2, p1)) by {
        reveal(inv_stack);
        assert forall|m: int| 0 <= m < st1.len() implies fresh(b2[4 * #[trigger] st1[m] + 2]) by {
            if m < st.len() {
                lemma_scan_ids(p);
                assert(st1[m] == st[m]);
                assert(fresh(blocks[4 * st[m] + 2]));
            } else {
                assert(st1[m] as int == id);
                assert(fresh(blocks[4 * id + 2]));
            }
        }
        assert forall|j: int| 0 <= j < n + 1 && fresh(#[trigger] b2[4 * j + 2]) implies exists|m: int|
            0 <= m < st1.len() && st1[m] as int == j by {
            if j == id {
                assert(st1[st.len() as int] as int == j);
            } else {
                assert(fresh(blocks[4 * j + 2]));
                let m = choose|m: int| 0 <= m < st.len() && st[m] as int == j;
                assert(st1[m] as int == j);
            }
        }
    }
    assert(inv_marks(nodes, i + 1, b2, e)) by {
        reveal(inv_marks);
        assert forall|k: int| 0 <= k < i + 1 && #[trigger] nodes[k] is BeginLoop implies b2[current_block(
            nodes.take(k),
            e,
        )].exit == Some(Exit::Jump((4 * nodes[k]->BeginLoop_0) as usize)) by {
            if k == i {
                assert(nodes.take(k) == p);
            } else {
                assert(blocks[current_block(nodes.take(k), e)].exit is Some);
            }
        }
    }
    assert(inv_edges(b2, nl)) by {
        reveal(inv_edges);
        assert forall|b: int, j: int|
            0 <= b < b2.len() && 0 <= j < nl && #[trigger] targets(b2[b].exit, 4 * j + 3) implies b == 4
            * j || b == 4 * j + 2 by {
            if b != cur && b != 4 * id {
                assert(targets(blocks[b].exit, 4 * j + 3));
            }
        }
        assert forall|b: int| 0 <= b < b2.len() implies exit_in_range(#[trigger] b2[b].exit, b2.len() as int) by {
            if b != cur && b != 4 * id {
                assert(exit_in_range(blocks[b].exit, blocks.len() as int));
            }
        }
    }
}

#[verifier::spinoff_prover]
#[verifier::rlimit(100)]
proof fn lemma_emit_end(
    nodes: Seq<Node>,
    i: int,
    blocks: Seq<Block>,
    e: int,
    nl: int,
    cur: int,
    g: int,
    ops: Seq<Op>,
    jump: Block,
    test: Block,
)
    requires
        emit_inv(nodes, i, blocks, e, nl, cur, g, ops),
        i < nodes.len(),
        nodes[i] is EndLoop,
        loop_scan(nodes.take(i + 1)) is Some,
        jump.exit == Some(Exit::Jump((4 * nodes[i]->EndLoop_0 + 2) as usize)),
        jump.ops@ == ops,
        test.exit == Some(loop_test(quad(nodes[i]->EndLoop_0 as int))),
        test.ops@ == Seq::<Op>::empty(),
    ensures
        ({
            let id = nodes[i]->EndLoop_0 as int;
            &&& 4 * id + 3 < blocks.len()
            &&& cur != 4 * id + 2
            &&& emit_inv(
                nodes,
                i + 1,
                blocks.update(cur, jump).update(4 * id + 2, test),
                e,
                nl,
                4 * id + 3,
                id,
                Seq::<Op>::empty(),
            )
        }),
{
    let id = nodes[i]->EndLoop_0 as int;
    let p = nodes.take(i);
    let p1 = nodes.take(i + 1);
    lemma_prefix_step(nodes, i);
    lemma_scan_ids(p);
    let st = loop_scan(p).unwrap().0;
    let n = loops_begun(p);
    assert(st.len() > 0 && st.last() == id as u32);
    let st1 = st.drop_last();
    assert(loop_scan(p1) == Some((st1, n)));
    assert(fresh(blocks[4 * st[st.len() - 1] + 2])) by {
        reveal(inv_stack);
    }
    assert(id < n);
    assert(loop_state(blocks, p, e, cur, id)) by {
        reveal(inv_loops);
    }
    assert(cur != 4 * id + 2);
    if cur != e && cur == 4 * g + 3 {
        assert(!fresh(blocks[4 * g + 2]));
    }
    assert(cur != 4 * id + 3);
    let b2 = blocks.update(cur, jump).update(4 * id + 2, test);
    let c1 = 4 * id + 3;
    assert(current_block(p1, e) == c1);
    lemma_ops_marker(p, nodes[i], e);
    assert(inv_loops(b2, p1, e, nl, c1)) by {
        reveal(inv_loops);
        assert forall|j: int| 0 <= j < nl implies #[trigger] loop_state(b2, p1, e, c1, j) by {
            assert(loop_state(blocks, p, e, cur, j));
        }
    }
    assert(inv_stack(b2, p1)) by {
        reveal(inv_stack);
        assert forall|m: int| 0 <= m < st1.len() implies fresh(b2[4 * #[trigger] st1[m] + 2]) by {
            assert(st1[m] == st[m]);
            assert(st[m] < st[st.len() - 1]);
            assert(fresh(blocks[4 * st[m] + 2]));
        }
        assert forall|j: int| 0 <= j < n && fresh(#[trigger] b2[4 * j + 2]) implies exists|m: int|
            0 <= m < st1.len() && st1[m] as int == j by {
            assert(j != id);
            assert(fresh(blocks[4 * j + 2]));
            let m = choose|m: int| 0 <= m < st.len() && st[m] as int == j;
            assert(m != st.len() - 1);
            assert(st1[m] as int == j);
        }
    }
    assert(inv_marks(nodes, i + 1, b2, e)) by {
        reveal(inv_marks);
        assert forall|k: int| 0 <= k < i + 1 && #[trigger] nodes[k] is EndLoop implies 0 <= current_block(
            nodes.take(k),
            e,
        ) < b2.len() && b2[current_block(nodes.take(k), e)].exit == Some(
            Exit::Jump((4 * nodes[k]->EndLoop_0 + 2) as usize),
        ) by {
            if k == i {
                assert(nodes.take(k) == p);
            } else {
                assert(blocks[current_block(nodes.take(k), e)].exit is Some);
            }
        }
        assert forall|k: int| 0 <= k < i + 1 && #[trigger] nodes[k] is BeginLoop implies 0 <= current_block(
            nodes.take(k),
            e,
        ) < b2.len() && b2[current_block(nodes.take(k), e)].exit == Some(
            Exit::Jump((4 * nodes[k]->BeginLoop_0) as usize),
        ) by {
            assert(blocks[current_block(nodes.take(k), e)].exit is Some);
        }
    }
    assert(inv_edges(b2, nl)) by {
        reveal(inv_edges);
        assert forall|b: int, j: int|
            0 <= b < b2.len() && 0 <= j < nl && #[trigger] targets(b2[b].exit, 4 * j + 3) implies b == 4
            * j || b == 4 * j + 2 by {
            if b != cur && b != 4 * id + 2 {
                assert(targets(blocks[b].exit, 4 * j + 3));
            }
        }
        assert forall|b: int| 0 <= b < b2.len() implies exit_in_range(#[trigger] b2[b].exit, b2.len() as int) by {
            if b != cur && b != 4 * id + 2 {
                assert(exit_in_range(blocks[b].exit, blocks.len() as int));
            }
        }
    }
}

/// The ends of a finished lowering: every block has its exit, and each holds
/// the operations the nodes put there.
spec fn finished(nodes: Seq<Node>, blocks: Seq<Block>, e: int, nl: int) -> bool {
    &&& blocks[e].exit is Some
    &&& blocks[e].ops@ == prelude() + ops_into(nodes, e, e)
    &&& forall|j: int|
        0 <= j < nl ==> {
            let q = #[trigger] quad(j);
            &&& blocks[q.header as int].exit == Some(loop_test(q))
            &&& blocks[q.header as int].ops@ == Seq::<Op>::empty()
            &&& blocks[q.latch as int].exit == Some(loop_test(q))
            &&& blocks[q.latch as int].ops@ == Seq::<Op>::empty()
            &&& blocks[q.body as int].exit is Some
            &&& blocks[q.body as int].ops@ == ops_into(nodes, e, q.body as int)
            &&& blocks[q.exit as int].exit is Some
            &&& blocks[q.exit as int].ops@ == ops_into(nodes, e, q.exit as int)
        }
}

#[verifier::spinoff_prover]
#[verifier::rlimit(100)]
proof fn lemma_emit_finish(
    nodes: Seq<Node>,
    blocks: Seq<Block>,
    e: int,
    nl: int,
    cur: int,
    g: int,
    ops: Seq<Op>,
    ret: Block,
)
    requires
        emit_inv(nodes, nodes.len() as int, blocks, e, nl, cur, g, ops),
        well_formed(nodes),
        loops_begun(nodes) == nl,
        ret.exit == Some(Exit::Return(SUCCESS)),
        ret.ops@ == ops,
    ensures
        cur == current_block(nodes, e),
        0 <= cur < blocks.len(),
        finished(nodes, blocks.update(cur, ret), e, nl),
        inv_edges(blocks.update(cur, ret), nl),
        inv_marks(nodes, nodes.len() as int, blocks.update(cur, ret), e),
{
    let p = nodes.take(nodes.len() as int);
    assert(p == nodes);
    let b2 = blocks.update(cur, ret);
    assert(cur != e ==> cur == 4 * g + 3);
    assert forall|j: int| 0 <= j < nl implies {
        let q = #[trigger] quad(j);
        &&& b2[q.header as int].exit == Some(loop_test(q))
        &&& b2[q.header as int].ops@ == Seq::<Op>::empty()
        &&& b2[q.latch as int].exit == Some(loop_test(q))
        &&& b2[q.latch as int].ops@ == Seq::<Op>::empty()
        &&& b2[q.body as int].exit is Some
        &&& b2[q.body as int].ops@ == ops_into(nodes, e, q.body as int)
        &&& b2[q.exit as int].exit is Some
        &&& b2[q.exit as int].ops@ == ops_into(nodes, e, q.exit as int)
    } by {
        assert(loop_state(blocks, p, e, cur, j)) by {
            reveal(inv_loops);
        }
        assert(!fresh(blocks[4 * j + 2])) by {
            reveal(inv_stack);
        }
    }
    assert(inv_edges(b2, nl)) by {
        reveal(inv_edges);
        assert forall|b: int, j: int|
            0 <= b < b2.len() && 0 <= j < nl && #[trigger] targets(b2[b].exit, 4 * j + 3) implies b == 4
            * j || b == 4 * j + 2 by {
            if b != cur {
                assert(targets(blocks[b].exit, 4 * j + 3));
            }
        }
        assert forall|b: int| 0 <= b < b2.len() implies exit_in_range(#[trigger] b2[b].exit, b2.len() as int) by {
            if b != cur {
                assert(exit_in_range(blocks[b].exit, blocks.len() as int));
            }
        }
    }
    assert(inv_marks(nodes, nodes.len() as int, b2, e)) by {
        reveal(inv_marks);
        assert forall|k: int| 0 <= k < nodes.len() && #[trigger] nodes[k] is EndLoop implies 0 <= current_block(
            nodes.take(k),
            e,
        ) < b2.len() && b2[current_block(nodes.take(k), e)].exit == Some(
            Exit::Jump((4 * nodes[k]->EndLoop_0 + 2) as usize),
        ) by {
            assert(blocks[current_block(nodes.take(k), e)].exit is Some);
        }
        assert forall|k: int| 0 <= k < nodes.len() && #[trigger] nodes[k] is BeginLoop implies 0 <= current_block(
            nodes.take(k),
            e,
        ) < b2.len() && b2[current_block(nodes.take(k), e)].exit == Some(
            Exit::Jump((4 * nodes[k]->BeginLoop_0) as usize),
        ) by {
            assert(blocks[current_block(nodes.take(k), e)].exit is Some);
        }
    }
}

/// `blocks` is the function body lowered from `d`, whose loops are numbered
/// 0, 1, 2, ... in the order they begin: one block quadruple `quad(j)` per loop
/// `j`, allocated before emission, then the entry block, which points `ptr` at
/// the zero-filled tape; the operation of each plain node in the block current
/// where it stands; a jump into the loop's header at each loop begin and into
/// its latch at each loop end; both tests branching to the loop's exit on zero
/// and to its body otherwise, and nothing else entering the exit; and a return
/// of the success status in the block current at the end.
pub open spec fn lowered_body(d: Seq<Node>, blocks: Seq<Block>, entry: int, tape_size: u64) -> bool {
    let nl = loops_begun(d) as int;
    &&& blocks.len() == 4 * nl + 1
    &&& entry == 4 * nl
    &&& tape_size == TAPE_SIZE
    &&& blocks[entry].exit is Some
    &&& blocks[entry].ops@ == prelude() + ops_into(d, entry, entry)
    &&& forall|j: int|
        0 <= j < nl ==> {
            let q = #[trigger] quad(j);
            &&& blocks[q.header as int].exit == Some(loop_test(q))
            &&& blocks[q.header as int].ops@ == Seq::<Op>::empty()
            &&& blocks[q.latch as int].exit == Some(loop_test(q))
            &&& blocks[q.latch as int].ops@ == Seq::<Op>::empty()
            &&& blocks[q.body as int].exit is Some
            &&& blocks[q.body as int].ops@ == ops_into(d, entry, q.body as int)
            &&& blocks[q.exit as int].exit is Some
            &&& blocks[q.exit as int].ops@ == ops_into(d, entry, q.exit as int)
        }
    &&& forall|k: int|
        0 <= k < d.len() && #[trigger] d[k] is BeginLoop ==> {
            let id = d[k]->BeginLoop_0 as int;
            &&& id < nl
            &&& blocks[current_block(d.take(k), entry)].exit == Some(Exit::Jump(quad(id).header))
        }
    &&& forall|k: int|
        0 <= k < d.len() && #[trigger] d[k] is EndLoop ==> {
            let id = d[k]->EndLoop_0 as int;
            &&& id < nl
            &&& blocks[current_block(d.take(k), entry)].exit == Some(Exit::Jump(quad(id).latch))
        }
    &&& blocks[current_block(d, entry)].exit == Some(Exit::Return(SUCCESS))
    &&& forall|b: int, j: int|
        0 <= b < blocks.len() && 0 <= j < nl && #[trigger] targets(blocks[b].exit, quad(j).exit as int)
            ==> b == quad(j).header || b == quad(j).latch
    &&& forall|b: int| 0 <= b < blocks.len() ==> exit_in_range(#[trigger] blocks[b].exit, blocks.len() as int)
}

/// `r` is the lowering of `d`, whose loops are numbered densely, with the
/// block table holding loop `j`'s quadruple at index `j`.
pub open spec fn lowers_dense(d: Seq<Node>, r: Lowered) -> bool {
    &&& r.loops@.len() == loops_begun(d)
    &&& forall|j: int| 0 <= j < r.loops@.len() ==> #[trigger] r.loops@[j] == quad(j)
    &&& lowered_body(d, r.blocks@, r.entry as int, r.tape_size)
}

/// `r` is the lowering of `nodes`: its blocks are those of `nodes` with the
/// loops renumbered in the order they begin (see `lowered_body`), and the
/// block table holds, at each loop id of `nodes`, that loop's quadruple, whose
/// header and latch test `*ptr` and are the only blocks entering its exit.
pub open spec fn lowers(nodes: Seq<Node>, r: Lowered) -> bool {
    let d = dense(nodes);
    &&& lowered_body(d, r.blocks@, r.entry as int, r.tape_size)
    &&& forall|k: int|
        0 <= k < nodes.len() && #[trigger] nodes[k] is BeginLoop ==> {
            let id = nodes[k]->BeginLoop_0 as int;
            &&& id < r.loops@.len()
            &&& r.loops@[id] == quad(d[k]->BeginLoop_0 as int)
            &&& r.blocks@[r.loops@[id].header as int].exit == Some(loop_test(r.loops@[id]))
            &&& r.blocks@[r.loops@[id].latch as int].exit == Some(loop_test(r.loops@[id]))
            &&& forall|b: int|
                0 <= b < r.blocks@.len() && #[trigger] targets(r.blocks@[b].exit, r.loops@[id].exit as int)
                    ==> b == r.loops@[id].header || b == r.loops@[id].latch
        }
    &&& forall|k: int|
        0 <= k < nodes.len() && #[trigger] nodes[k] is EndLoop ==> {
            let id = nodes[k]->EndLoop_0 as int;
            &&& id < r.loops@.len()
            &&& r.loops@[id] == quad(d[k]->EndLoop_0 as int)
        }
}

/// Lowers a node sequence whose loops are numbered densely in the order they
/// begin (see `lowers_dense`).
fn lower_dense(nodes: &[Node]) -> (r: Lowered)
    requires
        well_formed(nodes@),
        nodes@.len() <= usize::MAX / 8,
    ensures
        lowers_dense(nodes@, r),
{
    proof {
        lemma_loop_ids(nodes@);
        lemma_begun_bound(nodes@);
    }
    let mut blocks: Vec<Block> = Vec::new();
    let mut loops: Vec<LoopBlocks> = Vec::new();
    // Pre-scan: one quadruple per loop, indexed by its id.
    for i in 0..nodes.len()
        invariant
            well_formed(nodes@),
            nodes@.len() <= usize::MAX / 8,
            loops_begun(nodes@) <= nodes@.len(),
            forall|i: int| 0 <= i <= nodes@.len() ==> #[trigger] loop_scan(nodes@.take(i)) is Some
                && loops_begun(nodes@.take(i)) <= loops_begun(nodes@),
            loops@.len() == loops_begun(nodes@.take(i as int)),
            forall|j: int| 0 <= j < loops@.len() ==> #[trigger] loops@[j] == quad(j),
            blocks@.len() == 4 * loops@.len(),
            forall|b: int| 0 <= b < blocks@.len() ==> fresh(#[trigger] blocks@[b]),
    {
        proof {
            lemma_prefix_step(nodes@, i as int);
            assert(loop_scan(nodes@.take(i + 1)) is Some);
        }
        match nodes[i] {
            Node::BeginLoop(_) => {
                let header = blocks.len();
                blocks.push(Block { ops: Vec::new(), exit: None });
                blocks.push(Block { ops: Vec::new(), exit: None });
                blocks.push(Block { ops: Vec::new(), exit: None });
                blocks.push(Block { ops: Vec::new(), exit: None });
                loops.push(
                    LoopBlocks { header, body: header + 1, latch: header + 2, exit: header + 3 },
                );
            },
            _ => {},
        }
    }
    proof {
        assert(nodes@.take(nodes@.len() as int) == nodes@);
    }
    let entry = blocks.len();
    blocks.push(Block { ops: Vec::new(), exit: None });
    let ghost nl = loops@.len() as int;
    let ghost e = entry as int;
    let mut cur = entry;
    let ghost mut g: int = 0;
    let mut ops: Vec<Op> = Vec::new();
    ops.push(Op::InitPointer);
    ops.push(Op::ZeroTape);
    proof {
        assert(ops@ == prelude());
        lemma_emit_start(nodes@, blocks@, nl);
    }
    for i in 0..nodes.len()
        invariant
            emit_inv(nodes@, i as int, blocks@, e, nl, cur as int, g, ops@),
            well_formed(nodes@),
            nl == loops@.len(),
            nl == loops_begun(nodes@),
            e == entry,
            forall|j: int| 0 <= j < loops@.len() ==> #[trigger] loops@[j] == quad(j),
            forall|i: int| 0 <= i <= nodes@.len() ==> #[trigger] loop_scan(nodes@.take(i)) is Some
                && loops_begun(nodes@.take(i)) <= loops_begun(nodes@),
            forall|k: int| 0 <= k < nodes@.len() && #[trigger] nodes@[k] is BeginLoop ==> (
            nodes@[k]->BeginLoop_0 as nat) < nl,
            forall|k: int| 0 <= k < nodes@.len() && #[trigger] nodes@[k] is EndLoop ==> (
            nodes@[k]->EndLoop_0 as nat) < nl,
    {
        let ghost old_blocks = blocks@;
        let ghost old_cur = cur as int;
        let ghost old_ops = ops@;
        match nodes[i] {
            Node::Read => {
                proof {
                    lemma_emit_plain(nodes@, i as int, blocks@, e, nl, cur as int, g, ops@);
                }
                ops.push(Op::ReadCell);
            },
            Node::Print => {
                proof {
                    lemma_emit_plain(nodes@, i as int, blocks@, e, nl, cur as int, g, ops@);
                }
                ops.push(Op::WriteCell);
            },
            Node::Add(n) => {
                proof {
                    lemma_emit_plain(nodes@, i as int, blocks@, e, nl, cur as int, g, ops@);
                }
                ops.push(Op::AddCell(n));
            },
            Node::ShiftLeft(n) => {
                proof {
                    lemma_emit_plain(nodes@, i as int, blocks@, e, nl, cur as int, g, ops@);
                }
                ops.push(Op::MoveLeft(n));
            },
            Node::ShiftRight(n) => {
                proof {
                    lemma_emit_plain(nodes@, i as int, blocks@, e, nl, cur as int, g, ops@);
                }
                ops.push(Op::MoveRight(n));
            },
            Node::BeginLoop(id) => {
                let q = loops[id as usize];
                blocks.set(cur, Block { ops, exit: Some(Exit::Jump(q.header)) });
                let ghost jump = blocks@[old_cur];
                blocks.set(
                    q.header,
                    Block { ops: Vec::new(), exit: Some(Exit::Branch { zero: q.exit, nonzero: q.body }) },
                );
                let ghost test = blocks@[q.header as int];
                proof {
                    lemma_emit_begin(nodes@, i as int, old_blocks, e, nl, old_cur, g, old_ops, jump, test);
                    g = id as int;
                }
                cur = q.body;
                ops = Vec::new();
            },
            Node::EndLoop(id) => {
                let q = loops[id as usize];
                blocks.set(cur, Block { ops, exit: Some(Exit::Jump(q.latch)) });
                let ghost jump = blocks@[old_cur];
                blocks.set(
                    q.latch,
                    Block { ops: Vec::new(), exit: Some(Exit::Branch { zero: q.exit, nonzero: q.body }) },
                );
                let ghost test = blocks@[q.latch as int];
                proof {
                    lemma_emit_end(nodes@, i as int, old_blocks, e, nl, old_cur, g, old_ops, jump, test);
                    g = id as int;
                }
                cur = q.exit;
                ops = Vec::new();
            },
        }
    }
    let ghost old_blocks = blocks@;
    let ghost old_ops = ops@;
    blocks.set(cur, Block { ops, exit: Some(Exit::Return(SUCCESS)) });
    proof {
        lemma_emit_finish(nodes@, old_blocks, e, nl, cur as int, g, old_ops, blocks@[cur as int]);
    }
    let r = Lowered { blocks, loops, entry, tape_size: TAPE_SIZE };
    proof {
        reveal(inv_edges);
        reveal(inv_marks);
        assert forall|b: int, j: int|
            0 <= b < r.blocks@.len() && 0 <= j < nl && #[trigger] targets(
                r.blocks@[b].exit,
                quad(j).exit as int,
            ) implies b == quad(j).header || b == quad(j).latch by {
            assert(targets(r.blocks@[b].exit, 4 * j + 3));
        }
    }
    r
}

/// Each loop id seen so far has its quadruple in the table, at its own index.
spec fn table_ok(table: Seq<LoopBlocks>, rk: Map<u32, u32>) -> bool {
    forall|id: u32|
        #[trigger] rk.contains_key(id) ==> (id as int) < table.len() && table[id as int] == quad(rk[id] as int)
}

proof fn lemma_table_insert(
    before: Seq<LoopBlocks>,
    after: Seq<LoopBlocks>,
    rk: Map<u32, u32>,
    id: u32,
    n: u32,
    q: LoopBlocks,
)
    requires
        table_ok(before, rk),
        !rk.contains_key(id),
        (id as int) < after.len(),
        after.len() >= before.len(),
        after[id as int] == q,
        q == quad(n as int),
        forall|j: int| 0 <= j < before.len() && j != id ==> after[j] == before[j],
    ensures
        table_ok(after, rk.insert(id, n)),
{
    assert forall|x: u32| #[trigger] rk.insert(id, n).contains_key(x) implies (x as int) < after.len()
        && after[x as int] == quad(rk.insert(id, n)[x] as int) by {
        if x != id {
            assert(rk.contains_key(x));
            assert(after[x as int] == before[x as int]);
        }
    }
}

/// Lowers a node sequence whose loops are well nested, with unique ids: the
/// loops are renumbered 0, 1, 2, ... in the order they begin and lowered (see
/// `lowers`), and the block table is indexed by the loops' own ids, filled as
/// the loops are met; an index that no loop uses holds a copy of a later entry.
pub fn compile_nodes(nodes: &[Node]) -> (r: Lowered)
    requires
        nested_unique(nodes@),
        nodes@.len() <= usize::MAX / 8,
        begin_count(nodes@) <= u32::MAX,
        forall|k: int| 0 <= k < nodes@.len() && #[trigger] nodes@[k] is BeginLoop ==> (nodes@[k]->BeginLoop_0 as int) < usize::MAX,
    ensures
        lowers(nodes@, r),
{
    proof {
        lemma_dense(nodes@);
        assert forall|i: int| 0 <= i <= nodes@.len() implies #[trigger] dense_state(nodes@.take(i)) is Some
            && begin_count(nodes@.take(i)) <= begin_count(nodes@) by {
            lemma_dense_prefix(nodes@, i);
        }
    }
    let mut d: Vec<Node> = Vec::new();
    let mut by_id: Vec<LoopBlocks> = Vec::new();
    let mut ranks: Vec<u32> = Vec::new();
    let mut n: u32 = 0;
    for i in 0..nodes.len()
        invariant
            nested_unique(nodes@),
            nodes@.len() <= usize::MAX / 8,
            begin_count(nodes@) <= u32::MAX,
            begin_count(nodes@) <= nodes@.len(),
            forall|k: int| 0 <= k < nodes@.len() && #[trigger] nodes@[k] is BeginLoop ==> (nodes@[k]->BeginLoop_0 as int) < usize::MAX,
            forall|i: int| 0 <= i <= nodes@.len() ==> #[trigger] dense_state(nodes@.take(i)) is Some
                && begin_count(nodes@.take(i)) <= begin_count(nodes@),
            dense_state(nodes@.take(i as int)).unwrap().0 == d@,
            dense_state(nodes@.take(i as int)).unwrap().1 == n as nat,
            dense_state(nodes@.take(i as int)).unwrap().3 == ranks@,
            table_ok(by_id@, dense_state(nodes@.take(i as int)).unwrap().4),
    {
        let ghost p = nodes@.take(i as int);
        let ghost p1 = nodes@.take(i + 1);
        proof {
            assert(p1.drop_last() == p);
            assert(p1.last() == nodes@[i as int]);
            lemma_dense(p);
            lemma_dense(p1);
        }
        let ghost before = by_id@;
        match nodes[i] {
            Node::BeginLoop(id) => {
                let h = 4 * (n as usize);
                let q = LoopBlocks { header: h, body: h + 1, latch: h + 2, exit: h + 3 };
                let idx = id as usize;
                if idx < by_id.len() {
                    by_id.set(idx, q);
                } else {
                    let ghost before = by_id@;
                    while by_id.len() <= idx
                        invariant
                            idx < usize::MAX,
                            before.len() <= by_id@.len() <= idx + 1,
                            forall|j: int| 0 <= j < before.len() ==> by_id@[j] == before[j],
                            forall|j: int| before.len() <= j < by_id@.len() ==> by_id@[j] == q,
                        decreases idx + 1 - by_id@.len(),
                    {
                        by_id.push(q);
                    }
                }
                proof {
                    lemma_table_insert(before, by_id@, dense_state(p).unwrap().4, id, n, q);
                }
                d.push(Node::BeginLoop(n));
                ranks.push(n);
                n = n + 1;
            },
            Node::EndLoop(_) => {
                let r = ranks.pop().unwrap();
                d.push(Node::EndLoop(r));
            },
            other => d.push(other),
        }
    }
    proof {
        assert(nodes@.take(nodes@.len() as int) == nodes@);
    }
    let r0 = lower_dense(&d);
    let Lowered { blocks, loops: _, entry, tape_size } = r0;
    let r = Lowered { blocks, loops: by_id, entry, tape_size };
    r
}

/// Reads a source text through to its lowered function body: classifies the
/// characters, rejects unbalanced loops, builds and optimizes the nodes, and
/// lowers them; the parsed loops are numbered densely, so the block table is
/// indexed by loop number. `None` exactly when the loops are unbalanced or the
/// program is too large to number its loops or to index its blocks.
pub fn lower_program(code: &str) -> (r: Option<Lowered>)
    ensures
        ({
            let toks = code@.map_values(|c: char| token_of(c));
            &&& r is Some <==> (begin_tokens(toks) <= u32::MAX && balanced(toks) && optimized(
                parsed(toks),
            ).len() <= usize::MAX / 8)
            &&& r is Some ==> lowers_dense(optimized(parsed(toks)), r.unwrap())
        }),
{
    let toks = tokens(code);
    let mut begins: usize = 0;
    for i in 0..toks.len()
        invariant
            begins == begin_tokens(toks@.take(i as int)),
            begins <= i,
    {
        proof {
            assert(toks@.take(i + 1).drop_last() == toks@.take(i as int));
            assert(toks@.take(i + 1).last() == toks@[i as int]);
        }
        if toks[i] == Token::BeginLoop {
            begins = begins + 1;
        }
    }
    proof {
        assert(toks@.take(toks@.len() as int) == toks@);
    }
    if begins > u32::MAX as usize {
        return None;
    }
    if !is_balanced(&toks) {
        return None;
    }
    let parsed_nodes = parse(&toks);
    let optimized_nodes = optimize(&parsed_nodes);
    proof {
        optimize_keeps_loops(parsed_nodes@);
    }
    if optimized_nodes.len() > usize::MAX / 8 {
        return None;
    }
    Some(lower_dense(&optimized_nodes))
}

} // verus!
