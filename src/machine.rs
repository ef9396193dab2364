//! What a lowered function does when it runs, stated over a machine state,
//! and the laws proved of lowering and optimizing against it.
use vstd::prelude::*;

use crate::lower::{
    current_block, lowers, op_of, ops_into, prelude, quad, Block, Exit, LoopBlocks, Lowered, Op,
};
use crate::optimizer::{combine, lemma_pass_len, optimized, pass};
use crate::parser::{dense, dense_state, is_marker, loop_scan, loops_begun, Node};

verus! {

/// A lowered function at run time: the pointer (an address; the tape starts
/// at address 0), memory, the bytes the input primitive has still to hand out,
/// and the bytes handed to the output primitive so far.
pub struct Machine {
    pub ptr: int,
    pub mem: spec_fn(int) -> u8,
    pub input: Seq<u8>,
    pub output: Seq<u8>,
}

pub open spec fn cell(m: Machine) -> u8 {
    (m.mem)(m.ptr)
}

pub open spec fn store(m: Machine, v: u8) -> Machine {
    Machine {
        ptr: m.ptr,
        mem: |a: int| if a == m.ptr { v } else { (m.mem)(a) },
        input: m.input,
        output: m.output,
    }
}

/// What one operation does to the machine, with a tape of `tape_size` bytes.
/// A read past the end of the input leaves the machine as it is.
pub open spec fn apply_op(op: Op, m: Machine, tape_size: int) -> Machine {
    match op {
        Op::InitPointer => Machine { ptr: 0, mem: m.mem, input: m.input, output: m.output },
        Op::ZeroTape => Machine {
            ptr: m.ptr,
            mem: |a: int| if 0 <= a < tape_size { 0u8 } else { (m.mem)(a) },
            input: m.input,
            output: m.output,
        },
        Op::ReadCell => if m.input.len() > 0 {
            let s = store(m, m.input[0]);
            Machine { ptr: s.ptr, mem: s.mem, input: m.input.drop_first(), output: s.output }
        } else {
            m
        },
        Op::WriteCell => Machine { ptr: m.ptr, mem: m.mem, input: m.input, output: m.output.push(cell(m)) },
        Op::AddCell(n) => store(m, ((cell(m) + n) % 256) as u8),
        Op::MoveLeft(n) => Machine { ptr: m.ptr - n, mem: m.mem, input: m.input, output: m.output },
        Op::MoveRight(n) => Machine { ptr: m.ptr + n, mem: m.mem, input: m.input, output: m.output },
    }
}

pub open spec fn apply_ops(ops: Seq<Op>, m: Machine, tape_size: int) -> Machine
    decreases ops.len(),
{
    if ops.len() == 0 {
        m
    } else {
        apply_op(ops.last(), apply_ops(ops.drop_last(), m, tape_size), tape_size)
    }
}

/// Runs `blocks` from block `b`, entering at most `fuel` blocks. If a return
/// is reached: the machine then, and the blocks entered, in order.
pub open spec fn run(blocks: Seq<Block>, tape_size: int, b: int, m: Machine, fuel: nat) -> Option<
    (Machine, Seq<int>),
>
    decreases fuel,
{
    if fuel == 0 || !(0 <= b < blocks.len()) {
        None
    } else {
        let m1 = apply_ops(blocks[b].ops@, m, tape_size);
        match blocks[b].exit {
            Some(Exit::Return(_)) => Some((m1, seq![b])),
            Some(Exit::Jump(t)) => match run(blocks, tape_size, t as int, m1, (fuel - 1) as nat) {
                Some((mf, tr)) => Some((mf, seq![b] + tr)),
                None => None,
            },
            Some(Exit::Branch { zero, nonzero }) => {
                let t = if cell(m1) == 0 {
                    zero
                } else {
                    nonzero
                };
                match run(blocks, tape_size, t as int, m1, (fuel - 1) as nat) {
                    Some((mf, tr)) => Some((mf, seq![b] + tr)),
                    None => None,
                }
            },
            None => None,
        }
    }
}

/// The blocks entered from a test of loop `q` (its header or latch `t`) when
/// the body will run `k` more times: the test, then body and latch `k` times,
/// then the loop's exit.
pub open spec fn test_trace(q: LoopBlocks, t: int, k: nat) -> Seq<int>
    decreases k,
{
    if k == 0 {
        seq![t, q.exit as int]
    } else {
        seq![t, q.body as int] + test_trace(q, q.latch as int, (k - 1) as nat)
    }
}

/// Whatever the memory held before, once the entry block's first two
/// operations have run the pointer is at the tape's start and every byte of
/// the tape reads 0.
pub proof fn entry_zeroes_tape(nodes: Seq<Node>, r: Lowered, m: Machine)
    requires
        lowers(nodes, r),
    ensures
        r.blocks@[r.entry as int].ops@.take(2) == prelude(),
        apply_ops(prelude(), m, r.tape_size as int).ptr == 0,
        forall|a: int|
            0 <= a < r.tape_size ==> (#[trigger] (apply_ops(prelude(), m, r.tape_size as int).mem)(a))
                == 0,
{
    let ops = r.blocks@[r.entry as int].ops@;
    assert(ops.take(2) == prelude());
    assert(prelude().drop_last() == seq![Op::InitPointer]);
    assert(seq![Op::InitPointer].drop_last() == Seq::<Op>::empty());
    let ts = r.tape_size as int;
    assert(apply_ops(Seq::<Op>::empty(), m, ts) == m);
    let m1 = apply_ops(seq![Op::InitPointer], m, ts);
    assert(m1 == apply_op(Op::InitPointer, apply_ops(Seq::<Op>::empty(), m, ts), ts));
    assert(apply_ops(prelude(), m, ts) == apply_op(Op::ZeroTape, m1, ts));
}

proof fn lemma_test_runs(blocks: Seq<Block>, ts: int, q: LoopBlocks, t: int, m: Machine, c: nat)
    requires
        t == q.header || t == q.latch,
        0 <= q.header < blocks.len(),
        0 <= q.body < blocks.len(),
        0 <= q.latch < blocks.len(),
        0 <= q.exit < blocks.len(),
        blocks[q.header as int].exit == Some(Exit::Branch { zero: q.exit, nonzero: q.body }),
        blocks[q.header as int].ops@ == Seq::<Op>::empty(),
        blocks[q.latch as int].exit == Some(Exit::Branch { zero: q.exit, nonzero: q.body }),
        blocks[q.latch as int].ops@ == Seq::<Op>::empty(),
        blocks[q.body as int].exit == Some(Exit::Jump(q.latch)),
        blocks[q.body as int].ops@ == seq![Op::AddCell(255)],
        blocks[q.exit as int].exit is Some && blocks[q.exit as int].exit.unwrap() is Return,
        blocks[q.exit as int].ops@ == Seq::<Op>::empty(),
        cell(m) == c,
    ensures
        run(blocks, ts, t, m, 2 * c + 2) is Some,
        run(blocks, ts, t, m, 2 * c + 2).unwrap().1 == test_trace(q, t, c),
        run(blocks, ts, t, m, 2 * c + 2).unwrap().0.ptr == m.ptr,
        cell(run(blocks, ts, t, m, 2 * c + 2).unwrap().0) == 0,
    decreases c,
{
    assert(apply_ops(Seq::<Op>::empty(), m, ts) == m);
    let fuel = (2 * c + 2) as nat;
    if c == 0 {
        assert(run(blocks, ts, q.exit as int, m, 1) == Some((m, seq![q.exit as int])));
        assert(seq![t] + seq![q.exit as int] == seq![t, q.exit as int]);
    } else {
        let ops = seq![Op::AddCell(255)];
        assert(ops.drop_last() == Seq::<Op>::empty());
        let m2 = apply_ops(ops, m, ts);
        assert(m2 == apply_op(Op::AddCell(255), apply_ops(Seq::<Op>::empty(), m, ts), ts));
        assert(cell(m2) == c - 1);
        lemma_test_runs(blocks, ts, q, q.latch as int, m2, (c - 1) as nat);
        let inner = run(blocks, ts, q.latch as int, m2, (2 * c) as nat);
        assert(run(blocks, ts, q.body as int, m, (2 * c + 1) as nat) == Some(
            (inner.unwrap().0, seq![q.body as int] + inner.unwrap().1),
        ));
        assert(seq![t] + (seq![q.body as int] + inner.unwrap().1) == seq![t, q.body as int]
            + inner.unwrap().1);
    }
}

/// Running the lowering of "add k; loop { add 255 }" returns, with the loop's
/// body entered exactly `k` times (the header, then body and latch `k` times,
/// then the exit), and leaves the cell at 0; for `k == 0` the body never runs.
pub proof fn decrement_loop_runs_k_times(r: Lowered, k: u8, m: Machine)
    requires
        lowers(seq![Node::Add(k), Node::BeginLoop(0), Node::Add(255), Node::EndLoop(0)], r),
    ensures
        ({
            let res = run(r.blocks@, r.tape_size as int, r.entry as int, m, (2 * k + 3) as nat);
            &&& res is Some
            &&& res.unwrap().1 == seq![r.entry as int] + test_trace(
                r.loops@[0],
                r.loops@[0].header as int,
                k as nat,
            )
            &&& res.unwrap().0.ptr == 0
            &&& cell(res.unwrap().0) == 0
        }),
{
    let nodes = seq![Node::Add(k), Node::BeginLoop(0), Node::Add(255), Node::EndLoop(0)];
    let s0 = Seq::<Node>::empty();
    let s1 = seq![Node::Add(k)];
    let s2 = seq![Node::Add(k), Node::BeginLoop(0)];
    let s3 = seq![Node::Add(k), Node::BeginLoop(0), Node::Add(255)];
    assert(nodes.drop_last() == s3);
    assert(s3.drop_last() == s2);
    assert(s2.drop_last() == s1);
    assert(s1.drop_last() == s0);
    assert(nodes.take(1) == s1);
    assert(nodes.take(3) == s3);
    assert(s1.last() == Node::Add(k));
    assert(s2.last() == Node::BeginLoop(0));
    assert(s3.last() == Node::Add(255));
    assert(nodes.last() == Node::EndLoop(0));
    assert(loop_scan(s0) == Some((Seq::<u32>::empty(), 0nat)));
    assert(loop_scan(s1) == Some((Seq::<u32>::empty(), 0nat)));
    assert(loop_scan(s2) == Some((seq![0u32], 1nat)));
    assert(loop_scan(s3) == Some((seq![0u32], 1nat)));
    assert(seq![0u32].drop_last() == Seq::<u32>::empty());
    assert(loops_begun(nodes) == 1);
    let rk = Map::<u32, u32>::empty().insert(0u32, 0u32);
    assert(dense_state(s0) == Some((s0, 0nat, Seq::<u32>::empty(), Seq::<u32>::empty(), Map::<u32, u32>::empty())));
    assert(s0.push(Node::Add(k)) == s1);
    assert(dense_state(s1) == Some((s1, 0nat, Seq::<u32>::empty(), Seq::<u32>::empty(), Map::<u32, u32>::empty())));
    assert(s1.push(Node::BeginLoop(0)) == s2);
    assert(Seq::<u32>::empty().push(0u32) == seq![0u32]);
    assert(dense_state(s2) == Some((s2, 1nat, seq![0u32], seq![0u32], rk)));
    assert(s2.push(Node::Add(255)) == s3);
    assert(dense_state(s3) == Some((s3, 1nat, seq![0u32], seq![0u32], rk)));
    assert(s3.push(Node::EndLoop(0)) == nodes);
    assert(dense_state(nodes) == Some((nodes, 1nat, Seq::<u32>::empty(), Seq::<u32>::empty(), rk)));
    assert(dense(nodes) == nodes);
    let q = r.loops@[0];
    assert(q == quad(0));
    let e = 4int;
    assert(r.entry == 4);
    assert(current_block(s0, e) == e);
    assert(current_block(s1, e) == e);
    assert(current_block(s2, e) == 1);
    assert(current_block(s3, e) == 1);
    assert(current_block(nodes, e) == 3);
    assert forall|b: int| #[trigger] ops_into(s0, e, b) == Seq::<Op>::empty() by {}
    assert(Seq::<Op>::empty().push(Op::AddCell(k)) == seq![Op::AddCell(k)]);
    assert(Seq::<Op>::empty().push(Op::AddCell(255)) == seq![Op::AddCell(255)]);
    assert(!is_marker(s1.last()) && op_of(s1.last()) == Op::AddCell(k));
    assert(ops_into(s1, e, e) == ops_into(s0, e, e).push(Op::AddCell(k)));
    assert(ops_into(s1, e, e) == seq![Op::AddCell(k)]);
    assert(ops_into(s1, e, 1) == ops_into(s0, e, 1));
    assert(ops_into(s1, e, 1) == Seq::<Op>::empty());
    assert(ops_into(s1, e, 3) == ops_into(s0, e, 3));
    assert(ops_into(s1, e, 3) == Seq::<Op>::empty());
    assert(ops_into(s2, e, e) == seq![Op::AddCell(k)]);
    assert(ops_into(s2, e, 1) == Seq::<Op>::empty());
    assert(ops_into(s2, e, 3) == Seq::<Op>::empty());
    assert(ops_into(s3, e, e) == seq![Op::AddCell(k)]);
    assert(ops_into(s3, e, 1) == seq![Op::AddCell(255)]);
    assert(ops_into(s3, e, 3) == Seq::<Op>::empty());
    assert(ops_into(nodes, e, e) == seq![Op::AddCell(k)]);
    assert(ops_into(nodes, e, 1) == seq![Op::AddCell(255)]);
    assert(ops_into(nodes, e, 3) == Seq::<Op>::empty());
    assert(nodes[1] is BeginLoop);
    assert(nodes[3] is EndLoop);
    let blocks = r.blocks@;
    assert(blocks[4].exit == Some(Exit::Jump(0)));
    assert(blocks[1].exit == Some(Exit::Jump(2)));
    assert(blocks[3].exit == Some(Exit::Return(0)));
    let ts = r.tape_size as int;
    let eops = prelude() + seq![Op::AddCell(k)];
    assert(blocks[4].ops@ == eops);
    assert(eops.drop_last() == prelude());
    entry_zeroes_tape(nodes, r, m);
    let m1 = apply_ops(eops, m, ts);
    assert(m1 == apply_op(Op::AddCell(k), apply_ops(prelude(), m, ts), ts));
    assert(cell(apply_ops(prelude(), m, ts)) == 0);
    assert(cell(m1) == k);
    lemma_test_runs(blocks, ts, q, 0, m1, k as nat);
}

/// The operations that a run of plain nodes lowers to.
pub open spec fn plain_ops(s: Seq<Node>) -> Seq<Op> {
    s.map_values(|n: Node| op_of(n))
}

proof fn lemma_plain_ops_push(s: Seq<Node>, x: Node)
    ensures
        plain_ops(s.push(x)) == plain_ops(s).push(op_of(x)),
{
    assert(plain_ops(s.push(x)) =~= plain_ops(s).push(op_of(x)));
}

proof fn lemma_apply_push(ops: Seq<Op>, op: Op, m: Machine, ts: int)
    ensures
        apply_ops(ops.push(op), m, ts) == apply_op(op, apply_ops(ops, m, ts), ts),
{
    assert(ops.push(op).drop_last() == ops);
}

#[verifier::spinoff_prover]
proof fn lemma_combine_behaviour(kept: Seq<Node>, node: Node, m: Machine, ts: int)
    ensures
        apply_ops(plain_ops(combine(kept, node)), m, ts) == apply_ops(plain_ops(kept.push(node)), m, ts),
{
    if kept.len() > 0 && combine(kept, node) != kept.push(node) {
        let rest = kept.drop_last();
        let o = kept.last();
        assert(rest.push(o) == kept);
        lemma_plain_ops_push(rest, o);
        lemma_plain_ops_push(kept, node);
        lemma_apply_push(plain_ops(rest), op_of(o), m, ts);
        lemma_apply_push(plain_ops(kept), op_of(node), m, ts);
        let base = apply_ops(plain_ops(rest), m, ts);
        let rhs = apply_op(op_of(node), apply_op(op_of(o), base, ts), ts);
        let c = combine(kept, node);
        if c.len() == rest.len() + 1 {
            let y = c.last();
            assert(c == rest.push(y));
            lemma_plain_ops_push(rest, y);
            lemma_apply_push(plain_ops(rest), op_of(y), m, ts);
            let lhs = apply_op(op_of(y), base, ts);
            match (o, node) {
                (Node::Add(a), Node::Add(b)) => {
                    let v = cell(base) as int;
                    assert(((v + a) % 256 + b) % 256 == (v + (a + b) % 256) % 256) by (nonlinear_arith);
                    assert(lhs.mem =~~= rhs.mem);
                },
                _ => {},
            }
            assert(lhs.mem =~~= rhs.mem);
            assert(lhs == rhs);
        } else {
            assert(c == rest);
            assert(rhs == base);
        }
    }
}

proof fn lemma_pass_behaviour(s: Seq<Node>, m: Machine, ts: int)
    ensures
        apply_ops(plain_ops(pass(s)), m, ts) == apply_ops(plain_ops(s), m, ts),
    decreases s.len(),
{
    if s.len() > 0 {
        let u = s.drop_last();
        let x = s.last();
        assert(u.push(x) == s);
        lemma_pass_behaviour(u, m, ts);
        lemma_combine_behaviour(pass(u), x, m, ts);
        lemma_plain_ops_push(pass(u), x);
        lemma_plain_ops_push(u, x);
        lemma_apply_push(plain_ops(pass(u)), op_of(x), m, ts);
        lemma_apply_push(plain_ops(u), op_of(x), m, ts);
    }
}

proof fn lemma_optimized_behaviour(s: Seq<Node>, m: Machine, ts: int)
    ensures
        apply_ops(plain_ops(optimized(s)), m, ts) == apply_ops(plain_ops(s), m, ts),
    decreases s.len(),
{
    lemma_pass_behaviour(s, m, ts);
    lemma_pass_len(s);
    if pass(s).len() < s.len() {
        lemma_optimized_behaviour(pass(s), m, ts);
    }
}

/// On a run of plain nodes (no loop markers), the optimized nodes' operations
/// leave the machine exactly as the operations of the nodes before optimizing do.
pub proof fn optimize_keeps_behaviour(s: Seq<Node>, m: Machine, tape_size: int)
    requires
        forall|i: int| 0 <= i < s.len() ==> !is_marker(#[trigger] s[i]),
    ensures
        apply_ops(plain_ops(optimized(s)), m, tape_size) == apply_ops(plain_ops(s), m, tape_size),
{
    lemma_optimized_behaviour(s, m, tape_size);
}

} // verus!
