use bfc::lower::{compile_nodes, Exit, LoopBlocks, Op, TAPE_SIZE};
use bfc::parser::Node;

#[test]
fn entry_zeroes_tape_then_runs() {
    let f = compile_nodes(&[Node::Add(1), Node::Print]);
    assert_eq!(f.tape_size, TAPE_SIZE);
    assert_eq!(f.tape_size, 1024);
    assert_eq!(f.entry, 0);
    assert_eq!(f.blocks.len(), 1);
    assert_eq!(
        f.blocks[0].ops,
        vec![Op::InitPointer, Op::ZeroTape, Op::AddCell(1), Op::WriteCell]
    );
    assert_eq!(f.blocks[0].exit, Some(Exit::Return(0)));
}

#[test]
fn decrement_loop_blocks() {
    let f = compile_nodes(&[Node::BeginLoop(0), Node::Add(255), Node::EndLoop(0)]);
    assert_eq!(f.loops, vec![LoopBlocks { header: 0, body: 1, latch: 2, exit: 3 }]);
    assert_eq!(f.entry, 4);
    let test = Some(Exit::Branch { zero: 3, nonzero: 1 });
    assert_eq!(f.blocks[4].ops, vec![Op::InitPointer, Op::ZeroTape]);
    assert_eq!(f.blocks[4].exit, Some(Exit::Jump(0)));
    assert_eq!(f.blocks[0].exit, test);
    assert_eq!(f.blocks[1].ops, vec![Op::AddCell(255)]);
    assert_eq!(f.blocks[1].exit, Some(Exit::Jump(2)));
    assert_eq!(f.blocks[2].exit, test);
    assert_eq!(f.blocks[3].ops, vec![]);
    assert_eq!(f.blocks[3].exit, Some(Exit::Return(0)));
}

#[test]
fn nested_loops_exit_edges() {
    // [ > [ - ] < ] .
    let nodes = [
        Node::BeginLoop(0),
        Node::ShiftRight(1),
        Node::BeginLoop(1),
        Node::Add(255),
        Node::EndLoop(1),
        Node::ShiftLeft(1),
        Node::EndLoop(0),
        Node::Print,
    ];
    let f = compile_nodes(&nodes);
    assert_eq!(f.blocks.len(), 9);
    for (j, q) in f.loops.iter().enumerate() {
        assert_eq!(q.header, 4 * j);
        for (b, blk) in f.blocks.iter().enumerate() {
            let hits = match blk.exit {
                Some(Exit::Jump(t)) => t == q.exit,
                Some(Exit::Branch { zero, nonzero }) => zero == q.exit || nonzero == q.exit,
                _ => false,
            };
            if hits {
                assert!(b == q.header || b == q.latch);
            }
        }
    }
    assert_eq!(f.blocks[1].ops, vec![Op::MoveRight(1)]);
    assert_eq!(f.blocks[1].exit, Some(Exit::Jump(4)));
    assert_eq!(f.blocks[7].ops, vec![Op::MoveLeft(1)]);
    assert_eq!(f.blocks[7].exit, Some(Exit::Jump(2)));
    assert_eq!(f.blocks[3].ops, vec![Op::WriteCell]);
    assert_eq!(f.blocks[3].exit, Some(Exit::Return(0)));
    assert!(f.blocks.iter().all(|b| b.exit.is_some()));
}

#[test]
fn lower_program_accepts_balanced_source() {
    let f = bfc::lower::lower_program("+++[>++<-]>.").unwrap();
    assert_eq!(f.loops.len(), 1);
    assert_eq!(f.blocks[f.entry].ops, vec![Op::InitPointer, Op::ZeroTape, Op::AddCell(3)]);
    assert_eq!(f.blocks[1].ops, vec![Op::MoveRight(1), Op::AddCell(2), Op::MoveLeft(1), Op::AddCell(255)]);
    assert_eq!(f.blocks[3].ops, vec![Op::MoveRight(1), Op::WriteCell]);
}

#[test]
fn lower_program_rejects_unbalanced_source() {
    assert!(bfc::lower::lower_program("[").is_none());
    assert!(bfc::lower::lower_program("+]").is_none());
    assert!(bfc::lower::lower_program("][").is_none());
}

#[test]
fn loop_ids_need_not_start_at_zero() {
    let f = compile_nodes(&[Node::BeginLoop(1), Node::EndLoop(1)]);
    let q = LoopBlocks { header: 0, body: 1, latch: 2, exit: 3 };
    assert_eq!(f.loops, vec![q, q]);
    assert_eq!(f.entry, 4);
    assert_eq!(f.blocks[4].exit, Some(Exit::Jump(0)));
    assert_eq!(f.blocks[1].exit, Some(Exit::Jump(2)));
    assert_eq!(f.blocks[0].exit, Some(Exit::Branch { zero: 3, nonzero: 1 }));
    assert_eq!(f.blocks[2].exit, Some(Exit::Branch { zero: 3, nonzero: 1 }));
    assert_eq!(f.blocks[3].exit, Some(Exit::Return(0)));
}

#[test]
fn loop_table_is_indexed_by_id_out_of_order() {
    let nodes = [
        Node::BeginLoop(5),
        Node::Print,
        Node::BeginLoop(2),
        Node::Read,
        Node::EndLoop(2),
        Node::EndLoop(5),
    ];
    let f = compile_nodes(&nodes);
    let q0 = LoopBlocks { header: 0, body: 1, latch: 2, exit: 3 };
    let q1 = LoopBlocks { header: 4, body: 5, latch: 6, exit: 7 };
    assert_eq!(f.loops.len(), 6);
    assert_eq!(f.loops[5], q0);
    assert_eq!(f.loops[2], q1);
    assert_eq!(f.blocks.len(), 9);
    assert_eq!(f.entry, 8);
    assert_eq!(f.blocks[1].ops, vec![Op::WriteCell]);
    assert_eq!(f.blocks[1].exit, Some(Exit::Jump(4)));
    assert_eq!(f.blocks[5].ops, vec![Op::ReadCell]);
    assert_eq!(f.blocks[5].exit, Some(Exit::Jump(6)));
    assert_eq!(f.blocks[7].exit, Some(Exit::Jump(2)));
    assert_eq!(f.blocks[3].exit, Some(Exit::Return(0)));
    assert!(f.blocks.iter().all(|b| b.exit.is_some()));
}
