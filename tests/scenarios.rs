use bfc::lower::{compile_nodes, Exit, Lowered, Op};
use bfc::optimizer::optimize;
use bfc::parser::{parse, tokens, Node};

struct Outcome {
    output: Vec<u8>,
    tape: Vec<u8>,
    visits: Vec<usize>,
    status: i32,
}

/// Runs a lowered function on a tape that starts out filled with `garbage`,
/// as uninitialised stack memory would be.
fn run(f: &Lowered, input: &[u8], garbage: u8) -> Outcome {
    let mut tape = vec![garbage; f.tape_size as usize];
    let mut ptr: usize = usize::MAX;
    let mut input = input.iter();
    let mut output = vec![];
    let mut visits = vec![0; f.blocks.len()];
    let mut b = f.entry;
    for _ in 0..1_000_000 {
        visits[b] += 1;
        for op in f.blocks[b].ops.iter() {
            match *op {
                Op::InitPointer => ptr = 0,
                Op::ZeroTape => tape.iter_mut().for_each(|c| *c = 0),
                Op::ReadCell => tape[ptr] = *input.next().unwrap_or(&0),
                Op::WriteCell => output.push(tape[ptr]),
                Op::AddCell(n) => tape[ptr] = tape[ptr].wrapping_add(n),
                Op::MoveLeft(n) => ptr -= n as usize,
                Op::MoveRight(n) => ptr += n as usize,
            }
        }
        match f.blocks[b].exit.expect("every block has an exit") {
            Exit::Jump(t) => b = t,
            Exit::Branch { zero, nonzero } => b = if tape[ptr] == 0 { zero } else { nonzero },
            Exit::Return(status) => {
                return Outcome { output, tape, visits, status };
            }
        }
    }
    panic!("did not return");
}

#[test]
fn increment_then_print_outputs_one() {
    let f = compile_nodes(&[Node::Add(1), Node::Print]);
    let o = run(&f, &[], 0x5a);
    assert_eq!(o.output, vec![1]);
    assert_eq!(o.status, 0);
}

#[test]
fn decrement_loop_runs_k_times() {
    for k in 0..=255u8 {
        let nodes = [Node::Add(k), Node::BeginLoop(0), Node::Add(255), Node::EndLoop(0)];
        let f = compile_nodes(&nodes);
        let o = run(&f, &[], 0xff);
        assert_eq!(o.visits[f.loops[0].body], k as usize);
        assert_eq!(o.tape[0], 0);
        assert_eq!(o.visits[f.loops[0].exit], 1);
    }
}

#[test]
fn tape_is_zero_before_first_instruction() {
    let f = compile_nodes(&[]);
    let o = run(&f, &[], 0xa5);
    assert_eq!(f.blocks[f.entry].ops, vec![Op::InitPointer, Op::ZeroTape]);
    assert!(o.tape.iter().all(|c| *c == 0));
    assert_eq!(o.tape.len(), 1024);
}

#[test]
fn echo_program_copies_input() {
    // read a byte, print it, until a zero byte is read
    let t = tokens(",[.,]");
    let f = compile_nodes(&optimize(&parse(&t)));
    let o = run(&f, b"hi!", 0);
    assert_eq!(o.output, b"hi!".to_vec());
}

#[test]
fn hello_program_prints_greeting() {
    let src = "++++++++[>++++[>++>+++>+++>+<<<<-]>+>+>->>+[<]<-]>>.>---.+++++++..+++.>>.<-.<.+++.------.--------.>>+.";
    let t = tokens(src);
    let f = compile_nodes(&optimize(&parse(&t)));
    let o = run(&f, &[], 0x11);
    assert_eq!(o.output, b"Hello World!".to_vec());
}

#[test]
fn optimized_and_plain_programs_agree() {
    let src = ">>+++[<++>-]<<+>>>-<<<[->+<]>.>.,.";
    let t = tokens(src);
    let p = parse(&t);
    let a = run(&compile_nodes(&p), b"z", 0);
    let b = run(&compile_nodes(&optimize(&p)), b"z", 0);
    assert_eq!(a.output, b.output);
    assert_eq!(a.tape, b.tape);
}

#[test]
fn sparse_loop_id_runs_like_dense() {
    let nodes = [Node::Add(3), Node::BeginLoop(7), Node::Print, Node::Add(255), Node::EndLoop(7)];
    let f = compile_nodes(&nodes);
    let o = run(&f, &[], 0x33);
    assert_eq!(o.output, vec![3, 2, 1]);
    assert_eq!(o.visits[f.loops[7].body], 3);
    assert_eq!(o.tape[0], 0);
}
