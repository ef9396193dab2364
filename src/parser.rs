//! Characters to tokens, and tokens to nodes with numbered loops.
use vstd::prelude::*;

verus! {

/// One source character, classified.
#[derive(Debug, Clone, Copy, PartialEq, Eq, Structural)]
pub enum Token {
    Plus,
    Sub,
    Print,
    Read,
    ShiftLeft,
    ShiftRight,
    BeginLoop,
    EndLoop,
    Ignored,
}

/// One operation of the intermediate representation.
#[derive(Debug, Clone, Copy, PartialEq, Eq, Structural)]
pub enum Node {
    Add(u8),
    Print,
    Read,
    ShiftLeft(u64),
    ShiftRight(u64),
    /// The number is the loop's id.
    BeginLoop(u32),
    EndLoop(u32),
}

pub open spec fn token_of(c: char) -> Token {
    if c == '+' {
        Token::Plus
    } else if c == '-' {
        Token::Sub
    } else if c == '.' {
        Token::Print
    } else if c == ',' {
        Token::Read
    } else if c == '<' {
        Token::ShiftLeft
    } else if c == '>' {
        Token::ShiftRight
    } else if c == '[' {
        Token::BeginLoop
    } else if c == ']' {
        Token::EndLoop
    } else {
        Token::Ignored
    }
}

/// Loops opened minus loops closed.
pub open spec fn depth(t: Seq<Token>) -> int
    decreases t.len(),
{
    if t.len() == 0 {
        0
    } else {
        depth(t.drop_last()) + if t.last() == Token::BeginLoop {
            1int
        } else if t.last() == Token::EndLoop {
            -1int
        } else {
            0int
        }
    }
}

/// Number of loop-begin tokens.
pub open spec fn begin_tokens(t: Seq<Token>) -> nat
    decreases t.len(),
{
    if t.len() == 0 {
        0
    } else {
        begin_tokens(t.drop_last()) + if t.last() == Token::BeginLoop {
            1nat
        } else {
            0nat
        }
    }
}

/// No loop is closed before it was opened, and every loop is closed.
pub open spec fn balanced(t: Seq<Token>) -> bool {
    &&& depth(t) == 0
    &&& forall|i: int| 0 <= i <= t.len() ==> depth(#[trigger] t.take(i)) >= 0
}

/// What the parser holds after reading `t`: the nodes so far, the next
/// loop id, and the ids of the loops still open (innermost last).
pub open spec fn parse_state(t: Seq<Token>) -> (Seq<Node>, nat, Seq<u32>)
    decreases t.len(),
{
    if t.len() == 0 {
        (seq![], 0, seq![])
    } else {
        let (v, id, st) = parse_state(t.drop_last());
        match t.last() {
            Token::Ignored => (v, id, st),
            Token::Print => (v.push(Node::Print), id, st),
            Token::Read => (v.push(Node::Read), id, st),
            Token::ShiftLeft => (v.push(Node::ShiftLeft(1)), id, st),
            Token::ShiftRight => (v.push(Node::ShiftRight(1)), id, st),
            Token::Plus => (v.push(Node::Add(1)), id, st),
            Token::Sub => (v.push(Node::Add(255)), id, st),
            Token::BeginLoop => (v.push(Node::BeginLoop(id as u32)), id + 1, st.push(id as u32)),
            Token::EndLoop => (v.push(Node::EndLoop(st.last())), id, st.drop_last()),
        }
    }
}

pub open spec fn parsed(t: Seq<Token>) -> Seq<Node> {
    parse_state(t).0
}

/// Reading the loop markers of `s` in order: the ids of the loops still open
/// (innermost last) and the number of loops begun. `None` once a marker breaks
/// the rules: loops are numbered 0, 1, 2, ... in the order they begin, and each
/// end closes the innermost open loop.
pub open spec fn loop_scan(s: Seq<Node>) -> Option<(Seq<u32>, nat)>
    decreases s.len(),
{
    if s.len() == 0 {
        Some((seq![], 0))
    } else {
        scan_step(loop_scan(s.drop_last()), s.last())
    }
}

/// One marker read by `loop_scan`; other nodes leave the state as it is.
pub open spec fn scan_step(state: Option<(Seq<u32>, nat)>, node: Node) -> Option<(Seq<u32>, nat)> {
    match state {
        None => None,
        Some((st, n)) => match node {
            Node::BeginLoop(id) => if id as nat == n {
                Some((st.push(id), n + 1))
            } else {
                None
            },
            Node::EndLoop(id) => if st.len() > 0 && st.last() == id {
                Some((st.drop_last(), n))
            } else {
                None
            },
            _ => Some((st, n)),
        },
    }
}

pub open spec fn is_marker(node: Node) -> bool {
    node is BeginLoop || node is EndLoop
}

/// Loop markers are well nested, every loop is closed, and ids are unique
/// (numbered densely in the order the loops begin).
pub open spec fn well_formed(s: Seq<Node>) -> bool {
    &&& loop_scan(s) is Some
    &&& loop_scan(s).unwrap().0.len() == 0
}

/// Number of loops begun in a well-formed prefix.
pub open spec fn loops_begun(s: Seq<Node>) -> nat {
    loop_scan(s).unwrap().1
}

/// Classifies each character of `s`.
pub fn tokens(s: &str) -> (r: Vec<Token>)
    ensures
        r@ == s@.map_values(|c: char| token_of(c)),
{
    let mut t: Vec<Token> = vec![];
    for c in it: s.chars()
        invariant
            it.seq() == s@,
            t@ == s@.take(it.index() as int).map_values(|c: char| token_of(c)),
    {
        let tok = if c == '+' {
            Token::Plus
        } else if c == '-' {
            Token::Sub
        } else if c == '.' {
            Token::Print
        } else if c == ',' {
            Token::Read
        } else if c == '<' {
            Token::ShiftLeft
        } else if c == '>' {
            Token::ShiftRight
        } else if c == '[' {
            Token::BeginLoop
        } else if c == ']' {
            Token::EndLoop
        } else {
            Token::Ignored
        };
        proof {
            assert(s@.take(it.index() + 1) == s@.take(it.index() as int).push(c));
        }
        t.push(tok);
    }
    proof {
        assert(s@.take(s@.len() as int) == s@);
    }
    t
}

proof fn lemma_parse_state(t: Seq<Token>)
    requires
        begin_tokens(t) <= u32::MAX,
        forall|i: int| 0 <= i <= t.len() ==> depth(#[trigger] t.take(i)) >= 0,
    ensures
        parse_state(t).1 == begin_tokens(t),
        parse_state(t).2.len() == depth(t),
        loop_scan(parse_state(t).0) == Some((parse_state(t).2, parse_state(t).1)),
    decreases t.len(),
{
    if t.len() > 0 {
        let u = t.drop_last();
        assert forall|i: int| 0 <= i <= u.len() implies depth(#[trigger] u.take(i)) >= 0 by {
            assert(u.take(i) == t.take(i));
        }
        lemma_parse_state(u);
        assert(t.take(t.len() as int) == t);
        let (v, id, st) = parse_state(u);
        match t.last() {
            Token::BeginLoop => {
                assert(v.push(Node::BeginLoop(id as u32)).drop_last() == v);
            },
            Token::EndLoop => {
                assert(v.push(Node::EndLoop(st.last())).drop_last() == v);
            },
            Token::Print => {
                assert(v.push(Node::Print).drop_last() == v);
            },
            Token::Read => {
                assert(v.push(Node::Read).drop_last() == v);
            },
            Token::ShiftLeft => {
                assert(v.push(Node::ShiftLeft(1)).drop_last() == v);
            },
            Token::ShiftRight => {
                assert(v.push(Node::ShiftRight(1)).drop_last() == v);
            },
            Token::Plus => {
                assert(v.push(Node::Add(1)).drop_last() == v);
            },
            Token::Sub => {
                assert(v.push(Node::Add(255)).drop_last() == v);
            },
            Token::Ignored => {},
        }
    }
}

proof fn lemma_begin_tokens_prefix(t: Seq<Token>)
    ensures
        forall|j: int| 0 <= j <= t.len() ==> begin_tokens(#[trigger] t.take(j)) <= begin_tokens(t),
    decreases t.len(),
{
    if t.len() > 0 {
        let u = t.drop_last();
        lemma_begin_tokens_prefix(u);
        assert forall|j: int| 0 <= j <= t.len() implies begin_tokens(#[trigger] t.take(j)) <= begin_tokens(t) by {
            if j < t.len() {
                assert(t.take(j) == u.take(j));
            } else {
                assert(t.take(j) == t);
            }
        }
    }
}

/// Builds the node sequence, numbering loops in the order they begin and
/// pairing each loop end with the innermost open loop.
pub fn parse(tokens: &[Token]) -> (r: Vec<Node>)
    requires
        begin_tokens(tokens@) <= u32::MAX,
        balanced(tokens@),
    ensures
        r@ == parsed(tokens@),
        well_formed(r@),
{
    proof {
        lemma_begin_tokens_prefix(tokens@);
    }
    let mut v: Vec<Node> = vec![];
    let mut loop_id: u32 = 0;
    let mut loop_stack: Vec<u32> = vec![];
    let l = tokens.len();
    for i in 0..l
        invariant
            l == tokens@.len(),
            begin_tokens(tokens@) <= u32::MAX,
            forall|j: int| 0 <= j <= l ==> begin_tokens(#[trigger] tokens@.take(j)) <= begin_tokens(tokens@),
            balanced(tokens@),
            (v@, loop_id as nat, loop_stack@) == parse_state(tokens@.take(i as int)),
    {
        let ghost pre = tokens@.take(i as int);
        proof {
            assert(tokens@.take(i + 1).drop_last() == pre);
            assert forall|j: int| 0 <= j <= pre.len() implies depth(#[trigger] pre.take(j)) >= 0 by {
                assert(pre.take(j) == tokens@.take(j));
            }
            lemma_parse_state(pre);
            assert(tokens@.take(i + 1).last() == tokens@[i as int]);
            assert(begin_tokens(tokens@.take(i + 1)) <= begin_tokens(tokens@));
        }
        let token = tokens[i];
        match token {
            Token::Ignored => {},
            Token::Print => v.push(Node::Print),
            Token::Read => v.push(Node::Read),
            Token::ShiftLeft => v.push(Node::ShiftLeft(1)),
            Token::ShiftRight => v.push(Node::ShiftRight(1)),
            Token::BeginLoop => {
                loop_stack.push(loop_id);
                v.push(Node::BeginLoop(loop_id));
                loop_id = loop_id + 1;
            },
            Token::EndLoop => {
                proof {
                    assert(depth(tokens@.take(i + 1)) >= 0);
                }
                let id = loop_stack.pop().unwrap();
                v.push(Node::EndLoop(id));
            },
            Token::Plus => v.push(Node::Add(1)),
            Token::Sub => v.push(Node::Add(255)),
        }
    }
    proof {
        assert(tokens@.take(l as int) == tokens@);
        lemma_parse_state(tokens@);
    }
    v
}

/// Whether `tokens` may be handed to `parse`: every loop end closes a loop
/// opened before it, and no loop is left open.
pub fn is_balanced(tokens: &[Token]) -> (r: bool)
    ensures
        r == balanced(tokens@),
{
    let mut d: usize = 0;
    let l = tokens.len();
    for i in 0..l
        invariant
            l == tokens@.len(),
            d == depth(tokens@.take(i as int)),
            d <= i,
            forall|j: int| 0 <= j <= i ==> depth(#[trigger] tokens@.take(j)) >= 0,
    {
        proof {
            assert(tokens@.take(i + 1).drop_last() == tokens@.take(i as int));
            assert(tokens@.take(i + 1).last() == tokens@[i as int]);
        }
        match tokens[i] {
            Token::BeginLoop => {
                d = d + 1;
            },
            Token::EndLoop => {
                if d == 0 {
                    proof {
                        assert(depth(tokens@.take(i + 1)) < 0);
                    }
                    return false;
                }
                d = d - 1;
            },
            _ => {},
        }
    }
    proof {
        assert(tokens@.take(l as int) == tokens@);
    }
    d == 0
}

proof fn lemma_scan_prefix(s: Seq<Node>, i: int)
    requires
        loop_scan(s) is Some,
        0 <= i <= s.len(),
    ensures
        loop_scan(s.take(i)) is Some,
        loop_scan(s.take(i)).unwrap().1 <= loop_scan(s).unwrap().1,
    decreases s.len(),
{
    if i < s.len() {
        let u = s.drop_last();
        assert(u.take(i) == s.take(i));
        lemma_scan_prefix(u, i);
    } else {
        assert(s.take(i) == s);
    }
}

/// The ids named in a sequence whose markers follow the rules are below the
/// number of loops begun, and the open loops' ids increase toward the innermost.
pub proof fn lemma_scan_ids(s: Seq<Node>)
    requires
        loop_scan(s) is Some,
    ensures
        forall|k: int| 0 <= k < s.len() && #[trigger] s[k] is BeginLoop ==> (s[k]->BeginLoop_0 as nat)
            < loop_scan(s).unwrap().1,
        forall|k: int| 0 <= k < s.len() && #[trigger] s[k] is EndLoop ==> (s[k]->EndLoop_0 as nat)
            < loop_scan(s).unwrap().1,
        forall|m: int| 0 <= m < loop_scan(s).unwrap().0.len() ==> (#[trigger] loop_scan(s).unwrap().0[m]
            as nat) < loop_scan(s).unwrap().1,
        forall|m1: int, m2: int|
            0 <= m1 < m2 < loop_scan(s).unwrap().0.len() ==> #[trigger] loop_scan(s).unwrap().0[m1]
                < #[trigger] loop_scan(s).unwrap().0[m2],
    decreases s.len(),
{
    if s.len() > 0 {
        let u = s.drop_last();
        lemma_scan_ids(u);
        assert forall|k: int| 0 <= k < u.len() implies #[trigger] s[k] == u[k] by {}
    }
}

/// In a well-formed sequence every loop marker names one of the loops begun;
/// and the loop begun at position `i` has as id the number of loops begun before it.
pub proof fn lemma_loop_ids(s: Seq<Node>)
    requires
        well_formed(s),
    ensures
        forall|k: int| 0 <= k < s.len() && #[trigger] s[k] is BeginLoop ==> (s[k]->BeginLoop_0 as nat)
            < loops_begun(s),
        forall|k: int| 0 <= k < s.len() && #[trigger] s[k] is EndLoop ==> (s[k]->EndLoop_0 as nat)
            < loops_begun(s),
        forall|i: int| 0 <= i <= s.len() ==> #[trigger] loop_scan(s.take(i)) is Some && loops_begun(
            s.take(i),
        ) <= loops_begun(s),
{
    lemma_scan_ids(s);
    assert forall|i: int| 0 <= i <= s.len() implies #[trigger] loop_scan(s.take(i)) is Some
        && loops_begun(s.take(i)) <= loops_begun(s) by {
        lemma_scan_prefix(s, i);
    }
}

/// A sequence of `n` nodes begins at most `n` loops.
pub proof fn lemma_begun_bound(s: Seq<Node>)
    requires
        loop_scan(s) is Some,
    ensures
        loops_begun(s) <= s.len(),
    decreases s.len(),
{
    if s.len() > 0 {
        lemma_begun_bound(s.drop_last());
    }
}

/// Reading `s` while renumbering its loops 0, 1, 2, ... in the order they
/// begin: the renumbered nodes, the number of loops begun, the ids of the open
/// loops and their new numbers (innermost last), and the new number of each id
/// seen. `None` once a loop end does not close the innermost open loop, or a
/// loop begins with an id already used.
pub open spec fn dense_state(s: Seq<Node>) -> Option<(Seq<Node>, nat, Seq<u32>, Seq<u32>, Map<u32, u32>)>
    decreases s.len(),
{
    if s.len() == 0 {
        Some((seq![], 0, seq![], seq![], Map::empty()))
    } else {
        match dense_state(s.drop_last()) {
            None => None,
            Some((v, n, si, sr, rk)) => match s.last() {
                Node::BeginLoop(id) => if rk.contains_key(id) {
                    None
                } else {
                    Some(
                        (
                            v.push(Node::BeginLoop(n as u32)),
                            n + 1,
                            si.push(id),
                            sr.push(n as u32),
                            rk.insert(id, n as u32),
                        ),
                    )
                },
                Node::EndLoop(id) => if si.len() > 0 && si.last() == id {
                    Some((v.push(Node::EndLoop(sr.last())), n, si.drop_last(), sr.drop_last(), rk))
                } else {
                    None
                },
                x => Some((v.push(x), n, si, sr, rk)),
            },
        }
    }
}

/// Loop markers are well nested, every loop is closed, and no two loops
/// begin with the same id.
pub open spec fn nested_unique(s: Seq<Node>) -> bool {
    &&& dense_state(s) is Some
    &&& dense_state(s).unwrap().2.len() == 0
}

/// `s` with its loops renumbered 0, 1, 2, ... in the order they begin.
pub open spec fn dense(s: Seq<Node>) -> Seq<Node> {
    dense_state(s).unwrap().0
}

/// Number of loops that begin in `s`.
pub open spec fn begin_count(s: Seq<Node>) -> nat
    decreases s.len(),
{
    if s.len() == 0 {
        0
    } else {
        begin_count(s.drop_last()) + if s.last() is BeginLoop {
            1nat
        } else {
            0nat
        }
    }
}

/// Renumbering keeps plain nodes, gives each loop marker the new number of its
/// id, and yields markers that follow `loop_scan`'s rules.
pub proof fn lemma_dense(s: Seq<Node>)
    requires
        dense_state(s) is Some,
        begin_count(s) <= u32::MAX,
    ensures
        ({
            let (v, n, si, sr, rk) = dense_state(s).unwrap();
            &&& n == begin_count(s)
            &&& n <= s.len()
            &&& v.len() == s.len()
            &&& si.len() == sr.len()
            &&& forall|m: int| 0 <= m < si.len() ==> rk.contains_key(#[trigger] si[m]) && rk[si[m]] == sr[m]
            &&& forall|id: u32| #[trigger] rk.contains_key(id) ==> (rk[id] as nat) < n
            &&& loop_scan(v) == Some((sr, n))
            &&& forall|k: int|
                0 <= k < s.len() && #[trigger] s[k] is BeginLoop ==> v[k] is BeginLoop && rk.contains_key(
                    s[k]->BeginLoop_0,
                ) && rk[s[k]->BeginLoop_0] == v[k]->BeginLoop_0
            &&& forall|k: int|
                0 <= k < s.len() && #[trigger] s[k] is EndLoop ==> v[k] is EndLoop && rk.contains_key(
                    s[k]->EndLoop_0,
                ) && rk[s[k]->EndLoop_0] == v[k]->EndLoop_0
            &&& forall|k: int| 0 <= k < s.len() && !is_marker(#[trigger] s[k]) ==> v[k] == s[k]
        }),
    decreases s.len(),
{
    if s.len() > 0 {
        let u = s.drop_last();
        assert(begin_count(u) <= begin_count(s));
        lemma_dense(u);
        let (v, n, si, sr, rk) = dense_state(u).unwrap();
        assert forall|k: int| 0 <= k < u.len() implies #[trigger] s[k] == u[k] by {}
        match s.last() {
            Node::BeginLoop(id) => {
                let v1 = v.push(Node::BeginLoop(n as u32));
                assert(v1.drop_last() == v);
                assert forall|k: int| 0 <= k < v.len() implies #[trigger] v1[k] == v[k] by {}
            },
            Node::EndLoop(id) => {
                let v1 = v.push(Node::EndLoop(sr.last()));
                assert(v1.drop_last() == v);
                assert forall|k: int| 0 <= k < v.len() implies #[trigger] v1[k] == v[k] by {}
            },
            x => {
                let v1 = v.push(x);
                assert(v1.drop_last() == v);
                assert forall|k: int| 0 <= k < v.len() implies #[trigger] v1[k] == v[k] by {}
            },
        }
    }
}

/// A prefix of a sequence that renumbers renumbers too, with no more loops.
pub proof fn lemma_dense_prefix(s: Seq<Node>, i: int)
    requires
        dense_state(s) is Some,
        0 <= i <= s.len(),
    ensures
        dense_state(s.take(i)) is Some,
        begin_count(s.take(i)) <= begin_count(s),
    decreases s.len(),
{
    if i < s.len() {
        let u = s.drop_last();
        assert(u.take(i) == s.take(i));
        lemma_dense_prefix(u, i);
    } else {
        assert(s.take(i) == s);
    }
}

} // verus!
