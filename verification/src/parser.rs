//! The parser: program text to instruction tree.
//!
//! Characters are consumed one at a time. `[` opens a nested level whose
//! result becomes a `Loop` node and which consumes up to and including its
//! matching `]`; a `]` ends the current level; end of input silently ends
//! every open level; unrecognized characters are skipped without error.

use vstd::prelude::*;

verus! {

/// One node of the instruction tree. `Loop` repeats its body while the byte
/// at the active cursor is nonzero; every other kind is a single step.
#[derive(Debug, PartialEq, Eq)]
pub enum Instruction {
    Loop(Vec<Instruction>),
    IncrementPointer,
    DecrementPointer,
    IncrementValue,
    DecrementValue,
    Syscall,
    LoadPointer,
    EnterPointer,
    ExitPointer,
}

/// Mathematical model of an instruction node: shaped as `Instruction`, with
/// each loop body a `Seq`, so that two trees are equal exactly when they have
/// the same structure.
pub enum Node {
    Loop(Seq<Node>),
    IncrementPointer,
    DecrementPointer,
    IncrementValue,
    DecrementValue,
    Syscall,
    LoadPointer,
    EnterPointer,
    ExitPointer,
}

/// The model of one instruction node.
pub open spec fn inst_view(inst: Instruction) -> Node
    decreases inst,
{
    match inst {
        Instruction::Loop(body) => Node::Loop(prog_view(body@)),
        Instruction::IncrementPointer => Node::IncrementPointer,
        Instruction::DecrementPointer => Node::DecrementPointer,
        Instruction::IncrementValue => Node::IncrementValue,
        Instruction::DecrementValue => Node::DecrementValue,
        Instruction::Syscall => Node::Syscall,
        Instruction::LoadPointer => Node::LoadPointer,
        Instruction::EnterPointer => Node::EnterPointer,
        Instruction::ExitPointer => Node::ExitPointer,
    }
}

/// The model of an instruction sequence, node by node.
pub open spec fn prog_view(p: Seq<Instruction>) -> Seq<Node>
    decreases p,
{
    if p.len() == 0 {
        Seq::empty()
    } else {
        seq![inst_view(p[0])] + prog_view(p.drop_first())
    }
}

pub proof fn lemma_prog_view_index(p: Seq<Instruction>)
    ensures
        prog_view(p).len() == p.len(),
        forall|i: int| 0 <= i < p.len() ==> prog_view(p)[i] == inst_view(p[i]),
    decreases p.len(),
{
    if p.len() > 0 {
        lemma_prog_view_index(p.drop_first());
        assert forall|i: int| 0 <= i < p.len() implies prog_view(p)[i] == inst_view(p[i]) by {
            if i > 0 {
                assert(p.drop_first()[i - 1] == p[i]);
            }
        }
    }
}

pub proof fn lemma_prog_view_push(p: Seq<Instruction>, x: Instruction)
    ensures
        prog_view(p.push(x)) == prog_view(p) + seq![inst_view(x)],
    decreases p.len(),
{
    assert(prog_view(Seq::<Instruction>::empty()) == Seq::<Node>::empty());
    if p.len() == 0 {
        assert(p.push(x).drop_first() =~= Seq::<Instruction>::empty());
        assert(p.push(x)[0] == x);
        assert(prog_view(p.push(x)) =~= prog_view(p) + seq![inst_view(x)]);
    } else {
        lemma_prog_view_push(p.drop_first(), x);
        assert(p.push(x).drop_first() =~= p.drop_first().push(x));
        assert(prog_view(p.push(x)) =~= prog_view(p) + seq![inst_view(x)]);
    }
}

/// The node that a single non-bracket character stands for, or `None` for an
/// unrecognized character.
pub open spec fn simple_node(c: char) -> Option<Node> {
    if c == '>' {
        Some(Node::IncrementPointer)
    } else if c == '<' {
        Some(Node::DecrementPointer)
    } else if c == '+' {
        Some(Node::IncrementValue)
    } else if c == '-' {
        Some(Node::DecrementValue)
    } else if c == '.' {
        Some(Node::Syscall)
    } else if c == ',' {
        Some(Node::LoadPointer)
    } else if c == '|' {
        Some(Node::EnterPointer)
    } else if c == '^' {
        Some(Node::ExitPointer)
    } else {
        None
    }
}

/// The position just past the point where the parsing level entered at `i`
/// with `depth` enclosing unmatched `[` stops consuming: just past the `]`
/// that closes the level, or the end of the input if no such `]` exists.
pub open spec fn scan_end(s: Seq<char>, i: int, depth: nat) -> int
    decreases s.len() - i,
{
    if i < 0 || i >= s.len() {
        s.len() as int
    } else if s[i] == ']' {
        if depth == 0 {
            i + 1
        } else {
            scan_end(s, i + 1, (depth - 1) as nat)
        }
    } else if s[i] == '[' {
        scan_end(s, i + 1, depth + 1)
    } else {
        scan_end(s, i + 1, depth)
    }
}

pub proof fn lemma_scan_end_bounds(s: Seq<char>, i: int, depth: nat)
    requires
        0 <= i,
    ensures
        i < s.len() ==> i < scan_end(s, i, depth) <= s.len(),
        i >= s.len() ==> scan_end(s, i, depth) == s.len(),
    decreases s.len() - i,
{
    if i < s.len() {
        if s[i] == ']' && depth == 0 {
        } else if s[i] == ']' {
            lemma_scan_end_bounds(s, i + 1, (depth - 1) as nat);
        } else if s[i] == '[' {
            lemma_scan_end_bounds(s, i + 1, depth + 1);
        } else {
            lemma_scan_end_bounds(s, i + 1, depth);
        }
    }
}

/// Scanning at `depth + 1` equals scanning the current level to its end,
/// then scanning on at `depth`: closing levels one at a time composes.
pub proof fn lemma_scan_end_shift(s: Seq<char>, i: int, depth: nat)
    requires
        0 <= i,
    ensures
        scan_end(s, i, depth + 1) == scan_end(s, scan_end(s, i, 0), depth),
    decreases s.len() - i,
{
    if i >= s.len() {
    } else if s[i] == ']' {
    } else if s[i] == '[' {
        let e1 = scan_end(s, i + 1, 0);
        lemma_scan_end_bounds(s, i + 1, 0);
        lemma_scan_end_shift(s, i + 1, depth + 1);
        lemma_scan_end_shift(s, i + 1, 0);
        lemma_scan_end_shift(s, e1, depth);
    } else {
        lemma_scan_end_shift(s, i + 1, depth);
    }
}

/// What parsing returns from position `i`: the nodes of the current level, up
/// to (not including) the `]` that closes it or the end of the input.
pub open spec fn spec_parse(s: Seq<char>, i: int) -> Seq<Node>
    decreases s.len() - i,
        via spec_parse_decreases
{
    if i < 0 || i >= s.len() {
        Seq::empty()
    } else if s[i] == ']' {
        Seq::empty()
    } else if s[i] == '[' {
        seq![Node::Loop(spec_parse(s, i + 1))] + spec_parse(s, scan_end(s, i + 1, 0))
    } else {
        match simple_node(s[i]) {
            Some(n) => seq![n] + spec_parse(s, i + 1),
            None => spec_parse(s, i + 1),
        }
    }
}

#[via_fn]
proof fn spec_parse_decreases(s: Seq<char>, i: int) {
    if 0 <= i && i < s.len() && s[i] == '[' {
        lemma_scan_end_bounds(s, i + 1, 0);
    }
}

/// The instruction a single non-bracket character stands for.
fn char_instruction(c: char) -> (r: Option<Instruction>)
    ensures
        match r {
            Some(inst) => simple_node(c) == Some(inst_view(inst)),
            None => simple_node(c) is None,
        },
{
    if c == '>' {
        Some(Instruction::IncrementPointer)
    } else if c == '<' {
        Some(Instruction::DecrementPointer)
    } else if c == '+' {
        Some(Instruction::IncrementValue)
    } else if c == '-' {
        Some(Instruction::DecrementValue)
    } else if c == '.' {
        Some(Instruction::Syscall)
    } else if c == ',' {
        Some(Instruction::LoadPointer)
    } else if c == '|' {
        Some(Instruction::EnterPointer)
    } else if c == '^' {
        Some(Instruction::ExitPointer)
    } else {
        None
    }
}

/// Parse one nesting level starting at `from`, returning its nodes and the
/// position just past the `]` that closed it (or the end of the input).
pub fn parse_from(input: &Vec<char>, from: usize) -> (r: (Vec<Instruction>, usize))
    requires
        from <= input.len(),
    ensures
        prog_view(r.0@) == spec_parse(input@, from as int),
        r.1 == scan_end(input@, from as int, 0),
        from <= r.1 <= input.len(),
    decreases input.len() - from,
{
    let ghost s = input@;
    let mut acc: Vec<Instruction> = Vec::new();
    let mut i: usize = from;
    loop
        invariant
            from <= i <= input.len(),
            s == input@,
            from <= input.len(),
            spec_parse(s, from as int) == prog_view(acc@) + spec_parse(s, i as int),
            scan_end(s, from as int, 0) == scan_end(s, i as int, 0),
        decreases input.len() - i,
    {
        if i >= input.len() {
            proof {
                assert(prog_view(acc@) + spec_parse(s, i as int) =~= prog_view(acc@));
            }
            return (acc, i);
        }
        let c = input[i];
        if c == ']' {
            proof {
                assert(prog_view(acc@) + spec_parse(s, i as int) =~= prog_view(acc@));
            }
            return (acc, i + 1);
        } else if c == '[' {
            let (body, j) = parse_from(input, i + 1);
            let ghost acc0 = acc@;
            let node = Instruction::Loop(body);
            proof {
                lemma_prog_view_push(acc0, node);
                lemma_scan_end_shift(s, i + 1, 0);
                assert(spec_parse(s, i as int) == seq![inst_view(node)] + spec_parse(s, j as int));
                assert((prog_view(acc0) + seq![inst_view(node)]) + spec_parse(s, j as int)
                    =~= prog_view(acc0) + (seq![inst_view(node)] + spec_parse(s, j as int)));
            }
            acc.push(node);
            i = j;
        } else {
            match char_instruction(c) {
                Some(inst) => {
                    let ghost acc0 = acc@;
                    proof {
                        lemma_prog_view_push(acc0, inst);
                        assert((prog_view(acc0) + seq![inst_view(inst)]) + spec_parse(s, i + 1)
                            =~= prog_view(acc0) + (seq![inst_view(inst)] + spec_parse(s, i + 1)));
                    }
                    acc.push(inst);
                }
                None => {}
            }
            i = i + 1;
        }
    }
}

/// Parse a whole program text into an instruction tree.
///
/// Unrecognized characters are skipped; an unmatched `]` ends the outermost
/// level; an unmatched `[` produces a `Loop` whose body runs to the end of
/// the input.
pub fn parse(input: &Vec<char>) -> (r: Vec<Instruction>)
    ensures
        prog_view(r@) == spec_parse(input@, 0),
{
    let (r, _) = parse_from(input, 0);
    r
}


/// The serialized form of one node: its character, with a loop as `[`, its
/// body, `]`.
pub open spec fn spec_serial_node(n: Node) -> Seq<char>
    decreases n,
{
    match n {
        Node::Loop(b) => seq!['['] + spec_serial_prog(b) + seq![']'],
        Node::IncrementPointer => seq!['>'],
        Node::DecrementPointer => seq!['<'],
        Node::IncrementValue => seq!['+'],
        Node::DecrementValue => seq!['-'],
        Node::Syscall => seq!['.'],
        Node::LoadPointer => seq![','],
        Node::EnterPointer => seq!['|'],
        Node::ExitPointer => seq!['^'],
    }
}

/// The serialized form of a tree, node by node.
pub open spec fn spec_serial_prog(t: Seq<Node>) -> Seq<char>
    decreases t,
{
    if t.len() == 0 {
        Seq::empty()
    } else {
        spec_serial_node(t[0]) + spec_serial_prog(t.drop_first())
    }
}

/// Parsing just past a serialized tree embedded in a longer text: the tree
/// comes back out, parsing resumes right after it, and bracket scanning
/// passes over it without changing depth.
pub proof fn lemma_parse_embedded(t: Seq<Node>, s: Seq<char>, i: int, d: nat)
    requires
        0 <= i,
        i + spec_serial_prog(t).len() <= s.len(),
        s.subrange(i, i + spec_serial_prog(t).len()) == spec_serial_prog(t),
    ensures
        spec_parse(s, i) == t + spec_parse(s, i + spec_serial_prog(t).len()),
        scan_end(s, i, d) == scan_end(s, i + spec_serial_prog(t).len(), d),
    decreases t,
{
    let sp = spec_serial_prog(t);
    let l = sp.len() as int;
    if t.len() == 0 {
        assert(t + spec_parse(s, i) =~= spec_parse(s, i));
    } else {
        let rest = t.drop_first();
        let spr = spec_serial_prog(rest);
        let sn = spec_serial_node(t[0]);
        assert(sp == sn + spr);
        let ln = sn.len() as int;
        assert forall|j: int| 0 <= j < l implies s[i + j] == sp[j] by {
            assert(s.subrange(i, i + l)[j] == s[i + j]);
        }
        match t[0] {
            Node::Loop(b) => {
                let sb = spec_serial_prog(b);
                let lb = sb.len() as int;
                assert(sn == seq!['['] + sb + seq![']']);
                assert(ln == lb + 2);
                assert(s[i + 0] == sp[0]);
                assert(sp[0] == sn[0]);
                assert(sn[0] == (seq!['['] + sb)[0]);
                assert(s[i] == '[');
                assert(s.subrange(i + 1, i + 1 + lb) =~= sb) by {
                    assert forall|j: int| 0 <= j < lb implies s.subrange(i + 1, i + 1 + lb)[j]
                        == sb[j] by {
                        assert(s[i + (1 + j)] == sp[1 + j]);
                        assert(sp[1 + j] == sn[1 + j]);
                        assert(sn[1 + j] == (seq!['['] + sb)[1 + j]);
                    }
                }
                lemma_parse_embedded(b, s, i + 1, (d + 1) as nat);
                lemma_parse_embedded(b, s, i + 1, 0);
                assert(s[i + (1 + lb)] == sp[1 + lb]);
                assert(sp[1 + lb] == sn[1 + lb]);
                assert(sn[1 + lb] == ']');
                assert(spec_parse(s, i + 1 + lb) =~= Seq::<Node>::empty());
                assert(spec_parse(s, i + 1) =~= b) by {
                    assert(spec_parse(s, i + 1) == b + spec_parse(s, i + 1 + lb));
                }
                let e = scan_end(s, i + 1, 0);
                assert(e == scan_end(s, i + 1 + lb, 0));
                assert(e == i + ln);
                assert(s.subrange(i + ln, i + l) =~= spr) by {
                    assert forall|j: int| 0 <= j < l - ln implies s.subrange(i + ln, i + l)[j]
                        == spr[j] by {
                        assert(s[i + (ln + j)] == sp[ln + j]);
                        assert(sp[ln + j] == spr[j]);
                    }
                }
                lemma_parse_embedded(rest, s, i + ln, d);
                lemma_parse_embedded(rest, s, i + ln, 0);
                assert(spec_parse(s, i) == seq![Node::Loop(spec_parse(s, i + 1))]
                    + spec_parse(s, e));
                assert(spec_parse(s, e) == rest + spec_parse(s, i + l));
                assert(spec_parse(s, i + 1) == b);
                assert(t[0] == Node::Loop(b));
                assert(seq![Node::Loop(spec_parse(s, i + 1))] + (rest + spec_parse(s, i + l))
                    =~= (seq![Node::Loop(spec_parse(s, i + 1))] + rest) + spec_parse(s, i + l));
                assert(seq![Node::Loop(spec_parse(s, i + 1))] + rest =~= t);
                assert(scan_end(s, i, d) == scan_end(s, i + 1, d + 1));
                assert(scan_end(s, i + 1, d + 1) == scan_end(s, i + 1 + lb, d + 1));
                assert(scan_end(s, i + 1 + lb, d + 1) == scan_end(s, i + 2 + lb, d));
                assert(scan_end(s, i + ln, d) == scan_end(s, i + l, d));
            }
            _ => {
                assert(ln == 1);
                assert(s[i + 0] == sp[0]);
                assert(sp[0] == sn[0]);
                assert(simple_node(sn[0]) == Some(t[0]));
                assert(s[i] != '[' && s[i] != ']');
                assert(s.subrange(i + 1, i + l) =~= spr) by {
                    assert forall|j: int| 0 <= j < l - 1 implies s.subrange(i + 1, i + l)[j]
                        == spr[j] by {
                        assert(s[i + (1 + j)] == sp[1 + j]);
                        assert(sp[1 + j] == spr[j]);
                    }
                }
                lemma_parse_embedded(rest, s, i + 1, d);
                assert(spec_parse(s, i) == seq![t[0]] + spec_parse(s, i + 1));
                assert(spec_parse(s, i + 1) == rest + spec_parse(s, i + l));
                assert(seq![t[0]] + (rest + spec_parse(s, i + l))
                    =~= (seq![t[0]] + rest) + spec_parse(s, i + l));
                assert(seq![t[0]] + rest =~= t);
                assert(scan_end(s, i, d) == scan_end(s, i + 1, d));
            }
        }
    }
}

/// Law: parsing is idempotent on well-formed input. Re-parsing the
/// serialized form of any tree yields an equal tree.
pub proof fn lemma_parse_round_trip(t: Seq<Node>)
    ensures
        spec_parse(spec_serial_prog(t), 0) == t,
{
    let s = spec_serial_prog(t);
    assert(s.subrange(0, s.len() as int) =~= s);
    lemma_parse_embedded(t, s, 0, 0);
    assert(spec_parse(s, s.len() as int) =~= Seq::<Node>::empty());
    assert(t + Seq::<Node>::empty() =~= t);
}


proof fn lemma_serial_snoc(t: Seq<Node>, x: Node)
    ensures
        spec_serial_prog(t.push(x)) == spec_serial_prog(t) + spec_serial_node(x),
    decreases t.len(),
{
    assert(spec_serial_prog(Seq::<Node>::empty()) == Seq::<char>::empty());
    if t.len() == 0 {
        assert(t.push(x).drop_first() =~= Seq::<Node>::empty());
        assert(t.push(x)[0] == x);
        assert(spec_serial_prog(t.push(x)) =~= spec_serial_prog(t) + spec_serial_node(x));
    } else {
        lemma_serial_snoc(t.drop_first(), x);
        assert(t.push(x).drop_first() =~= t.drop_first().push(x));
        assert(spec_serial_prog(t.push(x)) =~= spec_serial_prog(t) + spec_serial_node(x));
    }
}

/// Serialize an instruction tree back to program text.
#[verifier::loop_isolation(false)]
pub fn serialize(prog: &Vec<Instruction>) -> (r: Vec<char>)
    ensures
        r@ == spec_serial_prog(prog_view(prog@)),
    decreases prog,
{
    let ghost pv = prog_view(prog@);
    proof {
        lemma_prog_view_index(prog@);
        assert(pv.subrange(0, 0) =~= Seq::<Node>::empty());
    }
    let mut r: Vec<char> = Vec::new();
    let mut i: usize = 0;
    while i < prog.len()
        invariant
            i <= prog.len(),
            r@ == spec_serial_prog(pv.subrange(0, i as int)),
        decreases prog.len() - i,
    {
        let ghost r0 = r@;
        match &prog[i] {
            Instruction::Loop(body) => {
                r.push('[');
                proof {
                    assert(decreases_to!(prog => prog[i as int]));
                    assert(prog[i as int]->Loop_0 == *body);
                    assert(decreases_to!(prog[i as int] => prog[i as int]->Loop_0));
                }
                let sub = serialize(body);
                let mut j: usize = 0;
                proof {
                    assert(r@ =~= r0 + seq!['['] + sub@.subrange(0, 0));
                }
                while j < sub.len()
                    invariant
                        j <= sub.len(),
                        r@ == r0 + seq!['['] + sub@.subrange(0, j as int),
                    decreases sub.len() - j,
                {
                    r.push(sub[j]);
                    proof {
                        assert(r@ =~= r0 + seq!['['] + sub@.subrange(0, j + 1));
                    }
                    j = j + 1;
                }
                r.push(']');
                proof {
                    assert(sub@.subrange(0, sub@.len() as int) =~= sub@);
                    assert(pv[i as int] == Node::Loop(prog_view(body@)));
                    assert(spec_serial_node(pv[i as int]) == seq!['['] + sub@ + seq![']']);
                    assert(r@ =~= r0 + spec_serial_node(pv[i as int]));
                }
            }
            Instruction::IncrementPointer => {
                r.push('>');
                proof { assert(r@ =~= r0 + spec_serial_node(pv[i as int])); }
            }
            Instruction::DecrementPointer => {
                r.push('<');
                proof { assert(r@ =~= r0 + spec_serial_node(pv[i as int])); }
            }
            Instruction::IncrementValue => {
                r.push('+');
                proof { assert(r@ =~= r0 + spec_serial_node(pv[i as int])); }
            }
            Instruction::DecrementValue => {
                r.push('-');
                proof { assert(r@ =~= r0 + spec_serial_node(pv[i as int])); }
            }
            Instruction::Syscall => {
                r.push('.');
                proof { assert(r@ =~= r0 + spec_serial_node(pv[i as int])); }
            }
            Instruction::LoadPointer => {
                r.push(',');
                proof { assert(r@ =~= r0 + spec_serial_node(pv[i as int])); }
            }
            Instruction::EnterPointer => {
                r.push('|');
                proof { assert(r@ =~= r0 + spec_serial_node(pv[i as int])); }
            }
            Instruction::ExitPointer => {
                r.push('^');
                proof { assert(r@ =~= r0 + spec_serial_node(pv[i as int])); }
            }
        }
        proof {
            lemma_serial_snoc(pv.subrange(0, i as int), pv[i as int]);
            assert(pv.subrange(0, i as int).push(pv[i as int]) =~= pv.subrange(0, i + 1));
        }
        i = i + 1;
    }
    proof {
        assert(pv.subrange(0, pv.len() as int) =~= pv);
    }
    r
}

/// The number of `[` characters from position `i` to the end of the text.
pub open spec fn opens_from(s: Seq<char>, i: int) -> nat
    decreases s.len() - i,
{
    if i < 0 || i >= s.len() {
        0
    } else if s[i] == '[' {
        1 + opens_from(s, i + 1)
    } else {
        opens_from(s, i + 1)
    }
}

/// The number of `Loop` nodes in a tree, nested ones included.
pub open spec fn loop_count(t: Seq<Node>) -> nat
    decreases t,
{
    if t.len() == 0 {
        0
    } else {
        (match t[0] {
            Node::Loop(b) => 1 + loop_count(b),
            _ => 0,
        }) + loop_count(t.drop_first())
    }
}

/// Law: the tree returned by a parse holds exactly one `Loop` node, nested
/// ones included, for each `[` character in the consumed part of the text.
/// On balanced text the whole text is consumed, so the count of `Loop` nodes
/// equals the count of bracket pairs; an unmatched `[` counts too, its pair
/// being closed by the end of the input.
pub proof fn lemma_loop_count(s: Seq<char>, i: int)
    requires
        0 <= i,
    ensures
        loop_count(spec_parse(s, i)) + opens_from(s, scan_end(s, i, 0)) == opens_from(s, i),
    decreases s.len() - i,
{
    if i >= s.len() {
    } else if s[i] == ']' {
        assert(loop_count(Seq::<Node>::empty()) == 0);
    } else if s[i] == '[' {
        let body = spec_parse(s, i + 1);
        let e = scan_end(s, i + 1, 0);
        lemma_scan_end_bounds(s, i + 1, 0);
        let rest = spec_parse(s, e);
        let whole = seq![Node::Loop(body)] + rest;
        assert(spec_parse(s, i) == whole);
        assert(whole.drop_first() =~= rest);
        assert(loop_count(whole) == 1 + loop_count(body) + loop_count(rest));
        lemma_loop_count(s, i + 1);
        lemma_loop_count(s, e);
        lemma_scan_end_shift(s, i + 1, 0);
        assert(scan_end(s, i, 0) == scan_end(s, e, 0));
    } else {
        lemma_loop_count(s, i + 1);
        match simple_node(s[i]) {
            Some(n) => {
                let rest = spec_parse(s, i + 1);
                let whole = seq![n] + rest;
                assert(spec_parse(s, i) == whole);
                assert(whole.drop_first() =~= rest);
                assert(!(whole[0] is Loop));
                assert(loop_count(whole) == loop_count(rest));
            }
            None => {}
        }
    }
}

proof fn lemma_scan_end_no_close(s: Seq<char>, i: int, depth: nat)
    requires
        0 <= i,
        forall|j: int| i <= j < s.len() ==> s[j] != ']',
    ensures
        scan_end(s, i, depth) == s.len(),
    decreases s.len() - i,
{
    if i < s.len() {
        if s[i] == '[' {
            lemma_scan_end_no_close(s, i + 1, depth + 1);
        } else {
            lemma_scan_end_no_close(s, i + 1, depth);
        }
    }
}

/// Law: an unmatched leading `[` produces a `Loop` whose body is the parse of
/// everything to the end of the input.
pub proof fn lemma_unmatched_open(s: Seq<char>)
    requires
        s.len() >= 1,
        s[0] == '[',
        forall|j: int| 0 <= j < s.len() ==> s[j] != ']',
    ensures
        spec_parse(s, 0) == seq![Node::Loop(spec_parse(s, 1))],
{
    lemma_scan_end_no_close(s, 1, 0);
    assert(spec_parse(s, s.len() as int) =~= Seq::<Node>::empty());
    assert(seq![Node::Loop(spec_parse(s, 1))] + Seq::<Node>::empty()
        =~= seq![Node::Loop(spec_parse(s, 1))]);
}


/// Whether `c` is one of the nine instruction characters.
pub open spec fn recognized(c: char) -> bool {
    c == '[' || c == ']' || simple_node(c) is Some
}

/// Where position `e` of the text lands once the character at `x` is removed.
pub open spec fn adj_pos(e: int, x: int) -> int {
    if e <= x { e } else { e - 1 }
}

proof fn lemma_scan_end_remove(s: Seq<char>, x: int, i: int, depth: nat)
    requires
        0 <= x < s.len(),
        !recognized(s[x]),
        0 <= i,
    ensures
        i <= x ==> scan_end(s.remove(x), i, depth) == adj_pos(scan_end(s, i, depth), x),
        i > x ==> scan_end(s.remove(x), i - 1, depth) == adj_pos(scan_end(s, i, depth), x),
    decreases s.len() - i,
{
    let s2 = s.remove(x);
    s.remove_ensures(x);
    if i >= s.len() {
    } else if i == x {
        lemma_scan_end_remove(s, x, i + 1, depth);
    } else if i < x {
        if s[i] == ']' && depth == 0 {
        } else if s[i] == ']' {
            lemma_scan_end_remove(s, x, i + 1, (depth - 1) as nat);
        } else if s[i] == '[' {
            lemma_scan_end_remove(s, x, i + 1, depth + 1);
        } else {
            lemma_scan_end_remove(s, x, i + 1, depth);
        }
    } else {
        assert(s2[i - 1] == s[i]);
        if s[i] == ']' && depth == 0 {
        } else if s[i] == ']' {
            lemma_scan_end_remove(s, x, i + 1, (depth - 1) as nat);
        } else if s[i] == '[' {
            lemma_scan_end_remove(s, x, i + 1, depth + 1);
        } else {
            lemma_scan_end_remove(s, x, i + 1, depth);
        }
    }
}

proof fn lemma_parse_remove(s: Seq<char>, x: int, i: int)
    requires
        0 <= x < s.len(),
        !recognized(s[x]),
        0 <= i,
    ensures
        i <= x ==> spec_parse(s.remove(x), i) == spec_parse(s, i),
        i > x ==> spec_parse(s.remove(x), i - 1) == spec_parse(s, i),
    decreases s.len() - i,
{
    let s2 = s.remove(x);
    s.remove_ensures(x);
    if i >= s.len() {
    } else if i == x {
        lemma_parse_remove(s, x, i + 1);
    } else if i < x {
        if s[i] == ']' {
        } else if s[i] == '[' {
            let e = scan_end(s, i + 1, 0);
            lemma_scan_end_bounds(s, i + 1, 0);
            lemma_scan_end_remove(s, x, i + 1, 0);
            lemma_parse_remove(s, x, i + 1);
            lemma_parse_remove(s, x, e);
            assert(scan_end(s2, i + 1, 0) == adj_pos(e, x));
            assert(spec_parse(s2, adj_pos(e, x)) == spec_parse(s, e));
        } else {
            lemma_parse_remove(s, x, i + 1);
        }
    } else {
        assert(s2[i - 1] == s[i]);
        if s[i] == ']' {
        } else if s[i] == '[' {
            let e = scan_end(s, i + 1, 0);
            lemma_scan_end_bounds(s, i + 1, 0);
            lemma_scan_end_remove(s, x, i + 1, 0);
            lemma_parse_remove(s, x, i + 1);
            lemma_parse_remove(s, x, e);
            assert(scan_end(s2, i, 0) == adj_pos(e, x));
            assert(spec_parse(s2, adj_pos(e, x)) == spec_parse(s, e));
        } else {
            lemma_parse_remove(s, x, i + 1);
        }
    }
}

/// Law: an unrecognized character anywhere in the source produces no
/// instruction node and does not affect the surrounding nodes or their
/// order: removing it leaves the parse of the whole text unchanged.
pub proof fn lemma_unrecognized_ignored(s: Seq<char>, x: int)
    requires
        0 <= x < s.len(),
        !recognized(s[x]),
    ensures
        spec_parse(s.remove(x), 0) == spec_parse(s, 0),
{
    lemma_parse_remove(s, x, 0);
}

} // verus!
