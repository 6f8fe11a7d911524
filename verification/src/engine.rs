//! The execution engine: a single left-to-right walk of the instruction
//! tree against a `Machine`, recursing into `Loop` bodies.
//!
//! `run_prog` is the mathematical interpreter. It is total thanks to a fuel
//! budget: `fuel` bounds how many times any loop may be re-entered, and a run
//! that would go past the budget yields `Spin`. The executable `run` takes
//! the same budget and returns exactly what `run_prog` says for it, so a
//! caller who wants the unbounded language semantics passes a budget that is
//! out of practical reach and treats `OutOfFuel` as divergence.
//!
//! The host system call cannot be performed here. A `Syscall` node consumes
//! the next recorded response (a 104-byte register file image) if one is
//! left; otherwise the run stops with `NeedTrap`, the current register file
//! being the call's inputs. The caller performs the call, appends the
//! resulting register file to the responses, and runs the program again from
//! a fresh machine: earlier syscalls then replay from the recording, so each
//! host call is performed once.
//!
//! Boundary policies, which the raw-pointer design leaves open, are fixed
//! here and checked: a `Return` on the pointer stack's last entry halts the
//! run (`Halted`); an access through an address that is neither in the arena
//! nor in the register window ends it with `Fault`, as does arena growth
//! past its cap (the allocation-failure case); moving the cursor below the
//! arena start wraps the 64-bit address and is caught, if ever accessed, by
//! the same address check.

use vstd::prelude::*;

use crate::machine::EState;
use crate::machine::Machine;
use crate::machine::REG_FILE_BYTES;
use crate::machine::REG_WINDOW_BASE;
use crate::machine::addr_dec;
use crate::machine::addr_inc;
use crate::machine::addr_ok;
use crate::machine::byte_at;
use crate::machine::cursor;
use crate::machine::dec8;
use crate::machine::grow_arena;
use crate::machine::inc8;
use crate::machine::read_byte;
use crate::machine::read_word;
use crate::machine::st_wf;
use crate::machine::with_byte;
use crate::machine::with_word;
use crate::machine::word_at;
use crate::machine::word_ok;
use crate::machine::write_byte;
use crate::machine::write_word;
use crate::machine::zeros;
use crate::parser::Instruction;
use crate::parser::Node;
use crate::parser::lemma_prog_view_index;
use crate::parser::prog_view;

verus! {

/// How a run ended.
#[derive(Clone, Copy, Debug, PartialEq, Eq, Structural)]
pub enum RunEnd {
    /// The whole tree was executed.
    Done,
    /// A `Syscall` node found no recorded response left: the register file
    /// holds the host call's inputs. Perform the call, append the resulting
    /// register file to the responses, and run again.
    NeedTrap,
    /// A `Return` was issued on the pointer stack's last entry.
    Halted,
    /// An access through an invalid address, or arena growth past its cap.
    Fault,
    /// The loop budget was exhausted before the run could end.
    OutOfFuel,
}

/// The outcome of interpreting part of the tree, in the model.
pub enum Outcome {
    Next(EState),
    Trap(EState),
    Halt(EState),
    Fault(EState),
    Spin,
}

pub open spec fn outcome_of(r: RunEnd, st: EState) -> Outcome {
    match r {
        RunEnd::Done => Outcome::Next(st),
        RunEnd::NeedTrap => Outcome::Trap(st),
        RunEnd::Halted => Outcome::Halt(st),
        RunEnd::Fault => Outcome::Fault(st),
        RunEnd::OutOfFuel => Outcome::Spin,
    }
}

/// The views of a recorded-responses list.
pub open spec fn resp_views(rs: Seq<Vec<u8>>) -> Seq<Seq<u8>> {
    Seq::new(rs.len(), |i: int| rs[i]@)
}

/// Every recorded response is a whole register-file image.
pub open spec fn resp_wf(rs: Seq<Vec<u8>>) -> bool {
    forall|i: int| 0 <= i < rs.len() ==> #[trigger] rs[i]@.len() == REG_FILE_BYTES
}

/// One step of every instruction kind except `Loop`: what the instruction
/// does to the state, or how it ends the run.
pub open spec fn step_simple(n: Node, st: EState, resp: Seq<Seq<u8>>) -> Outcome {
    let c = cursor(st);
    match n {
        Node::Loop(_) => Outcome::Spin,
        Node::IncrementPointer => {
            let c2 = addr_inc(c);
            let st2 = EState { stack: st.stack.update(st.stack.len() - 1, c2), ..st };
            if st.stack.len() == 1 && c2 >= st2.arena.len() {
                if 2 * st2.arena.len() <= REG_WINDOW_BASE {
                    Outcome::Next(EState { arena: st2.arena + zeros(st2.arena.len()), ..st2 })
                } else {
                    Outcome::Fault(st2)
                }
            } else {
                Outcome::Next(st2)
            }
        }
        Node::DecrementPointer => Outcome::Next(
            EState { stack: st.stack.update(st.stack.len() - 1, addr_dec(c)), ..st },
        ),
        Node::IncrementValue => if addr_ok(st, c as int) {
            Outcome::Next(with_byte(st, c as int, inc8(byte_at(st, c as int))))
        } else {
            Outcome::Fault(st)
        },
        Node::DecrementValue => if addr_ok(st, c as int) {
            Outcome::Next(with_byte(st, c as int, dec8(byte_at(st, c as int))))
        } else {
            Outcome::Fault(st)
        },
        Node::EnterPointer => if word_ok(st, c) {
            Outcome::Next(EState { stack: st.stack.push(word_at(st, c)), ..st })
        } else {
            Outcome::Fault(st)
        },
        Node::ExitPointer => if st.stack.len() <= 1 {
            Outcome::Halt(st)
        } else {
            Outcome::Next(EState { stack: st.stack.drop_last(), ..st })
        },
        Node::LoadPointer => if word_ok(st, c) {
            Outcome::Next(with_word(st, c, c))
        } else {
            Outcome::Fault(st)
        },
        Node::Syscall => if st.used < resp.len() {
            Outcome::Next(EState { regs: resp[st.used as int], used: st.used + 1, ..st })
        } else {
            Outcome::Trap(st)
        },
    }
}

/// The interpreter itself: execute `p` from node `k` on, in state `st`, with
/// recorded responses `resp` and loop budget `fuel`.
///
/// A `Loop` node whose condition byte is nonzero runs its body once and then
/// re-runs itself on the resulting state with one unit of budget less; every
/// other outcome of a step ends the run with that outcome.
pub open spec fn run_prog(p: Seq<Node>, k: int, st: EState, resp: Seq<Seq<u8>>, fuel: nat) -> Outcome
    decreases fuel, p, p.len() - k,
{
    if k < 0 || k >= p.len() {
        Outcome::Next(st)
    } else {
        match p[k] {
            Node::Loop(b) => {
                let c = cursor(st);
                if !addr_ok(st, c as int) {
                    Outcome::Fault(st)
                } else if byte_at(st, c as int) == 0 {
                    run_prog(p, k + 1, st, resp, fuel)
                } else {
                    match run_prog(b, 0, st, resp, fuel) {
                        Outcome::Next(st2) => if fuel == 0 {
                            Outcome::Spin
                        } else {
                            run_prog(p, k, st2, resp, (fuel - 1) as nat)
                        },
                        o => o,
                    }
                }
            }
            _ => match step_simple(p[k], st, resp) {
                Outcome::Next(st2) => run_prog(p, k + 1, st2, resp, fuel),
                o => o,
            },
        }
    }
}

/// Execute the instruction tree `prog` against machine `m`, consuming
/// recorded syscall responses from `responses[*used]` on, with loop budget
/// `fuel`: exactly what `run_prog` says, step for step.
#[verifier::loop_isolation(false)]
pub fn run(
    prog: &Vec<Instruction>,
    m: &mut Machine,
    responses: &Vec<Vec<u8>>,
    used: &mut usize,
    fuel: u64,
) -> (r: RunEnd)
    requires
        old(m).wf(),
        resp_wf(responses@),
        *old(used) <= responses.len(),
    ensures
        final(m).wf(),
        *final(used) <= responses.len(),
        run_prog(
            prog_view(prog@),
            0,
            old(m).st(*old(used) as nat),
            resp_views(responses@),
            fuel as nat,
        ) == outcome_of(r, final(m).st(*final(used) as nat)),
    decreases prog,
{
    let ghost p = prog_view(prog@);
    let ghost rsp = resp_views(responses@);
    let ghost st_entry = old(m).st(*old(used) as nat);
    proof {
        lemma_prog_view_index(prog@);
    }
    let n = prog.len();
    let mut k: usize = 0;
    let mut fl: u64 = fuel;
    while k < n
        invariant
            k <= n,
            m.wf(),
            *used <= responses.len(),
            run_prog(p, 0, st_entry, rsp, fuel as nat)
                == run_prog(p, k as int, m.st(*used as nat), rsp, fl as nat),
        decreases n - k,
    {
        let ghost stb = m.st(*used as nat);
        let c = m.stack[m.stack.len() - 1];
        proof {
            assert(c == cursor(stb));
        }
        match &prog[k] {
            Instruction::Loop(body) => {
                let ghost bv = prog_view(body@);
                proof {
                    assert(p[k as int] == Node::Loop(bv));
                }
                let mut go: bool;
                match read_byte(m, c) {
                    None => {
                        proof {
                            assert(run_prog(p, k as int, stb, rsp, fl as nat)
                                == Outcome::Fault(stb));
                        }
                        return RunEnd::Fault;
                    }
                    Some(b) => {
                        go = b != 0;
                    }
                }
                while go
                    invariant
                        m.wf(),
                        *used <= responses.len(),
                        addr_ok(
                            m.st(*used as nat),
                            cursor(m.st(*used as nat)) as int,
                        ),
                        go == (byte_at(
                            m.st(*used as nat),
                            cursor(m.st(*used as nat)) as int,
                        ) != 0),
                        run_prog(p, 0, st_entry, rsp, fuel as nat)
                            == run_prog(p, k as int, m.st(*used as nat), rsp, fl as nat),
                    decreases fl,
                {
                    let ghost stl = m.st(*used as nat);
                    proof {
                        assert(decreases_to!(prog => prog[k as int]));
                        assert(prog[k as int]->Loop_0 == *body);
                        assert(decreases_to!(prog[k as int] => prog[k as int]->Loop_0));
                    }
                    let end = run(body, m, responses, used, fl);
                    if !matches!(end, RunEnd::Done) {
                        proof {
                            let stx = m.st(*used as nat);
                            assert(run_prog(bv, 0, stl, rsp, fl as nat)
                                == outcome_of(end, stx));
                            assert(run_prog(p, k as int, stl, rsp, fl as nat)
                                == outcome_of(end, stx));
                        }
                        return end;
                    }
                    if fl == 0 {
                        proof {
                            let stx = m.st(*used as nat);
                            assert(run_prog(bv, 0, stl, rsp, fl as nat)
                                == Outcome::Next(stx));
                            assert(run_prog(p, k as int, stl, rsp, fl as nat)
                                == Outcome::Spin);
                        }
                        return RunEnd::OutOfFuel;
                    }
                    proof {
                        let stx = m.st(*used as nat);
                        assert(run_prog(bv, 0, stl, rsp, fl as nat) == Outcome::Next(stx));
                        assert(run_prog(p, k as int, stl, rsp, fl as nat)
                            == run_prog(p, k as int, stx, rsp, (fl - 1) as nat));
                    }
                    fl = fl - 1;
                    let c2 = m.stack[m.stack.len() - 1];
                    proof {
                        assert(c2 == cursor(m.st(*used as nat)));
                    }
                    match read_byte(m, c2) {
                        None => {
                            proof {
                                let stx = m.st(*used as nat);
                                assert(run_prog(p, k as int, stx, rsp, fl as nat)
                                    == Outcome::Fault(stx));
                            }
                            return RunEnd::Fault;
                        }
                        Some(b) => {
                            go = b != 0;
                        }
                    }
                }
                proof {
                    let stx = m.st(*used as nat);
                    assert(run_prog(p, k as int, stx, rsp, fl as nat)
                        == run_prog(p, k + 1, stx, rsp, fl as nat));
                }
                k = k + 1;
            }
            Instruction::IncrementPointer => {
                let c2 = if c == u64::MAX { 0 } else { c + 1 };
                let top = m.stack.len() - 1;
                m.stack[top] = c2;
                let ghost st2 = EState { stack: stb.stack.update(stb.stack.len() - 1, c2), ..stb };
                proof {
                    assert(m.st(*used as nat) =~= st2);
                }
                if top == 0 && c2 >= m.arena.len() as u64 {
                    let ok = grow_arena(m);
                    if !ok {
                        proof {
                            assert(step_simple(p[k as int], stb, rsp) == Outcome::Fault(st2));
                            assert(run_prog(p, k as int, stb, rsp, fl as nat)
                                == Outcome::Fault(st2));
                        }
                        return RunEnd::Fault;
                    }
                    proof {
                        let stg = EState { arena: st2.arena + zeros(st2.arena.len()), ..st2 };
                        assert(m.st(*used as nat) =~= stg);
                        assert(step_simple(p[k as int], stb, rsp) == Outcome::Next(stg));
                    }
                } else {
                    proof {
                        assert(step_simple(p[k as int], stb, rsp) == Outcome::Next(st2));
                    }
                }
                k = k + 1;
            }
            Instruction::DecrementPointer => {
                let c2 = if c == 0 { u64::MAX } else { c - 1 };
                let top = m.stack.len() - 1;
                m.stack[top] = c2;
                proof {
                    let st2 = EState { stack: stb.stack.update(stb.stack.len() - 1, c2), ..stb };
                    assert(m.st(*used as nat) =~= st2);
                    assert(step_simple(p[k as int], stb, rsp) == Outcome::Next(st2));
                }
                k = k + 1;
            }
            Instruction::IncrementValue => {
                match read_byte(m, c) {
                    None => {
                        proof {
                            assert(run_prog(p, k as int, stb, rsp, fl as nat)
                                == Outcome::Fault(stb));
                        }
                        return RunEnd::Fault;
                    }
                    Some(b) => {
                        let b2 = if b == 255 { 0 } else { b + 1 };
                        let ok = write_byte(m, c, b2);
                        proof {
                            assert(ok);
                            assert(step_simple(p[k as int], stb, rsp)
                                == Outcome::Next(with_byte(stb, c as int, inc8(b))));
                        }
                    }
                }
                k = k + 1;
            }
            Instruction::DecrementValue => {
                match read_byte(m, c) {
                    None => {
                        proof {
                            assert(run_prog(p, k as int, stb, rsp, fl as nat)
                                == Outcome::Fault(stb));
                        }
                        return RunEnd::Fault;
                    }
                    Some(b) => {
                        let b2 = if b == 0 { 255 } else { b - 1 };
                        let ok = write_byte(m, c, b2);
                        proof {
                            assert(ok);
                            assert(step_simple(p[k as int], stb, rsp)
                                == Outcome::Next(with_byte(stb, c as int, dec8(b))));
                        }
                    }
                }
                k = k + 1;
            }
            Instruction::EnterPointer => {
                match read_word(m, c) {
                    None => {
                        proof {
                            assert(run_prog(p, k as int, stb, rsp, fl as nat)
                                == Outcome::Fault(stb));
                        }
                        return RunEnd::Fault;
                    }
                    Some(w) => {
                        m.stack.push(w);
                        proof {
                            let st2 = EState { stack: stb.stack.push(w), ..stb };
                            assert(m.st(*used as nat) =~= st2);
                            assert(step_simple(p[k as int], stb, rsp) == Outcome::Next(st2));
                        }
                    }
                }
                k = k + 1;
            }
            Instruction::ExitPointer => {
                if m.stack.len() == 1 {
                    proof {
                        assert(step_simple(p[k as int], stb, rsp) == Outcome::Halt(stb));
                        assert(run_prog(p, k as int, stb, rsp, fl as nat) == Outcome::Halt(stb));
                    }
                    return RunEnd::Halted;
                }
                let _ = m.stack.pop();
                proof {
                    let st2 = EState { stack: stb.stack.drop_last(), ..stb };
                    assert(m.st(*used as nat) =~= st2);
                    assert(step_simple(p[k as int], stb, rsp) == Outcome::Next(st2));
                }
                k = k + 1;
            }
            Instruction::LoadPointer => {
                let ok = write_word(m, c, c);
                if !ok {
                    proof {
                        assert(run_prog(p, k as int, stb, rsp, fl as nat) == Outcome::Fault(stb));
                    }
                    return RunEnd::Fault;
                }
                proof {
                    assert(step_simple(p[k as int], stb, rsp)
                        == Outcome::Next(with_word(stb, c, c)));
                }
                k = k + 1;
            }
            Instruction::Syscall => {
                if *used < responses.len() {
                    let resp = &responses[*used];
                    proof {
                        assert(resp@ == rsp[*used as int]);
                        assert(responses@[*used as int]@.len() == REG_FILE_BYTES);
                    }
                    let mut j: usize = 0;
                    while j < REG_FILE_BYTES
                        invariant
                            j <= REG_FILE_BYTES,
                            m.regs@.len() == REG_FILE_BYTES,
                            m.arena@ == stb.arena,
                            m.stack@ == stb.stack,
                            *used as nat == stb.used,
                            forall|i: int| 0 <= i < j ==> m.regs@[i] == resp@[i],
                        decreases REG_FILE_BYTES - j,
                    {
                        m.regs[j] = resp[j];
                        j = j + 1;
                    }
                    *used = *used + 1;
                    proof {
                        let st2 = EState { regs: rsp[stb.used as int], used: stb.used + 1, ..stb };
                        assert(m.regs@ =~= rsp[stb.used as int]);
                        assert(m.st(*used as nat) =~= st2);
                        assert(step_simple(p[k as int], stb, rsp) == Outcome::Next(st2));
                    }
                    k = k + 1;
                } else {
                    proof {
                        assert(step_simple(p[k as int], stb, rsp) == Outcome::Trap(stb));
                        assert(run_prog(p, k as int, stb, rsp, fl as nat) == Outcome::Trap(stb));
                    }
                    return RunEnd::NeedTrap;
                }
            }
        }
    }
    proof {
        assert(run_prog(p, k as int, m.st(*used as nat), rsp, fl as nat)
            == Outcome::Next(m.st(*used as nat)));
    }
    RunEnd::Done
}


/// Law: `ValueIncrement` then `ValueDecrement` at a fixed cursor returns the
/// byte — and with it the whole state — to its original value, for every
/// starting byte value.
pub proof fn lemma_value_round_trip(st: EState, resp: Seq<Seq<u8>>)
    requires
        st_wf(st),
        addr_ok(st, cursor(st) as int),
    ensures
        step_simple(Node::IncrementValue, st, resp) matches Outcome::Next(st1)
            && step_simple(Node::DecrementValue, st1, resp) == Outcome::Next(st),
{
    let c = cursor(st) as int;
    let st1 = with_byte(st, c, inc8(byte_at(st, c)));
    assert(st1.stack == st.stack);
    assert(addr_ok(st1, c));
    assert(byte_at(st1, c) == inc8(byte_at(st, c)));
    assert(dec8(inc8(byte_at(st, c))) == byte_at(st, c));
    assert(with_byte(st1, c, byte_at(st, c)) =~= st);
}

/// Law: a `Loop` whose condition byte is zero at entry does not execute:
/// the state is returned unchanged, whatever the budget.
pub proof fn lemma_loop_skips_when_zero(b: Seq<Node>, st: EState, resp: Seq<Seq<u8>>, fuel: nat)
    requires
        addr_ok(st, cursor(st) as int),
        byte_at(st, cursor(st) as int) == 0,
    ensures
        run_prog(seq![Node::Loop(b)], 0, st, resp, fuel) == Outcome::Next(st),
{
    let p = seq![Node::Loop(b)];
    assert(run_prog(p, 1, st, resp, fuel) == Outcome::Next(st));
}

/// Law: a `Loop` whose body always completes normally without changing the
/// truth of its condition byte never terminates once entered: whatever the
/// budget, the interpreter runs out of it.
pub proof fn lemma_loop_spins_when_invariant(
    b: Seq<Node>,
    st: EState,
    resp: Seq<Seq<u8>>,
    fuel: nat,
)
    requires
        addr_ok(st, cursor(st) as int),
        byte_at(st, cursor(st) as int) != 0,
        forall|s2: EState, f: nat|
            (addr_ok(s2, cursor(s2) as int) && byte_at(s2, cursor(s2) as int) != 0) ==> {
                &&& #[trigger] run_prog(b, 0, s2, resp, f) is Next
                &&& addr_ok(run_prog(b, 0, s2, resp, f)->Next_0,
                        cursor(run_prog(b, 0, s2, resp, f)->Next_0) as int)
                &&& byte_at(run_prog(b, 0, s2, resp, f)->Next_0,
                        cursor(run_prog(b, 0, s2, resp, f)->Next_0) as int) != 0
            },
    ensures
        run_prog(seq![Node::Loop(b)], 0, st, resp, fuel) == Outcome::Spin,
    decreases fuel,
{
    let p = seq![Node::Loop(b)];
    let o = run_prog(b, 0, st, resp, fuel);
    assert(o is Next);
    let st2 = o->Next_0;
    if fuel == 0 {
        assert(run_prog(p, 0, st, resp, fuel) == Outcome::Spin);
    } else {
        lemma_loop_spins_when_invariant(b, st2, resp, (fuel - 1) as nat);
        assert(run_prog(p, 0, st, resp, fuel) == run_prog(p, 0, st2, resp, (fuel - 1) as nat));
    }
}


/// Law: `SelfStore` then `Dereference` at a word-valid cursor pushes the
/// cursor's own address, the mechanism that seeds pointer chains.
pub proof fn lemma_self_store_then_dereference(st: EState, resp: Seq<Seq<u8>>)
    requires
        st_wf(st),
        word_ok(st, cursor(st)),
    ensures
        step_simple(Node::LoadPointer, st, resp) matches Outcome::Next(st1)
            && step_simple(Node::EnterPointer, st1, resp) == Outcome::Next(
            EState { stack: st1.stack.push(cursor(st)), ..st1 },
        ),
{
    let c = cursor(st);
    crate::machine::lemma_word_round_trip(st, c, c);
    let st1 = with_word(st, c, c);
    assert(cursor(st1) == c);
}

} // verus!
