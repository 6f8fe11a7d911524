use sysbf::engine::{run, RunEnd};
use sysbf::machine::{Machine, REG_FILE_BYTES};
use sysbf::parser::parse;

fn chars(s: &str) -> Vec<char> {
    s.chars().collect()
}

const FUEL: u64 = 1_000_000;

fn fresh() -> (Machine, Vec<Vec<u8>>, usize) {
    (Machine::new(), Vec::new(), 0)
}

#[test]
fn new_machine_layout() {
    let m = Machine::new();
    assert_eq!(m.regs, vec![0u8; REG_FILE_BYTES]);
    assert_eq!(m.arena, vec![0, 0, 0, 0, 0, 0, 0, 0x80]);
    assert_eq!(m.stack, vec![0u64]);
}

#[test]
fn increment_decrement_round_trip_all_values() {
    // ValueIncrement then ValueDecrement restores the byte for every
    // starting value 0..=255 (wrapping round trip).
    let prog = parse(&chars("+-"));
    for start in 0u16..=255 {
        let (mut m, responses, mut used) = fresh();
        m.arena[0] = start as u8;
        let end = run(&prog, &mut m, &responses, &mut used, FUEL);
        assert_eq!(end, RunEnd::Done);
        assert_eq!(m.arena[0], start as u8);
    }
}

#[test]
fn wrapping_byte_arithmetic() {
    let (mut m, responses, mut used) = fresh();
    m.arena[0] = 255;
    let end = run(&parse(&chars("+")), &mut m, &responses, &mut used, FUEL);
    assert_eq!(end, RunEnd::Done);
    assert_eq!(m.arena[0], 0);

    let (mut m, responses, mut used) = fresh();
    let end = run(&parse(&chars("-")), &mut m, &responses, &mut used, FUEL);
    assert_eq!(end, RunEnd::Done);
    assert_eq!(m.arena[0], 255);
}

#[test]
fn loop_with_false_condition_does_not_execute() {
    // The condition byte (arena offset 0) is zero: the body must not run.
    let prog = parse(&chars("[>+<]"));
    let (mut m, responses, mut used) = fresh();
    let end = run(&prog, &mut m, &responses, &mut used, FUEL);
    assert_eq!(end, RunEnd::Done);
    assert_eq!(m.arena[1], 0);
}

#[test]
fn loop_with_unchanged_condition_exhausts_budget() {
    // The body never changes the condition byte's truth: with the budget
    // bounding iterations externally, the run reports budget exhaustion.
    let prog = parse(&chars("+[>+<]"));
    let (mut m, responses, mut used) = fresh();
    let end = run(&prog, &mut m, &responses, &mut used, 100);
    assert_eq!(end, RunEnd::OutOfFuel);
}

#[test]
fn counted_loop_executes_once_per_count() {
    // P8 scenario: `+[>+<-]` on a zero-initialized two-byte region sets the
    // counter to 1, so the loop body runs exactly once.
    let prog = parse(&chars("+[>+<-]"));
    let (mut m, responses, mut used) = fresh();
    let end = run(&prog, &mut m, &responses, &mut used, FUEL);
    assert_eq!(end, RunEnd::Done);
    assert_eq!(m.arena[0], 0);
    assert_eq!(m.arena[1], 1);
}

#[test]
fn arena_growth_preserves_contents_and_zero_fills() {
    // Write a marker near the current end, then advance the base cursor past
    // the end to force growth: the marker and every prior byte must be
    // unchanged, and every new byte zero.
    let prog = parse(&chars(">>>>>> +++++ >>"));
    let (mut m, responses, mut used) = fresh();
    let end = run(&prog, &mut m, &responses, &mut used, FUEL);
    assert_eq!(end, RunEnd::Done);
    assert_eq!(m.arena.len(), 16);
    assert_eq!(&m.arena[..8], &[0, 0, 0, 0, 0, 0, 5, 0x80]);
    assert_eq!(&m.arena[8..], &[0u8; 8]);
    assert_eq!(m.stack, vec![8u64]);
}

#[test]
fn return_at_stack_base_halts() {
    let prog = parse(&chars("^+"));
    let (mut m, responses, mut used) = fresh();
    let end = run(&prog, &mut m, &responses, &mut used, FUEL);
    assert_eq!(end, RunEnd::Halted);
    // The halt happened before the increment.
    assert_eq!(m.arena[0], 0);
}

#[test]
fn access_outside_arena_faults() {
    // Moving backward from the base wraps the address far outside both the
    // arena and the register window; touching the byte there faults.
    let prog = parse(&chars("<+"));
    let (mut m, responses, mut used) = fresh();
    let end = run(&prog, &mut m, &responses, &mut used, FUEL);
    assert_eq!(end, RunEnd::Fault);
}

#[test]
fn self_store_then_dereference_returns_to_cursor() {
    // `,` writes the cursor's own address at the cursor; `|` then reads it
    // back and pushes it: the new active cursor equals the old one.
    let prog = parse(&chars(",|"));
    let (mut m, responses, mut used) = fresh();
    let end = run(&prog, &mut m, &responses, &mut used, FUEL);
    assert_eq!(end, RunEnd::Done);
    assert_eq!(m.stack, vec![0u64, 0u64]);
    // The stored word overwrote the reserved register-window word.
    assert_eq!(m.arena, vec![0u8; 8]);
}

#[test]
fn syscall_without_response_reports_trap_with_inputs() {
    // P7 scenario: discover the register file through the reserved word,
    // pre-load a register, and trap. `|` pushes the register window, `+++`
    // sets the first byte of the first register, `^` returns, `.` traps.
    let prog = parse(&chars("|+++^."));
    let (mut m, responses, mut used) = fresh();
    let end = run(&prog, &mut m, &responses, &mut used, FUEL);
    assert_eq!(end, RunEnd::NeedTrap);
    // The register file holds the host call's inputs: first register is 3.
    let mut expected = vec![0u8; REG_FILE_BYTES];
    expected[0] = 3;
    assert_eq!(m.regs, expected);
}

#[test]
fn syscall_response_replaces_register_file() {
    // P7 scenario, second half: the host's register file image replaces the
    // machine's wholesale on replay; nothing else changes.
    let prog = parse(&chars("|+++^."));

    // First run: collect the trap request.
    let (mut m, responses, mut used) = fresh();
    assert_eq!(run(&prog, &mut m, &responses, &mut used, FUEL), RunEnd::NeedTrap);
    let request = m.regs.clone();

    // Simulate a read-only host call: inputs preserved, result register
    // overwritten.
    let mut response = request.clone();
    response[8] = 42;

    // Replay from a fresh machine with the response recorded.
    let mut m2 = Machine::new();
    let responses = vec![response.clone()];
    let mut used = 0;
    let end = run(&prog, &mut m2, &responses, &mut used, FUEL);
    assert_eq!(end, RunEnd::Done);
    assert_eq!(used, 1);
    // Every register byte equals the host's output, the pre-loaded input
    // bytes included.
    assert_eq!(m2.regs, response);
    assert_eq!(m2.regs[0], 3);
    assert_eq!(m2.regs[8], 42);
}

#[test]
fn dereference_at_base_reaches_register_window() {
    // The reserved first word holds the register window base; `|` then `+`
    // edits the first register byte, observable in the register file.
    let prog = parse(&chars("|+"));
    let (mut m, responses, mut used) = fresh();
    let end = run(&prog, &mut m, &responses, &mut used, FUEL);
    assert_eq!(end, RunEnd::Done);
    assert_eq!(m.regs[0], 1);
    assert_eq!(m.stack.len(), 2);
}

#[test]
fn unchanged_condition_body_runs_exactly_once_before_budget_ends() {
    // With a zero loop budget the body still runs once (the condition was
    // true), and then the engine reports exhaustion instead of hanging.
    let prog = parse(&chars("+[>+<]"));
    let (mut m, responses, mut used) = fresh();
    let end = run(&prog, &mut m, &responses, &mut used, 0);
    assert_eq!(end, RunEnd::OutOfFuel);
    assert_eq!(m.arena[1], 1);
}

#[test]
fn word_read_past_arena_end_faults() {
    // A dereference at offset 1 needs bytes 1 through 8, and byte 8 is past
    // the arena's end: unaligned word access is bounds-checked byte by byte.
    let prog = parse(&chars(">|"));
    let (mut m, responses, mut used) = fresh();
    let end = run(&prog, &mut m, &responses, &mut used, FUEL);
    assert_eq!(end, RunEnd::Fault);
}
