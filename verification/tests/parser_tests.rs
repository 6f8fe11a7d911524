use sysbf::parser::{parse, serialize, Instruction};

fn chars(s: &str) -> Vec<char> {
    s.chars().collect()
}

#[test]
fn parse_simple_sequence() {
    let t = parse(&chars("><+-.,|^"));
    assert_eq!(
        t,
        vec![
            Instruction::IncrementPointer,
            Instruction::DecrementPointer,
            Instruction::IncrementValue,
            Instruction::DecrementValue,
            Instruction::Syscall,
            Instruction::LoadPointer,
            Instruction::EnterPointer,
            Instruction::ExitPointer,
        ]
    );
}

#[test]
fn parse_nested_loops() {
    let t = parse(&chars("+[>[-]<]."));
    assert_eq!(
        t,
        vec![
            Instruction::IncrementValue,
            Instruction::Loop(vec![
                Instruction::IncrementPointer,
                Instruction::Loop(vec![Instruction::DecrementValue]),
                Instruction::DecrementPointer,
            ]),
            Instruction::Syscall,
        ]
    );
}

#[test]
fn unrecognized_characters_are_skipped() {
    let plain = parse(&chars("+[>+<-]"));
    let noisy = parse(&chars("+ hello [\n> + < - ] world"));
    assert_eq!(plain, noisy);
}

#[test]
fn unmatched_close_ends_parse() {
    let t = parse(&chars("+]++"));
    assert_eq!(t, vec![Instruction::IncrementValue]);
}

#[test]
fn unmatched_open_takes_rest_of_input() {
    let t = parse(&chars("[+>"));
    assert_eq!(
        t,
        vec![Instruction::Loop(vec![
            Instruction::IncrementValue,
            Instruction::IncrementPointer,
        ])]
    );
}

#[test]
fn empty_input_parses_to_empty_tree() {
    let t = parse(&chars(""));
    assert_eq!(t, Vec::<Instruction>::new());
}

#[test]
fn serialize_then_parse_round_trips() {
    let original = parse(&chars("+ compute [>[-]+<] done ."));
    let text = serialize(&original);
    let reparsed = parse(&text);
    assert_eq!(original, reparsed);
}

#[test]
fn serialize_emits_canonical_text() {
    let t = parse(&chars("+[>]x"));
    let text: String = serialize(&t).into_iter().collect();
    assert_eq!(text, "+[>]");
}

#[test]
fn loop_count_matches_bracket_pairs() {
    // A balanced program with three bracket pairs, one nested.
    let t = parse(&chars("[[-]+][>]"));
    fn loops(t: &[Instruction]) -> usize {
        t.iter()
            .map(|i| match i {
                Instruction::Loop(b) => 1 + loops(b),
                _ => 0,
            })
            .sum()
    }
    assert_eq!(loops(&t), 3);
}
