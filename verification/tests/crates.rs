use advent::crates::{
    parse_all_crates, parse_crate_line, parse_input, parse_instruction, parse_number_line,
    transpose_rev_filter, Crate, Instruction, Piles,
};

const SAMPLE: &str = "    [D]    \n[N] [C]    \n[Z] [M] [P]\n 1   2   3 \n\nmove 1 from 2 to 1\nmove 3 from 1 to 3\nmove 2 from 2 to 1\nmove 1 from 1 to 2\n";

fn pile(s: &str) -> Vec<Crate> {
    s.chars().map(Crate).collect()
}

#[test]
fn test_parse_number_line() {
    let text = " 1   2   3 \n";
    assert_eq!(parse_number_line(text.as_bytes(), 0), Some(text.len()));
}

#[test]
fn test_parse_instruction() {
    let exp_ins = Instruction { quantity: 1, source: 1, destination: 0 };
    let text = "move 1 from 2 to 1";
    assert_eq!(parse_instruction(text.as_bytes(), 0), Some((exp_ins, text.len())));
}

#[test]
fn instructions_that_cannot_be_read() {
    assert_eq!(parse_instruction(b"move 1 from 0 to 1", 0), None);
    assert_eq!(parse_instruction(b"move 1 from 2 to 0", 0), None);
    assert_eq!(parse_instruction(b"move 65536 from 2 to 1", 0), None);
    assert_eq!(parse_instruction(b"move 1 to 2 from 1", 0), None);
    assert_eq!(parse_instruction(b"move  1 from 2 to 1", 0), None);
    assert_eq!(
        parse_instruction(b"move 65535 from 65535 to 1!", 0),
        Some((Instruction { quantity: 65535, source: 65534, destination: 0 }, 26))
    );
    assert_eq!(parse_number_line(b"\n", 0), None);
    assert_eq!(parse_number_line(b" 1 2 a\n", 0), None);
    assert_eq!(parse_number_line(b" 1 2", 0), None);
}

#[test]
fn crate_lines() {
    assert_eq!(
        parse_crate_line(b"    [D]    \n", 0),
        Some((vec![None, Some(Crate('D')), None], 11))
    );
    assert_eq!(parse_crate_line(b"[Z] [M] [P]", 0).unwrap().1, 11);
    assert_eq!(parse_crate_line(b"[Z]  [M]", 0), Some((vec![Some(Crate('Z'))], 3)));
    assert_eq!(parse_crate_line(b" 1   2 ", 0), None);
    assert_eq!(parse_crate_line(b"[ZZ]", 0), None);
}

#[test]
fn transpose_turns_rows_into_piles() {
    let rows = vec![
        vec![None, Some('D'), None],
        vec![Some('N'), Some('C'), None],
        vec![Some('Z'), Some('M'), Some('P')],
    ];
    assert_eq!(transpose_rev_filter(rows), vec![vec!['Z', 'N'], vec!['M', 'C', 'D'], vec!['P']]);
    let wide = vec![vec![Some(1)], vec![Some(2), Some(3)]];
    assert_eq!(transpose_rev_filter(wide), vec![vec![2, 1]]);
}

#[test]
fn drawing_of_the_sample() {
    let (piles, at) = parse_all_crates(SAMPLE.as_bytes(), 0).unwrap();
    assert_eq!(piles, vec![pile("ZN"), pile("MCD"), pile("P")]);
    assert_eq!(at, 36);
    assert!(parse_all_crates(b" 1   2   3 \n", 0).is_none());
    assert!(parse_all_crates(b"[A] [B]\n[C]\n", 0).is_none());
    assert!(parse_all_crates(b"[C]\n[A] [B]\n", 0).is_some());
    assert!(parse_all_crates(b"[A] [B]", 0).is_none());
}

#[test]
fn sample_ends_with_cmz_on_top() {
    let (mut piles, instructions, used) = parse_input(SAMPLE).unwrap();
    assert_eq!(used, SAMPLE.len());
    assert_eq!(instructions.len(), 4);
    assert_eq!(instructions[1], Instruction { quantity: 3, source: 0, destination: 2 });
    assert_eq!(piles.top_crates(), Some(String::from("NDP")));
    for inst in instructions {
        assert!(piles.can_apply(inst));
        piles.apply(inst);
    }
    assert_eq!(piles.0, vec![pile("C"), pile("M"), pile("PDNZ")]);
    assert_eq!(piles.top_crates(), Some(String::from("CMZ")));
}

#[test]
fn input_needs_all_of_its_parts() {
    assert!(parse_input("[A]\n 1 \n\nmove 1 from 1 to 1").is_some());
    assert!(parse_input("[A]\n 1 \nmove 1 from 1 to 1").is_none());
    assert!(parse_input("[A]\n\nmove 1 from 1 to 1").is_none());
    assert!(parse_input("[A]\n 1 \n\n").is_none());
    assert!(parse_input("").is_none());
    let (_, list, used) = parse_input("[A]\n 1 \n\nmove 1 from 1 to 1\n\nmove 2 from 1 to 1").unwrap();
    assert_eq!(list.len(), 1);
    assert_eq!(used, 28);
}

#[test]
fn apply_moves_crates_one_at_a_time() {
    let mut piles = Piles(vec![pile("ABC"), pile(""), pile("X")]);
    piles.apply(Instruction { quantity: 2, source: 0, destination: 2 });
    assert_eq!(piles.0, vec![pile("A"), pile(""), pile("XCB")]);
    piles.apply(Instruction { quantity: 3, source: 2, destination: 2 });
    assert_eq!(piles.0, vec![pile("A"), pile(""), pile("XCB")]);
    piles.apply(Instruction { quantity: 0, source: 1, destination: 0 });
    assert_eq!(piles.0, vec![pile("A"), pile(""), pile("XCB")]);
    assert_eq!(piles.top_crates(), None);
    assert!(!piles.can_apply(Instruction { quantity: 2, source: 0, destination: 1 }));
    assert!(!piles.can_apply(Instruction { quantity: 1, source: 1, destination: 1 }));
    assert!(piles.can_apply(Instruction { quantity: 0, source: 1, destination: 1 }));
    assert!(piles.can_apply(Instruction { quantity: 9, source: 2, destination: 2 }));
    assert!(!piles.can_apply(Instruction { quantity: 0, source: 3, destination: 0 }));
    assert!(!piles.can_apply(Instruction { quantity: 0, source: 0, destination: 3 }));
}
