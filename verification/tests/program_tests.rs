use brainfuck::opcode::OpCode;
use brainfuck::program::{Program, ProgramError, Step};

#[test]
fn test_missmatched_loops_open() {
    let code = "[[[]]";
    let program = Program::new(code, false);
    assert!(program.is_err());
}

#[test]
fn test_missmatched_loops_closed() {
    let code = "[[[]]]]";
    let program = Program::new(code, false);
    assert!(program.is_err());
}

#[test]
fn test_parse_helloworld() {
    let code = "++++++++[>++++[>++>+++>+++>+<<<<-]>+>+>->>+[<]<-]>>.>---.+++++++..+++.>>.<-.<.+++.------.--------.>>+.>++.";
    let program_result = Program::new(code, false);
    assert!(program_result.is_ok());
    let program = program_result.unwrap();

    // Check parsing
    assert_eq!(code, program.to_string());

    // Check random
    for (ip, expected) in vec![
        (0, Step::new(OpCode::IncValue(1), Some(1), None)),
        (9, Step::new(OpCode::IncDataPtr(1), Some(10), None)),
        (30, Step::new(OpCode::DecDataPtr(1), Some(31), None)),
        (51, Step::new(OpCode::Output, Some(52), None)),
    ] {
        assert_eq!(program.get_step(ip), Some(expected))
    }

    // Check loops
    for (start, end) in vec![(8, 48), (14, 33), (43, 45)] {
        assert_eq!(
            program.get_step(start),
            Some(Step::new(OpCode::LoopStart, Some(start + 1), Some(end + 1)))
        );
        assert_eq!(
            program.get_step(end),
            Some(Step::new(OpCode::LoopEnd, Some(start + 1), Some(end + 1)))
        );
    }
}

#[test]
fn test_optimization() {
    let code = "++++++++++[----------]";
    let program_result = Program::new(code, true);
    assert!(program_result.is_ok());
    let program = program_result.unwrap();
    assert_eq!(
        program.code,
        vec![
            OpCode::IncValue(10),
            OpCode::LoopStart,
            OpCode::DecValue(10),
            OpCode::LoopEnd
        ]
    )
}

#[test]
fn test_missing_open_bracket_index() {
    let program = Program::new("[[[]]", false);
    assert_eq!(program.err(), Some(ProgramError::MissingBracket(0)));
}

#[test]
fn test_missing_close_bracket_index() {
    let program = Program::new("[[[]]]]", false);
    assert_eq!(program.err(), Some(ProgramError::MissingBracket(6)));
}

#[test]
fn test_comments_are_dropped() {
    let program = Program::new("a +b. c", false).unwrap();
    assert_eq!(program.code, vec![OpCode::IncValue(1), OpCode::Output]);
}

#[test]
fn test_jump_table_involution() {
    let program = Program::new("[[]]", false).unwrap();
    assert_eq!(program.jump_table, vec![Some(3), Some(2), Some(1), Some(0)]);
    for (i, entry) in program.jump_table.iter().enumerate() {
        let mate = entry.unwrap();
        assert_eq!(program.jump_table[mate], Some(i));
    }
}

#[test]
fn test_listing_lines() {
    let program = Program::new("[-]", false).unwrap();
    let listing = program.listing(None, None).unwrap();
    let expected = "0000 \u{256d}\u{2500}> [ (LoopStart)\n\
                    0001 \u{2502}   - (DecValue(1))\n\
                    0002 \u{2570}\u{2500}> ] (LoopEnd)\n";
    assert_eq!(listing, expected);
}

#[test]
fn test_listing_window() {
    let program = Program::new("+-+-", false).unwrap();
    let listing = program.listing(Some(1), Some(2)).unwrap();
    assert_eq!(listing, "0001    - (DecValue(1))\n0002    + (IncValue(1))\n");
}
