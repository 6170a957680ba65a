use brainfuck::debugger::{DebugOutcome, Debugger};

#[test]
fn test_registers_start_at_zero() {
    let debugger = Debugger::new("+>+", false, 64).unwrap();
    assert_eq!(debugger.registers(), (0, 0));
}

#[test]
fn test_breakpoints_sorted_and_unique() {
    let mut debugger = Debugger::new("+>+", false, 64).unwrap();
    debugger.breakpoints_add(5);
    debugger.breakpoints_add(3);
    debugger.breakpoints_add(5);
    assert_eq!(debugger.breakpoints_list(), vec![3, 5]);
    debugger.breakpoints_delete(3);
    assert_eq!(debugger.breakpoints_list(), vec![5]);
    debugger.breakpoints_delete(99);
    assert_eq!(debugger.breakpoints_list(), vec![5]);
}

#[test]
fn test_step_moves_registers() {
    let mut debugger = Debugger::new("+>+", false, 64).unwrap();
    assert_eq!(debugger.step(), Ok(false));
    assert_eq!(debugger.registers(), (1, 0));
    assert_eq!(debugger.step(), Ok(false));
    assert_eq!(debugger.registers(), (2, 1));
}

#[test]
fn test_run_stops_at_breakpoint() {
    let mut debugger = Debugger::new("+>+", false, 64).unwrap();
    debugger.breakpoints_add(1);
    assert_eq!(debugger.run(usize::MAX), Ok(DebugOutcome::AtBreakpoint));
    assert_eq!(debugger.registers(), (1, 0));
    assert_eq!(debugger.run(usize::MAX), Ok(DebugOutcome::Finished));
}

#[test]
fn test_memory_reads() {
    let mut debugger = Debugger::new("+++", false, 4).unwrap();
    assert_eq!(debugger.run(usize::MAX), Ok(DebugOutcome::Finished));
    assert_eq!(debugger.memory(0), Some(3));
    assert_eq!(debugger.memory(3), Some(0));
    assert_eq!(debugger.memory(4), None);
}

#[test]
fn test_memory_dump_rows() {
    let source = "+".repeat(49);
    let mut debugger = Debugger::new(&source, false, 64).unwrap();
    // cell 0 becomes 49, the digit '1'
    assert_eq!(debugger.run(usize::MAX), Ok(DebugOutcome::Finished));
    let dump = debugger.memory_dump(0, 4);
    let expected = format!(
        "0000 | 31 00 00 00 {}| 1...{}\n",
        "   ".repeat(12),
        " ".repeat(12)
    );
    assert_eq!(dump, expected);
}

#[test]
fn test_memory_dump_alignment() {
    let debugger = Debugger::new("+", false, 64).unwrap();
    let dump = debugger.memory_dump(18, 2);
    let expected = format!(
        "0010 | {}00 00 {}| {}..{}\n",
        "   ".repeat(2),
        "   ".repeat(12),
        " ".repeat(2),
        " ".repeat(12)
    );
    assert_eq!(dump, expected);
}

#[test]
fn test_program_list_window() {
    let debugger = Debugger::new("+-+-", false, 64).unwrap();
    let listing = debugger.program_list(Some(0));
    assert!(listing.starts_with("0000 "));
    assert!(listing.contains("0003 "));
}
