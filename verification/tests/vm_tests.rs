use brainfuck::io::{StdinCap, StdinString, StdoutCap, StdoutString};
use brainfuck::vm::{EvalError, Normal, VM};

const HELLO_WORLD: &str = "++++++++[>++++[>++>+++>+++>+<<<<-]>+>+>->>+[<]<-]>>.>---.+++++++..+++.>>.<-.<.+++.------.--------.>>+.>++.";

fn run_to_string(code: &str, input: &str, rle: bool, memory_size: usize) -> (Result<bool, EvalError>, String, Vec<u8>) {
    let stdin = StdinString::new(input);
    let stdout = StdoutString::new();
    let mut vm = VM::<Normal>::new(
        code,
        StdinCap::Text(stdin),
        StdoutCap::Text(stdout),
        rle,
        memory_size,
    )
    .unwrap();
    let result = vm.run(usize::MAX);
    let output = vm.stdout().to_string();
    let memory = vm.memory().clone();
    (result, output, memory)
}

#[test]
fn vm_test_helloworld() {
    let stdin = StdinString::new("");
    let stdout = StdoutString::new();
    let mut vm = VM::<Normal>::new(
        HELLO_WORLD,
        StdinCap::Text(stdin),
        StdoutCap::Text(stdout),
        false,
        1 << 10,
    )
    .unwrap();
    assert_eq!(vm.run(usize::MAX), Ok(true));
    assert_eq!("Hello World!\n", format!("{}", vm.stdout().to_string()));
}

#[test]
fn test_rle_equivalence_helloworld() {
    let (done_plain, out_plain, _) = run_to_string(HELLO_WORLD, "", false, 1 << 10);
    let (done_rle, out_rle, _) = run_to_string(HELLO_WORLD, "", true, 1 << 10);
    assert_eq!(done_plain, Ok(true));
    assert_eq!(done_rle, Ok(true));
    assert_eq!(out_plain, out_rle);
    assert_eq!(out_plain, "Hello World!\n");
}

#[test]
fn test_wrap_add_256_times() {
    let source: String = std::iter::repeat('+').take(256).collect();
    let (done, _, memory) = run_to_string(&source, "", false, 16);
    assert_eq!(done, Ok(true));
    assert_eq!(memory[0], 0);
}

#[test]
fn test_wrap_sub_once() {
    let (done, _, memory) = run_to_string("-", "", false, 16);
    assert_eq!(done, Ok(true));
    assert_eq!(memory[0], 255);
}

#[test]
fn test_string_input_passes_newline_through() {
    let (done, _, memory) = run_to_string(",", "\n", false, 16);
    assert_eq!(done, Ok(true));
    assert_eq!(memory[0], 10);
}

#[test]
fn test_input_eof_leaves_cell() {
    let (done, _, memory) = run_to_string("+,", "", false, 16);
    assert_eq!(done, Ok(true));
    assert_eq!(memory[0], 1);
}

#[test]
fn test_echo_program() {
    let (done, output, _) = run_to_string(",.,.", "hi", false, 16);
    assert_eq!(done, Ok(true));
    assert_eq!(output, "hi");
}

#[test]
fn test_pointer_underflow() {
    let (result, _, _) = run_to_string("<", "", false, 16);
    assert_eq!(result, Err(EvalError::MemoryOutOfBounds));
}

#[test]
fn test_pointer_overflow() {
    let (result, _, _) = run_to_string(">", "", false, 1);
    assert_eq!(result, Err(EvalError::InvalidInstructionPointer));
}

#[test]
fn test_step_budget_runs_out() {
    let stdin = StdinString::new("");
    let stdout = StdoutString::new();
    let mut vm = VM::<Normal>::new(
        "+[]",
        StdinCap::Text(stdin),
        StdoutCap::Text(stdout),
        false,
        16,
    )
    .unwrap();
    assert_eq!(vm.run(1000), Ok(false));
}

#[test]
fn test_profiler_counts_folded_opcodes() {
    let stdin = StdinString::new("");
    let stdout = StdoutString::new();
    let vm = VM::<Normal>::new(
        "+++",
        StdinCap::Text(stdin),
        StdoutCap::Text(stdout),
        true,
        16,
    )
    .unwrap();
    let mut profiler = vm.enable_profiler();
    assert_eq!(profiler.run(usize::MAX), Ok(true));
    // one folded opcode of count 3, executed once: three counters of 1
    assert_eq!(profiler.profile_data(), &vec![1, 1, 1]);
}

#[test]
fn test_profiler_sum_matches_executions() {
    let stdin = StdinString::new("");
    let stdout = StdoutString::new();
    let vm = VM::<Normal>::new(
        "+++[-]",
        StdinCap::Text(stdin),
        StdoutCap::Text(stdout),
        false,
        16,
    )
    .unwrap();
    let mut profiler = vm.enable_profiler();
    assert_eq!(profiler.run(usize::MAX), Ok(true));
    // +,+,+ once each; [ once; - and ] three times each
    assert_eq!(profiler.profile_data(), &vec![1, 1, 1, 1, 3, 3]);
    let total: usize = profiler.profile_data().iter().sum();
    assert_eq!(total, 10);
}
