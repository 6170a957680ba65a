use brainfuck::ast::AST;
use brainfuck::codegen::code_bytes;
use brainfuck::jit::JIT;
use brainfuck::program::Program;

#[test]
fn test_ast_clear_loop() {
    let program = Program::new("+[-]", false).unwrap();
    let ast = AST::new(program);
    assert_eq!(ast, AST::Program(vec![AST::IncValue(1), AST::SetValue(0)]));
}

#[test]
fn test_ast_copy_loop() {
    let program = Program::new("+>+<[->>+<<]", true).unwrap();
    let ast = AST::new(program);
    assert_eq!(
        ast,
        AST::Program(vec![
            AST::IncValue(1),
            AST::IncDataPtr(1),
            AST::IncValue(1),
            AST::DecDataPtr(1),
            AST::AddTo(2)
        ])
    );
}

#[test]
fn test_ast_copy_loop_left() {
    let program = Program::new("[-<<+>>]", true).unwrap();
    let ast = AST::new(program);
    assert_eq!(ast, AST::Program(vec![AST::AddTo(-2)]));
}

#[test]
fn test_ast_copy_loop_dec_last() {
    let program = Program::new("[>>>+<<<-]", true).unwrap();
    let ast = AST::new(program);
    assert_eq!(ast, AST::Program(vec![AST::AddTo(3)]));
}

#[test]
fn test_ast_plain_loop_kept() {
    let program = Program::new("[.]", false).unwrap();
    let ast = AST::new(program);
    assert_eq!(ast, AST::Program(vec![AST::Loop(vec![AST::Output])]));
}

#[test]
fn test_disassemble() {
    let jit = JIT::new("+[-]", false, 64).unwrap();
    assert_eq!(jit.disassemble(), "+ (1)\nset(0)\n");
}

#[test]
fn test_disassemble_loop_indents() {
    let jit = JIT::new("[.]", false, 64).unwrap();
    assert_eq!(jit.disassemble(), "[\n    .\n]\n");
}

#[test]
fn test_generate_code_words() {
    let jit = JIT::new("+", false, 64).unwrap();
    let words = jit.generate_code().unwrap();
    // prolog (8 words), ldrb/add #1/strb (3 words), epilog (4 words)
    assert_eq!(words.len(), 15);
    assert_eq!(words[0], 0xA9BD7BFD); // stp x29, x30, [sp, #-0x30]!
    assert_eq!(words[8], 0x394002AD); // ldrb w13, [x21]
    assert_eq!(words[9], 0x110005AD); // add w13, w13, #1
    assert_eq!(words[10], 0x390002AD); // strb w13, [x21]
    assert_eq!(words[14], 0xD65F03C0); // ret
}

#[test]
fn test_generate_code_loop_branches() {
    let jit = JIT::new("[.]", false, 64).unwrap();
    let words = jit.generate_code().unwrap();
    // prolog, ldrb + cbz, the three output words, b, epilog
    assert_eq!(words.len(), 18);
    assert_eq!(words[8], 0x394002AD); // ldrb w13, [x21]
    // cbz w13, #+5 instructions (body of 3, plus the b, to past the loop)
    assert_eq!(words[9], 0x34000000 | (5 << 5) | 0xD);
    // b back 5 instructions to the loop head
    assert_eq!(words[13], 0x14000000 | (0x4000000 - 5));
}

#[test]
fn test_generate_code_clear_loop() {
    let jit = JIT::new("[-]", false, 64).unwrap();
    let words = jit.generate_code().unwrap();
    // the clear loop collapses to a single store of zero
    assert_eq!(words.len(), 13);
    assert_eq!(words[8], 0x390002BF); // strb wzr, [x21]
}

#[test]
fn test_code_bytes_little_endian() {
    let words = vec![0xA9BD7BFDu32];
    assert_eq!(code_bytes(&words), vec![0xFD, 0x7B, 0xBD, 0xA9]);
}

#[test]
fn test_generate_code_rejects_far_copy() {
    let program = Program::new("[->+<]", true).unwrap();
    let ast = AST::new(program);
    assert_eq!(ast, AST::Program(vec![AST::AddTo(1)]));
    // a copy loop reaching 300 cells away does not fit the nine-bit offset
    let far: String = format!("[-{}+{}]", ">".repeat(300), "<".repeat(300));
    let jit = JIT::new(&far, true, 64).unwrap();
    assert!(jit.generate_code().is_none());
}

#[test]
fn test_ast_copy_loop_left_dec_last() {
    let program = Program::new("[<<+>>-]", true).unwrap();
    let ast = AST::new(program);
    assert_eq!(ast, AST::Program(vec![AST::AddTo(-2)]));
}

#[test]
fn test_ast_clear_loop_inc() {
    let program = Program::new("[+]", false).unwrap();
    let ast = AST::new(program);
    assert_eq!(ast, AST::Program(vec![AST::SetValue(0)]));
}
