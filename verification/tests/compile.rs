use brainwash::binary::{BinaryGenerator, Optimizer, Pass};
use brainwash::codegen::{Codegen, Instr, IrType, Terminator, Types};
use brainwash::ir_text::module_to_text;
use brainwash::lexer::{Lexer, LexerError};
use brainwash::parser::Parser;
use brainwash::pipeline::compile;

fn check_instrs() -> Vec<Instr> {
    vec![Instr::LoadDataPtr, Instr::LoadCell, Instr::CompareNeZero]
}

#[test]
fn test_compile_rejects_unbalanced() {
    let r = compile(b"+[-");
    assert_eq!(r.err().unwrap(), LexerError::BracketsInvalidError);
}

#[test]
fn test_non_command_bytes_compile_to_prologue_only() {
    // only non-command bytes: no tokens, an empty top-level sequence, and a
    // module of just the entry block
    let c = compile(b"hello, world!\n").ok().unwrap();
    assert_eq!(c.module.blocks.len(), 1);
    assert_eq!(
        c.module.blocks[0].instrs,
        vec![
            Instr::AllocaDataPtr,
            Instr::CallCalloc { count: 1024, size: 1 },
            Instr::StoreDataPtr,
        ]
    );
    assert_eq!(c.module.blocks[0].term, Some(Terminator::Return));
}

#[test]
fn test_nested_loops_block_structure() {
    // two nested loops: the context stack reaches depth two and is empty
    // again at the end, with every branch aimed at an existing block
    let c = compile(b"[[]]").ok().unwrap();
    let m = &c.module;
    assert_eq!(m.blocks.len(), 7);
    // entry falls into the outer check
    assert_eq!(m.blocks[0].term, Some(Terminator::Branch { target: 1 }));
    // outer check tests the cell and branches body/exit
    assert_eq!(m.blocks[1].instrs, check_instrs());
    assert_eq!(
        m.blocks[1].term,
        Some(Terminator::CondBranch { if_true: 2, if_false: 3 })
    );
    // outer body falls into the inner check
    assert_eq!(m.blocks[2].term, Some(Terminator::Branch { target: 4 }));
    assert_eq!(m.blocks[4].instrs, check_instrs());
    assert_eq!(
        m.blocks[4].term,
        Some(Terminator::CondBranch { if_true: 5, if_false: 6 })
    );
    // inner body closes back to the inner check; its exit closes the outer
    assert_eq!(m.blocks[5].term, Some(Terminator::Branch { target: 4 }));
    assert_eq!(m.blocks[6].term, Some(Terminator::Branch { target: 1 }));
    // the outer exit returns
    assert_eq!(m.blocks[3].term, Some(Terminator::Return));
}

#[test]
fn test_loop_has_one_back_edge() {
    let c = compile(b"+[-].").ok().unwrap();
    let m = &c.module;
    assert_eq!(m.blocks.len(), 4);
    // the check block is block 1; count its unconditional predecessors
    let mut entry_edges = 0;
    let mut back_edges = 0;
    for (j, b) in m.blocks.iter().enumerate() {
        if b.term == Some(Terminator::Branch { target: 1 }) {
            if j < 1 {
                entry_edges += 1;
            } else {
                back_edges += 1;
            }
        }
    }
    assert_eq!(entry_edges, 1);
    assert_eq!(back_edges, 1);
    // and the check branches forward to the body and the post-loop block
    assert_eq!(
        m.blocks[1].term,
        Some(Terminator::CondBranch { if_true: 2, if_false: 3 })
    );
}

#[test]
fn test_cell_change_lowering() {
    let c = compile(b"+-").ok().unwrap();
    assert_eq!(
        c.module.blocks[0].instrs,
        vec![
            Instr::AllocaDataPtr,
            Instr::CallCalloc { count: 1024, size: 1 },
            Instr::StoreDataPtr,
            Instr::LoadDataPtr,
            Instr::LoadCell,
            Instr::AddCell { amount: 1 },
            Instr::StoreCell,
            Instr::LoadDataPtr,
            Instr::LoadCell,
            Instr::AddCell { amount: 255 },
            Instr::StoreCell,
        ]
    );
}

#[test]
fn test_pointer_and_output_lowering() {
    let c = compile(b"><.").ok().unwrap();
    assert_eq!(
        c.module.blocks[0].instrs,
        vec![
            Instr::AllocaDataPtr,
            Instr::CallCalloc { count: 1024, size: 1 },
            Instr::StoreDataPtr,
            Instr::LoadDataPtr,
            Instr::PtrOffset { offset: 1 },
            Instr::StoreDataPtr,
            Instr::LoadDataPtr,
            Instr::PtrOffset { offset: -1 },
            Instr::StoreDataPtr,
            Instr::LoadDataPtr,
            Instr::LoadCell,
            Instr::SignExtend,
            Instr::CallPutchar,
        ]
    );
}

#[test]
fn test_generate_llvm_matches_pipeline() {
    let lx = Lexer::new(b"+.[-]+");
    lx.check_loops().unwrap();
    let mut px = Parser::new(lx.tokens);
    let cg = Codegen { input: px.parse_all() };
    let m1 = cg.generate_llvm();
    let c = compile(b"+.[-]+").ok().unwrap();
    assert_eq!(module_to_text(&m1), module_to_text(&c.module));
}

#[test]
fn test_artifact_text_of_empty_program() {
    let c = compile(b"").ok().unwrap();
    let text = module_to_text(&c.module);
    assert_eq!(
        text,
        "module bfc\n\
         declare calloc(i64 i64) i8ptr\n\
         declare putchar(i32) i32\n\
         define main() i32\n\
         block0:\n\
         \x20 alloca_data_ptr\n\
         \x20 call calloc 1024 1\n\
         \x20 store_data_ptr\n\
         \x20 ret\n"
    );
}

#[test]
fn test_pipeline_idempotent() {
    // the same source twice: bit-identical artifacts
    let src: &[u8] = b"++[>+<-]>.";
    let first = compile(src).ok().unwrap();
    let second = compile(src).ok().unwrap();
    assert_eq!(module_to_text(&first.module), module_to_text(&second.module));
}

#[test]
fn test_types_descriptors() {
    let t = Types::new();
    assert_eq!(t.i8_type, IrType::I8);
    assert_eq!(t.i8_ptr_type, IrType::PtrI8);
    assert!(t.main_fn_type.params.is_empty());
    assert_eq!(t.main_fn_type.ret, IrType::I32);
    assert_eq!(t.calloc_fn_type.params, vec![IrType::I64, IrType::I64]);
    assert_eq!(t.calloc_fn_type.ret, IrType::PtrI8);
    assert_eq!(t.putchar_fn_type.params, vec![IrType::I32]);
    assert_eq!(t.putchar_fn_type.ret, IrType::I32);
}

#[test]
fn test_optimizer_pass_pipeline() {
    let opt = Optimizer::new();
    assert_eq!(
        opt.pass_pipeline(),
        vec![
            Pass::VerifyStructure,
            Pass::EliminateCommonSubexpressions,
            Pass::SimplifyControlFlow,
            Pass::ReplaceAggregatesWithScalars,
            Pass::CombineInstructions,
            Pass::Vectorize,
            Pass::VerifyStructure,
        ]
    );
}

#[test]
fn test_binary_generator_commands() {
    let g = BinaryGenerator::new("bfo".to_string());
    assert_eq!(g.bitcode_command(), vec!["llvm-as", "bfo.ll", "-o", "bfo.bc"]);
    assert_eq!(
        g.assembly_command(),
        vec!["llc", "-filetype=obj", "bfo.bc", "-o", "bfo.o"]
    );
    assert_eq!(g.executable_command(), vec!["clang", "bfo.o", "-o", "bfo"]);
    assert_eq!(
        g.cleanup_command(),
        vec!["rm", "-rf", "bfo.ll", "bfo.bc", "bfo.o"]
    );
}
