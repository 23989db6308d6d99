use breakpad::cfi_eval::{eval_expr, CfiEnv};
use breakpad::memory::StackMemory;
use breakpad::stack_walker::{walk_stack, Context};
use breakpad::CodeModule;
use breakpad::CodeModuleId;
use breakpad::FrameTrust;
use breakpad::SymbolStore;

fn module_at(base: u64, size: u64, debug_id: &str) -> CodeModule {
    CodeModule::new(
        base,
        size,
        String::from("/bin/crash_app"),
        String::from("code-id"),
        String::from("crash_app"),
        String::from(debug_id),
    )
    .unwrap()
}

fn memory_of_words(base: u64, words: &[u64]) -> StackMemory {
    let mut bytes = Vec::new();
    for w in words {
        bytes.extend_from_slice(&w.to_le_bytes());
    }
    StackMemory { base, bytes }
}

#[test]
fn valid_context_and_empty_memory_gives_one_context_frame() {
    let ctx = Context { instruction: 0x1100, stack_pointer: 0x7000, frame_pointer: 0 };
    let memory = StackMemory { base: 0x7000, bytes: Vec::new() };
    let frames = walk_stack(&ctx, &memory, &Vec::new(), &Vec::new(), &Vec::new());
    assert_eq!(frames.len(), 1);
    assert_eq!(frames[0].instruction(), 0x1100);
    assert!(matches!(frames[0].trust(), FrameTrust::Context));
    assert!(frames[0].module().is_none());
}

#[test]
fn zero_instruction_pointer_gives_no_frames() {
    let ctx = Context { instruction: 0, stack_pointer: 0x7000, frame_pointer: 0 };
    let memory = memory_of_words(0x7000, &[0x1200]);
    let frames = walk_stack(&ctx, &memory, &Vec::new(), &Vec::new(), &Vec::new());
    assert_eq!(frames.len(), 0);
}

#[test]
fn frame_pointer_chain_is_followed() {
    let modules = vec![module_at(0x1000, 0x1000, "DFB8E43AF2423D73A453AEB6A777EF750")];
    // fp chain at 0x7000: saved fp 0x7010, return 0x1200; then 0x7020 / 0x1300;
    // then zeroes end the walk.
    let memory = memory_of_words(
        0x7000,
        &[0x7010, 0x1200, 0x7020, 0x1300, 0, 0],
    );
    let ctx = Context { instruction: 0x1100, stack_pointer: 0x7000, frame_pointer: 0x7000 };
    let frames = walk_stack(&ctx, &memory, &modules, &Vec::new(), &Vec::new());
    assert_eq!(frames.len(), 3);
    assert_eq!(frames[0].instruction(), 0x1100);
    assert!(matches!(frames[0].trust(), FrameTrust::Context));
    assert_eq!(frames[1].instruction(), 0x1200);
    assert!(matches!(frames[1].trust(), FrameTrust::FramePointer));
    assert_eq!(frames[2].instruction(), 0x1300);
    assert!(matches!(frames[2].trust(), FrameTrust::FramePointer));
    assert_eq!(frames[1].module().unwrap().base_address(), 0x1000);
}

#[test]
fn scan_finds_module_addresses() {
    let modules = vec![module_at(0x1000, 0x1000, "DFB8E43AF2423D73A453AEB6A777EF750")];
    // No usable frame pointer; the scanner skips non-module words and zeros.
    let memory = memory_of_words(0x7000, &[0xdead, 0, 0x1300, 0]);
    let ctx = Context { instruction: 0x1100, stack_pointer: 0x7000, frame_pointer: 0 };
    let frames = walk_stack(&ctx, &memory, &modules, &Vec::new(), &Vec::new());
    assert_eq!(frames.len(), 2);
    assert_eq!(frames[1].instruction(), 0x1300);
    assert!(matches!(frames[1].trust(), FrameTrust::Scan));
}

#[test]
fn cfi_recovers_caller_state() {
    let id = CodeModuleId::parse("DFB8E43AF2423D73A453AEB6A777EF750").unwrap();
    let modules = vec![module_at(0x1000, 0x1000, "DFB8E43AF2423D73A453AEB6A777EF750")];
    let store = SymbolStore::from_buffer(
        b"MODULE mac x86_64 DFB8E43AF2423D73A453AEB6A777EF750 crash_app\n\
STACK CFI INIT 0 1000 .cfa: $rsp 8 + .ra: .cfa 8 - ^\n",
    );
    let stores = vec![(id, store)];
    // Return addresses stored at the stack pointer of each frame.
    let memory = memory_of_words(0x7000, &[0x1200, 0x1300, 0]);
    let ctx = Context { instruction: 0x1100, stack_pointer: 0x7000, frame_pointer: 0 };
    let frames = walk_stack(&ctx, &memory, &modules, &stores, &Vec::new());
    assert_eq!(frames.len(), 3);
    assert!(matches!(frames[1].trust(), FrameTrust::CFI));
    assert_eq!(frames[1].instruction(), 0x1200);
    assert!(matches!(frames[2].trust(), FrameTrust::CFI));
    assert_eq!(frames[2].instruction(), 0x1300);
}

#[test]
fn later_cfi_rules_override_earlier_ones() {
    let id = CodeModuleId::parse("DFB8E43AF2423D73A453AEB6A777EF750").unwrap();
    let modules = vec![module_at(0x1000, 0x1000, "DFB8E43AF2423D73A453AEB6A777EF750")];
    // The INIT rule derives an unusable frame base; the incremental rule
    // at offset 100 replaces it. The walk below starts at offset 0x200,
    // so only the overriding rule can recover the caller.
    let store = SymbolStore::from_buffer(
        b"MODULE mac x86_64 DFB8E43AF2423D73A453AEB6A777EF750 crash_app\n\
STACK CFI INIT 0 1000 .cfa: $rsp 99 + .ra: .cfa 8 - ^ $rbp: .cfa 16 - ^\n\
STACK CFI 100 .cfa: $rsp 8 +\n",
    );
    let stores = vec![(id, store)];
    let memory = memory_of_words(0x7000, &[0x1200, 0, 0]);
    let ctx = Context { instruction: 0x1200, stack_pointer: 0x7000, frame_pointer: 0 };
    let frames = walk_stack(&ctx, &memory, &modules, &stores, &Vec::new());
    assert!(frames.len() >= 2);
    assert!(matches!(frames[1].trust(), FrameTrust::CFI));
    assert_eq!(frames[1].instruction(), 0x1200);
}

#[test]
fn prewalked_addresses_bypass_unwinding() {
    let modules = vec![module_at(0x1000, 0x1000, "DFB8E43AF2423D73A453AEB6A777EF750")];
    let memory = memory_of_words(0x7000, &[0x1200]);
    let ctx = Context { instruction: 0x1100, stack_pointer: 0x7000, frame_pointer: 0 };
    let prewalked = vec![0x1500, 0x1600];
    let frames = walk_stack(&ctx, &memory, &modules, &Vec::new(), &prewalked);
    assert_eq!(frames.len(), 3);
    assert_eq!(frames[1].instruction(), 0x1500);
    assert!(matches!(frames[1].trust(), FrameTrust::Prewalked));
    assert_eq!(frames[2].instruction(), 0x1600);
    assert!(matches!(frames[2].trust(), FrameTrust::Prewalked));
}

#[test]
fn walk_stops_when_stack_pointer_does_not_increase() {
    let modules = vec![module_at(0x1000, 0x1000, "DFB8E43AF2423D73A453AEB6A777EF750")];
    // A frame-pointer chain that would move the stack pointer downward.
    let memory = memory_of_words(0x7000, &[0x7000, 0x1200, 0, 0]);
    let ctx = Context { instruction: 0x1100, stack_pointer: 0x7020, frame_pointer: 0x7000 };
    let frames = walk_stack(&ctx, &memory, &modules, &Vec::new(), &Vec::new());
    assert_eq!(frames.len(), 1);
}

#[test]
fn read_word_is_little_endian() {
    let memory = StackMemory { base: 0x100, bytes: vec![1, 2, 3, 4, 5, 6, 7, 8, 9] };
    assert_eq!(memory.read_word(0x100), Some(0x0807060504030201));
    assert_eq!(memory.read_word(0x101), Some(0x0908070605040302));
    assert_eq!(memory.read_word(0x102), None);
    assert_eq!(memory.read_word(0xFF), None);
}

#[test]
fn expression_evaluator_computes_postfix() {
    let env = CfiEnv { cfa_set: true, cfa: 0x9000, ip: 0x1100, sp: 0x7000, fp: 0x6000 };
    let mem = memory_of_words(0x7000, &[0x4242]);
    let toks = |v: &[&str]| -> Vec<String> { v.iter().map(|s| s.to_string()).collect() };
    assert_eq!(eval_expr(&toks(&["6", "2", "/"]), &env, &mem), Some(3));
    assert_eq!(eval_expr(&toks(&["7", "2", "%"]), &env, &mem), Some(1));
    assert_eq!(eval_expr(&toks(&["5", "3", "@"]), &env, &mem), Some(3));
    assert_eq!(eval_expr(&toks(&["$rsp", "8", "+"]), &env, &mem), Some(0x7008));
    assert_eq!(eval_expr(&toks(&[".cfa", "16", "-"]), &env, &mem), Some(0x8FF0));
    assert_eq!(eval_expr(&toks(&["$rbp", "2", "*"]), &env, &mem), Some(0xC000));
    assert_eq!(eval_expr(&toks(&["$rsp", "^"]), &env, &mem), Some(0x4242));
    assert_eq!(eval_expr(&toks(&["-8"]), &env, &mem), Some(0xFFFF_FFFF_FFFF_FFF8));
    assert_eq!(eval_expr(&toks(&["0", "-8", "-"]), &env, &mem), Some(8));
    // Failures: underflow, division by zero, unknown names, leftover values.
    assert_eq!(eval_expr(&toks(&["+"]), &env, &mem), None);
    assert_eq!(eval_expr(&toks(&["1", "0", "/"]), &env, &mem), None);
    assert_eq!(eval_expr(&toks(&["$xyz"]), &env, &mem), None);
    assert_eq!(eval_expr(&toks(&["1", "2"]), &env, &mem), None);
    assert_eq!(eval_expr(&toks(&[]), &env, &mem), None);
    // Out-of-range dereference fails.
    assert_eq!(eval_expr(&toks(&["1", "^"]), &env, &mem), None);
    // Without a derived .cfa the .cfa name is unavailable.
    let env0 = CfiEnv { cfa_set: false, ..env };
    assert_eq!(eval_expr(&toks(&[".cfa"]), &env0, &mem), None);
}
