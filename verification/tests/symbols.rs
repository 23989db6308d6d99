use breakpad::CodeModule;
use breakpad::Resolver;
use breakpad::StackFrame;
use breakpad::SymbolStore;
use breakpad::FrameTrust;

fn test_module() -> CodeModule {
    CodeModule::new(
        0x1000,
        0x1000,
        String::from("/bin/crash_app"),
        String::from("code-id"),
        String::from("crash_app"),
        String::from("DFB8E43AF2423D73A453AEB6A777EF750"),
    )
    .unwrap()
}

const SYMBOLS: &str = "MODULE mac x86_64 DFB8E43AF2423D73A453AEB6A777EF750 crash_app\n\
FILE 0 /src/main.c\n\
FILE 1 /src/lib.c\n\
FUNC 100 40 0 my_func\n\
100 20 7 0\n\
120 20 8 1\n\
FUNC 200 10 0 tiny with spaces\n\
PUBLIC 80 0 pub_sym\n\
PUBLIC 300 0 late_sym\n";

#[test]
fn store_without_module_line_is_corrupt() {
    let store = SymbolStore::from_buffer(b"FUNC 100 40 0 my_func\n");
    assert!(store.corrupt());
    let fixed = SymbolStore::from_buffer(
        b"MODULE mac x86_64 DFB8E43AF2423D73A453AEB6A777EF750 a\nFUNC 100 40 0 my_func\n",
    );
    assert!(!fixed.corrupt());
}

#[test]
fn store_skips_malformed_lines() {
    let store = SymbolStore::from_buffer(
        b"MODULE mac x86_64 DFB8E43AF2423D73A453AEB6A777EF750 a\n\
FUNC zz 40 0 bad_address\n\
FUNC 100 40 0 good\n\
garbage line here\n\
PUBLIC nothex 0 bad\n",
    );
    assert!(!store.corrupt());
    assert_eq!(store.funcs.len(), 1);
    assert_eq!(store.funcs[0].name, "good");
    assert_eq!(store.publics.len(), 0);
}

#[test]
fn store_records_the_module_identifier() {
    let store = SymbolStore::from_buffer(SYMBOLS.as_bytes());
    assert_eq!(store.module_id.as_deref(), Some("DFB8E43AF2423D73A453AEB6A777EF750"));
    let bare = SymbolStore::from_buffer(b"FUNC 100 40 0 f\n");
    assert!(store.module_id.is_some());
    assert!(bare.module_id.is_none());
}

#[test]
fn store_indexes_records_sorted() {
    let store = SymbolStore::from_buffer(
        b"MODULE mac x86_64 DFB8E43AF2423D73A453AEB6A777EF750 a\n\
FUNC 300 10 0 late\n\
FUNC 100 10 0 early\n\
FUNC 200 10 0 middle\n",
    );
    assert_eq!(store.funcs.len(), 3);
    assert_eq!(store.funcs[0].address, 0x100);
    assert_eq!(store.funcs[1].address, 0x200);
    assert_eq!(store.funcs[2].address, 0x300);
}

#[test]
fn find_function_picks_lowest_containing_start() {
    let store = SymbolStore::from_buffer(
        b"MODULE mac x86_64 DFB8E43AF2423D73A453AEB6A777EF750 a\n\
FUNC 100 100 0 outer\n\
FUNC 120 10 0 inner\n",
    );
    let f = store.find_function(0x125).unwrap();
    assert_eq!(f.name, "outer");
    let g = store.find_function(0x1FF).unwrap();
    assert_eq!(g.name, "outer");
    assert!(store.find_function(0x200).is_none());
    assert!(store.find_function(0xFF).is_none());
}

#[test]
fn func_lines_attach_to_preceding_func() {
    let store = SymbolStore::from_buffer(SYMBOLS.as_bytes());
    let f = store.find_function(0x110).unwrap();
    assert_eq!(f.name, "my_func");
    assert_eq!(f.lines.len(), 2);
    let l = f.find_line(0x110).unwrap();
    assert_eq!(l.line, 7);
    assert_eq!(l.file_index, 0);
    let l2 = f.find_line(0x130).unwrap();
    assert_eq!(l2.line, 8);
    assert_eq!(l2.file_index, 1);
    assert!(f.find_line(0x140).is_none());
}

#[test]
fn func_name_keeps_interior_spaces() {
    let store = SymbolStore::from_buffer(SYMBOLS.as_bytes());
    let f = store.find_function(0x205).unwrap();
    assert_eq!(f.name, "tiny with spaces");
}

#[test]
fn find_file_maps_indices() {
    let store = SymbolStore::from_buffer(SYMBOLS.as_bytes());
    assert_eq!(store.find_file(0).unwrap().path, "/src/main.c");
    assert_eq!(store.find_file(1).unwrap().path, "/src/lib.c");
    assert!(store.find_file(7).is_none());
}

#[test]
fn find_public_takes_last_at_or_below() {
    let store = SymbolStore::from_buffer(SYMBOLS.as_bytes());
    assert_eq!(store.find_public(0x90).unwrap().name, "pub_sym");
    assert_eq!(store.find_public(0x400).unwrap().name, "late_sym");
    assert!(store.find_public(0x7F).is_none());
}

#[test]
fn cfi_effective_text_applies_deltas_in_order() {
    let store = SymbolStore::from_buffer(
        b"MODULE mac x86_64 DFB8E43AF2423D73A453AEB6A777EF750 a\n\
STACK CFI INIT 0 100 .cfa: $rsp 8 +\n\
STACK CFI 10 .cfa: $rsp 16 +\n\
STACK CFI 20 .cfa: $rsp 24 +\n",
    );
    assert_eq!(store.cfi.len(), 1);
    assert_eq!(store.cfi[0].deltas.len(), 2);
    assert_eq!(store.find_cfi(0x5).unwrap(), ".cfa: $rsp 8 +");
    assert_eq!(store.find_cfi(0x15).unwrap(), ".cfa: $rsp 8 + .cfa: $rsp 16 +");
    assert_eq!(
        store.find_cfi(0x25).unwrap(),
        ".cfa: $rsp 8 + .cfa: $rsp 16 + .cfa: $rsp 24 +"
    );
    assert!(store.find_cfi(0x100).is_none());
}

#[test]
fn cfi_delta_outside_window_is_dropped() {
    let store = SymbolStore::from_buffer(
        b"MODULE mac x86_64 DFB8E43AF2423D73A453AEB6A777EF750 a\n\
STACK CFI INIT 100 10 .cfa: $rsp 8 +\n\
STACK CFI 200 .cfa: $rsp 16 +\n",
    );
    assert_eq!(store.cfi[0].deltas.len(), 0);
}

#[test]
fn stack_win_records_are_kept() {
    let store = SymbolStore::from_buffer(
        b"MODULE mac x86_64 DFB8E43AF2423D73A453AEB6A777EF750 a\n\
STACK WIN 4 100 20 some win data here\n",
    );
    assert_eq!(store.win.len(), 1);
    assert_eq!(store.win[0].wtype, 4);
    assert_eq!(store.win[0].address, 0x100);
    assert_eq!(store.win[0].size, 0x20);
    assert_eq!(store.win[0].info, "some win data here");
}

#[test]
fn create_resolver_from_buffer() {
    let resolver = Resolver::from_buffer(SYMBOLS.as_bytes()).expect("Could not load symbols");
    assert!(!resolver.corrupt());
}

#[test]
fn resolver_from_empty_buffer_fails() {
    assert!(Resolver::from_buffer(b"").is_err());
}

#[test]
fn create_corrupt_resolver() {
    let resolver =
        Resolver::from_buffer(b"complete garbage, nothing like symbols\n").expect(
            "Could not load symbols",
        );
    assert!(resolver.corrupt());
}

#[test]
fn corrupt_resolver_resolves_to_empty_fields() {
    let resolver = Resolver::from_buffer(&[0x01, 0xFF, 0x02, 0x0A, 0x7F]).unwrap();
    assert!(resolver.corrupt());
    let m = test_module();
    let frame = StackFrame::with_module(0x1110, FrameTrust::Context, m);
    let resolved = resolver.resolve_frame(&frame);
    assert_eq!(resolved.instruction(), 0x1110);
    assert_eq!(resolved.function_name(), "");
    assert_eq!(resolved.source_file_name(), "");
    assert_eq!(resolved.source_line(), 0);
}

#[test]
fn corrupt_resolver_never_matches_its_records() {
    // Without a MODULE line the store is corrupt; its records are indexed
    // but resolution must never match against them.
    let resolver = Resolver::from_buffer(b"FUNC 100 40 0 my_func\n").unwrap();
    assert!(resolver.corrupt());
    let frame = StackFrame::with_module(0x1110, FrameTrust::Context, test_module());
    let resolved = resolver.resolve_frame(&frame);
    assert_eq!(resolved.instruction(), 0x1110);
    assert_eq!(resolved.function_name(), "");
    assert_eq!(resolved.source_file_name(), "");
    assert_eq!(resolved.source_line(), 0);
}

#[test]
fn resolve_frame_inside_func_range() {
    let resolver = Resolver::from_buffer(SYMBOLS.as_bytes()).unwrap();
    let m = test_module();
    let frame = StackFrame::with_module(0x1110, FrameTrust::Context, m);
    let resolved = resolver.resolve_frame(&frame);
    assert_eq!(resolved.instruction(), 0x1110);
    assert_eq!(resolved.function_name(), "my_func");
    assert_eq!(resolved.source_file_name(), "/src/main.c");
    assert_eq!(resolved.source_line(), 7);
    assert!(matches!(resolved.trust(), FrameTrust::Context));

    let frame2 = StackFrame::with_module(0x1130, FrameTrust::Context, test_module());
    let resolved2 = resolver.resolve_frame(&frame2);
    assert_eq!(resolved2.function_name(), "my_func");
    assert_eq!(resolved2.source_file_name(), "/src/lib.c");
    assert_eq!(resolved2.source_line(), 8);
}

#[test]
fn resolve_frame_outside_ranges_is_empty() {
    let resolver = Resolver::from_buffer(SYMBOLS.as_bytes()).unwrap();
    let frame = StackFrame::with_module(0x1010, FrameTrust::Context, test_module());
    let resolved = resolver.resolve_frame(&frame);
    assert_eq!(resolved.instruction(), 0x1010);
    assert_eq!(resolved.function_name(), "");
    assert_eq!(resolved.source_file_name(), "");
    assert_eq!(resolved.source_line(), 0);
}

#[test]
fn resolve_frame_falls_back_to_public() {
    let resolver = Resolver::from_buffer(SYMBOLS.as_bytes()).unwrap();
    let frame = StackFrame::with_module(0x1090, FrameTrust::Context, test_module());
    let resolved = resolver.resolve_frame(&frame);
    assert_eq!(resolved.function_name(), "pub_sym");
    assert_eq!(resolved.source_file_name(), "");
    assert_eq!(resolved.source_line(), 0);
}

#[test]
fn resolve_frame_without_module_is_empty() {
    let resolver = Resolver::from_buffer(SYMBOLS.as_bytes()).unwrap();
    let frame = StackFrame::new(0x1110, FrameTrust::Scan);
    let resolved = resolver.resolve_frame(&frame);
    assert_eq!(resolved.function_name(), "");
    assert_eq!(resolved.instruction(), 0x1110);
}

#[test]
fn func_without_line_data_leaves_file_empty() {
    let resolver = Resolver::from_buffer(SYMBOLS.as_bytes()).unwrap();
    let frame = StackFrame::with_module(0x1205, FrameTrust::Context, test_module());
    let resolved = resolver.resolve_frame(&frame);
    assert_eq!(resolved.function_name(), "tiny with spaces");
    assert_eq!(resolved.source_file_name(), "");
    assert_eq!(resolved.source_line(), 0);
}
