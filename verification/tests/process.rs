use breakpad::path_to_bytes;
use breakpad::CallStack;
use breakpad::CodeModule;
use breakpad::CodeModuleId;
use breakpad::Error;
use breakpad::FrameInfoMap;
use breakpad::FrameTrust;
use breakpad::ProcessResult;
use breakpad::ProcessState;
use breakpad::StackFrame;

const DEBUG_ID: &str = "DFB8E43AF2423D73A453AEB6A777EF750";

fn put_u16(v: &mut Vec<u8>, x: u16) {
    v.extend_from_slice(&x.to_le_bytes());
}

fn put_u32(v: &mut Vec<u8>, x: u32) {
    v.extend_from_slice(&x.to_le_bytes());
}

fn put_u64(v: &mut Vec<u8>, x: u64) {
    v.extend_from_slice(&x.to_le_bytes());
}

fn put_str(v: &mut Vec<u8>, s: &str) {
    put_u16(v, s.len() as u16);
    v.extend_from_slice(s.as_bytes());
}

fn header(module_count: u32, thread_count: u32) -> Vec<u8> {
    let mut v = Vec::new();
    v.extend_from_slice(b"MDMP");
    put_u32(&mut v, 1);
    put_u32(&mut v, module_count);
    put_u32(&mut v, thread_count);
    v
}

fn put_module(v: &mut Vec<u8>, base: u64, size: u64, debug_id: &str) {
    put_u64(v, base);
    put_u64(v, size);
    put_str(v, "/bin/crash_app");
    put_str(v, "code-id");
    put_str(v, "crash_app");
    put_str(v, debug_id);
}

fn put_thread(v: &mut Vec<u8>, tid: u32, requesting: bool, ip: u64, sp: u64, fp: u64, stack_base: u64, words: &[u64]) {
    put_u32(v, tid);
    v.push(if requesting { 1 } else { 0 });
    put_u64(v, ip);
    put_u64(v, sp);
    put_u64(v, fp);
    put_u64(v, stack_base);
    put_u32(v, (words.len() * 8) as u32);
    for w in words {
        put_u64(v, *w);
    }
    put_u16(v, 0);
}

fn module() -> CodeModule {
    CodeModule::new(
        0x1000,
        0x1000,
        String::from("/bin/crash_app"),
        String::from("code-id"),
        String::from("crash_app"),
        String::from(DEBUG_ID),
    )
    .unwrap()
}

fn process_error(r: Result<ProcessState, Error>) -> ProcessResult {
    match r {
        Err(Error::ProcessError(pr)) => pr,
        _ => panic!("expected a processing error"),
    }
}

#[test]
fn end_to_end_two_threads_with_cfi() {
    let mut dump = header(1, 2);
    put_module(&mut dump, 0x1000, 0x1000, DEBUG_ID);
    // Thread 1 unwinds through four CFI steps before hitting a zero
    // return address: five frames in all.
    put_thread(
        &mut dump,
        1,
        true,
        0x1100,
        0x7000,
        0,
        0x7000,
        &[0x1200, 0x1300, 0x1400, 0x1500, 0],
    );
    // Thread 2 stops after one step: two frames.
    put_thread(&mut dump, 2, false, 0x1180, 0x8000, 0, 0x8000, &[0x1250, 0]);

    let id = CodeModuleId::parse(DEBUG_ID).expect("Could not parse CodeModule ID");
    let mut symbols = FrameInfoMap::new();
    symbols.insert(
        id,
        b"MODULE mac x86_64 DFB8E43AF2423D73A453AEB6A777EF750 crash_app\n\
STACK CFI INIT 0 1000 .cfa: $rsp 8 + .ra: .cfa 8 - ^\n"
            .to_vec(),
    );

    let state = ProcessState::from_minidump_buffer(&dump, Some(&symbols))
        .expect("Could not process minidump");
    let threads = state.threads();
    assert_eq!(threads.len(), 2);
    assert_eq!(threads[0].thread_id(), 1);
    assert_eq!(threads[1].thread_id(), 2);
    assert_eq!(threads[0].frames().len(), 5);
    assert_eq!(threads[1].frames().len(), 2);
    for t in threads {
        assert!(matches!(t.frames()[0].trust(), FrameTrust::Context));
        for f in t.frames().iter().skip(1) {
            assert!(matches!(f.trust(), FrameTrust::CFI));
        }
    }
    assert_eq!(threads[0].frames()[4].instruction(), 0x1500);
    assert_eq!(threads[1].frames()[1].instruction(), 0x1250);
    let referenced = state.referenced_modules();
    assert_eq!(referenced.len(), 1);
    assert_eq!(referenced[0].debug_identifier(), DEBUG_ID);
}

#[test]
fn without_cfi_the_same_dump_scans() {
    let mut dump = header(1, 1);
    put_module(&mut dump, 0x1000, 0x1000, DEBUG_ID);
    put_thread(&mut dump, 7, false, 0x1100, 0x7000, 0, 0x7000, &[0x1200, 0]);
    let state = ProcessState::from_minidump_buffer(&dump, None).unwrap();
    let frames = state.threads()[0].frames();
    assert_eq!(frames.len(), 2);
    assert!(matches!(frames[1].trust(), FrameTrust::Scan));
}

#[test]
fn empty_stack_memory_gives_single_frame_per_thread() {
    let mut dump = header(0, 1);
    put_thread(&mut dump, 3, false, 0x1100, 0x7000, 0, 0x7000, &[]);
    let state = ProcessState::from_minidump_buffer(&dump, None).unwrap();
    assert_eq!(state.threads().len(), 1);
    let frames = state.threads()[0].frames();
    assert_eq!(frames.len(), 1);
    assert!(matches!(frames[0].trust(), FrameTrust::Context));
}

#[test]
fn short_buffer_has_no_header() {
    let r = ProcessState::from_minidump_buffer(b"MD", None);
    assert!(matches!(process_error(r), ProcessResult::NoMinidumpHeader));
}

#[test]
fn bad_magic_has_no_header() {
    let mut dump = header(0, 1);
    dump[0] = b'X';
    let r = ProcessState::from_minidump_buffer(&dump, None);
    assert!(matches!(process_error(r), ProcessResult::NoMinidumpHeader));
}

#[test]
fn zero_threads_reports_missing_thread_list() {
    let dump = header(0, 0);
    let r = ProcessState::from_minidump_buffer(&dump, None);
    assert!(matches!(process_error(r), ProcessResult::ErrorNoThreadList));
}

#[test]
fn truncated_thread_id_is_reported() {
    let mut dump = header(0, 1);
    dump.extend_from_slice(&[1, 2]);
    let r = ProcessState::from_minidump_buffer(&dump, None);
    assert!(matches!(process_error(r), ProcessResult::ErrorGettingThreadId));
}

#[test]
fn truncated_thread_body_is_reported() {
    let mut dump = header(0, 1);
    put_u32(&mut dump, 9);
    dump.push(0);
    put_u64(&mut dump, 0x1100);
    let r = ProcessState::from_minidump_buffer(&dump, None);
    assert!(matches!(process_error(r), ProcessResult::ErrorGettingThread));
}

#[test]
fn duplicate_requesting_threads_are_reported() {
    let mut dump = header(0, 2);
    put_thread(&mut dump, 1, true, 0x1100, 0x7000, 0, 0x7000, &[]);
    put_thread(&mut dump, 2, true, 0x1100, 0x7000, 0, 0x7000, &[]);
    let r = ProcessState::from_minidump_buffer(&dump, None);
    assert!(matches!(process_error(r), ProcessResult::DuplicateRequestingThreads));
}

#[test]
fn truncation_is_reported_before_duplicate_requesting_threads() {
    // Structural intactness of the whole thread list is checked before
    // the requesting flags: a truncated final thread wins over the two
    // requesting flags that precede it.
    let mut dump = header(0, 3);
    put_thread(&mut dump, 1, true, 0x1100, 0x7000, 0, 0x7000, &[]);
    put_thread(&mut dump, 2, true, 0x1100, 0x7000, 0, 0x7000, &[]);
    dump.extend_from_slice(&[9, 9]);
    let r = ProcessState::from_minidump_buffer(&dump, None);
    assert!(matches!(process_error(r), ProcessResult::ErrorGettingThreadId));
}

#[test]
fn module_with_bad_debug_identifier_is_skipped() {
    let mut dump = header(1, 1);
    put_module(&mut dump, 0x1000, 0x1000, "bogus!");
    put_thread(&mut dump, 1, false, 0x1100, 0x7000, 0, 0x7000, &[0x1200, 0]);
    let state = ProcessState::from_minidump_buffer(&dump, None).unwrap();
    // The address cannot be attributed, and the scanner finds no module
    // word, so the walk ends after the context frame.
    let frames = state.threads()[0].frames();
    assert_eq!(frames.len(), 1);
    assert!(frames[0].module().is_none());
    assert_eq!(state.referenced_modules().len(), 0);
}

#[test]
fn referenced_modules_collapse_by_identifier() {
    let m = module();
    let t1 = CallStack::new(
        1,
        vec![
            StackFrame::with_module(0x1100, FrameTrust::Context, m.clone()),
            StackFrame::with_module(0x1200, FrameTrust::CFI, m.clone()),
        ],
    );
    let t2 = CallStack::new(2, vec![StackFrame::with_module(0x1500, FrameTrust::Context, m)]);
    let state = ProcessState { threads: vec![t1, t2] };
    let referenced = state.referenced_modules();
    assert_eq!(referenced.len(), 1);
    assert_eq!(referenced[0].id(), CodeModuleId::parse(DEBUG_ID).unwrap());
}

#[test]
fn referenced_modules_keep_distinct_identifiers() {
    let m1 = module();
    let m2 = CodeModule::new(
        0x9000,
        0x1000,
        String::from("/bin/lib"),
        String::from("code-id-2"),
        String::from("lib"),
        String::from("DFB8E43AF2423D73A453AEB6A777EF751"),
    )
    .unwrap();
    let t1 = CallStack::new(
        1,
        vec![
            StackFrame::with_module(0x1100, FrameTrust::Context, m1),
            StackFrame::with_module(0x9100, FrameTrust::CFI, m2),
            StackFrame::new(0x55, FrameTrust::Scan),
        ],
    );
    let state = ProcessState { threads: vec![t1] };
    let referenced = state.referenced_modules();
    assert_eq!(referenced.len(), 2);
}

#[test]
fn frame_info_map_insert_get_replace() {
    let mut map = FrameInfoMap::new();
    assert_eq!(map.len(), 0);
    let a = CodeModuleId::new(5, 0);
    let b = CodeModuleId::new(1, 7);
    map.insert(a, vec![1, 2, 3]);
    map.insert(b, vec![4]);
    assert_eq!(map.len(), 2);
    assert_eq!(map.get(&a).unwrap().as_slice(), &[1, 2, 3]);
    assert_eq!(map.get(&b).unwrap().as_slice(), &[4]);
    assert!(map.get(&CodeModuleId::new(9, 9)).is_none());
    map.insert(a, vec![9, 9]);
    assert_eq!(map.len(), 2);
    assert_eq!(map.get(&a).unwrap().as_slice(), &[9, 9]);
    // Entries are kept sorted by identifier.
    assert_eq!(map.entries()[0].0, b);
    assert_eq!(map.entries()[1].0, a);
}

#[test]
fn path_to_bytes_views_utf8() {
    assert_eq!(path_to_bytes("/bin/app"), &b"/bin/app"[..]);
    assert_eq!(path_to_bytes(""), &b""[..]);
}

#[test]
fn process_result_descriptions_are_distinct() {
    let all = [
        ProcessResult::Success,
        ProcessResult::MinidumpNotFound,
        ProcessResult::NoMinidumpHeader,
        ProcessResult::ErrorNoThreadList,
        ProcessResult::ErrorGettingThread,
        ProcessResult::ErrorGettingThreadId,
        ProcessResult::DuplicateRequestingThreads,
        ProcessResult::SymbolSupplierInterrupted,
    ];
    for (i, x) in all.iter().enumerate() {
        for (j, y) in all.iter().enumerate() {
            if i != j {
                assert_ne!(x.describe(), y.describe());
            }
        }
    }
}

#[test]
fn error_messages_name_their_kind() {
    let e = Error::ProcessError(ProcessResult::NoMinidumpHeader);
    assert_eq!(e.message(), "Minidump file had no header");
    let r = Error::ResolverError(String::from("bad"));
    assert_eq!(r.message(), "Resolver Error: bad");
    let p = Error::ParseIdError(String::from("short"));
    assert_eq!(p.message(), "CodeModule ID Parse Error: short");
}
