use wasmos::wasm::engine::{instantiate, prepare_module, start_call, task_outcome, RunError, TaskResult};
use wasmos::wasm::interp::{Exit, InterpError, Interpreter};
use wasmos::wasm::scan::{scan_block_end, NO_ELSE};

fn leb(mut v: u32, out: &mut Vec<u8>) {
    loop {
        let b = (v & 0x7F) as u8;
        v >>= 7;
        if v == 0 {
            out.push(b);
            return;
        }
        out.push(b | 0x80);
    }
}

fn sleb(mut v: i64, out: &mut Vec<u8>) {
    loop {
        let b = (v & 0x7F) as u8;
        v >>= 7;
        let done = (v == 0 && b & 0x40 == 0) || (v == -1 && b & 0x40 != 0);
        if done {
            out.push(b);
            return;
        }
        out.push(b | 0x80);
    }
}

fn section(id: u8, content: &[u8], out: &mut Vec<u8>) {
    out.push(id);
    leb(content.len() as u32, out);
    out.extend_from_slice(content);
}

/// A module whose functions all have type (i32 x params) -> (i32 x results);
/// with `import`, function 0 is the import "env" "h"; the first defined
/// function is exported as "f".
struct Spec<'a> {
    params: u8,
    results: u8,
    funcs: &'a [(&'a [u8], u8)],
    memory: bool,
    import: bool,
    globals: &'a [(bool, i64)],
}

fn build(s: &Spec) -> Vec<u8> {
    let mut out = vec![0x00, 0x61, 0x73, 0x6D, 0x01, 0x00, 0x00, 0x00];
    let mut t = vec![1, 0x60, s.params];
    t.extend(std::iter::repeat(0x7Fu8).take(s.params as usize));
    t.push(s.results);
    t.extend(std::iter::repeat(0x7Fu8).take(s.results as usize));
    section(1, &t, &mut out);
    if s.import {
        section(2, &[1, 3, b'e', b'n', b'v', 1, b'h', 0, 0], &mut out);
    }
    let mut f = Vec::new();
    leb(s.funcs.len() as u32, &mut f);
    for _ in s.funcs {
        f.push(0);
    }
    section(3, &f, &mut out);
    if s.memory {
        section(5, &[1, 0, 1], &mut out);
    }
    if !s.globals.is_empty() {
        let mut g = Vec::new();
        leb(s.globals.len() as u32, &mut g);
        for &(m, v) in s.globals {
            g.push(0x7E);
            g.push(if m { 1 } else { 0 });
            g.push(0x42);
            sleb(v, &mut g);
            g.push(0x0B);
        }
        section(6, &g, &mut out);
    }
    let first = if s.import { 1 } else { 0 };
    section(7, &[1, 1, b'f', 0, first], &mut out);
    let mut c = Vec::new();
    leb(s.funcs.len() as u32, &mut c);
    for &(body, locals) in s.funcs {
        let mut e = Vec::new();
        if locals > 0 {
            e.extend_from_slice(&[1, locals, 0x7F]);
        } else {
            e.push(0);
        }
        e.extend_from_slice(body);
        leb(e.len() as u32, &mut c);
        c.extend_from_slice(&e);
    }
    section(10, &c, &mut out);
    out
}

fn simple<'a>(params: u8, results: u8, funcs: &'a [(&'a [u8], u8)]) -> Spec<'a> {
    Spec { params, results, funcs, memory: false, import: false, globals: &[] }
}

/// Run "f" with `args` to the end (or a host call, trap, or pause).
fn run_with(bytes: &[u8], args: &[i32], fuel: u64) -> (Result<Exit, RunError>, Option<i64>) {
    let (m, pages, imports) = prepare_module(bytes).unwrap();
    let mem = vec![0u8; 4 * 65536];
    let mut it = instantiate(&m, imports, mem, pages).unwrap();
    let r = start_call(&mut it, &m, "f", args, fuel);
    let top = it.top();
    (r, top)
}

fn run(bytes: &[u8], args: &[i32]) -> Result<Option<i64>, RunError> {
    match run_with(bytes, args, 1_000_000) {
        (Ok(Exit::Done), top) => Ok(top),
        (Ok(other), _) => panic!("unexpected exit {:?}", other),
        (Err(e), _) => Err(e),
    }
}

#[test]
fn adds_its_two_arguments() {
    let body: &[u8] = &[0x20, 0, 0x20, 1, 0x6A, 0x0B];
    let bytes = build(&simple(2, 1, &[(body, 0)]));
    assert_eq!(run(&bytes, &[2, 3]), Ok(Some(5)));
    assert_eq!(run(&bytes, &[i32::MAX, 1]), Ok(Some(i32::MIN as i64)));
}

#[test]
fn integer_operations_give_their_wasm_results() {
    // (a op b) for several binary ops, one function each
    let cases: &[(u8, i32, i32, i64)] = &[
        (0x6B, 3, 5, -2),
        (0x6C, 7, -6, -42),
        (0x6D, -7, 2, -3),
        (0x6E, -8, 2, 0x7FFF_FFFC),
        (0x6F, -7, 2, -1),
        (0x70, 7, 4, 3),
        (0x71, 0b1100, 0b1010, 0b1000),
        (0x72, 0b1100, 0b1010, 0b1110),
        (0x73, 0b1100, 0b1010, 0b0110),
        (0x74, 1, 33, 2),
        (0x75, -16, 2, -4),
        (0x76, -16, 28, 15),
        (0x77, 0x4000_0001, 2, 5),
        (0x78, 1, 1, i32::MIN as i64),
        (0x48, -1, 0, 1),
        (0x49, -1, 0, 0),
        (0x4E, 5, 5, 1),
    ];
    for &(op, a, b, want) in cases {
        let body = [0x20, 0, 0x20, 1, op, 0x0B];
        let bytes = build(&simple(2, 1, &[(&body, 0)]));
        assert_eq!(run(&bytes, &[a, b]), Ok(Some(want)), "op {:#x}", op);
    }
}

#[test]
fn signed_division_of_min_by_minus_one_wraps_for_i32() {
    let body: &[u8] = &[0x20, 0, 0x20, 1, 0x6D, 0x0B];
    let bytes = build(&simple(2, 1, &[(body, 0)]));
    assert_eq!(run(&bytes, &[i32::MIN, -1]), Ok(Some(i32::MIN as i64)));
    let rem: &[u8] = &[0x20, 0, 0x20, 1, 0x6F, 0x0B];
    let bytes = build(&simple(2, 1, &[(rem, 0)]));
    assert_eq!(run(&bytes, &[i32::MIN, -1]), Ok(Some(0)));
}

#[test]
fn division_by_zero_traps() {
    let body: &[u8] = &[0x20, 0, 0x20, 1, 0x6D, 0x0B];
    let bytes = build(&simple(2, 1, &[(body, 0)]));
    assert_eq!(run(&bytes, &[1, 0]), Err(RunError::Interp(InterpError::DivisionByZero)));
    // i64.div_s of MIN by -1 is reported as a division error
    let body64: &[u8] = &[0x42, 0x80, 0x80, 0x80, 0x80, 0x80, 0x80, 0x80, 0x80, 0x80, 0x7F, 0x42, 0x7F, 0x7F, 0xA7, 0x0B];
    let bytes = build(&simple(0, 1, &[(body64, 0)]));
    assert_eq!(run(&bytes, &[]), Err(RunError::Interp(InterpError::DivisionByZero)));
}

#[test]
fn bit_counting_and_conversions() {
    let cases: &[(&[u8], i64)] = &[
        (&[0x41, 0x10, 0x67, 0x0B], 27),
        (&[0x41, 0x10, 0x68, 0x0B], 4),
        (&[0x41, 0x7F, 0x69, 0x0B], 32),
        (&[0x42, 0x01, 0x79, 0xA7, 0x0B], 63),
        (&[0x42, 0x7F, 0x7B, 0xA7, 0x0B], 64),
        (&[0x41, 0x80, 0x01, 0xC0, 0x0B], -128),
        (&[0x41, 0x00, 0x45, 0x0B], 1),
    ];
    for &(body, want) in cases {
        let bytes = build(&simple(0, 1, &[(body, 0)]));
        assert_eq!(run(&bytes, &[]), Ok(Some(want)), "body {:x?}", body);
    }
}

#[test]
fn factorial_by_loop_and_branch() {
    // acc = 1; loop { if n == 0 break; acc *= n; n -= 1; br 0 }
    let body: &[u8] = &[
        0x41, 1, 0x21, 1, // acc = 1
        0x02, 0x40, // block
        0x03, 0x40, // loop
        0x20, 0, 0x45, 0x0D, 1, // br_if 1 when n == 0
        0x20, 1, 0x20, 0, 0x6C, 0x21, 1, // acc *= n
        0x20, 0, 0x41, 1, 0x6B, 0x21, 0, // n -= 1
        0x0C, 0, // br 0
        0x0B, 0x0B, // end loop, end block
        0x20, 1, 0x0B,
    ];
    let bytes = build(&simple(1, 1, &[(body, 1)]));
    assert_eq!(run(&bytes, &[5]), Ok(Some(120)));
    assert_eq!(run(&bytes, &[0]), Ok(Some(1)));
}

#[test]
fn if_else_picks_a_branch() {
    let body: &[u8] = &[0x20, 0, 0x04, 0x7F, 0x41, 10, 0x05, 0x41, 20, 0x0B, 0x0B];
    let bytes = build(&simple(1, 1, &[(body, 0)]));
    assert_eq!(run(&bytes, &[1]), Ok(Some(10)));
    assert_eq!(run(&bytes, &[0]), Ok(Some(20)));
}

#[test]
fn br_table_picks_a_label_or_the_default() {
    // block block block (br_table 0 1 2 (local 0)) end: 30 return end: 20 return end: 10
    let body: &[u8] = &[
        0x02, 0x40, 0x02, 0x40, 0x02, 0x40, 0x20, 0, 0x0E, 2, 0, 1, 2, 0x0B, 0x41, 30, 0x0F, 0x0B, 0x41, 20, 0x0F,
        0x0B, 0x41, 10, 0x0B,
    ];
    let bytes = build(&simple(1, 1, &[(body, 0)]));
    assert_eq!(run(&bytes, &[0]), Ok(Some(30)));
    assert_eq!(run(&bytes, &[1]), Ok(Some(20)));
    assert_eq!(run(&bytes, &[2]), Ok(Some(10)));
    assert_eq!(run(&bytes, &[99]), Ok(Some(10)));
}

#[test]
fn select_and_drop() {
    let body: &[u8] = &[0x41, 7, 0x41, 8, 0x20, 0, 0x1B, 0x41, 99, 0x1A, 0x0B];
    let bytes = build(&simple(1, 1, &[(body, 0)]));
    assert_eq!(run(&bytes, &[1]), Ok(Some(7)));
    assert_eq!(run(&bytes, &[0]), Ok(Some(8)));
}

#[test]
fn calls_pass_arguments_and_results() {
    // f(x) = g(x) + 1, g(y) = y * 2
    let f: &[u8] = &[0x20, 0, 0x10, 1, 0x41, 1, 0x6A, 0x0B];
    let g: &[u8] = &[0x20, 0, 0x41, 2, 0x6C, 0x0B];
    let bytes = build(&simple(1, 1, &[(f, 0), (g, 0)]));
    assert_eq!(run(&bytes, &[20]), Ok(Some(41)));
}

#[test]
fn memory_stores_and_loads_little_endian() {
    // store 0x11223344 at 8, then load the byte at 9 (0x33) and the
    // sign-extended byte of 0xF0 stored at 0
    let body: &[u8] = &[
        0x41, 8, 0x41, 0xC4, 0xE6, 0x88, 0x89, 0x01, 0x36, 2, 0, // i32.store
        0x41, 0, 0x41, 0xF0, 0x01, 0x3A, 0, 0, // i32.store8 0xF0 at 0
        0x41, 9, 0x2D, 0, 0, // i32.load8_u at 9
        0x41, 0, 0x2C, 0, 0, // i32.load8_s at 0
        0x6A, 0x0B,
    ];
    let s = Spec { params: 0, results: 1, funcs: &[(body, 0)], memory: true, import: false, globals: &[] };
    let bytes = build(&s);
    assert_eq!(run(&bytes, &[]), Ok(Some(0x33 - 16)));
}

#[test]
fn loads_past_active_memory_trap() {
    let body: &[u8] = &[0x41, 0xFE, 0xFF, 0x03, 0x28, 2, 0, 0x0B];
    let s = Spec { params: 0, results: 1, funcs: &[(body, 0)], memory: true, import: false, globals: &[] };
    let bytes = build(&s);
    assert_eq!(run(&bytes, &[]), Err(RunError::Interp(InterpError::MemOutOfBounds)));
}

#[test]
fn memory_grow_gives_the_old_size_or_minus_one() {
    let body: &[u8] = &[0x41, 2, 0x40, 0, 0x3F, 0, 0x6A, 0x0B];
    let s = Spec { params: 0, results: 1, funcs: &[(body, 0)], memory: true, import: false, globals: &[] };
    let bytes = build(&s);
    // old size 1, new size 3
    assert_eq!(run(&bytes, &[]), Ok(Some(4)));
    let too_much: &[u8] = &[0x41, 10, 0x40, 0, 0x0B];
    let s = Spec { params: 0, results: 1, funcs: &[(too_much, 0)], memory: true, import: false, globals: &[] };
    let bytes = build(&s);
    assert_eq!(run(&bytes, &[]), Ok(Some(-1)));
}

#[test]
fn globals_read_write_and_refuse_writes_to_constants() {
    let body: &[u8] = &[0x23, 0, 0x42, 5, 0x7C, 0x24, 0, 0x23, 0, 0xA7, 0x0B];
    let s = Spec { params: 0, results: 1, funcs: &[(body, 0)], memory: false, import: false, globals: &[(true, 37)] };
    let bytes = build(&s);
    assert_eq!(run(&bytes, &[]), Ok(Some(42)));
    let s = Spec { params: 0, results: 1, funcs: &[(body, 0)], memory: false, import: false, globals: &[(false, 37)] };
    let bytes = build(&s);
    assert_eq!(run(&bytes, &[]), Err(RunError::Interp(InterpError::GlobalImmutable)));
}

#[test]
fn unreachable_and_unknown_opcodes_trap() {
    let bytes = build(&simple(0, 0, &[(&[0x00, 0x0B], 0)]));
    assert_eq!(run(&bytes, &[]), Err(RunError::Interp(InterpError::Unreachable)));
    let bytes = build(&simple(0, 0, &[(&[0xD0, 0x0B], 0)]));
    assert_eq!(run(&bytes, &[]), Err(RunError::Interp(InterpError::UnknownOpcode(0xD0))));
}

#[test]
fn an_endless_loop_pauses_when_the_budget_is_spent() {
    let body: &[u8] = &[0x03, 0x40, 0x0C, 0, 0x0B, 0x0B];
    let bytes = build(&simple(0, 0, &[(body, 0)]));
    let (r, _) = run_with(&bytes, &[], 1000);
    assert_eq!(r, Ok(Exit::Paused));
}

#[test]
fn an_import_call_goes_to_the_host_and_execution_resumes() {
    // f(x) = h(x) + 1, where the host doubles its argument
    let body: &[u8] = &[0x20, 0, 0x10, 0, 0x41, 1, 0x6A, 0x0B];
    let s = Spec { params: 1, results: 1, funcs: &[(body, 0)], memory: false, import: true, globals: &[] };
    let bytes = build(&s);
    let (m, pages, imports) = prepare_module(&bytes).unwrap();
    assert_eq!(imports, 1);
    let mut it: Interpreter = instantiate(&m, imports, vec![0u8; 65536], pages).unwrap();
    let r = start_call(&mut it, &m, "f", &[21], 1000);
    assert_eq!(r, Ok(Exit::Host(0)));
    let a = it.v_pop().unwrap();
    it.push_value(a * 2).unwrap();
    assert_eq!(it.resume(1000), Ok(Exit::Done));
    assert_eq!(it.top(), Some(43));
    assert_eq!(task_outcome(Ok(()), it.top()), Ok(TaskResult::Completed(Some(43))));
}

#[test]
fn a_requested_yield_stops_the_call_until_resumed() {
    let body: &[u8] = &[0x20, 0, 0x10, 0, 0x0B];
    let s = Spec { params: 1, results: 1, funcs: &[(body, 0)], memory: false, import: true, globals: &[] };
    let bytes = build(&s);
    let (m, pages, imports) = prepare_module(&bytes).unwrap();
    let mut it = instantiate(&m, imports, vec![0u8; 65536], pages).unwrap();
    assert_eq!(start_call(&mut it, &m, "f", &[3], 1000), Ok(Exit::Host(0)));
    it.request_yield();
    assert_eq!(it.resume(1000), Err(InterpError::Yielded));
    assert_eq!(it.resume(1000), Ok(Exit::Done));
    assert_eq!(it.top(), Some(3));
}

#[test]
fn a_missing_export_or_too_many_arguments_are_refused() {
    let bytes = build(&simple(0, 0, &[(&[0x0B], 0)]));
    let (m, pages, imports) = prepare_module(&bytes).unwrap();
    let mut it = instantiate(&m, imports, vec![0u8; 65536], pages).unwrap();
    assert_eq!(start_call(&mut it, &m, "nope", &[], 10), Err(RunError::EntryNotFound));
    let many = vec![0i32; 300];
    assert_eq!(start_call(&mut it, &m, "f", &many, 10), Err(RunError::Interp(InterpError::StackOverflow)));
}

#[test]
fn a_module_without_code_cannot_be_instantiated() {
    let bytes = vec![0x00, 0x61, 0x73, 0x6D, 0x01, 0x00, 0x00, 0x00];
    let (m, pages, imports) = prepare_module(&bytes).unwrap();
    assert!(matches!(instantiate(&m, imports, vec![0u8; 65536], pages), Err(RunError::Interp(InterpError::NoCodeSection))));
}

#[test]
fn data_segments_are_laid_into_memory() {
    let mut bytes = build(&Spec {
        params: 0,
        results: 1,
        funcs: &[(&[0x41, 4, 0x28, 2, 0, 0x0B], 0)],
        memory: true,
        import: false,
        globals: &[],
    });
    section(11, &[1, 0, 0x41, 4, 0x0B, 4, 1, 2, 3, 4], &mut bytes);
    assert_eq!(run(&bytes, &[]), Ok(Some(0x04030201)));
}

#[test]
fn scan_finds_end_and_else_past_immediates() {
    // if .. (i32.const 0x0B) else .. end: the 0x0B immediate is skipped
    let body: &[u8] = &[0x41, 0x0B, 0x1A, 0x05, 0x01, 0x0B];
    assert_eq!(scan_block_end(body, 0), Some((5, 3)));
    let nested: &[u8] = &[0x02, 0x40, 0x0B, 0x0B];
    assert_eq!(scan_block_end(nested, 0), Some((3, NO_ELSE)));
    assert_eq!(scan_block_end(&[0x41], 0), None);
}
