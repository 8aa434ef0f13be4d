//! The engine's own logic: run errors and task outcomes, counting the
//! function imports of a module, and laying its data segments into linear
//! memory.
use vstd::prelude::*;
use crate::leb128::{read_i32_leb128, read_u32_leb128, sleb32_decode, uleb32_decode};
use crate::wasm::interp::{InterpError, interp_error_text};
use crate::wasm::loader::{LoadError, load_error_text, skip_import_desc, skip_leb, skip_limits_at, Module, Sections, load, load_spec, memory_min_pages, read_memory_min_pages, opt_bytes, find_export, export_index};
use crate::wasm::interp::{Interpreter, Exit, PAGE_SIZE, STACK_DEPTH, setup_error};
use vstd::string::StringSliceAdditionalSpecFns;

verus! {

/// Maximum WASM pages (64 KiB each) any module may request.
pub const MAX_MEM_PAGES: u32 = 32;

/// Maximum simultaneously live instances.
pub const MAX_INSTANCES: usize = 4;

/// Maximum number of host functions that can be registered.
pub const MAX_HOST_FUNCS: usize = 48;

/// Errors of spawning and running modules.
#[derive(Clone, Copy, PartialEq, Eq, Debug, Structural)]
pub enum RunError {
    /// The WASM binary could not be parsed.
    Load(LoadError),
    /// A runtime trap occurred during execution.
    Interp(InterpError),
    /// The named export was not found in the module.
    EntryNotFound,
    /// The module requests more linear memory than `MAX_MEM_PAGES` pages.
    MemoryTooLarge,
    /// All `MAX_INSTANCES` pool slots are occupied.
    PoolFull,
    /// The module imports a function that is not in the host registry.
    ImportNotFound,
}

/// The description `RunError::as_str` gives.
pub open spec fn run_error_text(e: RunError) -> &'static str {
    match e {
        RunError::Load(l) => load_error_text(l),
        RunError::Interp(i) => interp_error_text(i),
        RunError::EntryNotFound => "entry point not found in exports",
        RunError::MemoryTooLarge => "module requests more memory than the kernel allows",
        RunError::PoolFull => "instance pool is full",
        RunError::ImportNotFound => "module imports an unregistered host function",
    }
}

impl RunError {
    /// A human-readable description of the error.
    pub fn as_str(&self) -> (s: &'static str)
        ensures
            s == run_error_text(*self),
    {
        match self {
            RunError::Load(e) => e.as_str(),
            RunError::Interp(e) => e.as_str(),
            RunError::EntryNotFound => "entry point not found in exports",
            RunError::MemoryTooLarge => "module requests more memory than the kernel allows",
            RunError::PoolFull => "instance pool is full",
            RunError::ImportNotFound => "module imports an unregistered host function",
        }
    }
}

/// Outcome of one execution step of a task.
#[derive(Clone, Copy, PartialEq, Eq, Debug, Structural)]
pub enum TaskResult {
    /// The entry function returned; the top of the value stack, if any.
    Completed(Option<i64>),
    /// The module yielded (or went to sleep) and can be resumed.
    Yielded,
}

/// The result of a step of a task, from how the interpreter's run ended
/// and the top of its value stack: a return completes with that value, a
/// yield yields, an exit completes with no value, any other error is a trap.
pub fn task_outcome(r: Result<(), InterpError>, top: Option<i64>) -> (o: Result<TaskResult, RunError>)
    ensures
        o == match r {
            Ok(()) => Ok::<TaskResult, RunError>(TaskResult::Completed(top)),
            Err(InterpError::Yielded) => Ok(TaskResult::Yielded),
            Err(InterpError::Exited) => Ok(TaskResult::Completed(None)),
            Err(e) => Err(RunError::Interp(e)),
        },
{
    match r {
        Ok(()) => Ok(TaskResult::Completed(top)),
        Err(InterpError::Yielded) => Ok(TaskResult::Yielded),
        Err(InterpError::Exited) => Ok(TaskResult::Completed(None)),
        Err(e) => Err(RunError::Interp(e)),
    }
}

/// The sleep a module asked for with its last `sleep_ms`, until the
/// scheduler takes it.
pub struct SleepChannel {
    pending: u32,
}

impl SleepChannel {
    /// No sleep pending.
    pub fn new() -> (c: Self)
        ensures
            c.pending() == 0,
    {
        SleepChannel { pending: 0 }
    }

    /// The pending sleep in milliseconds.
    pub closed spec fn pending(&self) -> u32 {
        self.pending
    }

    /// Record a sleep request.
    pub fn request_sleep_ms(&mut self, ms: u32)
        ensures
            final(self).pending() == ms,
    {
        self.pending = ms;
    }

    /// Take the pending sleep (0 for a plain yield), leaving none.
    pub fn take_pending_sleep_ms(&mut self) -> (ms: u32)
        ensures
            ms == old(self).pending(),
            final(self).pending() == 0,
    {
        let ms = self.pending;
        self.pending = 0;
        ms
    }
}

/// Longest argument string kept, in bytes.
pub const ARGS_CAP: usize = 128;

/// The argument string of the module about to run.
pub struct ArgsBuf {
    buf: Vec<u8>,
}

impl ArgsBuf {
    /// No arguments.
    pub fn new() -> (a: Self)
        ensures
            a.args() == Seq::<u8>::empty(),
    {
        ArgsBuf { buf: Vec::new() }
    }

    /// The stored argument bytes.
    pub closed spec fn args(&self) -> Seq<u8> {
        self.buf@
    }

    /// Store `args` (its first 128 bytes) for the next module to read.
    pub fn set_args(&mut self, args: &[u8])
        ensures
            final(self).args() == args@.take(if args@.len() <= ARGS_CAP { args@.len() as int } else { ARGS_CAP as int }),
    {
        let len = if args.len() <= ARGS_CAP { args.len() } else { ARGS_CAP };
        let mut v: Vec<u8> = Vec::new();
        let mut i: usize = 0;
        while i < len
            invariant
                i <= len,
                len <= args@.len(),
                v@ == args@.take(i as int),
            decreases len - i,
        {
            v.push(args[i]);
            assert(v@ =~= args@.take(i + 1));
            i = i + 1;
        }
        self.buf = v;
    }

    /// The stored argument bytes.
    pub fn get(&self) -> (r: &[u8])
        ensures
            r@ == self.args(),
    {
        self.buf.as_slice()
    }
}

/// The import entry at `cur`: where it ends and whether it imports a
/// function; `None` when it is malformed, of an unknown kind, or runs past
/// the end of the section.
pub open spec fn import_entry(b: Seq<u8>, cur: int) -> Option<(int, bool)> {
    if cur < 0 || cur > b.len() {
        None
    } else {
        match uleb32_decode(b.skip(cur)) {
            None => None,
            Some((ml, n)) => {
                let me = cur + n + ml;
                if me > b.len() {
                    None
                } else {
                    match uleb32_decode(b.skip(me)) {
                        None => None,
                        Some((nl, n2)) => {
                            let ne = me + n2 + nl;
                            if ne >= b.len() {
                                None
                            } else if b[ne] == 3 {
                                if ne + 3 > b.len() { None } else { Some((ne + 3, false)) }
                            } else {
                                match skip_import_desc(b, b[ne], ne + 1) {
                                    None => None,
                                    Some(next) => Some((next, b[ne] == 0)),
                                }
                            }
                        },
                    }
                }
            },
        }
    }
}

/// The number of function imports among `left` more import entries from
/// offset `cur`. Other kinds are stepped over; a malformed entry or an
/// unknown kind ends the count.
pub open spec fn func_import_count_from(b: Seq<u8>, cur: int, left: nat) -> nat
    decreases left,
{
    if left == 0 {
        0
    } else {
        match import_entry(b, cur) {
            None => 0,
            Some((next, is_func)) => (if is_func { 1nat } else { 0nat }) + func_import_count_from(
                b,
                next,
                (left - 1) as nat,
            ),
        }
    }
}

/// The number of function imports of an import section.
pub open spec fn func_import_count(section: Option<Seq<u8>>) -> nat {
    match section {
        None => 0,
        Some(b) => match uleb32_decode(b) {
            None => 0,
            Some((count, n)) => func_import_count_from(b, n as int, count as nat),
        },
    }
}

/// Where the description of an import of kind `kind` at `c` ends (see
/// `skip_import_desc`).
fn skip_desc(b: &[u8], kind: u8, c: usize) -> (r: Option<usize>)
    requires
        c <= b@.len(),
        kind != 3,
    ensures
        match skip_import_desc(b@, kind, c as int) {
            Some(x) => r == Some(x as usize) && 0 <= x <= b@.len(),
            None => r is None,
        },
{
    if kind == 0 {
        skip_leb(b, c)
    } else if kind == 1 {
        if b.len() - c < 2 {
            return None;
        }
        skip_limits_at(b, c + 1)
    } else if kind == 2 {
        if c >= b.len() {
            return None;
        }
        skip_limits_at(b, c)
    } else {
        None
    }
}

/// The import entry at `cur` (see `import_entry`).
fn next_import(bytes: &[u8], cur: usize) -> (r: Option<(usize, bool)>)
    ensures
        match import_entry(bytes@, cur as int) {
            None => r is None,
            Some((next, f)) => r is Some && r.unwrap().0 as int == next && r.unwrap().1 == f,
        },
{
    let ghost b = bytes@;
    if cur > bytes.len() {
        return None;
    }
    let rest = vstd::slice::slice_subrange(bytes, cur, bytes.len());
    assert(rest@ =~= b.skip(cur as int));
    let (ml, n1) = match read_u32_leb128(rest) {
        Some(x) => x,
        None => return None,
    };
    if ml as usize > bytes.len() - cur - n1 {
        return None;
    }
    let me = cur + n1 + ml as usize;
    let rest2 = vstd::slice::slice_subrange(bytes, me, bytes.len());
    assert(rest2@ =~= b.skip(me as int));
    let (nl, n2) = match read_u32_leb128(rest2) {
        Some(x) => x,
        None => return None,
    };
    if nl as usize >= bytes.len() - me - n2 {
        return None;
    }
    let ne = me + n2 + nl as usize;
    let kind = bytes[ne];
    if kind == 3 {
        if bytes.len() - ne < 3 {
            return None;
        }
        return Some((ne + 3, false));
    }
    match skip_desc(bytes, kind, ne + 1) {
        Some(x) => Some((x, kind == 0)),
        None => None,
    }
}

/// Count the function imports of an import section (see
/// `func_import_count`); 0 when there is none.
pub fn count_func_imports(import_section: Option<&[u8]>) -> (r: usize)
    ensures
        r == func_import_count(match import_section {
            Some(b) => Some(b@),
            None => None,
        }),
{
    let bytes = match import_section {
        Some(b) => b,
        None => return 0,
    };
    let (count, n) = match read_u32_leb128(bytes) {
        Some(x) => x,
        None => return 0,
    };
    let ghost b = bytes@;
    let mut cur: usize = n;
    let mut k: u32 = 0;
    let mut func_count: usize = 0;
    while k < count
        invariant
            b == bytes@,
            import_section == Some(bytes),
            k <= count,
            func_count <= k,
            uleb32_decode(b) == Some((count, n)),
            func_import_count_from(b, n as int, count as nat) == func_count + func_import_count_from(
                b,
                cur as int,
                (count - k) as nat,
            ),
        decreases count - k,
    {
        match next_import(bytes, cur) {
            None => {
                return func_count;
            },
            Some((next, is_func)) => {
                if is_func {
                    func_count = func_count + 1;
                }
                cur = next;
            },
        }
        k = k + 1;
    }
    func_count
}

/// The smaller of two integers.
pub open spec fn min_int(a: int, b: int) -> int {
    if a <= b { a } else { b }
}

/// Linear memory `mem` after the active data segments among `left` more
/// entries from offset `cur` are copied in, and whether the section was
/// well formed. A segment is an offset expression `i32.const N end`, a
/// length and the bytes; what does not fit in memory is cut off, and an
/// offset outside memory is an error. Entries of other kinds are stepped
/// over by their kind number only.
pub open spec fn init_from(b: Seq<u8>, cur: int, left: nat, mem: Seq<u8>) -> (bool, Seq<u8>)
    decreases left,
{
    if left == 0 {
        (true, mem)
    } else if cur < 0 || cur > b.len() {
        (false, mem)
    } else {
        match uleb32_decode(b.skip(cur)) {
            None => (false, mem),
            Some((kind, n)) => {
                let c = cur + n;
                if kind != 0 {
                    init_from(b, c, (left - 1) as nat, mem)
                } else if c >= b.len() || b[c] != 0x41 {
                    (false, mem)
                } else {
                    match sleb32_decode(b.skip(c + 1)) {
                        None => (false, mem),
                        Some((off, n2)) => {
                            let c2 = c + 1 + n2;
                            if c2 >= b.len() || b[c2] != 0x0B {
                                (false, mem)
                            } else {
                                match uleb32_decode(b.skip(c2 + 1)) {
                                    None => (false, mem),
                                    Some((dl, n3)) => {
                                        let s = c2 + 1 + n3;
                                        if s + dl > b.len() || off < 0 || off > mem.len() {
                                            (false, mem)
                                        } else {
                                            let cl = min_int(dl as int, mem.len() - off);
                                            init_from(
                                                b,
                                                s + dl,
                                                (left - 1) as nat,
                                                mem.take(off as int) + b.subrange(s, s + cl) + mem.skip(off + cl),
                                            )
                                        }
                                    },
                                }
                            }
                        },
                    }
                }
            },
        }
    }
}

/// Memory after a data section is applied (see `init_from`).
pub open spec fn init_result(b: Seq<u8>, mem: Seq<u8>) -> (bool, Seq<u8>) {
    match uleb32_decode(b) {
        None => (false, mem),
        Some((count, n)) => init_from(b, n as int, count as nat, mem),
    }
}

/// Copy the active data segments of `data_section` into `mem` (see
/// `init_from`); `false` when the section is malformed.
pub fn init_memory(data_section: &[u8], mem: &mut [u8]) -> (ok: bool)
    ensures
        final(mem)@.len() == old(mem)@.len(),
        ok == init_result(data_section@, old(mem)@).0,
        ok ==> final(mem)@ == init_result(data_section@, old(mem)@).1,
{
    let ghost b = data_section@;
    let (count, n) = match read_u32_leb128(data_section) {
        Some(x) => x,
        None => return false,
    };
    let mut cur: usize = n;
    let mut k: u32 = 0;
    while k < count
        invariant
            b == data_section@,
            k <= count,
            mem@.len() == old(mem)@.len(),
            uleb32_decode(b) == Some((count, n)),
            init_result(b, old(mem)@) == init_from(b, cur as int, (count - k) as nat, mem@),
        decreases count - k,
    {
        if cur > data_section.len() {
            return false;
        }
        let rest = vstd::slice::slice_subrange(data_section, cur, data_section.len());
        assert(rest@ =~= b.skip(cur as int));
        let (kind, n1) = match read_u32_leb128(rest) {
            Some(x) => x,
            None => return false,
        };
        let c = cur + n1;
        if kind == 0 {
            if c >= data_section.len() || data_section[c] != 0x41 {
                return false;
            }
            let rest2 = vstd::slice::slice_subrange(data_section, c + 1, data_section.len());
            assert(rest2@ =~= b.skip(c + 1));
            let (offset, n2) = match read_i32_leb128(rest2) {
                Some(x) => x,
                None => return false,
            };
            let c2 = c + 1 + n2;
            if c2 >= data_section.len() || data_section[c2] != 0x0B {
                return false;
            }
            let rest3 = vstd::slice::slice_subrange(data_section, c2 + 1, data_section.len());
            assert(rest3@ =~= b.skip(c2 + 1));
            let (data_len, n3) = match read_u32_leb128(rest3) {
                Some(x) => x,
                None => return false,
            };
            let s = c2 + 1 + n3;
            if data_len as usize > data_section.len() - s {
                return false;
            }
            if offset < 0 || offset as usize > mem.len() {
                return false;
            }
            let dst = offset as usize;
            let mut copy_len = data_len as usize;
            if copy_len > mem.len() - dst {
                copy_len = mem.len() - dst;
            }
            let src = vstd::slice::slice_subrange(data_section, s, s + copy_len);
            let ghost m0 = mem@;
            crate::bytes::copy_into(mem, dst, src);
            assert(src@ == b.subrange(s as int, s + copy_len));
            assert(mem@ == m0.take(dst as int) + b.subrange(s as int, s + copy_len) + m0.skip(dst + copy_len));
            cur = s + data_len as usize;
        } else {
            cur = c;
        }
        k = k + 1;
    }
    true
}


/// The pages a module asks for at start: the minimum of its memory, or 0
/// without a memory section.
pub open spec fn module_min_pages(s: Sections) -> u32 {
    match s.memory_section {
        Some(b) => memory_min_pages(b),
        None => 0,
    }
}

/// The steps of spawning before the module's imports are resolved: parse
/// the binary (`Load` on failure), check the memory it asks for
/// (`MemoryTooLarge` past `MAX_MEM_PAGES`), and count its function imports.
/// Gives the module, its starting pages and its function import count.
pub fn prepare_module<'a>(bytes: &'a [u8]) -> (r: Result<(Module<'a>, u32, usize), RunError>)
    ensures
        match load_spec(bytes@) {
            Err(e) => r == Err::<(Module<'a>, u32, usize), RunError>(RunError::Load(e)),
            Ok(s) => if module_min_pages(s) > MAX_MEM_PAGES {
                r == Err::<(Module<'a>, u32, usize), RunError>(RunError::MemoryTooLarge)
            } else {
                r matches Ok((m, p, n)) && m.sections() == s && p == module_min_pages(s) && n == func_import_count(
                    s.import_section,
                )
            },
        },
{
    let module = match load(bytes) {
        Ok(m) => m,
        Err(e) => return Err(RunError::Load(e)),
    };
    let min_pages = match module.memory_section {
        Some(b) => read_memory_min_pages(b),
        None => 0,
    };
    if min_pages > MAX_MEM_PAGES {
        return Err(RunError::MemoryTooLarge);
    }
    let import_count = count_func_imports(module.import_section);
    Ok((module, min_pages, import_count))
}

/// The steps of spawning after the imports are resolved: build the
/// interpreter over `mem` with `min_pages` active pages (`Interp` with its
/// error), then lay out the data section (`Interp(MalformedCode)` when it
/// is malformed). A new instance has empty stacks.
pub fn instantiate<'a>(module: &Module<'a>, import_count: usize, mem: Vec<u8>, min_pages: u32) -> (r: Result<
    Interpreter<'a>,
    RunError,
>)
    requires
        min_pages as int * PAGE_SIZE <= mem@.len(),
    ensures
        r matches Ok(it) ==> {
            &&& it.wf()
            &&& it.stack().len() == 0
            &&& it.call_frames().len() == 0
            &&& it.pages() == min_pages
            &&& it.imports() == import_count
            &&& match module.data_section {
                Some(d) => init_result(d@, mem@).0 && it.memory() == init_result(d@, mem@).1,
                None => it.memory() == mem@,
            }
        },
        module.data_section matches Some(d) ==> (!init_result(d@, mem@).0 ==> r is Err),
        r is Err ==> r->Err_0 is Interp,
        match setup_error(module.sections()) {
            Some(e) => r == Err::<Interpreter<'a>, RunError>(RunError::Interp(e)),
            None => match module.data_section {
                Some(d) => if init_result(d@, mem@).0 {
                    r is Ok
                } else {
                    r == Err::<Interpreter<'a>, RunError>(RunError::Interp(InterpError::MalformedCode))
                },
                None => r is Ok,
            },
        },
{
    let mut it = match Interpreter::new(module, import_count, mem, min_pages) {
        Ok(x) => x,
        Err(e) => return Err(RunError::Interp(e)),
    };
    match module.data_section {
        Some(d) => {
            if !it.apply_data(d) {
                return Err(RunError::Interp(InterpError::MalformedCode));
            }
        },
        None => {},
    }
    Ok(it)
}

/// Begin running export `entry` of `module` on its instance `it`, with
/// `args` as arguments, for at most `fuel` instructions: `EntryNotFound`
/// when there is no such export; the stacks are emptied, the arguments
/// pushed (`Interp(StackOverflow)` when they do not fit), and the function
/// called (see `Interpreter::call`; a trap is `Interp` with its error).
pub fn start_call(it: &mut Interpreter, module: &Module, entry: &str, args: &[i32], fuel: u64) -> (r: Result<
    Exit,
    RunError,
>)
    requires
        old(it).wf(),
    ensures
        final(it).wf(),
        final(it).imports() == old(it).imports(),
        final(it).body_bytes() == old(it).body_bytes(),
        export_index(opt_bytes(module.export_section), entry.spec_bytes()) is None ==> r == Err::<Exit, RunError>(
            RunError::EntryNotFound,
        ),
        export_index(opt_bytes(module.export_section), entry.spec_bytes()) is Some && args@.len() > STACK_DEPTH
            ==> r == Err::<Exit, RunError>(RunError::Interp(InterpError::StackOverflow)),
        r matches Ok(Exit::Host(k)) ==> k < old(it).imports(),
        r == Ok::<Exit, RunError>(Exit::Done) <==> r is Ok && final(it).call_frames().len() == 0,
{
    let func_idx = match find_export(module, entry) {
        Some(i) => i as usize,
        None => return Err(RunError::EntryNotFound),
    };
    it.reset_for_call();
    let mut k: usize = 0;
    while k < args.len()
        invariant
            it.wf(),
            it.stack().len() == k,
            k <= args@.len(),
            k <= STACK_DEPTH,
            export_index(opt_bytes(module.export_section), entry.spec_bytes()) is Some,
            it.imports() == old(it).imports(),
            it.body_bytes() == old(it).body_bytes(),
        decreases args.len() - k,
    {
        if it.push_value(args[k] as i64).is_err() {
            return Err(RunError::Interp(InterpError::StackOverflow));
        }
        k = k + 1;
    }
    match it.call(func_idx, fuel) {
        Ok(e) => Ok(e),
        Err(e) => Err(RunError::Interp(e)),
    }
}

} // verus!
