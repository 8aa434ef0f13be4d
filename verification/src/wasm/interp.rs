//! Interpreter outcomes: the traps and pseudo-errors that WASM execution
//! can end with.
use vstd::prelude::*;
use crate::wasm::scan::{JumpSlot, table_sound, jump_lookup, scan_block_end, scan_block, lemma_scan_bounds, NO_ELSE};
use crate::wasm::numeric::{is_unop, is_binop, unop, binop, eval_unop, eval_binop, load_value, le_value, read_le, write_le, stored};
use crate::wasm::loader::{Module, Sections};
use crate::wasm::sections::{parse_type_section, parse_function_section, parse_code_section, parse_global_section, parse_import_func_types, parse_element_section, code_section, type_section, function_section, global_section, import_types, elem_writes};
use crate::wasm::scan::{empty_jump_table, pre_scan_body_jumps};
use crate::leb128::{read_u32_leb128, uleb32_decode, read_i32_leb128, read_i64_leb128, sleb32_decode, sleb64_decode};

verus! {

/// Errors (and pseudo-errors) that can arise during WASM interpretation.
#[derive(Clone, Copy, PartialEq, Eq, Debug, Structural)]
pub enum InterpError {
    /// The module has no code section.
    NoCodeSection,
    /// Bytecode structure is invalid (unexpected byte, truncated encoding, etc.).
    MalformedCode,
    /// More functions than the interpreter holds.
    TooManyFuncs,
    /// More type entries than the interpreter holds.
    TooManyTypes,
    /// A function requires more locals than the interpreter holds.
    TooManyLocals,
    /// More globals than the interpreter holds.
    TooManyGlobals,
    /// Block/loop/if nesting exceeded the control stack.
    CtrlStackOverflow,
    /// `call` or `call_indirect` target is out of the function index range.
    FuncIndexOutOfRange,
    /// `local.get` / `local.set` / `local.tee` index out of range.
    LocalIndexOutOfRange,
    /// `global.get` / `global.set` index out of range.
    GlobalIndexOutOfRange,
    /// `global.set` on a `const` (immutable) global.
    GlobalImmutable,
    /// `call_indirect` on a null (uninitialised) table entry.
    IndirectCallNull,
    /// `call_indirect` type signature mismatch.
    IndirectCallTypeMismatch,
    /// `call` to an import index that was not resolved at instantiation.
    ImportNotFound,
    /// The `unreachable` opcode was executed.
    Unreachable,
    /// Value stack depth exceeded.
    StackOverflow,
    /// Value stack underflowed (pop on an empty stack).
    StackUnderflow,
    /// Call depth exceeded.
    CallStackOverflow,
    /// Linear memory access outside the allocated page range.
    MemOutOfBounds,
    /// Integer division or remainder by zero.
    DivisionByZero,
    /// A float-to-integer conversion was out of range or produced NaN.
    InvalidConversion,
    /// An opcode with the given byte value is not implemented.
    UnknownOpcode(u8),
    /// Not a real error: the module called `env.yield` or `env.sleep_ms`.
    Yielded,
    /// Not a real error: the module called `env.exit`.
    Exited,
}

/// The description `InterpError::as_str` gives.
pub open spec fn interp_error_text(e: InterpError) -> &'static str {
    match e {
        InterpError::NoCodeSection => "no code section",
        InterpError::MalformedCode => "malformed bytecode",
        InterpError::TooManyFuncs => "too many functions (increase MAX_FUNCS)",
        InterpError::TooManyTypes => "too many types (increase MAX_TYPES)",
        InterpError::TooManyLocals => "too many locals (increase MAX_LOCALS)",
        InterpError::TooManyGlobals => "too many globals (increase MAX_GLOBALS)",
        InterpError::CtrlStackOverflow => "control stack overflow (increase MAX_CTRL_DEPTH)",
        InterpError::FuncIndexOutOfRange => "function index out of range",
        InterpError::LocalIndexOutOfRange => "local variable index out of range",
        InterpError::GlobalIndexOutOfRange => "global variable index out of range",
        InterpError::GlobalImmutable => "write to immutable global",
        InterpError::IndirectCallNull => "call_indirect: null table entry",
        InterpError::IndirectCallTypeMismatch => "call_indirect: type mismatch",
        InterpError::ImportNotFound => "call to unresolved import",
        InterpError::Unreachable => "unreachable executed",
        InterpError::StackOverflow => "value stack overflow",
        InterpError::StackUnderflow => "value stack underflow",
        InterpError::CallStackOverflow => "call stack overflow",
        InterpError::MemOutOfBounds => "memory access out of bounds",
        InterpError::DivisionByZero => "integer divide by zero",
        InterpError::InvalidConversion => "invalid float-to-integer conversion",
        InterpError::UnknownOpcode(_) => "unknown opcode",
        InterpError::Yielded => "task yielded",
        InterpError::Exited => "module exited",
    }
}

impl InterpError {
    /// A human-readable description of the error.
    pub fn as_str(self) -> (s: &'static str)
        ensures
            s == interp_error_text(self),
    {
        match self {
            InterpError::NoCodeSection => "no code section",
            InterpError::MalformedCode => "malformed bytecode",
            InterpError::TooManyFuncs => "too many functions (increase MAX_FUNCS)",
            InterpError::TooManyTypes => "too many types (increase MAX_TYPES)",
            InterpError::TooManyLocals => "too many locals (increase MAX_LOCALS)",
            InterpError::TooManyGlobals => "too many globals (increase MAX_GLOBALS)",
            InterpError::CtrlStackOverflow => "control stack overflow (increase MAX_CTRL_DEPTH)",
            InterpError::FuncIndexOutOfRange => "function index out of range",
            InterpError::LocalIndexOutOfRange => "local variable index out of range",
            InterpError::GlobalIndexOutOfRange => "global variable index out of range",
            InterpError::GlobalImmutable => "write to immutable global",
            InterpError::IndirectCallNull => "call_indirect: null table entry",
            InterpError::IndirectCallTypeMismatch => "call_indirect: type mismatch",
            InterpError::ImportNotFound => "call to unresolved import",
            InterpError::Unreachable => "unreachable executed",
            InterpError::StackOverflow => "value stack overflow",
            InterpError::StackUnderflow => "value stack underflow",
            InterpError::CallStackOverflow => "call stack overflow",
            InterpError::MemOutOfBounds => "memory access out of bounds",
            InterpError::DivisionByZero => "integer divide by zero",
            InterpError::InvalidConversion => "invalid float-to-integer conversion",
            InterpError::UnknownOpcode(_) => "unknown opcode",
            InterpError::Yielded => "task yielded",
            InterpError::Exited => "module exited",
        }
    }
}


/// Maximum number of functions (imports and defined) of a module.
pub const MAX_FUNCS: usize = 512;
/// Maximum number of function signatures.
pub const MAX_TYPES: usize = 128;
/// Maximum locals of a frame (parameters and declared locals).
pub const MAX_LOCALS: usize = 32;
/// Maximum number of globals.
pub const MAX_GLOBALS: usize = 64;
/// Maximum entries of the function table.
pub const MAX_TABLE: usize = 512;
/// Maximum block/loop/if nesting over all live frames.
pub const MAX_CTRL_DEPTH: usize = 128;
/// Depth of the value stack.
pub const STACK_DEPTH: usize = 256;
/// Maximum number of live call frames.
pub const CALL_DEPTH: usize = 128;
/// Bytes of a linear-memory page.
pub const PAGE_SIZE: usize = 65536;
/// A function-table entry that holds no function.
pub const NULL_FUNC: u32 = 0xFFFF_FFFF;

/// What a control frame was opened by.
#[derive(Clone, Copy, PartialEq, Eq, Debug, Structural)]
pub enum BlockKind {
    Block,
    Loop,
    If,
}

/// An open `block`, `loop` or `if`: where a branch to a loop goes back to
/// (`pc_start`), and the position of its `end`.
#[derive(Clone, Copy, PartialEq, Eq, Debug, Structural)]
pub struct CtrlFrame {
    pub kind: BlockKind,
    pub pc_start: usize,
    pub end_pc: usize,
}

/// A live call: the body it runs, where, its number of locals, the control
/// and value stack depths at entry, and how many results it returns.
#[derive(Clone, Copy, PartialEq, Eq, Debug, Structural)]
pub struct Frame {
    pub body_idx: usize,
    pub pc: usize,
    pub local_count: usize,
    pub ctrl_base: usize,
    pub vsp_base: usize,
    pub result_count: usize,
}

/// Why the interpreter stopped without a trap.
#[derive(Clone, Copy, PartialEq, Eq, Debug, Structural)]
pub enum Exit {
    /// The outermost call returned.
    Done,
    /// A call to import `k` is due: the host performs it on the value stack
    /// and memory, then execution resumes after the call.
    Host(usize),
    /// A floating-point instruction (this opcode, no immediates) is due on
    /// the value stack; execution resumes after it.
    Float(u8),
    /// A saturating float-to-integer conversion (`0xFC` with this
    /// sub-opcode) is due on the value stack.
    FloatSat(u32),
    /// The step budget ran out; execution resumes where it stopped.
    Paused,
}

/// The byte sequences of a list of bodies.
pub open spec fn body_seqs(v: Seq<&[u8]>) -> Seq<Seq<u8>> {
    Seq::new(v.len(), |i: int| v[i]@)
}

/// The WebAssembly stack machine: a module's bodies, types, function
/// table and globals, its linear memory, and the value, call and control
/// stacks of the running call.
pub struct Interpreter<'a> {
    bodies: Vec<&'a [u8]>,
    local_counts: Vec<usize>,
    type_param_counts: Vec<usize>,
    type_result_counts: Vec<usize>,
    type_count: usize,
    func_type_indices: Vec<usize>,
    all_func_types: Vec<usize>,
    import_count: usize,
    table: Vec<u32>,
    table_size: usize,
    vstack: Vec<i64>,
    vsp: usize,
    frames: Vec<Frame>,
    fdepth: usize,
    locals: Vec<i64>,
    ctrl: Vec<CtrlFrame>,
    ctrl_depth: usize,
    globals: Vec<i64>,
    global_mutable: Vec<bool>,
    global_count: usize,
    mem: Vec<u8>,
    jump_table: Vec<JumpSlot>,
    current_pages: u32,
    max_pages: u32,
    yield_requested: bool,
    op_count: u64,
}

/// A frame of `it` may run: its body exists, its locals fit, and its
/// stack marks are in range.
pub open spec fn frame_ok(f: Frame, nbodies: int, ctrl_depth: int) -> bool {
    &&& f.body_idx < nbodies
    &&& f.local_count <= MAX_LOCALS
    &&& f.ctrl_base <= ctrl_depth
    &&& f.vsp_base <= STACK_DEPTH
}

impl<'a> Interpreter<'a> {
    /// The values on the stack, bottom first.
    pub closed spec fn stack(&self) -> Seq<i64> {
        self.vstack@.take(self.vsp as int)
    }

    /// The live call frames, outermost first.
    pub closed spec fn call_frames(&self) -> Seq<Frame> {
        self.frames@.take(self.fdepth as int)
    }

    /// The open control frames, outermost first.
    pub closed spec fn controls(&self) -> Seq<CtrlFrame> {
        self.ctrl@.take(self.ctrl_depth as int)
    }

    /// Local `k` of call frame `fi`.
    pub closed spec fn local(&self, fi: int, k: int) -> i64 {
        self.locals@[fi * MAX_LOCALS + k]
    }

    /// The globals.
    pub closed spec fn global_values(&self) -> Seq<i64> {
        self.globals@.take(self.global_count as int)
    }

    /// Whether each global may be written.
    pub closed spec fn global_writable(&self) -> Seq<bool> {
        self.global_mutable@.take(self.global_count as int)
    }

    /// Linear memory, all of it (the active part is `pages()` pages).
    pub closed spec fn memory(&self) -> Seq<u8> {
        self.mem@
    }

    /// Active pages of linear memory.
    pub closed spec fn pages(&self) -> u32 {
        self.current_pages
    }

    /// The most pages linear memory can grow to.
    pub closed spec fn page_limit(&self) -> u32 {
        self.max_pages
    }

    /// The function bodies.
    pub closed spec fn body_bytes(&self) -> Seq<Seq<u8>> {
        body_seqs(self.bodies@)
    }

    /// The number of function imports.
    pub closed spec fn imports(&self) -> usize {
        self.import_count
    }

    /// Whether a yield was requested.
    pub closed spec fn yield_pending(&self) -> bool {
        self.yield_requested
    }

    /// The active bytes of linear memory.
    pub open spec fn active_bytes(&self) -> int {
        self.pages() as int * PAGE_SIZE
    }

    /// The tables have their fixed sizes, the counts and stack depths are
    /// in range, every live frame may run, control frames close inside a
    /// body, active memory exists, and the jump table agrees with a scan of
    /// the bodies.
    pub closed spec fn wf(&self) -> bool {
        &&& self.vstack@.len() == STACK_DEPTH
        &&& self.vsp <= STACK_DEPTH
        &&& self.frames@.len() == CALL_DEPTH
        &&& self.fdepth <= CALL_DEPTH
        &&& self.locals@.len() == CALL_DEPTH * MAX_LOCALS
        &&& self.ctrl@.len() == MAX_CTRL_DEPTH
        &&& self.ctrl_depth <= MAX_CTRL_DEPTH
        &&& self.bodies@.len() <= MAX_FUNCS
        &&& self.local_counts@.len() == self.bodies@.len()
        &&& self.type_param_counts@.len() == MAX_TYPES
        &&& self.type_result_counts@.len() == MAX_TYPES
        &&& self.type_count <= MAX_TYPES
        &&& self.func_type_indices@.len() == MAX_FUNCS
        &&& self.all_func_types@.len() == MAX_FUNCS
        &&& self.table@.len() == MAX_TABLE
        &&& self.table_size <= MAX_TABLE
        &&& self.globals@.len() == MAX_GLOBALS
        &&& self.global_mutable@.len() == MAX_GLOBALS
        &&& self.global_count <= MAX_GLOBALS
        &&& self.current_pages as int * PAGE_SIZE <= self.mem@.len()
        &&& self.max_pages as int * PAGE_SIZE <= self.mem@.len()
        &&& self.max_pages <= 65536
        &&& table_sound(self.jump_table@, body_seqs(self.bodies@))
        &&& forall|i: int| 0 <= i < self.fdepth ==> #[trigger] frame_ok(
            self.frames@[i],
            self.bodies@.len() as int,
            self.ctrl_depth as int,
        )
        &&& forall|i: int, j: int| 0 <= i < j < self.fdepth ==> #[trigger] self.frames@[i].ctrl_base
            <= #[trigger] self.frames@[j].ctrl_base
        &&& forall|c: int| 0 <= c < self.ctrl_depth ==> #[trigger] self.ctrl@[c].end_pc < usize::MAX
    }

    /// Push `v`; `Err(StackOverflow)` when the stack is full.
    fn v_push(&mut self, v: i64) -> (r: Result<(), InterpError>)
        requires
            old(self).wf(),
        ensures
            final(self).wf(),
            r is Err <==> old(self).stack().len() >= STACK_DEPTH,
            r is Err ==> r == Err::<(), InterpError>(InterpError::StackOverflow) && *final(self) == *old(self),
            r is Ok ==> *final(self) == (Interpreter { vstack: final(self).vstack, vsp: final(self).vsp, ..*old(self) }),
            r is Ok ==> final(self).stack() == old(self).stack().push(v),
    {
        if self.vsp >= STACK_DEPTH {
            return Err(InterpError::StackOverflow);
        }
        self.vstack.set(self.vsp, v);
        self.vsp = self.vsp + 1;
        assert(self.stack() =~= old(self).stack().push(v));
        Ok(())
    }

    /// Pop the top value; `Err(StackUnderflow)` when the stack is empty.
    fn pop(&mut self) -> (r: Result<i64, InterpError>)
        requires
            old(self).wf(),
        ensures
            final(self).wf(),
            r is Err <==> old(self).stack().len() == 0,
            r is Err ==> r == Err::<i64, InterpError>(InterpError::StackUnderflow) && *final(self) == *old(self),
            r is Ok ==> *final(self) == (Interpreter { vsp: final(self).vsp, ..*old(self) }),
            r is Ok ==> final(self).vsp == old(self).vsp - 1,
            r is Ok ==> r == Ok::<i64, InterpError>(old(self).stack().last()) && final(self).stack() == old(self).stack().drop_last(),
    {
        if self.vsp == 0 {
            return Err(InterpError::StackUnderflow);
        }
        self.vsp = self.vsp - 1;
        assert(self.stack() =~= old(self).stack().drop_last());
        Ok(self.vstack[self.vsp])
    }

    /// Pop the top value (a host function's argument);
    /// `Err(StackUnderflow)` when the stack is empty.
    pub fn v_pop(&mut self) -> (r: Result<i64, InterpError>)
        requires
            old(self).wf(),
        ensures
            final(self).wf(),
            r is Err <==> old(self).stack().len() == 0,
            r is Err ==> r == Err::<i64, InterpError>(InterpError::StackUnderflow),
            r is Ok ==> r == Ok::<i64, InterpError>(old(self).stack().last()) && final(self).stack() == old(self).stack().drop_last(),
            r is Err ==> final(self).stack() == old(self).stack(),
            final(self).memory() == old(self).memory(),
            final(self).call_frames() == old(self).call_frames(),
            final(self).global_values() == old(self).global_values(),
            old(self).same_but_stack(final(self)),
    {
        self.pop()
    }

    /// Push a value for a host function; `Err(StackOverflow)` when full.
    pub fn push_value(&mut self, v: i64) -> (r: Result<(), InterpError>)
        requires
            old(self).wf(),
        ensures
            final(self).wf(),
            r is Err <==> old(self).stack().len() >= STACK_DEPTH,
            r is Ok ==> final(self).stack() == old(self).stack().push(v),
            r is Err ==> final(self).stack() == old(self).stack() && r == Err::<(), InterpError>(InterpError::StackOverflow),
            final(self).stack().len() <= STACK_DEPTH,
            final(self).memory() == old(self).memory(),
            final(self).call_frames() == old(self).call_frames(),
            final(self).imports() == old(self).imports(),
            final(self).body_bytes() == old(self).body_bytes(),
            old(self).same_but_stack(final(self)),
    {
        self.v_push(v)
    }

    /// The number of values on the stack.
    pub fn stack_len(&self) -> (n: usize)
        requires
            self.wf(),
        ensures
            n == self.stack().len(),
    {
        self.vsp
    }

    /// The top value, or `None` on an empty stack (a function's result).
    pub fn top(&self) -> (r: Option<i64>)
        requires
            self.wf(),
        ensures
            r == (if self.stack().len() > 0 { Some(self.stack().last()) } else { None }),
    {
        if self.vsp > 0 {
            Some(self.vstack[self.vsp - 1])
        } else {
            None
        }
    }

    /// The top value cut to 32 bits, or `None` on an empty stack.
    pub fn top_i32(&self) -> (r: Option<i32>)
        requires
            self.wf(),
        ensures
            r == (if self.stack().len() > 0 { Some(self.stack().last() as i32) } else { None }),
    {
        if self.vsp > 0 {
            Some(self.vstack[self.vsp - 1] as i32)
        } else {
            None
        }
    }

    /// Empty the value, call and control stacks and clear a pending yield,
    /// keeping memory and globals, to start another call.
    pub fn reset_for_call(&mut self)
        requires
            old(self).wf(),
        ensures
            final(self).wf(),
            final(self).stack().len() == 0,
            final(self).call_frames().len() == 0,
            final(self).controls().len() == 0,
            !final(self).yield_pending(),
            final(self).memory() == old(self).memory(),
            final(self).pages() == old(self).pages(),
            final(self).global_values() == old(self).global_values(),
            final(self).body_bytes() == old(self).body_bytes(),
            final(self).imports() == old(self).imports(),
    {
        self.vsp = 0;
        self.fdepth = 0;
        self.ctrl_depth = 0;
        self.yield_requested = false;
    }

    /// Ask the running call to stop at the next instruction with
    /// `Yielded`.
    pub fn request_yield(&mut self)
        requires
            old(self).wf(),
        ensures
            final(self).wf(),
            final(self).yield_pending(),
            final(self).stack() == old(self).stack(),
            final(self).call_frames() == old(self).call_frames(),
            final(self).memory() == old(self).memory(),
    {
        self.yield_requested = true;
    }

    /// The active bytes of linear memory.
    fn active_mem_bytes(&self) -> (n: usize)
        requires
            self.wf(),
        ensures
            n == self.active_bytes(),
            n <= self.memory().len(),
    {
        let mlen = self.mem.len();
        assert(self.current_pages as int * PAGE_SIZE <= mlen);
        self.current_pages as usize * PAGE_SIZE
    }

    /// Active pages of linear memory.
    pub fn current_pages(&self) -> (r: u32)
        ensures
            r == self.pages(),
    {
        self.current_pages
    }

    /// The number of function imports.
    pub fn import_count(&self) -> (r: usize)
        ensures
            r == self.imports(),
    {
        self.import_count
    }

    /// Linear memory (for host functions that read guest buffers).
    pub fn mem_bytes(&self) -> (r: &[u8])
        ensures
            r@ == self.memory(),
    {
        self.mem.as_slice()
    }

    /// Copy `data` into linear memory at `at` (for host functions that fill
    /// guest buffers). `false`, with nothing written, when it does not fit
    /// in the active pages.
    pub fn write_mem(&mut self, at: usize, data: &[u8]) -> (ok: bool)
        requires
            old(self).wf(),
        ensures
            final(self).wf(),
            ok <==> at + data@.len() <= old(self).active_bytes(),
            ok ==> final(self).memory() == old(self).memory().take(at as int) + data@ + old(self).memory().skip(
                at + data@.len(),
            ),
            !ok ==> final(self).memory() == old(self).memory(),
            final(self).stack() == old(self).stack(),
            final(self).call_frames() == old(self).call_frames(),
            final(self).pages() == old(self).pages(),
    {
        let active = self.active_mem_bytes();
        if at > active || data.len() > active - at {
            return false;
        }
        let mut k: usize = 0;
        while k < data.len()
            invariant
                k <= data@.len(),
                at + data@.len() <= active,
                active == old(self).active_bytes(),
                self.wf(),
                self.mem@.len() == old(self).mem@.len(),
                *self == (Interpreter { mem: self.mem, ..*old(self) }),
                forall|j: int| 0 <= j < self.mem@.len() ==> #[trigger] self.mem@[j] == if at <= j < at + k {
                    data@[j - at]
                } else {
                    old(self).mem@[j]
                },
            decreases data.len() - k,
        {
            self.mem.set(at + k, data[k]);
            k = k + 1;
        }
        assert(self.memory() =~= old(self).memory().take(at as int) + data@ + old(self).memory().skip(
            at + data@.len(),
        ));
        true
    }

    /// `self` and `o` differ at most in their value stacks.
    pub closed spec fn same_but_stack(&self, o: &Self) -> bool {
        *o == (Interpreter { vstack: o.vstack, vsp: o.vsp, ..*self })
    }

    /// `self` and `o` differ at most in their value stacks and memory
    /// contents (its length stays).
    pub closed spec fn same_but_stack_and_memory(&self, o: &Self) -> bool {
        &&& *o == (Interpreter { vstack: o.vstack, vsp: o.vsp, mem: o.mem, ..*self })
        &&& o.mem@.len() == self.mem@.len()
    }

    /// A well-formed stack holds at most `STACK_DEPTH` values.
    pub proof fn lemma_stack_fits(&self)
        requires
            self.wf(),
        ensures
            self.stack().len() <= STACK_DEPTH,
    {
    }

    /// What a change of the value stack, or of it and the memory contents,
    /// leaves as it was; such changes compose.
    pub proof fn lemma_same_but_stack(a: Self, b: Self, c: Self)
        ensures
            a.same_but_stack(&a),
            a.same_but_stack_and_memory(&a),
            a.same_but_stack(&b) ==> a.same_but_stack_and_memory(&b) && b.memory() == a.memory(),
            a.same_but_stack_and_memory(&b) ==> b.memory().len() == a.memory().len() && b.pages()
                == a.pages() && b.call_frames() == a.call_frames() && b.imports() == a.imports()
                && b.body_bytes() == a.body_bytes() && b.global_values() == a.global_values()
                && b.controls() == a.controls(),
            a.same_but_stack_and_memory(&b) && b.same_but_stack_and_memory(&c)
                ==> a.same_but_stack_and_memory(&c),
            a.same_but_stack(&b) && b.same_but_stack(&c) ==> a.same_but_stack(&c),
    {
    }

    /// Pop the top `n` values (a host function's arguments), bottom first;
    /// `Err(StackUnderflow)`, popping nothing, when fewer are there.
    pub fn pop_args(&mut self, n: usize) -> (r: Result<Vec<i64>, InterpError>)
        requires
            old(self).wf(),
        ensures
            final(self).wf(),
            old(self).same_but_stack(final(self)),
            old(self).stack().len() < n ==> r == Err::<Vec<i64>, InterpError>(InterpError::StackUnderflow)
                && *final(self) == *old(self),
            old(self).stack().len() >= n ==> r is Ok && r.unwrap()@ == old(self).stack().skip(
                old(self).stack().len() - n,
            ) && final(self).stack() == old(self).stack().take(old(self).stack().len() - n),
    {
        if self.vsp < n {
            return Err(InterpError::StackUnderflow);
        }
        let base = self.vsp - n;
        let mut v: Vec<i64> = Vec::new();
        let mut k: usize = base;
        while k < self.vsp
            invariant
                self.wf(),
                base <= k <= self.vsp,
                self.vsp <= STACK_DEPTH,
                v@ == self.stack().subrange(base as int, k as int),
            decreases self.vsp - k,
        {
            v.push(self.vstack[k]);
            k = k + 1;
            assert(v@ =~= self.stack().subrange(base as int, k as int));
        }
        self.vsp = base;
        assert(v@ =~= old(self).stack().skip(old(self).stack().len() - n));
        assert(self.stack() =~= old(self).stack().take(old(self).stack().len() - n));
        Ok(v)
    }

    /// Copy `data` into linear memory at `at` for a host function, which
    /// may reach all of the memory given at instantiation; `false`, with
    /// nothing written, when it does not fit.
    pub fn host_write(&mut self, at: usize, data: &[u8]) -> (ok: bool)
        requires
            old(self).wf(),
        ensures
            final(self).wf(),
            old(self).same_but_stack_and_memory(final(self)),
            final(self).stack() == old(self).stack(),
            ok <==> at + data@.len() <= old(self).memory().len(),
            ok ==> final(self).memory() == old(self).memory().take(at as int) + data@ + old(self).memory().skip(
                at + data@.len(),
            ),
            !ok ==> final(self).memory() == old(self).memory(),
    {
        let mlen = self.mem.len();
        if at > mlen || data.len() > mlen - at {
            return false;
        }
        let mut k: usize = 0;
        while k < data.len()
            invariant
                k <= data@.len(),
                at + data@.len() <= mlen,
                mlen == old(self).mem@.len(),
                self.wf(),
                self.mem@.len() == old(self).mem@.len(),
                *self == (Interpreter { mem: self.mem, ..*old(self) }),
                forall|j: int| 0 <= j < self.mem@.len() ==> #[trigger] self.mem@[j] == if at <= j < at + k {
                    data@[j - at]
                } else {
                    old(self).mem@[j]
                },
            decreases data.len() - k,
        {
            self.mem.set(at + k, data[k]);
            k = k + 1;
        }
        assert(self.memory() =~= old(self).memory().take(at as int) + data@ + old(self).memory().skip(
            at + data@.len(),
        ));
        true
    }

    /// The instructions run so far, over all calls (wrapping).
    pub fn op_count(&self) -> (r: u64)
        ensures
            r == self.ops_run(),
    {
        self.op_count
    }

    /// The instructions run so far, over all calls (wrapping).
    pub closed spec fn ops_run(&self) -> u64 {
        self.op_count
    }
}


/// `s` after copying `n` values one by one, lowest first, from `src` up to
/// `dst` up.
pub open spec fn copy_forward(s: Seq<i64>, src: int, dst: int, n: nat) -> Seq<i64>
    decreases n,
{
    if n == 0 {
        s
    } else {
        let t = copy_forward(s, src, dst, (n - 1) as nat);
        t.update(dst + n - 1, t[src + n - 1])
    }
}

impl<'a> Interpreter<'a> {
    /// The frame being run.
    pub closed spec fn top_frame(&self) -> Frame {
        self.frames@[self.fdepth - 1]
    }

    /// Parameters taken by body `bi` (0 when its type is unknown).
    pub closed spec fn param_count(&self, bi: int) -> int {
        let t = self.func_type_indices@[bi];
        if t < self.type_count { self.type_param_counts@[t as int] as int } else { 0 }
    }

    /// Results returned by body `bi` (0 when its type is unknown).
    pub closed spec fn result_count(&self, bi: int) -> int {
        let t = self.func_type_indices@[bi];
        if t < self.type_count { self.type_result_counts@[t as int] as int } else { 0 }
    }

    /// Declared locals of body `bi`.
    pub closed spec fn declared_locals(&self, bi: int) -> int {
        self.local_counts@[bi] as int
    }

    /// Set the program counter of the running frame.
    fn set_pc(&mut self, pc: usize)
        requires
            old(self).wf(),
            old(self).fdepth > 0,
        ensures
            final(self).wf(),
            *final(self) == (Interpreter { frames: final(self).frames, ..*old(self) }),
            final(self).frames@ == old(self).frames@.update(
                old(self).fdepth - 1,
                Frame { pc, ..old(self).top_frame() },
            ),
    {
        let fi = self.fdepth - 1;
        let f = self.frames[fi];
        self.frames.set(fi, Frame { pc, ..f });
        assert forall|i: int| 0 <= i < self.fdepth implies #[trigger] frame_ok(
            self.frames@[i],
            self.bodies@.len() as int,
            self.ctrl_depth as int,
        ) by {
            assert(frame_ok(old(self).frames@[i], self.bodies@.len() as int, self.ctrl_depth as int));
        }
        assert forall|i: int, j: int| 0 <= i < j < self.fdepth implies #[trigger] self.frames@[i].ctrl_base
            <= #[trigger] self.frames@[j].ctrl_base by {
            assert(old(self).frames@[i].ctrl_base <= old(self).frames@[j].ctrl_base);
        }
    }

    /// Open a control frame; `Err(CtrlStackOverflow)` when the control
    /// stack is full.
    fn ctrl_push(&mut self, cf: CtrlFrame) -> (r: Result<(), InterpError>)
        requires
            old(self).wf(),
            cf.end_pc < usize::MAX,
        ensures
            final(self).wf(),
            r is Err <==> old(self).ctrl_depth >= MAX_CTRL_DEPTH,
            r is Err ==> r == Err::<(), InterpError>(InterpError::CtrlStackOverflow) && *final(self) == *old(self),
            r is Ok ==> *final(self) == (Interpreter {
                ctrl: final(self).ctrl,
                ctrl_depth: final(self).ctrl_depth,
                ..*old(self)
            }),
            r is Ok ==> final(self).controls() == old(self).controls().push(cf),
    {
        if self.ctrl_depth >= MAX_CTRL_DEPTH {
            return Err(InterpError::CtrlStackOverflow);
        }
        self.ctrl.set(self.ctrl_depth, cf);
        self.ctrl_depth = self.ctrl_depth + 1;
        assert(self.controls() =~= old(self).controls().push(cf));
        assert forall|i: int| 0 <= i < self.fdepth implies #[trigger] frame_ok(
            self.frames@[i],
            self.bodies@.len() as int,
            self.ctrl_depth as int,
        ) by {
            assert(frame_ok(old(self).frames@[i], self.bodies@.len() as int, old(self).ctrl_depth as int));
        }
        Ok(())
    }

    /// Enter body `bi`: its parameters move from the stack into its first
    /// locals (the deepest parameter first), its other locals start at 0.
    /// `Err(CallStackOverflow)` when the call stack is full,
    /// `Err(TooManyLocals)` when its locals do not fit a frame, and
    /// `Err(StackUnderflow)` when the stack holds fewer values than its
    /// parameters.
    fn push_frame(&mut self, bi: usize) -> (r: Result<(), InterpError>)
        requires
            old(self).wf(),
            bi < old(self).body_bytes().len(),
        ensures
            final(self).wf(),
            push_frame_post(*old(self), *final(self), bi, r),
    {
        if self.fdepth >= CALL_DEPTH {
            return Err(InterpError::CallStackOverflow);
        }
        let type_idx = self.func_type_indices[bi];
        let param_count = if type_idx < self.type_count { self.type_param_counts[type_idx] } else { 0 };
        let result_count = if type_idx < self.type_count { self.type_result_counts[type_idx] } else { 0 };
        let decl_count = self.local_counts[bi];
        if param_count > MAX_LOCALS || decl_count > MAX_LOCALS - param_count {
            return Err(InterpError::TooManyLocals);
        }
        let total = param_count + decl_count;
        let base = self.fdepth * MAX_LOCALS;
        let ghost s0 = self.stack();
        let ghost l0 = self.locals@;
        let mut k: usize = 0;
        while k < MAX_LOCALS
            invariant
                k <= MAX_LOCALS,
                base == old(self).fdepth * MAX_LOCALS,
                old(self).fdepth < CALL_DEPTH,
                *self == (Interpreter { locals: self.locals, ..*old(self) }),
                self.locals@.len() == CALL_DEPTH * MAX_LOCALS,
                forall|j: int| 0 <= j < self.locals@.len() ==> #[trigger] self.locals@[j] == if base <= j < base + k {
                    0
                } else {
                    l0[j]
                },
                l0 == old(self).locals@,
            decreases MAX_LOCALS - k,
        {
            self.locals.set(base + k, 0);
            k = k + 1;
        }
        let mut i = param_count;
        while i > 0
            invariant
                i <= param_count <= MAX_LOCALS,
                base == old(self).fdepth * MAX_LOCALS,
                old(self).fdepth < CALL_DEPTH,
                self.wf(),
                old(self).wf(),
                param_count as int == old(self).param_count(bi as int),
                decl_count as int == old(self).declared_locals(bi as int),
                param_count + decl_count <= MAX_LOCALS,
                result_count as int == old(self).result_count(bi as int),
                bi < old(self).body_bytes().len(),
                self.vsp == old(self).vsp - (param_count - i),
                old(self).vsp >= param_count - i,
                *self == (Interpreter { locals: self.locals, vsp: self.vsp, ..*old(self) }),
                s0 == old(self).stack(),
                l0 == old(self).locals@,
                forall|j: int| 0 <= j < self.locals@.len() ==> #[trigger] self.locals@[j] == if base + i <= j < base
                    + param_count {
                    s0[old(self).vsp - param_count + (j - base)]
                } else if base <= j < base + MAX_LOCALS {
                    0
                } else {
                    l0[j]
                },
            decreases i,
        {
            let ghost pre = *self;
            let v = self.pop()?;
            proof {
                assert(pre.vstack@ == old(self).vstack@);
                assert(pre.vsp >= 1);
                assert(pre.stack().last() == pre.vstack@[pre.vsp - 1]);
                assert(pre.vsp - 1 == old(self).vsp - param_count + (i - 1));
                assert(v == s0[old(self).vsp - param_count + (i - 1)]);
            }
            self.locals.set(base + i - 1, v);
            i = i - 1;
        }
        let frame = Frame {
            body_idx: bi,
            pc: 0,
            local_count: total,
            ctrl_base: self.ctrl_depth,
            vsp_base: self.vsp,
            result_count,
        };
        let ghost f0 = self.frames@;
        self.frames.set(self.fdepth, frame);
        self.fdepth = self.fdepth + 1;
        proof {
            assert(self.call_frames() =~= old(self).call_frames().push(frame));
            assert(self.stack() =~= old(self).stack().take(old(self).vsp - param_count));
            assert forall|i: int| 0 <= i < self.fdepth implies #[trigger] frame_ok(
                self.frames@[i],
                self.bodies@.len() as int,
                self.ctrl_depth as int,
            ) by {
                if i < old(self).fdepth {
                    assert(frame_ok(f0[i], self.bodies@.len() as int, self.ctrl_depth as int));
                }
            }
            assert forall|i: int, j: int| 0 <= i < j < self.fdepth implies #[trigger] self.frames@[i].ctrl_base
                <= #[trigger] self.frames@[j].ctrl_base by {
                if j < old(self).fdepth {
                    assert(f0[i].ctrl_base <= f0[j].ctrl_base);
                } else {
                    assert(frame_ok(f0[i], self.bodies@.len() as int, self.ctrl_depth as int));
                }
            }
            assert forall|k: int| 0 <= k < MAX_LOCALS implies #[trigger] self.local(old(self).fdepth as int, k)
                == if k < param_count { s0[old(self).vsp - param_count + k] } else { 0 } by {
                assert(self.locals@[base + k] == self.local(old(self).fdepth as int, k));
            }
            let d0 = old(self).fdepth as int;
            assert forall|i: int, k: int| 0 <= i < d0 && 0 <= k < MAX_LOCALS implies #[trigger] self.local(
                i,
                k,
            ) == old(self).local(i, k) by {
                assert(i * MAX_LOCALS + k < base) by (nonlinear_arith)
                    requires
                        0 <= i < d0,
                        0 <= k < MAX_LOCALS,
                        base == d0 * MAX_LOCALS,
                ;
                assert(self.locals@[i * MAX_LOCALS + k] == l0[i * MAX_LOCALS + k]);
            }
        }
        Ok(())
    }

    /// Leave the running frame: its top `result_count` values (as copied
    /// one by one, lowest first) move down to its stack base, and the
    /// control stack goes back to where it was at entry.
    /// `Err(StackOverflow)` when the results would not fit the stack.
    fn do_return(&mut self) -> (r: Result<(), InterpError>)
        requires
            old(self).wf(),
            old(self).fdepth > 0,
        ensures
            final(self).wf(),
            do_return_post(*old(self), *final(self), r),
    {
        let fi = self.fdepth - 1;
        let f = self.frames[fi];
        assert(frame_ok(self.frames@[fi as int], self.bodies@.len() as int, self.ctrl_depth as int));
        let result_count = f.result_count;
        let vsp_base = f.vsp_base;
        if result_count > STACK_DEPTH - vsp_base {
            return Err(InterpError::StackOverflow);
        }
        let src = if self.vsp >= result_count { self.vsp - result_count } else { 0 };
        let ghost v0 = self.vstack@;
        let mut i: usize = 0;
        while i < result_count
            invariant
                i <= result_count,
                vsp_base + result_count <= STACK_DEPTH,
                src + result_count <= STACK_DEPTH,
                self.vstack@.len() == STACK_DEPTH,
                v0.len() == STACK_DEPTH,
                self.vstack@ == copy_forward(v0, src as int, vsp_base as int, i as nat),
                *self == (Interpreter { vstack: self.vstack, ..*old(self) }),
                v0 == old(self).vstack@,
            decreases result_count - i,
        {
            proof {
                lemma_copy_forward_len(v0, src as int, vsp_base as int, i as nat);
            }
            let v = self.vstack[src + i];
            self.vstack.set(vsp_base + i, v);
            i = i + 1;
        }
        proof {
            lemma_copy_forward_len(v0, src as int, vsp_base as int, result_count as nat);
        }
        self.vsp = vsp_base + result_count;
        self.ctrl_depth = f.ctrl_base;
        self.fdepth = fi;
        assert forall|i: int| 0 <= i < self.fdepth implies #[trigger] frame_ok(
            self.frames@[i],
            self.bodies@.len() as int,
            self.ctrl_depth as int,
        ) by {
            assert(frame_ok(self.frames@[i], self.bodies@.len() as int, old(self).ctrl_depth as int));
            assert(self.frames@[i].ctrl_base <= self.frames@[fi as int].ctrl_base);
        }
        Ok(())
    }

    /// Branch to label `n` of the running frame: past the function's outer
    /// block it returns (see `do_return`); to a `loop` it keeps that loop
    /// open and goes back to its start; to a `block` or `if` it closes it
    /// and goes past its `end`.
    fn do_br(&mut self, n: usize) -> (r: Result<(), InterpError>)
        requires
            old(self).wf(),
            old(self).fdepth > 0,
        ensures
            final(self).wf(),
            do_br_post(*old(self), *final(self), n as int, r),
    {
        let fi = self.fdepth - 1;
        let f = self.frames[fi];
        assert(frame_ok(self.frames@[fi as int], self.bodies@.len() as int, self.ctrl_depth as int));
        let available = self.ctrl_depth - f.ctrl_base;
        if n >= available {
            return self.do_return();
        }
        let target = self.ctrl_depth - 1 - n;
        let cf = self.ctrl[target];
        assert(self.ctrl@[target as int].end_pc < usize::MAX);
        match cf.kind {
            BlockKind::Loop => {
                self.set_pc(cf.pc_start);
                self.ctrl_depth = target + 1;
            },
            _ => {
                self.set_pc(cf.end_pc + 1);
                self.ctrl_depth = target;
            },
        }
        proof {
            assert forall|i: int| 0 <= i < self.fdepth implies #[trigger] frame_ok(
                self.frames@[i],
                self.bodies@.len() as int,
                self.ctrl_depth as int,
            ) by {
                assert(frame_ok(old(self).frames@[i], self.bodies@.len() as int, old(self).ctrl_depth as int));
                if i < fi {
                    assert(old(self).frames@[i].ctrl_base <= old(self).frames@[fi as int].ctrl_base);
                }
            }
        }
        Ok(())
    }
}

proof fn lemma_copy_forward_len(s: Seq<i64>, src: int, dst: int, n: nat)
    requires
        0 <= dst,
        dst + n <= s.len(),
    ensures
        copy_forward(s, src, dst, n).len() == s.len(),
    decreases n,
{
    if n > 0 {
        lemma_copy_forward_len(s, src, dst, (n - 1) as nat);
    }
}


/// The unsigned LEB-128 immediate at `pc` of `body`, and its length.
pub fn imm_u32(body: &[u8], pc: usize) -> (r: Option<(u32, usize)>)
    requires
        pc <= body@.len(),
    ensures
        r == uleb32_decode(body@.skip(pc as int)),
        match r {
            Some((_, n)) => 1 <= n && pc + n <= body@.len(),
            None => true,
        },
{
    let rest = vstd::slice::slice_subrange(body, pc, body.len());
    assert(rest@ =~= body@.skip(pc as int));
    read_u32_leb128(rest)
}

/// A memory instruction's immediates at `pc`: alignment (ignored), then
/// offset; gives the offset and their total length.
pub open spec fn memarg(b: Seq<u8>, pc: int) -> Option<(u32, int)> {
    match uleb32_decode(b.skip(pc)) {
        Some((_, n1)) => match uleb32_decode(b.skip(pc + n1)) {
            Some((off, n2)) => Some((off, n1 + n2)),
            None => None,
        },
        None => None,
    }
}

/// `memarg(body, pc)`.
fn read_memarg(body: &[u8], pc: usize) -> (r: Option<(u32, usize)>)
    requires
        pc <= body@.len(),
    ensures
        match memarg(body@, pc as int) {
            Some((off, n)) => r == Some((off, n as usize)) && pc + n <= body@.len(),
            None => r is None,
        },
{
    let blen = body.len();
    match imm_u32(body, pc) {
        Some((_, n1)) => match imm_u32(body, pc + n1) {
            Some((off, n2)) => Some((off, n1 + n2)),
            None => None,
        },
        None => None,
    }
}

/// Width in bytes of the access of memory opcode `op`, and (for loads)
/// whether narrower values are sign-extended.
pub open spec fn access_shape(op: u8) -> (nat, bool) {
    if op == 0x29 || op == 0x2B || op == 0x37 || op == 0x39 {
        (8, true)
    } else if op == 0x28 || op == 0x34 {
        (4, true)
    } else if op == 0x2A || op == 0x35 || op == 0x36 || op == 0x38 || op == 0x3E {
        (4, false)
    } else if op == 0x2E || op == 0x32 {
        (2, true)
    } else if op == 0x2F || op == 0x33 || op == 0x3B || op == 0x3D {
        (2, false)
    } else if op == 0x2C || op == 0x30 {
        (1, true)
    } else {
        (1, false)
    }
}

/// `access_shape(op)`.
fn shape_of(op: u8) -> (r: (usize, bool))
    ensures
        r.0 as nat == access_shape(op).0,
        r.1 == access_shape(op).1,
        1 <= r.0 <= 8,
{
    if op == 0x29 || op == 0x2B || op == 0x37 || op == 0x39 {
        (8, true)
    } else if op == 0x28 || op == 0x34 {
        (4, true)
    } else if op == 0x2A || op == 0x35 || op == 0x36 || op == 0x38 || op == 0x3E {
        (4, false)
    } else if op == 0x2E || op == 0x32 {
        (2, true)
    } else if op == 0x2F || op == 0x33 || op == 0x3B || op == 0x3D {
        (2, false)
    } else if op == 0x2C || op == 0x30 {
        (1, true)
    } else {
        (1, false)
    }
}

/// The effective address of an access: the address operand cut to 32
/// bits, plus the offset.
pub open spec fn effective(addr: i64, off: u32) -> int {
    addr as u32 as int + off as int
}

impl<'a> Interpreter<'a> {
    /// The running frame is at `pc` of `body`.
    pub closed spec fn running(&self, body: Seq<u8>, pc: usize) -> bool {
        &&& self.fdepth > 0
        &&& self.top_frame().pc == pc
        &&& pc <= body.len()
        &&& self.top_frame().body_idx < self.bodies@.len()
        &&& self.bodies@[self.top_frame().body_idx as int]@ == body
    }

    /// A load (`0x28..=0x35`) at `pc`: read its offset, pop an address,
    /// push the value of the bytes there (see `load_value`).
    /// `Err(MalformedCode)` for cut-off immediates, `Err(StackUnderflow)` on
    /// an empty stack, `Err(MemOutOfBounds)` past the active memory.
    fn exec_load(&mut self, op: u8, body: &[u8], pc: usize) -> (r: Result<(), InterpError>)
        requires
            old(self).wf(),
            old(self).running(body@, pc),
            0x28 <= op <= 0x35,
        ensures
            final(self).wf(),
            exec_load_post(*old(self), *final(self), op, body@, pc, r),
    {
        let blen = body.len();
        let (offset, consumed) = match read_memarg(body, pc) {
            Some(x) => x,
            None => return Err(InterpError::MalformedCode),
        };
        self.set_pc(pc + consumed);
        let ghost s = self.stack();
        let addr = self.pop()?;
        let ea: u64 = addr as u32 as u64 + offset as u64;
        let (w, signed) = shape_of(op);
        let active = self.active_mem_bytes();
        if ea + w as u64 > active as u64 {
            return Err(InterpError::MemOutOfBounds);
        }
        let at = ea as usize;
        let raw = read_le(self.mem.as_slice(), at, w);
        let val: i64 = if w == 8 {
            raw as i64
        } else if w == 4 {
            if signed { raw as u32 as i32 as i64 } else { raw as i64 }
        } else if w == 2 {
            if signed { raw as u16 as i16 as i64 } else { raw as i64 }
        } else {
            if signed { raw as u8 as i8 as i64 } else { raw as i64 }
        };
        proof {
            let bytes = old(self).mem@.subrange(at as int, at + w);
            assert(bytes.len() == w);
            assert(raw as nat == le_value(bytes));
            assert(val == load_value(bytes, signed));
        }
        self.v_push(val)
    }

    /// A store (`0x36..=0x3E`) at `pc`: read its offset, pop a value and an
    /// address, and write the value's low bytes there, little-endian.
    /// `Err(MalformedCode)` for cut-off immediates, `Err(StackUnderflow)`
    /// when fewer than two values are on the stack, `Err(MemOutOfBounds)`
    /// past the active memory.
    fn exec_store(&mut self, op: u8, body: &[u8], pc: usize) -> (r: Result<(), InterpError>)
        requires
            old(self).wf(),
            old(self).running(body@, pc),
            0x36 <= op <= 0x3E,
        ensures
            final(self).wf(),
            exec_store_post(*old(self), *final(self), op, body@, pc, r),
    {
        let blen = body.len();
        let (offset, consumed) = match read_memarg(body, pc) {
            Some(x) => x,
            None => return Err(InterpError::MalformedCode),
        };
        self.set_pc(pc + consumed);
        let ghost s = self.stack();
        let val = self.pop()?;
        let addr = self.pop()?;
        let ea: u64 = addr as u32 as u64 + offset as u64;
        let (w, _) = shape_of(op);
        let active = self.active_mem_bytes();
        if ea + w as u64 > active as u64 {
            return Err(InterpError::MemOutOfBounds);
        }
        proof {
            assert(self.stack() =~= s.take(s.len() - 2));
        }
        write_le(&mut self.mem, ea as usize, w, val as u64);
        Ok(())
    }
}


/// Linear memory after copying `n` bytes from `src` to `dst` as if through
/// a buffer (the ranges may overlap).
pub open spec fn copied(m: Seq<u8>, src: int, dst: int, n: int) -> Seq<u8> {
    Seq::new(m.len(), |k: int| if dst <= k < dst + n { m[src + (k - dst)] } else { m[k] })
}

/// Linear memory after setting `n` bytes from `dst` to `v`.
pub open spec fn filled(m: Seq<u8>, dst: int, n: int, v: u8) -> Seq<u8> {
    Seq::new(m.len(), |k: int| if dst <= k < dst + n { v } else { m[k] })
}

impl<'a> Interpreter<'a> {
    /// `local.get`, `local.set`, `local.tee` (`0x20..=0x22`) at `pc`: read
    /// the index; `Err(LocalIndexOutOfRange)` past the frame's locals; get
    /// pushes the local, set pops into it, tee copies the top into it
    /// (`Err(StackUnderflow)` on an empty stack).
    fn exec_local(&mut self, op: u8, body: &[u8], pc: usize) -> (r: Result<(), InterpError>)
        requires
            old(self).wf(),
            old(self).running(body@, pc),
            0x20 <= op <= 0x22,
        ensures
            final(self).wf(),
            exec_local_post(*old(self), *final(self), op, body@, pc, r),
    {
        let (idx, consumed) = match imm_u32(body, pc) {
            Some(x) => x,
            None => return Err(InterpError::MalformedCode),
        };
        let blen = body.len();
        self.set_pc(pc + consumed);
        let fi = self.fdepth - 1;
        let f = self.frames[fi];
        assert(frame_ok(self.frames@[fi as int], self.bodies@.len() as int, self.ctrl_depth as int));
        let idx = idx as usize;
        if idx >= f.local_count {
            return Err(InterpError::LocalIndexOutOfRange);
        }
        let slot = fi * MAX_LOCALS + idx;
        assert(slot < CALL_DEPTH * MAX_LOCALS) by (nonlinear_arith)
            requires
                fi < CALL_DEPTH,
                idx < MAX_LOCALS,
                slot == fi * MAX_LOCALS + idx,
        ;
        if op == 0x20 {
            let v = self.locals[slot];
            self.v_push(v)
        } else if op == 0x21 {
            let v = self.pop()?;
            self.locals.set(slot, v);
            Ok(())
        } else {
            if self.vsp == 0 {
                return Err(InterpError::StackUnderflow);
            }
            let v = self.vstack[self.vsp - 1];
            self.locals.set(slot, v);
            Ok(())
        }
    }

    /// `global.get`, `global.set` (`0x23`, `0x24`) at `pc`: read the index;
    /// `Err(GlobalIndexOutOfRange)` past the globals; get pushes the global;
    /// set pops into it, `Err(GlobalImmutable)` for a constant one.
    fn exec_global(&mut self, op: u8, body: &[u8], pc: usize) -> (r: Result<(), InterpError>)
        requires
            old(self).wf(),
            old(self).running(body@, pc),
            op == 0x23 || op == 0x24,
        ensures
            final(self).wf(),
            exec_global_post(*old(self), *final(self), op, body@, pc, r),
    {
        let (idx, consumed) = match imm_u32(body, pc) {
            Some(x) => x,
            None => return Err(InterpError::MalformedCode),
        };
        let blen = body.len();
        self.set_pc(pc + consumed);
        let idx = idx as usize;
        if idx >= self.global_count {
            return Err(InterpError::GlobalIndexOutOfRange);
        }
        if op == 0x23 {
            let v = self.globals[idx];
            self.v_push(v)
        } else {
            if !self.global_mutable[idx] {
                return Err(InterpError::GlobalImmutable);
            }
            let v = self.pop()?;
            self.globals.set(idx, v);
            assert(self.global_values() =~= old(self).global_values().update(idx as int, v));
            Ok(())
        }
    }

    /// A one-operand integer instruction: pop `a`, push `unop(op, a)`.
    fn exec_unop(&mut self, op: u8) -> (r: Result<(), InterpError>)
        requires
            old(self).wf(),
            is_unop(op),
        ensures
            final(self).wf(),
            exec_unop_post(*old(self), *final(self), op, r),
    {
        let a = self.pop()?;
        self.v_push(eval_unop(op, a))
    }

    /// A two-operand integer instruction: pop `b`, pop `a`, push
    /// `binop(op, a, b)` (or fail as it does).
    fn exec_binop(&mut self, op: u8) -> (r: Result<(), InterpError>)
        requires
            old(self).wf(),
            is_binop(op),
        ensures
            final(self).wf(),
            exec_binop_post(*old(self), *final(self), op, r),
    {
        let ghost s = self.stack();
        let b = self.pop()?;
        let a = self.pop()?;
        assert(self.stack() =~= s.take(s.len() - 2));
        let v = eval_binop(op, a, b)?;
        self.v_push(v)
    }

    /// `memory.size` (`0x3F`): skip the reserved byte, push the page count.
    /// `memory.grow` (`0x40`): skip the reserved byte, pop a page count
    /// (cut to 32 bits); if the memory can grow by that many pages, zero
    /// them, grow, and push the old page count; else push -1.
    fn exec_memory_size(&mut self, op: u8, body: &[u8], pc: usize) -> (r: Result<(), InterpError>)
        requires
            old(self).wf(),
            old(self).running(body@, pc),
            op == 0x3F || op == 0x40,
        ensures
            final(self).wf(),
            exec_memory_size_post(*old(self), *final(self), op, body@, pc, r),
    {
        let blen = body.len();
        let next = if pc < blen { pc + 1 } else { pc };
        self.set_pc(next);
        if op == 0x3F {
            return self.v_push(self.current_pages as i64);
        }
        let ghost s = self.stack();
        let delta = self.pop()? as u32;
        let old_pages = self.current_pages;
        if old_pages.saturating_add(delta) <= self.max_pages {
            let mlen = self.mem.len();
            let maxp = self.max_pages;
            assert(old_pages + delta <= maxp);
            assert((old_pages + delta) as int * PAGE_SIZE <= mlen) by (nonlinear_arith)
                requires
                    old_pages + delta <= maxp,
                    maxp as int * PAGE_SIZE <= mlen,
            ;
            assert(old_pages as int * PAGE_SIZE <= (old_pages + delta) as int * PAGE_SIZE) by (nonlinear_arith)
                requires
                    old_pages <= old_pages + delta,
            ;
            let old_bytes = old_pages as usize * PAGE_SIZE;
            let new_bytes = (old_pages + delta) as usize * PAGE_SIZE;
            let ghost m0 = self.mem@;
            let ghost pre = *self;
            let mut k = old_bytes;
            while k < new_bytes
                invariant
                    old_bytes <= k <= new_bytes,
                    new_bytes <= mlen,
                    mlen == self.mem@.len(),
                    m0.len() == mlen,
                    m0 == pre.mem@,
                    pre.wf(),
                    *self == (Interpreter { mem: self.mem, ..pre }),
                    forall|j: int| 0 <= j < mlen ==> #[trigger] self.mem@[j] == if old_bytes <= j < k {
                        0u8
                    } else {
                        m0[j]
                    },
                decreases new_bytes - k,
            {
                self.mem.set(k, 0);
                k = k + 1;
            }
            assert(self.mem@ =~= filled(m0, old_bytes as int, (new_bytes - old_bytes) as int, 0));
            self.current_pages = old_pages + delta;
            assert(self.stack() =~= s.drop_last());
            self.v_push(old_pages as i64)
        } else {
            self.v_push(-1)
        }
    }

    /// `i32.const` (`0x41`) and `i64.const` (`0x42`) push their signed
    /// LEB-128 immediate; `f32.const` (`0x43`) and `f64.const` (`0x44`)
    /// push the bits of their 4 or 8 literal bytes.
    fn exec_const(&mut self, op: u8, body: &[u8], pc: usize) -> (r: Result<(), InterpError>)
        requires
            old(self).wf(),
            old(self).running(body@, pc),
            0x41 <= op <= 0x44,
        ensures
            final(self).wf(),
            exec_const_post(*old(self), *final(self), op, body@, pc, r),
    {
        let blen = body.len();
        if op == 0x41 || op == 0x42 {
            let rest = vstd::slice::slice_subrange(body, pc, blen);
            assert(rest@ =~= body@.skip(pc as int));
            if op == 0x41 {
                match read_i32_leb128(rest) {
                    Some((v, n)) => {
                        self.set_pc(pc + n);
                        self.v_push(v as i64)
                    },
                    None => Err(InterpError::MalformedCode),
                }
            } else {
                match read_i64_leb128(rest) {
                    Some((v, n)) => {
                        self.set_pc(pc + n);
                        self.v_push(v)
                    },
                    None => Err(InterpError::MalformedCode),
                }
            }
        } else {
            let w: usize = if op == 0x43 { 4 } else { 8 };
            if blen - pc < w {
                return Err(InterpError::MalformedCode);
            }
            let bits = read_le(body, pc, w);
            self.set_pc(pc + w);
            self.v_push(bits as i64)
        }
    }
}


/// Whether `op` is a floating-point instruction without immediates, which
/// the host carries out on the value stack.
pub open spec fn is_float_op(op: u8) -> bool {
    (0x5B <= op <= 0x66) || (0x8B <= op <= 0xA6) || (0xA8 <= op <= 0xAB) || (0xAE <= op <= 0xBB)
}

impl<'a> Interpreter<'a> {
    /// The `(end, else)` of the block of the running body that starts at
    /// `start`: from the jump table, else by a scan; either way what
    /// `scan_block` gives.
    fn locate_block(&self, body: &[u8], start: usize) -> (r: Option<(usize, usize)>)
        requires
            self.wf(),
            self.fdepth > 0,
            self.top_frame().body_idx < self.bodies@.len(),
            self.bodies@[self.top_frame().body_idx as int]@ == body@,
        ensures
            match scan_block(body@, start as int) {
                Some((e, el)) => r == Some((e as usize, el as usize)) && 0 <= e < body@.len() && (el == NO_ELSE || 0
                    <= el < e),
                None => r is None,
            },
    {
        let bi = self.frames[self.fdepth - 1].body_idx;
        proof {
            lemma_scan_bounds(body@, start as int, 1, NO_ELSE as int);
            assert(body_seqs(self.bodies@)[bi as int] == body@);
        }
        match jump_lookup(&self.jump_table, Ghost(body_seqs(self.bodies@)), bi, start) {
            Some(x) => Some(x),
            None => scan_block_end(body, start),
        }
    }

    /// `block`, `loop`, `if` (`0x02..=0x04`) at `pc` (their block type
    /// byte): find the block's `end`/`else` (`Err(MalformedCode)` if none);
    /// `block` and `loop` open a control frame and run the body; `if` pops a
    /// condition: nonzero runs the body, zero runs the `else` branch (still
    /// opening a frame) or, without one, skips past the `end`.
    fn exec_block(&mut self, op: u8, body: &[u8], pc: usize) -> (r: Result<(), InterpError>)
        requires
            old(self).wf(),
            old(self).running(body@, pc),
            0x02 <= op <= 0x04,
        ensures
            final(self).wf(),
            exec_block_post(*old(self), *final(self), op, body@, pc, r),
    {
        let blen = body.len();
        if pc >= blen {
            return Err(InterpError::MalformedCode);
        }
        let pc_body = pc + 1;
        self.set_pc(pc_body);
        let (end_pc, else_pc) = match self.locate_block(body, pc_body) {
            Some(x) => x,
            None => return Err(InterpError::MalformedCode),
        };
        if op == 0x02 {
            self.ctrl_push(CtrlFrame { kind: BlockKind::Block, pc_start: pc_body, end_pc })
        } else if op == 0x03 {
            self.ctrl_push(CtrlFrame { kind: BlockKind::Loop, pc_start: pc_body, end_pc })
        } else {
            let cond = self.pop()?;
            if cond != 0 {
                self.ctrl_push(CtrlFrame { kind: BlockKind::If, pc_start: pc_body, end_pc })
            } else if else_pc != NO_ELSE {
                self.ctrl_push(CtrlFrame { kind: BlockKind::If, pc_start: pc_body, end_pc })?;
                self.set_pc(else_pc + 1);
                Ok(())
            } else {
                self.set_pc(end_pc + 1);
                Ok(())
            }
        }
    }

    /// `else` (`0x05`): the `then` branch is done; close the `if` and go past
    /// its `end`. `Err(MalformedCode)` when the frame has no open block.
    fn exec_else(&mut self) -> (r: Result<(), InterpError>)
        requires
            old(self).wf(),
            old(self).fdepth > 0,
        ensures
            final(self).wf(),
            exec_else_post(*old(self), *final(self), r),
    {
        let fi = self.fdepth - 1;
        let f = self.frames[fi];
        if self.ctrl_depth <= f.ctrl_base {
            return Err(InterpError::MalformedCode);
        }
        let end_pc = self.ctrl[self.ctrl_depth - 1].end_pc;
        assert(self.ctrl@[self.ctrl_depth - 1].end_pc < usize::MAX);
        self.set_pc(end_pc + 1);
        self.ctrl_depth = self.ctrl_depth - 1;
        proof {
            assert(self.controls() =~= old(self).controls().drop_last());
            assert forall|i: int| 0 <= i < self.fdepth implies #[trigger] frame_ok(
                self.frames@[i],
                self.bodies@.len() as int,
                self.ctrl_depth as int,
            ) by {
                assert(frame_ok(old(self).frames@[i], self.bodies@.len() as int, old(self).ctrl_depth as int));
                if i < fi {
                    assert(old(self).frames@[i].ctrl_base <= old(self).frames@[fi as int].ctrl_base);
                }
            }
        }
        Ok(())
    }

    /// `end` (`0x0B`): close the innermost block of the frame, or, when it
    /// has none open, return from the function (see `do_return`).
    fn exec_end(&mut self) -> (r: Result<(), InterpError>)
        requires
            old(self).wf(),
            old(self).fdepth > 0,
        ensures
            final(self).wf(),
            exec_end_post(*old(self), *final(self), r),
    {
        let fi = self.fdepth - 1;
        let f = self.frames[fi];
        if self.ctrl_depth > f.ctrl_base {
            self.ctrl_depth = self.ctrl_depth - 1;
            proof {
                assert(self.controls() =~= old(self).controls().drop_last());
                assert forall|i: int| 0 <= i < self.fdepth implies #[trigger] frame_ok(
                    self.frames@[i],
                    self.bodies@.len() as int,
                    self.ctrl_depth as int,
                ) by {
                    assert(frame_ok(old(self).frames@[i], self.bodies@.len() as int, old(self).ctrl_depth as int));
                    if i < fi {
                        assert(old(self).frames@[i].ctrl_base <= old(self).frames@[fi as int].ctrl_base);
                    }
                }
            }
            Ok(())
        } else {
            self.do_return()
        }
    }

    /// `br` (`0x0C`) and `br_if` (`0x0D`) at `pc`: read the label; `br_if`
    /// pops a condition and branches only on nonzero (see `do_br`).
    fn exec_br(&mut self, op: u8, body: &[u8], pc: usize) -> (r: Result<(), InterpError>)
        requires
            old(self).wf(),
            old(self).running(body@, pc),
            op == 0x0C || op == 0x0D,
        ensures
            final(self).wf(),
            exec_br_post(*old(self), *final(self), op, body@, pc, r),
    {
        let (n, consumed) = match imm_u32(body, pc) {
            Some(x) => x,
            None => return Err(InterpError::MalformedCode),
        };
        let blen = body.len();
        let ghost s0 = *self;
        self.set_pc(pc + consumed);
        let ghost sp = *self;
        proof {
            assert(pc_moved(s0, sp, (pc + consumed) as usize));
        }
        if op == 0x0D {
            let cond = self.pop()?;
            if cond == 0 {
                assert(br_taken(sp, *self, op, n as int, Ok(())));
                return Ok(());
            }
        }
        let r = self.do_br(n as usize);
        assert(br_taken(sp, *self, op, n as int, r));
        r
    }

    /// `br_table` (`0x0E`) at `pc`: read the label count and the labels and
    /// the default; pop an index (cut to 32 bits) and branch to its label,
    /// or to the default when it is past the last.
    fn exec_br_table(&mut self, body: &[u8], pc: usize) -> (r: Result<(), InterpError>)
        requires
            old(self).wf(),
            old(self).running(body@, pc),
        ensures
            final(self).wf(),
            exec_br_table_post(*old(self), *final(self), body@, pc, r),
    {
        let blen = body.len();
        let (count, n) = match imm_u32(body, pc) {
            Some(x) => x,
            None => return Err(InterpError::MalformedCode),
        };
        let ghost s0 = *self;
        let i = match self.pop() {
            Ok(v) => v as u32,
            Err(e) => return Err(e),
        };
        let ghost sq = *self;
        proof {
            assert(sq == Interpreter { vsp: (s0.vsp - 1) as usize, ..s0 });
        }
        let pick = if i < count { i } else { count };
        let mut pos = pc + n;
        let mut target: u32 = 0;
        let mut k: u64 = 0;
        while k <= count as u64
            invariant
                pos <= blen,
                blen == body@.len(),
                self.wf(),
                *self == sq,
                self.fdepth == old(self).fdepth,
                self.running(body@, pc),
                self.bodies == old(self).bodies,
                self.import_count == old(self).import_count,
                self.mem == old(self).mem,
                self.current_pages == old(self).current_pages,
                k <= count as u64 + 1,
                pick <= count,
                sq == (Interpreter { vsp: (old(self).vsp - 1) as usize, ..*old(self) }),
                old(self).stack().len() > 0,
                i == old(self).stack().last() as u32,
                pick == (if i < count { i } else { count }),
                uleb32_decode(body@.skip(pc as int)) == Some((count, n)),
                skip_labels(body@, pc + n, k as nat) == Some(pos as int),
                k > pick ==> target as int == label_at(body@, pc + n, pick as nat),
            decreases count as u64 + 1 - k,
        {
            let (label, ln) = match imm_u32(body, pos) {
                Some(x) => x,
                None => {
                    proof {
                        assert(skip_labels(body@, pc + n, (k + 1) as nat) is None);
                        lemma_skip_labels_none(body@, pc + n, (k + 1) as nat, (count + 1) as nat);
                    }
                    return Err(InterpError::MalformedCode);
                },
            };
            if k == pick as u64 {
                target = label;
            }
            pos = pos + ln;
            k = k + 1;
        }
        self.set_pc(pos);
        let ghost sp = *self;
        proof {
            assert(pc_moved(sq, sp, pos));
        }
        let r = self.do_br(target as usize);
        proof {
            assert(do_br_post(sp, *self, label_at(body@, pc + n, pick as nat), r));
            assert(popped_then_br(*old(self), *self, pos as int, label_at(body@, pc + n, pick as nat), r)) by {
                assert(pc_moved(Interpreter { vsp: (old(self).vsp - 1) as usize, ..*old(self) }, sp, (pos as int) as usize));
            }
        }
        r
    }

    /// `call` (`0x10`) at `pc`: read the callee; an import is handed to the
    /// host (`Exit::Host`); a defined function is entered (see
    /// `push_frame`), `Err(FuncIndexOutOfRange)` past the last body.
    fn exec_call(&mut self, body: &[u8], pc: usize) -> (r: Result<Option<Exit>, InterpError>)
        requires
            old(self).wf(),
            old(self).running(body@, pc),
        ensures
            final(self).wf(),
            exec_call_post(*old(self), *final(self), body@, pc, r),
    {
        let (callee, consumed) = match imm_u32(body, pc) {
            Some(x) => x,
            None => return Err(InterpError::MalformedCode),
        };
        let blen = body.len();
        let ghost s0 = *self;
        self.set_pc(pc + consumed);
        proof {
            assert(pc_moved(s0, *self, (pc + consumed) as usize));
        }
        self.enter(callee as usize)
    }

    /// Call function `callee` (imports first, then bodies): an import goes
    /// to the host, a body is entered.
    fn enter(&mut self, callee: usize) -> (r: Result<Option<Exit>, InterpError>)
        requires
            old(self).wf(),
        ensures
            final(self).wf(),
            final(self).mem == old(self).mem,
            final(self).bodies == old(self).bodies,
            final(self).import_count == old(self).import_count,
            final(self).current_pages == old(self).current_pages,
            r is Ok ==> r == Ok::<Option<Exit>, InterpError>(None) || (r matches Ok(Some(Exit::Host(k))) && k
                < old(self).import_count),
            r matches Ok(Some(_)) ==> final(self).fdepth == old(self).fdepth,
            callee < old(self).import_count ==> r == Ok::<Option<Exit>, InterpError>(Some(Exit::Host(callee)))
                && *final(self) == *old(self),
            callee >= old(self).import_count && r is Ok ==> r == Ok::<Option<Exit>, InterpError>(None),
            callee >= old(self).import_count + old(self).bodies@.len() ==> r == Err::<Option<Exit>, InterpError>(
                InterpError::FuncIndexOutOfRange,
            ),
            old(self).import_count <= callee < old(self).import_count + old(self).bodies@.len() ==> push_frame_post(
                *old(self),
                *final(self),
                (callee - old(self).import_count) as usize,
                unit_of(r),
            ),
    {
        if callee < self.import_count {
            return Ok(Some(Exit::Host(callee)));
        }
        let bi = callee - self.import_count;
        if bi >= self.bodies.len() {
            return Err(InterpError::FuncIndexOutOfRange);
        }
        self.push_frame(bi)?;
        Ok(None)
    }

    /// `call_indirect` (`0x11`) at `pc`: read the expected type and the
    /// table index; pop an entry index (cut to 32 bits);
    /// `Err(IndirectCallNull)` past the table or on an empty entry,
    /// `Err(IndirectCallTypeMismatch)` when the function's type differs;
    /// else call it as `call` does.
    fn exec_call_indirect(&mut self, body: &[u8], pc: usize) -> (r: Result<Option<Exit>, InterpError>)
        requires
            old(self).wf(),
            old(self).running(body@, pc),
        ensures
            final(self).wf(),
            exec_call_indirect_post(*old(self), *final(self), body@, pc, r),
    {
        let blen = body.len();
        let (expected, n1) = match imm_u32(body, pc) {
            Some(x) => x,
            None => return Err(InterpError::MalformedCode),
        };
        let (_table_idx, n2) = match imm_u32(body, pc + n1) {
            Some(x) => x,
            None => return Err(InterpError::MalformedCode),
        };
        let ghost s0 = *self;
        self.set_pc(pc + n1 + n2);
        let i = self.pop()? as u32 as usize;
        proof {
            assert(pc_moved(Interpreter { vsp: (s0.vsp - 1) as usize, ..s0 }, *self, (pc + n1 + n2) as usize));
        }
        if i >= self.table_size || self.table[i] == NULL_FUNC {
            return Err(InterpError::IndirectCallNull);
        }
        let callee = self.table[i] as usize;
        let actual = if callee < MAX_FUNCS { self.all_func_types[callee] } else { usize::MAX };
        if actual != expected as usize {
            return Err(InterpError::IndirectCallTypeMismatch);
        }
        let ghost mid = *self;
        assert(mid.stack() =~= old(self).stack().drop_last());
        assert(mid.top_frame().pc == pc + n1 + n2);
        assert(mid.table == old(self).table && mid.all_func_types == old(self).all_func_types);
        self.enter(callee)
    }

    /// The `0xFC` instructions at `pc` (the sub-opcode): 0 to 7, the
    /// saturating float conversions, go to the host (`Exit::FloatSat`);
    /// 8 `memory.init` accepts only a zero-length copy (`Err(UnknownOpcode)`
    /// otherwise); 9 `data.drop` does nothing; 10 `memory.copy` pops a
    /// length, source and destination and copies (`Err(MemOutOfBounds)`
    /// when either range leaves the active memory); 11 `memory.fill` pops a
    /// length, byte and destination and fills; others are
    /// `Err(UnknownOpcode(0xFC))`.
    fn exec_fc(&mut self, body: &[u8], pc: usize) -> (r: Result<Option<Exit>, InterpError>)
        requires
            old(self).wf(),
            old(self).running(body@, pc),
        ensures
            final(self).wf(),
            exec_fc_post(*old(self), *final(self), body@, pc, r),
    {
        let blen = body.len();
        let (sub, n) = match imm_u32(body, pc) {
            Some(x) => x,
            None => return Err(InterpError::MalformedCode),
        };
        let pc2 = pc + n;
        self.set_pc(pc2);
        if sub <= 7 {
            return Ok(Some(Exit::FloatSat(sub)));
        }
        if sub == 8 {
            let (_seg, n2) = match imm_u32(body, pc2) {
                Some(x) => x,
                None => return Err(InterpError::MalformedCode),
            };
            let next = if pc2 + n2 < blen { pc2 + n2 + 1 } else { blen };
            self.set_pc(next);
            let count = self.pop()?;
            let _src = self.pop()?;
            let _dst = self.pop()?;
            if count != 0 {
                return Err(InterpError::UnknownOpcode(0xFC));
            }
            return Ok(None);
        }
        if sub == 9 {
            let (_seg, n2) = match imm_u32(body, pc2) {
                Some(x) => x,
                None => return Err(InterpError::MalformedCode),
            };
            self.set_pc(pc2 + n2);
            return Ok(None);
        }
        if sub == 10 {
            let next = if blen - pc2 >= 2 { pc2 + 2 } else { blen };
            self.set_pc(next);
            let ghost s = self.stack();
            let len = self.pop()? as u64;
            let src = self.pop()? as u64;
            let dst = self.pop()? as u64;
            let limit = self.active_mem_bytes() as u64;
            if src.saturating_add(len) > limit || dst.saturating_add(len) > limit {
                return Err(InterpError::MemOutOfBounds);
            }
            assert(self.stack() =~= s.take(s.len() - 3));
            self.copy_within(src as usize, dst as usize, len as usize);
            return Ok(None);
        }
        if sub == 11 {
            let next = if pc2 < blen { pc2 + 1 } else { blen };
            self.set_pc(next);
            let ghost s = self.stack();
            let len = self.pop()? as u64;
            let val = self.pop()? as u8;
            let dst = self.pop()? as u64;
            let limit = self.active_mem_bytes() as u64;
            if dst.saturating_add(len) > limit {
                return Err(InterpError::MemOutOfBounds);
            }
            assert(self.stack() =~= s.take(s.len() - 3));
            self.fill(dst as usize, len as usize, val);
            return Ok(None);
        }
        Err(InterpError::UnknownOpcode(0xFC))
    }

    /// Copy `n` bytes of memory from `src` to `dst` (overlap allowed).
    fn copy_within(&mut self, src: usize, dst: usize, n: usize)
        requires
            old(self).wf(),
            src + n <= old(self).active_bytes(),
            dst + n <= old(self).active_bytes(),
        ensures
            final(self).wf(),
            *final(self) == (Interpreter { mem: final(self).mem, ..*old(self) }),
            final(self).mem@ == copied(old(self).mem@, src as int, dst as int, n as int),
    {
        let ghost m0 = self.mem@;
        let mlen = self.mem.len();
        if dst <= src {
            let mut k: usize = 0;
            while k < n
                invariant
                    mlen == m0.len(),
                    k <= n,
                    dst <= src,
                    src + n <= m0.len(),
                    dst + n <= m0.len(),
                    self.mem@.len() == m0.len(),
                    m0 == old(self).mem@,
                    *self == (Interpreter { mem: self.mem, ..*old(self) }),
                    forall|j: int| 0 <= j < m0.len() ==> #[trigger] self.mem@[j] == if dst <= j < dst + k {
                        m0[src + (j - dst)]
                    } else {
                        m0[j]
                    },
                decreases n - k,
            {
                let b = self.mem[src + k];
                self.mem.set(dst + k, b);
                k = k + 1;
            }
        } else {
            let mut k: usize = n;
            while k > 0
                invariant
                    mlen == m0.len(),
                    k <= n,
                    src < dst,
                    src + n <= m0.len(),
                    dst + n <= m0.len(),
                    self.mem@.len() == m0.len(),
                    m0 == old(self).mem@,
                    *self == (Interpreter { mem: self.mem, ..*old(self) }),
                    forall|j: int| 0 <= j < m0.len() ==> #[trigger] self.mem@[j] == if dst + k <= j < dst + n {
                        m0[src + (j - dst)]
                    } else {
                        m0[j]
                    },
                decreases k,
            {
                let b = self.mem[src + k - 1];
                self.mem.set(dst + k - 1, b);
                k = k - 1;
            }
        }
        assert(self.mem@ =~= copied(m0, src as int, dst as int, n as int));
    }

    /// Set `n` bytes of memory from `dst` to `v`.
    fn fill(&mut self, dst: usize, n: usize, v: u8)
        requires
            old(self).wf(),
            dst + n <= old(self).active_bytes(),
        ensures
            final(self).wf(),
            *final(self) == (Interpreter { mem: final(self).mem, ..*old(self) }),
            final(self).mem@ == filled(old(self).mem@, dst as int, n as int, v),
    {
        let ghost m0 = self.mem@;
        let mlen = self.mem.len();
        let mut k: usize = 0;
        while k < n
            invariant
                mlen == m0.len(),
                k <= n,
                dst + n <= m0.len(),
                self.mem@.len() == m0.len(),
                m0 == old(self).mem@,
                *self == (Interpreter { mem: self.mem, ..*old(self) }),
                forall|j: int| 0 <= j < m0.len() ==> #[trigger] self.mem@[j] == if dst <= j < dst + k {
                    v
                } else {
                    m0[j]
                },
            decreases n - k,
        {
            self.mem.set(dst + k, v);
            k = k + 1;
        }
        assert(self.mem@ =~= filled(m0, dst as int, n as int, v));
    }
}


/// What `do_return` does: its result and the interpreter after it.
pub closed spec fn do_return_post<'a>(s0: Interpreter<'a>, s1: Interpreter<'a>, r: Result<(), InterpError>) -> bool {
    &&& (({
        let f = s0.top_frame();
        let src = if s0.vsp >= f.result_count { s0.vsp - f.result_count } else { 0 };
        &&& r is Err <==> f.vsp_base + f.result_count > STACK_DEPTH
        &&& r is Err ==> r == Err::<(), InterpError>(InterpError::StackOverflow) && s1 == s0
        &&& r is Ok ==> {
            &&& s1.vstack@ == copy_forward(
                s0.vstack@,
                src,
                f.vsp_base as int,
                f.result_count as nat,
            )
            &&& s1.vsp == f.vsp_base + f.result_count
            &&& s1.ctrl_depth == f.ctrl_base
            &&& s1.fdepth == s0.fdepth - 1
            &&& s1 == (Interpreter {
                vstack: s1.vstack,
                vsp: s1.vsp,
                ctrl_depth: s1.ctrl_depth,
                fdepth: s1.fdepth,
                ..s0
            })
        }
    }))
}

/// What a branch to label `n` of the running frame does: past the
/// function's outer block it returns (see `do_return_post`); to a `loop` it
/// keeps that loop open and its pc goes back to the loop's start; to a
/// `block` or `if` it closes it and the pc goes past its `end`.
pub closed spec fn do_br_post<'a>(s0: Interpreter<'a>, s1: Interpreter<'a>, n: int, r: Result<(), InterpError>) -> bool {
    let f = s0.top_frame();
    let avail = s0.ctrl_depth - f.ctrl_base;
    &&& s1.mem == s0.mem
    &&& s1.bodies == s0.bodies
    &&& s1.import_count == s0.import_count
    &&& s1.current_pages == s0.current_pages
    &&& if n >= avail {
        do_return_post(s0, s1, r)
    } else {
        let t = s0.ctrl_depth - 1 - n;
        let cf = s0.ctrl@[t];
        &&& r is Ok
        &&& s1.ctrl_depth == (if cf.kind == BlockKind::Loop { t + 1 } else { t })
        &&& s1.frames@ == s0.frames@.update(
            s0.fdepth - 1,
            Frame { pc: if cf.kind == BlockKind::Loop { cf.pc_start } else { (cf.end_pc + 1) as usize }, ..f },
        )
        &&& s1 == (Interpreter { frames: s1.frames, ctrl_depth: s1.ctrl_depth, ..s0 })
    }
}

/// What `exec_load` does: its result and the interpreter after it.
pub closed spec fn exec_load_post<'a>(s0: Interpreter<'a>, s1: Interpreter<'a>, op: u8, body: Seq<u8>, pc: usize, r: Result<(), InterpError>) -> bool {
    &&& (s1.mem == s0.mem)
    &&& (s1.fdepth == s0.fdepth)
    &&& (s1.bodies == s0.bodies)
    &&& (s1.import_count == s0.import_count)
    &&& (memarg(body, pc as int) is None ==> r == Err::<(), InterpError>(InterpError::MalformedCode))
    &&& (memarg(body, pc as int) matches Some((off, n)) ==> ({
        let s = s0.stack();
        let w = access_shape(op).0;
        &&& s1.top_frame().pc == pc + n
        &&& s.len() == 0 ==> r == Err::<(), InterpError>(InterpError::StackUnderflow)
        &&& s.len() > 0 && effective(s.last(), off) + w > s0.active_bytes() ==> r == Err::<
            (),
            InterpError,
        >(InterpError::MemOutOfBounds)
        &&& s.len() > 0 && effective(s.last(), off) + w <= s0.active_bytes() ==> r is Ok
            && s1.stack() == s.drop_last().push(
            load_value(
                s0.mem@.subrange(effective(s.last(), off), effective(s.last(), off) + w),
                access_shape(op).1,
            ),
        )
    }))
}

/// What `exec_store` does: its result and the interpreter after it.
pub closed spec fn exec_store_post<'a>(s0: Interpreter<'a>, s1: Interpreter<'a>, op: u8, body: Seq<u8>, pc: usize, r: Result<(), InterpError>) -> bool {
    &&& (s1.fdepth == s0.fdepth)
    &&& (s1.bodies == s0.bodies)
    &&& (s1.import_count == s0.import_count)
    &&& (s1.current_pages == s0.current_pages)
    &&& (memarg(body, pc as int) is None ==> r == Err::<(), InterpError>(InterpError::MalformedCode))
    &&& (memarg(body, pc as int) matches Some((off, n)) ==> ({
        let s = s0.stack();
        let w = access_shape(op).0;
        &&& s1.top_frame().pc == pc + n
        &&& s.len() < 2 ==> r == Err::<(), InterpError>(InterpError::StackUnderflow)
        &&& s.len() >= 2 && effective(s[s.len() - 2], off) + w > s0.active_bytes() ==> r == Err::<
            (),
            InterpError,
        >(InterpError::MemOutOfBounds)
        &&& s.len() >= 2 && effective(s[s.len() - 2], off) + w <= s0.active_bytes() ==> r is Ok
            && s1.stack() == s.take(s.len() - 2) && s1.mem@ == stored(
            s0.mem@,
            effective(s[s.len() - 2], off),
            w,
            s.last() as u64 as nat,
        )
    }))
    &&& (r is Err ==> s1.mem == s0.mem)
}

/// What `exec_local` does: its result and the interpreter after it.
pub closed spec fn exec_local_post<'a>(s0: Interpreter<'a>, s1: Interpreter<'a>, op: u8, body: Seq<u8>, pc: usize, r: Result<(), InterpError>) -> bool {
    &&& (s1.mem == s0.mem)
    &&& (s1.fdepth == s0.fdepth)
    &&& (s1.bodies == s0.bodies)
    &&& (s1.import_count == s0.import_count)
    &&& (s1.current_pages == s0.current_pages)
    &&& (uleb32_decode(body.skip(pc as int)) is None ==> r == Err::<(), InterpError>(InterpError::MalformedCode))
    &&& (uleb32_decode(body.skip(pc as int)) matches Some((idx, n)) ==> ({
        let s = s0.stack();
        let fi = s0.fdepth - 1;
        &&& s1.top_frame().pc == pc + n
        &&& idx >= s0.top_frame().local_count ==> r == Err::<(), InterpError>(
            InterpError::LocalIndexOutOfRange,
        )
        &&& idx < s0.top_frame().local_count ==> {
            &&& op == 0x20 ==> (r is Ok <==> s.len() < STACK_DEPTH) && (r is Ok ==> s1.stack()
                == s.push(s0.local(fi, idx as int)))
            &&& op != 0x20 ==> (r is Ok <==> s.len() > 0) && (r is Ok ==> s1.local(fi, idx as int)
                == s.last())
            &&& op == 0x21 && r is Ok ==> s1.stack() == s.drop_last()
            &&& op == 0x22 && r is Ok ==> s1.stack() == s
        }
    }))
}

/// What `exec_global` does: its result and the interpreter after it.
pub closed spec fn exec_global_post<'a>(s0: Interpreter<'a>, s1: Interpreter<'a>, op: u8, body: Seq<u8>, pc: usize, r: Result<(), InterpError>) -> bool {
    &&& (s1.mem == s0.mem)
    &&& (s1.fdepth == s0.fdepth)
    &&& (s1.bodies == s0.bodies)
    &&& (s1.import_count == s0.import_count)
    &&& (s1.current_pages == s0.current_pages)
    &&& (uleb32_decode(body.skip(pc as int)) is None ==> r == Err::<(), InterpError>(InterpError::MalformedCode))
    &&& (uleb32_decode(body.skip(pc as int)) matches Some((idx, n)) ==> ({
        let s = s0.stack();
        let g = s0.global_values();
        &&& s1.top_frame().pc == pc + n
        &&& idx >= g.len() ==> r == Err::<(), InterpError>(InterpError::GlobalIndexOutOfRange)
        &&& idx < g.len() && op == 0x23 ==> (r is Ok <==> s.len() < STACK_DEPTH) && (r is Ok
            ==> s1.stack() == s.push(g[idx as int]))
        &&& idx < g.len() && op == 0x24 && !s0.global_writable()[idx as int] ==> r == Err::<
            (),
            InterpError,
        >(InterpError::GlobalImmutable)
        &&& idx < g.len() && op == 0x24 && s0.global_writable()[idx as int] ==> (r is Ok <==> s.len()
            > 0) && (r is Ok ==> s1.stack() == s.drop_last() && s1.global_values()
            == g.update(idx as int, s.last()))
    }))
}

/// What `exec_unop` does: its result and the interpreter after it.
pub closed spec fn exec_unop_post<'a>(s0: Interpreter<'a>, s1: Interpreter<'a>, op: u8, r: Result<(), InterpError>) -> bool {
    &&& (s1.mem == s0.mem)
    &&& (s1.frames == s0.frames)
    &&& (s1.fdepth == s0.fdepth)
    &&& (s1.bodies == s0.bodies)
    &&& (s1.import_count == s0.import_count)
    &&& (s1.current_pages == s0.current_pages)
    &&& (r is Ok <==> s0.stack().len() > 0)
    &&& (r is Err ==> r == Err::<(), InterpError>(InterpError::StackUnderflow))
    &&& (r is Ok ==> s1.stack() == s0.stack().drop_last().push(unop(op, s0.stack().last())))
}

/// What `exec_binop` does: its result and the interpreter after it.
pub closed spec fn exec_binop_post<'a>(s0: Interpreter<'a>, s1: Interpreter<'a>, op: u8, r: Result<(), InterpError>) -> bool {
    &&& (s1.mem == s0.mem)
    &&& (s1.frames == s0.frames)
    &&& (s1.fdepth == s0.fdepth)
    &&& (s1.bodies == s0.bodies)
    &&& (s1.import_count == s0.import_count)
    &&& (s1.current_pages == s0.current_pages)
    &&& (({
        let s = s0.stack();
        &&& s.len() < 2 ==> r == Err::<(), InterpError>(InterpError::StackUnderflow)
        &&& s.len() >= 2 ==> match binop(op, s[s.len() - 2], s.last()) {
            Ok(v) => r is Ok && s1.stack() == s.take(s.len() - 2).push(v),
            Err(e) => r == Err::<(), InterpError>(e),
        }
    }))
}

/// What `exec_memory_size` does: its result and the interpreter after it.
pub closed spec fn exec_memory_size_post<'a>(s0: Interpreter<'a>, s1: Interpreter<'a>, op: u8, body: Seq<u8>, pc: usize, r: Result<(), InterpError>) -> bool {
    &&& (s1.fdepth == s0.fdepth)
    &&& (s1.bodies == s0.bodies)
    &&& (s1.import_count == s0.import_count)
    &&& (s1.top_frame().pc == (if pc < body.len() { pc + 1 } else { pc as int }))
    &&& (({
        let s = s0.stack();
        let p = s0.pages();
        &&& op == 0x3F ==> (r is Ok <==> s.len() < STACK_DEPTH) && (r is Ok ==> s1.stack()
            == s.push(p as i64) && s1.mem == s0.mem)
        &&& op == 0x40 ==> (r is Ok <==> s.len() > 0) && (r is Ok ==> {
            let d = s.last() as u32;
            if p + d <= s0.page_limit() {
                &&& s1.stack() == s.drop_last().push(p as i64)
                &&& s1.pages() == p + d
                &&& s1.mem@ == filled(s0.mem@, p * PAGE_SIZE, d * PAGE_SIZE, 0)
            } else {
                &&& s1.stack() == s.drop_last().push(-1i64)
                &&& s1.pages() == p
                &&& s1.mem == s0.mem
            }
        })
    }))
}

/// What `exec_const` does: its result and the interpreter after it.
pub closed spec fn exec_const_post<'a>(s0: Interpreter<'a>, s1: Interpreter<'a>, op: u8, body: Seq<u8>, pc: usize, r: Result<(), InterpError>) -> bool {
    &&& (s1.mem == s0.mem)
    &&& (s1.fdepth == s0.fdepth)
    &&& (s1.bodies == s0.bodies)
    &&& (s1.import_count == s0.import_count)
    &&& (s1.current_pages == s0.current_pages)
    &&& (({
        let s = s0.stack();
        let rest = body.skip(pc as int);
        &&& op == 0x41 ==> match sleb32_decode(rest) {
            None => r == Err::<(), InterpError>(InterpError::MalformedCode),
            Some((v, n)) => s1.top_frame().pc == pc + n && (r is Ok <==> s.len() < STACK_DEPTH)
                && (r is Ok ==> s1.stack() == s.push(v as i64)),
        }
        &&& op == 0x42 ==> match sleb64_decode(rest) {
            None => r == Err::<(), InterpError>(InterpError::MalformedCode),
            Some((v, n)) => s1.top_frame().pc == pc + n && (r is Ok <==> s.len() < STACK_DEPTH)
                && (r is Ok ==> s1.stack() == s.push(v)),
        }
        &&& (op == 0x43 || op == 0x44) ==> {
            let w: int = if op == 0x43 { 4 } else { 8 };
            if pc + w > body.len() {
                r == Err::<(), InterpError>(InterpError::MalformedCode)
            } else {
                s1.top_frame().pc == pc + w && (r is Ok <==> s.len() < STACK_DEPTH) && (r is Ok
                    ==> s1.stack() == s.push(le_value(body.subrange(pc as int, pc + w)) as u64 as i64))
            }
        }
    }))
}

/// What `exec_block` does: its result and the interpreter after it.
pub closed spec fn exec_block_post<'a>(s0: Interpreter<'a>, s1: Interpreter<'a>, op: u8, body: Seq<u8>, pc: usize, r: Result<(), InterpError>) -> bool {
    &&& (s1.mem == s0.mem)
    &&& (s1.fdepth == s0.fdepth)
    &&& (s1.bodies == s0.bodies)
    &&& (s1.import_count == s0.import_count)
    &&& (s1.current_pages == s0.current_pages)
    &&& (pc >= body.len() || scan_block(body, pc + 1) is None ==> r == Err::<(), InterpError>(
        InterpError::MalformedCode,
    ))
    &&& (r is Ok && op != 0x04 ==> s1.top_frame().pc == pc + 1 && s1.stack() == s0.stack() && s1.controls() == s0.controls().push(
        CtrlFrame {
            kind: if op == 0x02 { BlockKind::Block } else { BlockKind::Loop },
            pc_start: (pc + 1) as usize,
            end_pc: scan_block(body, pc + 1).unwrap().0 as usize,
        },
    ))
    &&& (op == 0x04 && pc < body.len() ==> (scan_block(body, pc + 1) matches Some((e, el)) ==> if_taken(s0, s1, pc, e, el, r)))
}

/// `if` at `pc` whose block ends at `e` (its `else` at `el`, or `NO_ELSE`):
/// it pops the condition (an empty stack underflows); non-zero enters the
/// `then` arm, zero with an `else` enters the `else` arm (both opening the
/// `if`'s control frame, which can overflow), zero without one goes past
/// the `end`.
pub closed spec fn if_taken<'a>(s0: Interpreter<'a>, s1: Interpreter<'a>, pc: usize, e: int, el: int, r: Result<(), InterpError>) -> bool {
    let s = s0.stack();
    let cf = CtrlFrame { kind: BlockKind::If, pc_start: (pc + 1) as usize, end_pc: e as usize };
    if s.len() == 0 {
        r == Err::<(), InterpError>(InterpError::StackUnderflow)
    } else if s.last() == 0 && el == NO_ELSE {
        &&& r is Ok
        &&& s1.stack() == s.drop_last()
        &&& s1.controls() == s0.controls()
        &&& s1.top_frame().pc == e + 1
    } else {
        &&& (r is Err <==> s0.ctrl_depth >= MAX_CTRL_DEPTH)
        &&& (r is Err ==> r == Err::<(), InterpError>(InterpError::CtrlStackOverflow))
        &&& (r is Ok ==> s1.stack() == s.drop_last() && s1.controls() == s0.controls().push(cf)
            && s1.top_frame().pc == (if s.last() != 0 { pc + 1 } else { el + 1 }))
    }
}

/// What `exec_else` does: its result and the interpreter after it.
pub closed spec fn exec_else_post<'a>(s0: Interpreter<'a>, s1: Interpreter<'a>, r: Result<(), InterpError>) -> bool {
    &&& (s1.mem == s0.mem)
    &&& (s1.fdepth == s0.fdepth)
    &&& (s1.bodies == s0.bodies)
    &&& (s1.import_count == s0.import_count)
    &&& (s1.current_pages == s0.current_pages)
    &&& (s1.stack() == s0.stack())
    &&& (r is Err <==> s0.ctrl_depth <= s0.top_frame().ctrl_base)
    &&& (r is Ok ==> s1.controls() == s0.controls().drop_last() && s1.top_frame().pc
        == s0.controls().last().end_pc + 1)
}

/// What `exec_end` does: its result and the interpreter after it.
pub closed spec fn exec_end_post<'a>(s0: Interpreter<'a>, s1: Interpreter<'a>, r: Result<(), InterpError>) -> bool {
    &&& (s1.mem == s0.mem)
    &&& (s1.bodies == s0.bodies)
    &&& (s1.import_count == s0.import_count)
    &&& (s1.current_pages == s0.current_pages)
    &&& (s0.ctrl_depth > s0.top_frame().ctrl_base ==> r is Ok && s1.controls() == s0.controls().drop_last() && s1.stack() == s0.stack() && s1.fdepth == s0.fdepth)
    &&& (s0.ctrl_depth <= s0.top_frame().ctrl_base ==> do_return_post(s0, s1, r))
}

/// What `exec_br` does: its result and the interpreter after it.
pub closed spec fn exec_br_post<'a>(s0: Interpreter<'a>, s1: Interpreter<'a>, op: u8, body: Seq<u8>, pc: usize, r: Result<(), InterpError>) -> bool {
    &&& (s1.mem == s0.mem)
    &&& (s1.bodies == s0.bodies)
    &&& (s1.import_count == s0.import_count)
    &&& (s1.current_pages == s0.current_pages)
    &&& (uleb32_decode(body.skip(pc as int)) is None ==> r == Err::<(), InterpError>(InterpError::MalformedCode))
    &&& (uleb32_decode(body.skip(pc as int)) matches Some((n, c)) ==> exists|sp: Interpreter<'a>|
        #[trigger] pc_moved(s0, sp, (pc + c) as usize) && br_taken(sp, s1, op, n as int, r))
}

/// From `sp` (the pc past the label `n`): `br` (`0x0C`) branches to `n`;
/// `br_if` pops a condition (an empty stack underflows) and branches
/// exactly when it is non-zero, else goes on with the condition popped.
pub closed spec fn br_taken<'a>(sp: Interpreter<'a>, s1: Interpreter<'a>, op: u8, n: int, r: Result<(), InterpError>) -> bool {
    if op == 0x0C {
        do_br_post(sp, s1, n, r)
    } else if sp.stack().len() == 0 {
        r == Err::<(), InterpError>(InterpError::StackUnderflow) && s1 == sp
    } else {
        let sq = Interpreter { vsp: (sp.vsp - 1) as usize, ..sp };
        if sp.stack().last() == 0 {
            r is Ok && s1 == sq
        } else {
            do_br_post(sq, s1, n, r)
        }
    }
}

/// Where the `k`-th label of a `br_table` starting at `pos` begins (the
/// position after the first `k`), `None` when one of them is malformed.
pub open spec fn skip_labels(b: Seq<u8>, pos: int, k: nat) -> Option<int>
    decreases k,
{
    if k == 0 {
        Some(pos)
    } else {
        match skip_labels(b, pos, (k - 1) as nat) {
            None => None,
            Some(p) => match uleb32_decode(b.skip(p)) {
                None => None,
                Some((_, m)) => Some(p + m),
            },
        }
    }
}

proof fn lemma_skip_labels_none(b: Seq<u8>, pos: int, k: nat, j: nat)
    requires
        skip_labels(b, pos, k) is None,
        k <= j,
    ensures
        skip_labels(b, pos, j) is None,
    decreases j,
{
    if k < j {
        lemma_skip_labels_none(b, pos, k, (j - 1) as nat);
    }
}

/// The `k`-th label of a `br_table` whose labels start at `pos`.
pub open spec fn label_at(b: Seq<u8>, pos: int, k: nat) -> int {
    uleb32_decode(b.skip(skip_labels(b, pos, k).unwrap())).unwrap().0 as int
}

/// What `exec_br_table` does: its result and the interpreter after it.
pub closed spec fn exec_br_table_post<'a>(s0: Interpreter<'a>, s1: Interpreter<'a>, body: Seq<u8>, pc: usize, r: Result<(), InterpError>) -> bool {
    &&& (s1.mem == s0.mem)
    &&& (s1.bodies == s0.bodies)
    &&& (s1.import_count == s0.import_count)
    &&& (s1.current_pages == s0.current_pages)
    &&& (uleb32_decode(body.skip(pc as int)) is None ==> r == Err::<(), InterpError>(InterpError::MalformedCode))
    &&& (uleb32_decode(body.skip(pc as int)) matches Some((count, n)) ==> if s0.stack().len() == 0 {
        r == Err::<(), InterpError>(InterpError::StackUnderflow) && s1 == s0
    } else {
        let i = s0.stack().last() as u32;
        let pick: nat = if i < count { i as nat } else { count as nat };
        match skip_labels(body, pc + n, (count + 1) as nat) {
            None => r == Err::<(), InterpError>(InterpError::MalformedCode),
            Some(end) => popped_then_br(s0, s1, end, label_at(body, pc + n, pick), r),
        }
    })
}

/// From `s0`, the top value popped and the pc set to `end`, a branch to
/// label `label` (see `do_br_post`).
pub closed spec fn popped_then_br<'a>(s0: Interpreter<'a>, s1: Interpreter<'a>, end: int, label: int, r: Result<(), InterpError>) -> bool {
    exists|sp: Interpreter<'a>|
        #[trigger] pc_moved(Interpreter { vsp: (s0.vsp - 1) as usize, ..s0 }, sp, end as usize) && do_br_post(
            sp,
            s1,
            label,
            r,
        )
}

/// What `exec_call` does: its result and the interpreter after it.
pub closed spec fn exec_call_post<'a>(s0: Interpreter<'a>, s1: Interpreter<'a>, body: Seq<u8>, pc: usize, r: Result<Option<Exit>, InterpError>) -> bool {
    &&& (s1.mem == s0.mem)
    &&& (s1.bodies == s0.bodies)
    &&& (s1.import_count == s0.import_count)
    &&& (s1.current_pages == s0.current_pages)
    &&& (r is Ok ==> r == Ok::<Option<Exit>, InterpError>(None) || (r matches Ok(Some(Exit::Host(k))) && k
        < s0.import_count))
    &&& (r matches Ok(Some(_)) ==> s1.fdepth == s0.fdepth)
    &&& (uleb32_decode(body.skip(pc as int)) is None ==> r == Err::<Option<Exit>, InterpError>(
        InterpError::MalformedCode,
    ))
    &&& (uleb32_decode(body.skip(pc as int)) matches Some((callee, n)) ==> ({
        &&& callee < s0.import_count ==> r == Ok::<Option<Exit>, InterpError>(
            Some(Exit::Host(callee as usize)),
        ) && s1.top_frame().pc == pc + n && s1.stack() == s0.stack()
        &&& callee >= s0.import_count + s0.bodies@.len() ==> r == Err::<
            Option<Exit>,
            InterpError,
        >(InterpError::FuncIndexOutOfRange)
        &&& s0.import_count <= callee < s0.import_count + s0.bodies@.len() ==> none_if_ok(r) && exists|
            sp: Interpreter<'a>,
        |
            #[trigger] pc_moved(s0, sp, (pc + n) as usize) && push_frame_post(
                sp,
                s1,
                (callee - s0.import_count) as usize,
                unit_of(r),
            )
    }))
}

/// What `exec_call_indirect` does: its result and the interpreter after it.
pub closed spec fn exec_call_indirect_post<'a>(s0: Interpreter<'a>, s1: Interpreter<'a>, body: Seq<u8>, pc: usize, r: Result<Option<Exit>, InterpError>) -> bool {
    &&& (s1.mem == s0.mem)
    &&& (s1.bodies == s0.bodies)
    &&& (s1.import_count == s0.import_count)
    &&& (s1.current_pages == s0.current_pages)
    &&& (r is Ok ==> r == Ok::<Option<Exit>, InterpError>(None) || (r matches Ok(Some(Exit::Host(k))) && k
        < s0.import_count))
    &&& (r matches Ok(Some(_)) ==> s1.fdepth == s0.fdepth)
    &&& (uleb32_decode(body.skip(pc as int)) is None ==> r == Err::<Option<Exit>, InterpError>(
        InterpError::MalformedCode,
    ))
    &&& (uleb32_decode(body.skip(pc as int)) matches Some((expected, n1)) ==> {
        let s = s0.stack();
        match uleb32_decode(body.skip(pc + n1)) {
            None => r == Err::<Option<Exit>, InterpError>(InterpError::MalformedCode),
            Some((_t, n2)) => if s.len() == 0 {
                r == Err::<Option<Exit>, InterpError>(InterpError::StackUnderflow)
            } else {
                let i = s.last() as u32 as int;
                if i >= s0.table_size || s0.table@[i] == NULL_FUNC {
                    r == Err::<Option<Exit>, InterpError>(InterpError::IndirectCallNull)
                } else {
                    let callee = s0.table@[i] as int;
                    let actual = if callee < MAX_FUNCS {
                        s0.all_func_types@[callee] as int
                    } else {
                        usize::MAX as int
                    };
                    if actual != expected as int {
                        r == Err::<Option<Exit>, InterpError>(InterpError::IndirectCallTypeMismatch)
                    } else if callee < s0.import_count {
                        &&& r == Ok::<Option<Exit>, InterpError>(Some(Exit::Host(callee as usize)))
                        &&& s1.stack() == s.drop_last()
                        &&& s1.top_frame().pc == pc + n1 + n2
                    } else if callee >= s0.import_count + s0.bodies@.len() {
                        r == Err::<Option<Exit>, InterpError>(InterpError::FuncIndexOutOfRange)
                    } else {
                        none_if_ok(r) && exists|sp: Interpreter<'a>|
                            #[trigger] pc_moved(
                                Interpreter { vsp: (s0.vsp - 1) as usize, ..s0 },
                                sp,
                                (pc + n1 + n2) as usize,
                            ) && push_frame_post(sp, s1, (callee - s0.import_count) as usize, unit_of(r))
                    }
                }
            },
        }
    })
}

/// What `exec_fc` does: its result and the interpreter after it.
pub closed spec fn exec_fc_post<'a>(s0: Interpreter<'a>, s1: Interpreter<'a>, body: Seq<u8>, pc: usize, r: Result<Option<Exit>, InterpError>) -> bool {
    &&& (s1.fdepth == s0.fdepth)
    &&& (s1.bodies == s0.bodies)
    &&& (s1.import_count == s0.import_count)
    &&& (s1.current_pages == s0.current_pages)
    &&& (r is Ok ==> r == Ok::<Option<Exit>, InterpError>(None) || r matches Ok(Some(Exit::FloatSat(_))))
    &&& (uleb32_decode(body.skip(pc as int)) is None ==> r == Err::<Option<Exit>, InterpError>(
        InterpError::MalformedCode,
    ))
    &&& (uleb32_decode(body.skip(pc as int)) matches Some((sub, n)) ==> ({
        let s = s0.stack();
        &&& sub <= 7 ==> r == Ok::<Option<Exit>, InterpError>(Some(Exit::FloatSat(sub)))
            && s1.top_frame().pc == pc + n && s1.stack() == s
        &&& sub > 11 ==> r == Err::<Option<Exit>, InterpError>(InterpError::UnknownOpcode(0xFC))
        &&& sub == 10 && s.len() >= 3 && r is Ok ==> s1.mem@ == copied(
            s0.mem@,
            s[s.len() - 2] as u64 as int,
            s[s.len() - 3] as u64 as int,
            s.last() as u64 as int,
        ) && s1.stack() == s.take(s.len() - 3)
        &&& sub == 11 && s.len() >= 3 && r is Ok ==> s1.mem@ == filled(
            s0.mem@,
            s[s.len() - 3] as u64 as int,
            s.last() as u64 as int,
            s[s.len() - 2] as u8,
        ) && s1.stack() == s.take(s.len() - 3)
        &&& (sub == 10 || sub == 11) && s.len() >= 3 && r is Err ==> s1.mem == s0.mem
    }))
    &&& (r is Ok && !(uleb32_decode(body.skip(pc as int)) matches Some((10u32, _)) || uleb32_decode(
        body.skip(pc as int),
    ) matches Some((11u32, _))) ==> s1.mem == s0.mem)
}

/// A unit result with the same error as `r`.
pub open spec fn unit_of(r: Result<Option<Exit>, InterpError>) -> Result<(), InterpError> {
    match r {
        Ok(_) => Ok(()),
        Err(e) => Err(e),
    }
}

/// `s1` is `s0` with the running frame's pc set to `pc`.
pub closed spec fn pc_moved<'a>(s0: Interpreter<'a>, s1: Interpreter<'a>, pc: usize) -> bool {
    &&& s1 == (Interpreter { frames: s1.frames, ..s0 })
    &&& s1.frames@ == s0.frames@.update(s0.fdepth - 1, Frame { pc, ..s0.top_frame() })
}

/// `drop`: the top value goes; an empty stack underflows.
pub closed spec fn drop_post<'a>(s0: Interpreter<'a>, s1: Interpreter<'a>, r: Result<Option<Exit>, InterpError>) -> bool {
    if s0.stack().len() == 0 {
        r == Err::<Option<Exit>, InterpError>(InterpError::StackUnderflow) && s1 == s0
    } else {
        &&& r == Ok::<Option<Exit>, InterpError>(None)
        &&& s1 == (Interpreter { vsp: s1.vsp, ..s0 })
        &&& s1.stack() == s0.stack().drop_last()
    }
}

/// `select`: of the two values under the condition on top, the first when
/// the condition is non-zero, else the second; fewer than three values
/// underflow (after taking what there was).
pub closed spec fn select_post<'a>(s0: Interpreter<'a>, s1: Interpreter<'a>, r: Result<Option<Exit>, InterpError>) -> bool {
    let s = s0.stack();
    if s.len() < 3 {
        &&& r == Err::<Option<Exit>, InterpError>(InterpError::StackUnderflow)
        &&& s1 == (Interpreter { vsp: s1.vsp, ..s0 })
        &&& s1.stack().len() == 0
    } else {
        &&& r == Ok::<Option<Exit>, InterpError>(None)
        &&& s1 == (Interpreter { vstack: s1.vstack, vsp: s1.vsp, ..s0 })
        &&& s1.stack() == s.take(s.len() - 3).push(if s.last() != 0 { s[s.len() - 3] } else { s[s.len() - 2] })
    }
}

/// `r` is `Ok(None)` when it is `Ok`.
pub open spec fn none_if_ok(r: Result<Option<Exit>, InterpError>) -> bool {
    r is Ok ==> r == Ok::<Option<Exit>, InterpError>(None)
}

/// What instruction `op` of `body` does, its immediates starting at `pc`,
/// from state `s0` (whose pc is already past the opcode): by kind, what the
/// `exec_` function for it does; no-ops go on, `unreachable` traps, float
/// instructions are handed to the host, unknown opcodes trap.
pub closed spec fn op_post<'a>(
    s0: Interpreter<'a>,
    s1: Interpreter<'a>,
    op: u8,
    body: Seq<u8>,
    pc: usize,
    r: Result<Option<Exit>, InterpError>,
) -> bool {
    if op == 0x01 || (0xBD <= op && op <= 0xBF) {
        r == Ok::<Option<Exit>, InterpError>(None) && s1 == s0
    } else if op == 0x00 {
        r == Err::<Option<Exit>, InterpError>(InterpError::Unreachable) && s1 == s0
    } else if 0x45 <= op && op <= 0xC4 && (op == 0x45 || op == 0x50 || (0x67 <= op && op <= 0x69) || (0x79 <= op
        && op <= 0x7B) || op == 0xA7 || op == 0xAC || op == 0xAD || op == 0xBC || 0xC0 <= op) {
        exec_unop_post(s0, s1, op, unit_of(r)) && none_if_ok(r)
    } else if (0x46 <= op && op <= 0x4F) || (0x51 <= op && op <= 0x5A) || (0x6A <= op && op <= 0x78) || (0x7C
        <= op && op <= 0x8A) {
        exec_binop_post(s0, s1, op, unit_of(r)) && none_if_ok(r)
    } else if 0x02 <= op && op <= 0x04 {
        exec_block_post(s0, s1, op, body, pc, unit_of(r)) && none_if_ok(r)
    } else if op == 0x05 {
        exec_else_post(s0, s1, unit_of(r)) && none_if_ok(r)
    } else if op == 0x0B {
        exec_end_post(s0, s1, unit_of(r)) && none_if_ok(r)
    } else if op == 0x0C || op == 0x0D {
        exec_br_post(s0, s1, op, body, pc, unit_of(r)) && none_if_ok(r)
    } else if op == 0x0E {
        exec_br_table_post(s0, s1, body, pc, unit_of(r)) && none_if_ok(r)
    } else if op == 0x0F {
        do_return_post(s0, s1, unit_of(r)) && none_if_ok(r)
    } else if op == 0x10 {
        exec_call_post(s0, s1, body, pc, r)
    } else if op == 0x11 {
        exec_call_indirect_post(s0, s1, body, pc, r)
    } else if op == 0x1A {
        drop_post(s0, s1, r)
    } else if op == 0x1B {
        select_post(s0, s1, r)
    } else if 0x20 <= op && op <= 0x22 {
        exec_local_post(s0, s1, op, body, pc, unit_of(r)) && none_if_ok(r)
    } else if op == 0x23 || op == 0x24 {
        exec_global_post(s0, s1, op, body, pc, unit_of(r)) && none_if_ok(r)
    } else if 0x28 <= op && op <= 0x35 {
        exec_load_post(s0, s1, op, body, pc, unit_of(r)) && none_if_ok(r)
    } else if 0x36 <= op && op <= 0x3E {
        exec_store_post(s0, s1, op, body, pc, unit_of(r)) && none_if_ok(r)
    } else if op == 0x3F || op == 0x40 {
        exec_memory_size_post(s0, s1, op, body, pc, unit_of(r)) && none_if_ok(r)
    } else if 0x41 <= op && op <= 0x44 {
        exec_const_post(s0, s1, op, body, pc, unit_of(r)) && none_if_ok(r)
    } else if (0x5B <= op && op <= 0x66) || (0x8B <= op && op <= 0xA6) || (0xA8 <= op && op <= 0xAB) || (0xAE
        <= op && op <= 0xBB) {
        r == Ok::<Option<Exit>, InterpError>(Some(Exit::Float(op))) && s1 == s0
    } else if op == 0xFC {
        exec_fc_post(s0, s1, body, pc, r)
    } else {
        r == Err::<Option<Exit>, InterpError>(InterpError::UnknownOpcode(op)) && s1 == s0
    }
}

/// What one step does from `s0` (with a running frame): a pending yield is
/// cleared and reported; past the end of its body the frame returns;
/// otherwise the pc moves past the opcode and the instruction runs (see
/// `op_post`).
pub closed spec fn step_post<'a>(s0: Interpreter<'a>, s1: Interpreter<'a>, r: Result<Option<Exit>, InterpError>) -> bool {
    if s0.yield_requested {
        r == Err::<Option<Exit>, InterpError>(InterpError::Yielded) && s1 == (Interpreter {
            yield_requested: false,
            ..s0
        })
    } else {
        let f = s0.top_frame();
        let body = s0.bodies@[f.body_idx as int]@;
        if f.pc >= body.len() {
            do_return_post(s0, s1, unit_of(r)) && none_if_ok(r)
        } else {
            let op = body[f.pc as int];
            let pc = (f.pc + 1) as usize;
            exists|sp: Interpreter<'a>| #[trigger] pc_moved(s0, sp, pc) && op_post(sp, s1, op, body, pc, r)
        }
    }
}

/// `s` with its instruction count advanced (wrapping).
pub closed spec fn ticked<'a>(s: Interpreter<'a>) -> Interpreter<'a> {
    Interpreter { op_count: vstd::wrapping::u64_specs::wrapping_add(s.op_count, 1), ..s }
}

/// Running from `s0` with `fuel` steps ends in `s1` with `r`: with no frame
/// left, `Done`; with no fuel left, `Paused`; otherwise one step (counted)
/// as `step_post` says, then a trap or a request for the host ends the run,
/// and anything else goes on with one step less.
pub closed spec fn run_rel<'a>(s0: Interpreter<'a>, fuel: nat, s1: Interpreter<'a>, r: Result<Exit, InterpError>) -> bool
    decreases fuel,
{
    if s0.fdepth == 0 {
        r == Ok::<Exit, InterpError>(Exit::Done) && s1 == s0
    } else if fuel == 0 {
        r == Ok::<Exit, InterpError>(Exit::Paused) && s1 == s0
    } else {
        exists|m: Interpreter<'a>, rr: Result<Option<Exit>, InterpError>|
            #[trigger] step_post(ticked(s0), m, rr) && match rr {
                Err(e) => r == Err::<Exit, InterpError>(e) && s1 == m,
                Ok(Some(e)) => r == Ok::<Exit, InterpError>(e) && s1 == m,
                Ok(None) => run_rel(m, (fuel - 1) as nat, s1, r),
            }
    }
}

/// What `push_frame` does: its result and the interpreter after it.
pub closed spec fn push_frame_post<'a>(s0: Interpreter<'a>, s1: Interpreter<'a>, bi: usize, r: Result<(), InterpError>) -> bool {
    &&& (s0.fdepth >= CALL_DEPTH ==> r == Err::<(), InterpError>(InterpError::CallStackOverflow))
    &&& (s0.fdepth < CALL_DEPTH && s0.param_count(bi as int) + s0.declared_locals(bi as int)
        > MAX_LOCALS ==> r == Err::<(), InterpError>(InterpError::TooManyLocals))
    &&& (s0.fdepth < CALL_DEPTH && s0.param_count(bi as int) + s0.declared_locals(bi as int)
        <= MAX_LOCALS && s0.vsp < s0.param_count(bi as int) ==> r == Err::<(), InterpError>(
        InterpError::StackUnderflow))
    &&& (s0.fdepth < CALL_DEPTH && s0.param_count(bi as int) + s0.declared_locals(bi as int) <= MAX_LOCALS
        && s0.vsp >= s0.param_count(bi as int) ==> r is Ok)
    &&& (r is Ok ==> {
        let p = s0.param_count(bi as int);
        let base = s0.vsp - p;
        &&& s0.fdepth < CALL_DEPTH
        &&& p + s0.declared_locals(bi as int) <= MAX_LOCALS
        &&& base >= 0
        &&& s1.call_frames() == s0.call_frames().push(
            Frame {
                body_idx: bi,
                pc: 0,
                local_count: (p + s0.declared_locals(bi as int)) as usize,
                ctrl_base: s0.ctrl_depth,
                vsp_base: base as usize,
                result_count: s0.result_count(bi as int) as usize,
            },
        )
        &&& s1.stack() == s0.stack().take(base)
        &&& forall|k: int| 0 <= k < MAX_LOCALS ==> #[trigger] s1.local(s0.fdepth as int, k)
            == if k < p { s0.stack()[base + k] } else { 0 }
        &&& forall|i: int, k: int| 0 <= i < s0.fdepth && 0 <= k < MAX_LOCALS
            ==> #[trigger] s1.local(i, k) == s0.local(i, k)
        &&& s1.controls() == s0.controls()
        &&& s1.mem == s0.mem
        &&& s1.globals == s0.globals
        &&& s1.bodies == s0.bodies
    })
    &&& (s1.bodies == s0.bodies)
    &&& (s1.import_count == s0.import_count)
    &&& (s1.mem == s0.mem)
    &&& (s1.current_pages == s0.current_pages)
}

impl<'a> Interpreter<'a> {
    /// Execute one instruction of the running frame (see the `exec_`
    /// functions for each kind); past the end of its body the frame returns.
    /// A pending yield is taken first: it is cleared and gives
    /// `Err(Yielded)`. `Ok(None)` when execution goes on; `Ok(Some(..))`
    /// when the host has work to do first.
    fn step(&mut self) -> (r: Result<Option<Exit>, InterpError>)
        requires
            old(self).wf(),
            old(self).fdepth > 0,
        ensures
            final(self).wf(),
            final(self).bodies == old(self).bodies,
            final(self).import_count == old(self).import_count,
            old(self).yield_requested ==> r == Err::<Option<Exit>, InterpError>(InterpError::Yielded)
                && !final(self).yield_requested && final(self).stack() == old(self).stack()
                && final(self).call_frames() == old(self).call_frames(),
            r matches Ok(Some(_)) ==> final(self).fdepth > 0,
            match r {
                Ok(Some(Exit::Host(k))) => k < old(self).import_count,
                Ok(Some(Exit::Done)) => false,
                Ok(Some(Exit::Paused)) => false,
                _ => true,
            },
            step_post(*old(self), *final(self), r),
    {
        if self.yield_requested {
            self.yield_requested = false;
            return Err(InterpError::Yielded);
        }
        let fi = self.fdepth - 1;
        let f = self.frames[fi];
        assert(frame_ok(self.frames@[fi as int], self.bodies@.len() as int, self.ctrl_depth as int));
        let body = self.bodies[f.body_idx];
        let blen = body.len();
        if f.pc >= blen {
            self.do_return()?;
            return Ok(None);
        }
        let op = body[f.pc];
        let pc = f.pc + 1;
        let ghost s0 = *self;
        self.set_pc(pc);
        let ghost sp = *self;
        proof {
            assert(pc_moved(s0, sp, pc));
        }
        if op == 0x01 || (0xBD <= op && op <= 0xBF) {
            Ok(None)
        } else if op == 0x00 {
            Err(InterpError::Unreachable)
        } else if 0x45 <= op && op <= 0xC4 && (op == 0x45 || op == 0x50 || (0x67 <= op && op <= 0x69) || (0x79 <= op
            && op <= 0x7B) || op == 0xA7 || op == 0xAC || op == 0xAD || op == 0xBC || 0xC0 <= op) {
            self.exec_unop(op)?;
            Ok(None)
        } else if (0x46 <= op && op <= 0x4F) || (0x51 <= op && op <= 0x5A) || (0x6A <= op && op <= 0x78) || (0x7C
            <= op && op <= 0x8A) {
            self.exec_binop(op)?;
            Ok(None)
        } else if 0x02 <= op && op <= 0x04 {
            self.exec_block(op, body, pc)?;
            Ok(None)
        } else if op == 0x05 {
            self.exec_else()?;
            Ok(None)
        } else if op == 0x0B {
            self.exec_end()?;
            Ok(None)
        } else if op == 0x0C || op == 0x0D {
            self.exec_br(op, body, pc)?;
            Ok(None)
        } else if op == 0x0E {
            self.exec_br_table(body, pc)?;
            Ok(None)
        } else if op == 0x0F {
            self.do_return()?;
            Ok(None)
        } else if op == 0x10 {
            self.exec_call(body, pc)
        } else if op == 0x11 {
            self.exec_call_indirect(body, pc)
        } else if op == 0x1A {
            self.pop()?;
            assert(drop_post(sp, *self, Ok::<Option<Exit>, InterpError>(None)));
            Ok(None)
        } else if op == 0x1B {
            let ghost st = sp.stack();
            let cond = self.pop()?;
            let b = self.pop()?;
            let a = self.pop()?;
            let ghost s3 = *self;
            assert(s3.stack() =~= st.take(st.len() - 3));
            self.v_push(if cond != 0 { a } else { b })?;
            assert(select_post(sp, *self, Ok::<Option<Exit>, InterpError>(None)));
            Ok(None)
        } else if 0x20 <= op && op <= 0x22 {
            self.exec_local(op, body, pc)?;
            Ok(None)
        } else if op == 0x23 || op == 0x24 {
            self.exec_global(op, body, pc)?;
            Ok(None)
        } else if 0x28 <= op && op <= 0x35 {
            self.exec_load(op, body, pc)?;
            Ok(None)
        } else if 0x36 <= op && op <= 0x3E {
            self.exec_store(op, body, pc)?;
            Ok(None)
        } else if op == 0x3F || op == 0x40 {
            self.exec_memory_size(op, body, pc)?;
            Ok(None)
        } else if 0x41 <= op && op <= 0x44 {
            self.exec_const(op, body, pc)?;
            Ok(None)
        } else if (0x5B <= op && op <= 0x66) || (0x8B <= op && op <= 0xA6) || (0xA8 <= op && op <= 0xAB) || (0xAE
            <= op && op <= 0xBB) {
            Ok(Some(Exit::Float(op)))
        } else if op == 0xFC {
            self.exec_fc(body, pc)
        } else {
            Err(InterpError::UnknownOpcode(op))
        }
    }

    /// Run the call stack for at most `fuel` instructions: until the
    /// outermost call returns (`Exit::Done`), the host has work to do, a
    /// trap, or the budget is spent (`Exit::Paused`).
    fn run(&mut self, fuel: u64) -> (r: Result<Exit, InterpError>)
        requires
            old(self).wf(),
        ensures
            final(self).wf(),
            final(self).body_bytes() == old(self).body_bytes(),
            final(self).imports() == old(self).imports(),
            r matches Ok(Exit::Host(k)) ==> k < old(self).imports(),
            r == Ok::<Exit, InterpError>(Exit::Done) <==> r is Ok && final(self).call_frames().len() == 0,
            old(self).call_frames().len() == 0 ==> r == Ok::<Exit, InterpError>(Exit::Done) && *final(self)
                == *old(self),
            run_rel(*old(self), fuel as nat, *final(self), r),
    {
        let mut left = fuel;
        while self.fdepth > 0
            invariant
                self.wf(),
                old(self).wf(),
                self.bodies == old(self).bodies,
                self.import_count == old(self).import_count,
                old(self).fdepth == 0 ==> *self == *old(self),
                forall|s1: Interpreter<'a>, r1: Result<Exit, InterpError>|
                    #[trigger] run_rel(*self, left as nat, s1, r1) ==> run_rel(*old(self), fuel as nat, s1, r1),
            decreases left,
        {
            let ghost cur = *self;
            if left == 0 {
                assert(run_rel(cur, 0, *self, Ok::<Exit, InterpError>(Exit::Paused)));
                return Ok(Exit::Paused);
            }
            left = left - 1;
            self.op_count = self.op_count.wrapping_add(1);
            assert(*self == ticked(cur));
            let rr = self.step();
            let ghost m = *self;
            proof {
                assert(step_post(ticked(cur), m, rr));
            }
            match rr {
                Err(e) => {
                    assert(run_rel(cur, left as nat + 1, m, Err::<Exit, InterpError>(e)));
                    return Err(e);
                },
                Ok(Some(e)) => {
                    assert(run_rel(cur, left as nat + 1, m, Ok::<Exit, InterpError>(e)));
                    return Ok(e);
                },
                Ok(None) => {
                    assert forall|s1: Interpreter<'a>, r1: Result<Exit, InterpError>|
                        #[trigger] run_rel(m, left as nat, s1, r1) implies run_rel(*old(self), fuel as nat, s1, r1) by {
                        assert(run_rel(cur, left as nat + 1, s1, r1));
                    }
                },
            }
        }
        assert(run_rel(*self, left as nat, *self, Ok::<Exit, InterpError>(Exit::Done)));
        Ok(Exit::Done)
    }

    /// Call function `func_idx` (imports first, then bodies) with the
    /// arguments on the stack and run it for at most `fuel` instructions
    /// (see `resume`). `Err(ImportNotFound)` for an import,
    /// `Err(FuncIndexOutOfRange)` past the last body; entering can fail as
    /// `push_frame` says.
    pub fn call(&mut self, func_idx: usize, fuel: u64) -> (r: Result<Exit, InterpError>)
        requires
            old(self).wf(),
        ensures
            final(self).wf(),
            final(self).body_bytes() == old(self).body_bytes(),
            final(self).imports() == old(self).imports(),
            func_idx < old(self).imports() ==> r == Err::<Exit, InterpError>(InterpError::ImportNotFound)
                && *final(self) == *old(self),
            func_idx >= old(self).imports() + old(self).body_bytes().len() ==> r == Err::<Exit, InterpError>(
                InterpError::FuncIndexOutOfRange,
            ) && *final(self) == *old(self),
            r matches Ok(Exit::Host(k)) ==> k < old(self).imports(),
            r == Ok::<Exit, InterpError>(Exit::Done) <==> r is Ok && final(self).call_frames().len() == 0,
            old(self).imports() <= func_idx < old(self).imports() + old(self).body_bytes().len() ==> exists|
                m: Interpreter<'a>,
                pr: Result<(), InterpError>,
            |
                #[trigger] push_frame_post(*old(self), m, (func_idx - old(self).imports()) as usize, pr) && match pr {
                    Err(e) => r == Err::<Exit, InterpError>(e) && *final(self) == m,
                    Ok(_) => run_rel(m, fuel as nat, *final(self), r),
                },
    {
        if func_idx < self.import_count {
            return Err(InterpError::ImportNotFound);
        }
        let bi = func_idx - self.import_count;
        if bi >= self.bodies.len() {
            return Err(InterpError::FuncIndexOutOfRange);
        }
        let ghost s0 = *self;
        let pr = self.push_frame(bi);
        let ghost m = *self;
        assert(push_frame_post(s0, m, bi, pr));
        match pr {
            Err(e) => {
                return Err(e);
            },
            Ok(_) => {},
        }
        self.run(fuel)
    }

    /// Go on running after the host did its work or after a yield, for at
    /// most `fuel` instructions: `Exit::Done` once the outermost call has
    /// returned (its results are on the stack), `Exit::Host(k)` for a call
    /// of import `k`, `Exit::Float`/`Exit::FloatSat` for a float
    /// instruction, `Exit::Paused` when the budget is spent, or the trap.
    pub fn resume(&mut self, fuel: u64) -> (r: Result<Exit, InterpError>)
        requires
            old(self).wf(),
        ensures
            final(self).wf(),
            final(self).body_bytes() == old(self).body_bytes(),
            final(self).imports() == old(self).imports(),
            r matches Ok(Exit::Host(k)) ==> k < old(self).imports(),
            r == Ok::<Exit, InterpError>(Exit::Done) <==> r is Ok && final(self).call_frames().len() == 0,
            old(self).call_frames().len() == 0 ==> r == Ok::<Exit, InterpError>(Exit::Done) && final(self).stack()
                == old(self).stack(),
            run_rel(*old(self), fuel as nat, *final(self), r),
    {
        self.run(fuel)
    }
}


/// `n` copies of `x`.
fn repeat<T: Copy>(x: T, n: usize) -> (v: Vec<T>)
    ensures
        v@ == Seq::new(n as nat, |i: int| x),
{
    let mut v: Vec<T> = Vec::new();
    let mut k: usize = 0;
    while k < n
        invariant
            k <= n,
            v@ == Seq::new(k as nat, |i: int| x),
        decreases n - k,
    {
        v.push(x);
        k = k + 1;
        assert(v@ =~= Seq::new(k as nat, |i: int| x));
    }
    v
}

/// The bodies of a code section's entries.
pub open spec fn entry_bodies(t: Seq<(Seq<u8>, int)>) -> Seq<Seq<u8>> {
    Seq::new(t.len(), |i: int| t[i].0)
}

/// The error setting up an interpreter for a module's sections gives: the
/// first of the type, function, code (which is required), global, import
/// and element sections that its parser refuses, with that parser's error;
/// `None` when all are accepted.
pub open spec fn setup_error(s: Sections) -> Option<InterpError> {
    let te = match s.type_section {
        Some(t) => match type_section(t) {
            Err(e) => Some(e),
            Ok(_) => None,
        },
        None => None,
    };
    let fe = match s.function_section {
        Some(f) => match function_section(f) {
            Err(e) => Some(e),
            Ok(_) => None,
        },
        None => None,
    };
    let ce = match s.code_section {
        Some(c) => match code_section(c) {
            Err(e) => Some(e),
            Ok(_) => None,
        },
        None => Some(InterpError::NoCodeSection),
    };
    let ge = match s.global_section {
        Some(g) => match global_section(g) {
            Err(e) => Some(e),
            Ok(_) => None,
        },
        None => None,
    };
    let ie = match s.import_section {
        Some(b) => if import_types(b) is None { Some(InterpError::MalformedCode) } else { None },
        None => None,
    };
    let ee = match s.element_section {
        Some(b) => if elem_writes(b) is None { Some(InterpError::MalformedCode) } else { None },
        None => None,
    };
    if te is Some {
        te
    } else if fe is Some {
        fe
    } else if ce is Some {
        ce
    } else if ge is Some {
        ge
    } else if ie is Some {
        ie
    } else {
        ee
    }
}

impl<'a> Interpreter<'a> {
    /// Instantiate `module` over linear memory `mem`, with `import_count`
    /// function imports and `initial_pages` active pages: read the
    /// signatures, function types, bodies (the code section is required:
    /// `Err(NoCodeSection)`), globals, import types and function table, and
    /// build the jump table; the stacks start empty. A section that exceeds
    /// its capacity or is cut off gives the error its parser gives.
    pub fn new(module: &Module<'a>, import_count: usize, mem: Vec<u8>, initial_pages: u32) -> (r: Result<
        Self,
        InterpError,
    >)
        requires
            initial_pages as int * PAGE_SIZE <= mem@.len(),
        ensures
            ({
                let te = match module.type_section {
                    Some(t) => match type_section(t@) {
                        Err(e) => Some(e),
                        Ok(_) => None,
                    },
                    None => None,
                };
                let fe = match module.function_section {
                    Some(f) => match function_section(f@) {
                        Err(e) => Some(e),
                        Ok(_) => None,
                    },
                    None => None,
                };
                let ce = match module.code_section {
                    Some(c) => match code_section(c@) {
                        Err(e) => Some(e),
                        Ok(_) => None,
                    },
                    None => Some(InterpError::NoCodeSection),
                };
                match (te, fe, ce) {
                    (Some(e), _, _) => r == Err::<Self, InterpError>(e),
                    (None, Some(e), _) => r == Err::<Self, InterpError>(e),
                    (None, None, Some(e)) => r == Err::<Self, InterpError>(e),
                    _ => true,
                }
            }),
            match setup_error(module.sections()) {
                Some(e) => r == Err::<Self, InterpError>(e),
                None => r is Ok,
            },
            r matches Ok(it) ==> {
                &&& it.wf()
                &&& it.stack().len() == 0
                &&& it.call_frames().len() == 0
                &&& it.controls().len() == 0
                &&& !it.yield_pending()
                &&& it.memory() == mem@
                &&& it.pages() == initial_pages
                &&& it.imports() == import_count
                &&& match module.code_section {
                    Some(c) => match code_section(c@) {
                        Ok(t) => it.body_bytes() == entry_bodies(t),
                        Err(_) => false,
                    },
                    None => false,
                }
                &&& match module.global_section {
                    Some(g) => match global_section(g@) {
                        Ok(gs) => it.global_values().len() == gs.len() && forall|i: int|
                            0 <= i < gs.len() ==> #[trigger] it.global_values()[i] == gs[i].1,
                        Err(_) => false,
                    },
                    None => it.global_values().len() == 0,
                }
            },
    {
        let mut type_param_counts = repeat(0usize, MAX_TYPES);
        let mut type_result_counts = repeat(0usize, MAX_TYPES);
        let type_count = match module.type_section {
            Some(tb) => parse_type_section(tb, &mut type_param_counts, &mut type_result_counts)?,
            None => 0,
        };
        let mut func_type_indices = repeat(0usize, MAX_FUNCS);
        match module.function_section {
            Some(fb) => parse_function_section(fb, &mut func_type_indices)?,
            None => {},
        }
        let code_bytes = match module.code_section {
            Some(c) => c,
            None => return Err(InterpError::NoCodeSection),
        };
        let mut bodies: Vec<&'a [u8]> = Vec::new();
        let mut local_counts: Vec<usize> = Vec::new();
        let body_count = parse_code_section(code_bytes, &mut bodies, &mut local_counts)?;
        let mut globals = repeat(0i64, MAX_GLOBALS);
        let mut global_mutable = repeat(false, MAX_GLOBALS);
        let global_count = match module.global_section {
            Some(gb) => parse_global_section(gb, &mut globals, &mut global_mutable)?,
            None => 0,
        };
        let mut all_func_types = repeat(0usize, MAX_FUNCS);
        match module.import_section {
            Some(ib) => {
                parse_import_func_types(ib, &mut all_func_types)?;
            },
            None => {},
        }
        if import_count < MAX_FUNCS {
            let mut i: usize = 0;
            while i < body_count && i < MAX_FUNCS - import_count
                invariant
                    import_count < MAX_FUNCS,
                    all_func_types@.len() == MAX_FUNCS,
                    func_type_indices@.len() == MAX_FUNCS,
                    body_count <= MAX_FUNCS,
                decreases body_count - i,
            {
                let t = func_type_indices[i];
                all_func_types.set(import_count + i, t);
                i = i + 1;
            }
        }
        let mut table = repeat(NULL_FUNC, MAX_TABLE);
        let mut table_size: usize = 0;
        match module.element_section {
            Some(eb) => parse_element_section(eb, &mut table, &mut table_size)?,
            None => {},
        }
        let ghost bseqs = body_seqs(bodies@);
        let mut jump_table = empty_jump_table();
        proof {
            assert forall|k: int| 0 <= k < jump_table@.len() implies #[trigger] crate::wasm::scan::slot_agrees(
                jump_table@[k],
                bseqs,
            ) by {}
        }
        let mut bi: usize = 0;
        while bi < body_count
            invariant
                bodies@.len() == body_count,
                bseqs == body_seqs(bodies@),
                table_sound(jump_table@, bseqs),
            decreases body_count - bi,
        {
            pre_scan_body_jumps(bodies[bi], bi, &mut jump_table, Ghost(bseqs));
            bi = bi + 1;
        }
        let mlen = mem.len();
        let max_pages: u32 = if mlen / PAGE_SIZE > 65536 { 65536 } else { (mlen / PAGE_SIZE) as u32 };
        assert(max_pages as int * PAGE_SIZE <= mlen) by (nonlinear_arith)
            requires
                max_pages <= mlen / PAGE_SIZE,
        ;
        let it = Interpreter {
            bodies,
            local_counts,
            type_param_counts,
            type_result_counts,
            type_count,
            func_type_indices,
            all_func_types,
            import_count,
            table,
            table_size,
            vstack: repeat(0i64, STACK_DEPTH),
            vsp: 0,
            frames: repeat(
                Frame { body_idx: 0, pc: 0, local_count: 0, ctrl_base: 0, vsp_base: 0, result_count: 0 },
                CALL_DEPTH,
            ),
            fdepth: 0,
            locals: repeat(0i64, CALL_DEPTH * MAX_LOCALS),
            ctrl: repeat(CtrlFrame { kind: BlockKind::Block, pc_start: 0, end_pc: 0 }, MAX_CTRL_DEPTH),
            ctrl_depth: 0,
            globals,
            global_mutable,
            global_count,
            mem,
            jump_table,
            current_pages: initial_pages,
            max_pages,
            yield_requested: false,
            op_count: 0,
        };
        proof {
            assert(it.body_bytes() =~= entry_bodies(code_section(code_bytes@)->Ok_0));
        }
        Ok(it)
    }
}


impl<'a> Interpreter<'a> {
    /// Lay the active segments of a data section into linear memory (see
    /// `init_memory`); `false` when the section is malformed.
    pub fn apply_data(&mut self, data_section: &[u8]) -> (ok: bool)
        requires
            old(self).wf(),
        ensures
            final(self).wf(),
            ok == crate::wasm::engine::init_result(data_section@, old(self).memory()).0,
            ok ==> final(self).memory() == crate::wasm::engine::init_result(data_section@, old(self).memory()).1,
            final(self).stack() == old(self).stack(),
            final(self).call_frames() == old(self).call_frames(),
            final(self).controls() == old(self).controls(),
            final(self).pages() == old(self).pages(),
            final(self).body_bytes() == old(self).body_bytes(),
            final(self).imports() == old(self).imports(),
            final(self).global_values() == old(self).global_values(),
            final(self).yield_pending() == old(self).yield_pending(),
    {
        crate::wasm::engine::init_memory(data_section, self.mem.as_mut_slice())
    }
}

} // verus!
