//! The host functions a module may import: their names, and what each does
//! to the interpreter's value stack and linear memory. What needs the
//! outside world (the console, the keyboard, the clock, the FAT disk) is
//! handed back to the caller as plain values.
use vstd::prelude::*;
use crate::bytes::{bytes_eq, le32_at, push_all, u32_from_le};
use crate::vga::{blit_ops, blit_rgb32, on_screen, rgb_color, set_pixel, FbOp, VgaBuffer};
use crate::fs::table::{find_slot_from, FileTable, FileView};
use crate::keyboard::Key;
use crate::shell::{all_digits, checked_i32, dec_value};
use crate::wat_lex::{digits_value, int_value};
use crate::net::ip::{le_octets, le_value, IpAddr};
use crate::net::stack::{clamp, first_free, slot_in_state, tcp_status_of, NetworkStack};
use crate::net::tcp::TcpState;
use crate::text::{is_utf8, str_from_utf8, text_or_empty};
use crate::wasm::engine::{ArgsBuf, RunError, SleepChannel};
use crate::wasm::interp::{Interpreter, InterpError, MAX_FUNCS, STACK_DEPTH};
use vstd::utf8::valid_utf8;
use crate::wasm::loader::{for_each_func_import, func_imports};
use vstd::string::StringSliceAdditionalSpecFns;

verus! {

/// A built-in host function.
#[derive(Clone, Copy, PartialEq, Eq, Debug, Structural)]
pub enum HostFunc {
    Print,
    PrintInt,
    PrintI64,
    PrintChar,
    PrintHex,
    Yield,
    SleepMs,
    UptimeMs,
    WasmOpcount,
    Exit,
    ReadChar,
    ReadLine,
    FsRead,
    FsWrite,
    FsSize,
    ArgsGet,
    FbSetPixel,
    FbPresent,
    FbBlit,
    NetListen,
    NetConnect,
    NetSend,
    NetRecv,
    NetClose,
    NetSetIp,
    NetAccept,
    NetStatus,
    NetGetIp,
    NetUdpBind,
    NetUdpConnect,
    NetUdpSend,
    NetUdpRecv,
    NetUdpClose,
}

/// The host function of the `env` module named `name`.
pub open spec fn env_named(name: Seq<u8>) -> Option<HostFunc> {
    if name == "print".spec_bytes() {
        Some(HostFunc::Print)
    } else if name == "print_int".spec_bytes() {
        Some(HostFunc::PrintInt)
    } else if name == "print_i64".spec_bytes() {
        Some(HostFunc::PrintI64)
    } else if name == "print_char".spec_bytes() {
        Some(HostFunc::PrintChar)
    } else if name == "print_hex".spec_bytes() {
        Some(HostFunc::PrintHex)
    } else if name == "yield".spec_bytes() {
        Some(HostFunc::Yield)
    } else if name == "sleep_ms".spec_bytes() {
        Some(HostFunc::SleepMs)
    } else if name == "uptime_ms".spec_bytes() {
        Some(HostFunc::UptimeMs)
    } else if name == "wasm_opcount".spec_bytes() {
        Some(HostFunc::WasmOpcount)
    } else if name == "exit".spec_bytes() {
        Some(HostFunc::Exit)
    } else if name == "read_char".spec_bytes() {
        Some(HostFunc::ReadChar)
    } else if name == "read_line".spec_bytes() {
        Some(HostFunc::ReadLine)
    } else if name == "fs_read".spec_bytes() {
        Some(HostFunc::FsRead)
    } else if name == "fs_write".spec_bytes() {
        Some(HostFunc::FsWrite)
    } else if name == "fs_size".spec_bytes() {
        Some(HostFunc::FsSize)
    } else if name == "args_get".spec_bytes() {
        Some(HostFunc::ArgsGet)
    } else if name == "fb_set_pixel".spec_bytes() {
        Some(HostFunc::FbSetPixel)
    } else if name == "fb_present".spec_bytes() {
        Some(HostFunc::FbPresent)
    } else if name == "fb_blit".spec_bytes() {
        Some(HostFunc::FbBlit)
    } else {
        None
    }
}

/// The host function of the `net` module named `name`.
pub open spec fn net_named(name: Seq<u8>) -> Option<HostFunc> {
    if name == "listen".spec_bytes() {
        Some(HostFunc::NetListen)
    } else if name == "connect".spec_bytes() {
        Some(HostFunc::NetConnect)
    } else if name == "send".spec_bytes() {
        Some(HostFunc::NetSend)
    } else if name == "recv".spec_bytes() {
        Some(HostFunc::NetRecv)
    } else if name == "close".spec_bytes() {
        Some(HostFunc::NetClose)
    } else if name == "set_ip".spec_bytes() {
        Some(HostFunc::NetSetIp)
    } else if name == "accept".spec_bytes() {
        Some(HostFunc::NetAccept)
    } else if name == "status".spec_bytes() {
        Some(HostFunc::NetStatus)
    } else if name == "get_ip".spec_bytes() {
        Some(HostFunc::NetGetIp)
    } else if name == "udp_bind".spec_bytes() {
        Some(HostFunc::NetUdpBind)
    } else if name == "udp_connect".spec_bytes() {
        Some(HostFunc::NetUdpConnect)
    } else if name == "udp_send".spec_bytes() {
        Some(HostFunc::NetUdpSend)
    } else if name == "udp_recv".spec_bytes() {
        Some(HostFunc::NetUdpRecv)
    } else if name == "udp_close".spec_bytes() {
        Some(HostFunc::NetUdpClose)
    } else {
        None
    }
}

/// The host function imported as `module.name`: the `env` and `net`
/// modules are provided.
#[verifier::opaque]
pub open spec fn host_named(module: Seq<u8>, name: Seq<u8>) -> Option<HostFunc> {
    if module == "env".spec_bytes() {
        env_named(name)
    } else if module == "net".spec_bytes() {
        net_named(name)
    } else {
        None
    }
}

/// Whether `k` spells `lit`.
fn is_name(k: &[u8], lit: &str) -> (r: bool)
    ensures
        r == (k@ == lit.spec_bytes()),
{
    bytes_eq(k, lit.as_bytes())
}

/// Find the host function of the `env` module named `name`.
fn lookup_env(name: &[u8]) -> (r: Option<HostFunc>)
    ensures
        r == env_named(name@),
{
    if is_name(name, "print") {
        Some(HostFunc::Print)
    } else if is_name(name, "print_int") {
        Some(HostFunc::PrintInt)
    } else if is_name(name, "print_i64") {
        Some(HostFunc::PrintI64)
    } else if is_name(name, "print_char") {
        Some(HostFunc::PrintChar)
    } else if is_name(name, "print_hex") {
        Some(HostFunc::PrintHex)
    } else if is_name(name, "yield") {
        Some(HostFunc::Yield)
    } else if is_name(name, "sleep_ms") {
        Some(HostFunc::SleepMs)
    } else if is_name(name, "uptime_ms") {
        Some(HostFunc::UptimeMs)
    } else if is_name(name, "wasm_opcount") {
        Some(HostFunc::WasmOpcount)
    } else if is_name(name, "exit") {
        Some(HostFunc::Exit)
    } else if is_name(name, "read_char") {
        Some(HostFunc::ReadChar)
    } else if is_name(name, "read_line") {
        Some(HostFunc::ReadLine)
    } else if is_name(name, "fs_read") {
        Some(HostFunc::FsRead)
    } else if is_name(name, "fs_write") {
        Some(HostFunc::FsWrite)
    } else if is_name(name, "fs_size") {
        Some(HostFunc::FsSize)
    } else if is_name(name, "args_get") {
        Some(HostFunc::ArgsGet)
    } else if is_name(name, "fb_set_pixel") {
        Some(HostFunc::FbSetPixel)
    } else if is_name(name, "fb_present") {
        Some(HostFunc::FbPresent)
    } else if is_name(name, "fb_blit") {
        Some(HostFunc::FbBlit)
    } else {
        None
    }
}

/// Find the host function of the `net` module named `name`.
fn lookup_net(name: &[u8]) -> (r: Option<HostFunc>)
    ensures
        r == net_named(name@),
{
    if is_name(name, "listen") {
        Some(HostFunc::NetListen)
    } else if is_name(name, "connect") {
        Some(HostFunc::NetConnect)
    } else if is_name(name, "send") {
        Some(HostFunc::NetSend)
    } else if is_name(name, "recv") {
        Some(HostFunc::NetRecv)
    } else if is_name(name, "close") {
        Some(HostFunc::NetClose)
    } else if is_name(name, "set_ip") {
        Some(HostFunc::NetSetIp)
    } else if is_name(name, "accept") {
        Some(HostFunc::NetAccept)
    } else if is_name(name, "status") {
        Some(HostFunc::NetStatus)
    } else if is_name(name, "get_ip") {
        Some(HostFunc::NetGetIp)
    } else if is_name(name, "udp_bind") {
        Some(HostFunc::NetUdpBind)
    } else if is_name(name, "udp_connect") {
        Some(HostFunc::NetUdpConnect)
    } else if is_name(name, "udp_send") {
        Some(HostFunc::NetUdpSend)
    } else if is_name(name, "udp_recv") {
        Some(HostFunc::NetUdpRecv)
    } else if is_name(name, "udp_close") {
        Some(HostFunc::NetUdpClose)
    } else {
        None
    }
}

/// Find the host function imported as `module.name`.
pub fn lookup_host(module: &[u8], name: &[u8]) -> (r: Option<HostFunc>)
    ensures
        r == host_named(module@, name@),
{
    reveal(host_named);
    if is_name(module, "env") {
        lookup_env(name)
    } else if is_name(module, "net") {
        lookup_net(name)
    } else {
        None
    }
}

/// The function imports that are bound: the first `MAX_FUNCS`.
pub open spec fn bound_imports(sec: Seq<u8>) -> Seq<(Seq<u8>, Seq<u8>)> {
    let names = func_imports(sec);
    if names.len() <= MAX_FUNCS {
        names
    } else {
        names.take(MAX_FUNCS as int)
    }
}

/// The host functions that the bound function imports of an import
/// section name, in order; `None` when one names no host function.
pub open spec fn resolved_imports(sec: Seq<u8>) -> Option<Seq<HostFunc>> {
    let names = bound_imports(sec);
    if forall|k: int| 0 <= k < names.len() ==> (#[trigger] host_named(names[k].0, names[k].1)) is Some {
        Some(Seq::new(names.len(), |k: int| host_named(names[k].0, names[k].1).unwrap()))
    } else {
        None
    }
}

/// Bind each function import of a module (its first `MAX_FUNCS`) to a host
/// function; `Err(ImportNotFound)` when one names none. A module without
/// an import section imports nothing.
pub fn resolve_imports(import_section: Option<&[u8]>) -> (r: Result<Vec<HostFunc>, RunError>)
    ensures
        match import_section {
            None => r is Ok && r.unwrap()@ == Seq::<HostFunc>::empty(),
            Some(sec) => match resolved_imports(sec@) {
                Some(fs) => r is Ok && r.unwrap()@ == fs,
                None => r == Err::<Vec<HostFunc>, RunError>(RunError::ImportNotFound),
            },
        },
{
    let mut out: Vec<HostFunc> = Vec::new();
    if import_section.is_none() {
        return Ok(out);
    }
    let sec = import_section.unwrap();
    let names = for_each_func_import(sec);
    let ghost want = bound_imports(sec@);
    let n = if names.len() <= MAX_FUNCS { names.len() } else { MAX_FUNCS };
    assert(n == want.len());
    let mut k: usize = 0;
    while k < n
        invariant
            import_section == Some(sec),
            k <= n,
            n == want.len(),
            n <= names@.len(),
            want == bound_imports(sec@),
            names@.len() == func_imports(sec@).len(),
            forall|q: int| 0 <= q < names@.len() ==> (#[trigger] names@[q]).0@ == func_imports(sec@)[q].0
                && names@[q].1@ == func_imports(sec@)[q].1,
            out@.len() == k,
            forall|q: int| 0 <= q < k ==> (#[trigger] host_named(want[q].0, want[q].1)) is Some && out@[q]
                == host_named(want[q].0, want[q].1).unwrap(),
        decreases n - k,
    {
        let (m, f) = names[k];
        assert(m@ == want[k as int].0 && f@ == want[k as int].1);
        match lookup_host(m, f) {
            Some(h) => {
                out.push(h);
            },
            None => {
                assert(host_named(want[k as int].0, want[k as int].1) is None);
                assert(resolved_imports(sec@) is None);
                return Err(RunError::ImportNotFound);
            },
        }
        k = k + 1;
    }
    assert(out@ =~= Seq::new(want.len(), |q: int| host_named(want[q].0, want[q].1).unwrap()));
    Ok(out)
}

/// The decimal digits of `n`.
pub open spec fn dec_digits(n: nat) -> Seq<u8>
    decreases n,
{
    if n < 10 {
        seq![(48 + n) as u8]
    } else {
        dec_digits(n / 10).push((48 + n % 10) as u8)
    }
}

/// `n` in decimal, with a minus sign when negative.
pub open spec fn dec_text(n: int) -> Seq<u8> {
    if n < 0 {
        seq![45u8] + dec_digits((-n) as nat)
    } else {
        dec_digits(n as nat)
    }
}

/// The decimal digits of `m` are digits worth `m`.
proof fn lemma_dec_digits(m: nat)
    ensures
        dec_digits(m).len() > 0,
        all_digits(dec_digits(m)),
        dec_value(dec_digits(m)) == m,
    decreases m,
{
    let d = dec_digits(m);
    if m >= 10 {
        lemma_dec_digits(m / 10);
        assert(d.drop_last() =~= dec_digits(m / 10));
        assert(d.last() == (48 + m % 10) as u8);
        vstd::arithmetic::div_mod::lemma_fundamental_div_mod(m as int, 10);
        assert(dec_value(d) == dec_value(dec_digits(m / 10)) * 10 + (m % 10));
        assert((m / 10) * 10 + m % 10 == m) by (nonlinear_arith)
            requires m == 10 * (m / 10) + m % 10;
    } else {
        assert(d.drop_last() =~= Seq::<u8>::empty());
        assert(dec_value(d) == dec_value(d.drop_last()) * 10 + (d.last() - 48) as nat);
    }
}

/// The assembler's digit reader gives back a number from its decimal
/// digits, when the number fits an `i32`.
proof fn lemma_digits_value(m: nat)
    requires
        m <= i32::MAX,
    ensures
        digits_value(dec_digits(m)) == m,
    decreases m,
{
    let d = dec_digits(m);
    if m >= 10 {
        lemma_digits_value(m / 10);
        assert(d.drop_last() =~= dec_digits(m / 10));
        vstd::arithmetic::div_mod::lemma_fundamental_div_mod(m as int, 10);
        let v = (m / 10) as int;
        assert(v * 10 + m % 10 == m) by (nonlinear_arith)
            requires m == 10 * (m / 10) + m % 10, v == m / 10;
        assert(0 <= v * 10 <= i32::MAX);
        vstd::arithmetic::div_mod::lemma_small_mod((v * 10) as nat, 0x1_0000_0000);
        assert(vstd::wrapping::i32_specs::wrapping_mul(v as i32, 10) == v * 10);
        assert(d.last() == (48 + m % 10) as u8);
        assert(digits_value(d.drop_last()) == v);
        assert(digits_value(d) == vstd::wrapping::i32_specs::wrapping_add(
            vstd::wrapping::i32_specs::wrapping_mul(v as i32, 10),
            (d.last() - 48) as i32,
        ));
    } else {
        assert(d.drop_last() =~= Seq::<u8>::empty());
        assert(digits_value(d.drop_last()) == 0);
        assert(d.len() == 1 && d.last() == (48 + m) as u8);
        vstd::arithmetic::div_mod::lemma_small_mod(0, 0x1_0000_0000);
        assert(vstd::wrapping::i32_specs::wrapping_mul(0i32, 10) == 0);
        assert(digits_value(d) == vstd::wrapping::i32_specs::wrapping_add(
            vstd::wrapping::i32_specs::wrapping_mul(0i32, 10),
            (d.last() - 48) as i32,
        ));
    }
}

/// The assembler reads back, as an integer literal, the decimal text of any
/// 32-bit integer but the least.
pub proof fn lemma_literal_roundtrip(n: i32)
    ensures
        n > i32::MIN ==> int_value(dec_text(n as int)) == n,
{
    let s = dec_text(n as int);
    if n < 0 && n > i32::MIN {
        lemma_digits_value((-n) as nat);
        assert(s.skip(1) =~= dec_digits((-n) as nat));
    } else if n >= 0 {
        lemma_digits_value(n as nat);
        lemma_dec_digits(n as nat);
        assert(s[0] != 0x2D);
    }
}

/// The shell's integer parser reads back any 32-bit integer from the
/// decimal text the host functions print for it.
pub proof fn lemma_decimal_roundtrip(n: i32)
    ensures
        checked_i32(dec_text(n as int)) == Some(n),
{
    let s = dec_text(n as int);
    if n < 0 {
        lemma_dec_digits((-n) as nat);
        assert(s.skip(1) =~= dec_digits((-n) as nat));
    } else {
        lemma_dec_digits(n as nat);
        assert(s[0] != 0x2D);
    }
}


/// The hex digit of `d` (0 to 15), upper case.
pub open spec fn hex_digit(d: nat) -> u8 {
    if d < 10 {
        (48 + d) as u8
    } else {
        (55 + d) as u8
    }
}

/// The last `k` hex digits of `n`, most significant first.
pub open spec fn hex_digits(n: nat, k: nat) -> Seq<u8>
    decreases k,
{
    if k == 0 {
        Seq::empty()
    } else {
        hex_digits(n / 16, (k - 1) as nat).push(hex_digit(n % 16))
    }
}

/// Append the decimal digits of `v`.
fn push_digits(out: &mut Vec<u8>, v: u64)
    ensures
        final(out)@ == old(out)@ + dec_digits(v as nat),
    decreases v,
{
    if v >= 10 {
        push_digits(out, v / 10);
    }
    out.push(48 + (v % 10) as u8);
    assert(final(out)@ =~= old(out)@ + dec_digits(v as nat));
}

/// Append the last `k` hex digits of `v`.
fn push_hex(out: &mut Vec<u8>, v: u32, k: usize)
    ensures
        final(out)@ == old(out)@ + hex_digits(v as nat, k as nat),
    decreases k,
{
    if k > 0 {
        push_hex(out, v / 16, k - 1);
        let d = (v % 16) as u8;
        out.push(if d < 10 { 48 + d } else { 55 + d });
        assert(final(out)@ =~= old(out)@ + hex_digits(v as nat, k as nat));
    }
}

/// The line `print_int` prints: `n` in decimal and a newline.
pub fn fmt_i32(n: i32) -> (r: Vec<u8>)
    ensures
        r@ == dec_text(n as int).push(10u8),
{
    let mut out: Vec<u8> = Vec::new();
    let val: u32 = if n == i32::MIN {
        2147483648
    } else if n < 0 {
        (-n) as u32
    } else {
        n as u32
    };
    if n < 0 {
        out.push(45);
    }
    push_digits(&mut out, val as u64);
    out.push(10);
    assert(out@ =~= dec_text(n as int).push(10u8));
    out
}

/// The line `print_i64` prints: `n` in decimal and a newline.
pub fn fmt_i64(n: i64) -> (r: Vec<u8>)
    ensures
        r@ == dec_text(n as int).push(10u8),
{
    let mut out: Vec<u8> = Vec::new();
    let val: u64 = if n == i64::MIN {
        9223372036854775808
    } else if n < 0 {
        (-n) as u64
    } else {
        n as u64
    };
    if n < 0 {
        out.push(45);
    }
    push_digits(&mut out, val);
    out.push(10);
    assert(out@ =~= dec_text(n as int).push(10u8));
    out
}

/// The line `print_hex` prints: `0x`, eight upper-case hex digits and a
/// newline.
pub fn fmt_hex(n: u32) -> (r: Vec<u8>)
    ensures
        r@ == seq![48u8, 120u8] + hex_digits(n as nat, 8).push(10u8),
{
    let mut out: Vec<u8> = Vec::new();
    out.push(48);
    out.push(120);
    push_hex(&mut out, n, 8);
    out.push(10);
    assert(out@ =~= seq![48u8, 120u8] + hex_digits(n as nat, 8).push(10u8));
    out
}

/// Argument `i` of the top `k` values of `s`, bottom first.
pub open spec fn arg(s: Seq<i64>, k: int, i: int) -> i64 {
    s[s.len() - k + i]
}

/// The values popped as the top `n` of `s` are its arguments.
proof fn lemma_args(s: Seq<i64>, n: int, a: Seq<i64>)
    requires
        0 <= n <= s.len(),
        a == s.skip(s.len() - n),
    ensures
        a.len() == n,
        forall|i: int| 0 <= i < n ==> #[trigger] a[i] == arg(s, n, i),
{
}

/// `s` without its top `k` values.
pub open spec fn below(s: Seq<i64>, k: int) -> Seq<i64> {
    s.take(s.len() - k)
}

/// The bytes `print` writes: those of memory from `ptr` for `len` bytes,
/// cut at the end of memory (none when `ptr` lies past it).
pub open spec fn print_span(mem: Seq<u8>, ptr: usize, len: usize) -> Seq<u8> {
    let end = if ptr + len < mem.len() { ptr + len } else { mem.len() as int };
    if ptr <= end {
        mem.subrange(ptr as int, end)
    } else {
        Seq::empty()
    }
}

/// `min(ptr + len, mlen)`.
fn span_end(ptr: usize, len: usize, mlen: usize) -> (e: usize)
    ensures
        e == if ptr + len < mlen { ptr + len } else { mlen as int },
{
    if len < mlen && ptr < mlen - len {
        ptr + len
    } else {
        mlen
    }
}

/// Whether `len` bytes from `ptr` lie inside `mlen` bytes.
fn fits(ptr: usize, len: usize, mlen: usize) -> (b: bool)
    ensures
        b == (ptr + len <= mlen),
{
    len <= mlen && ptr <= mlen - len
}

/// Push a result onto a stack with room for it.
fn push_result(it: &mut Interpreter, v: i64)
    requires
        old(it).wf(),
        old(it).stack().len() < STACK_DEPTH,
    ensures
        final(it).wf(),
        final(it).stack() == old(it).stack().push(v),
        old(it).same_but_stack(final(it)),
{
    let _ = it.push_value(v);
}

/// `print(ptr, len)`: the text to write, the bytes of `print_span` when
/// they are valid UTF-8 and nothing otherwise.
pub fn host_print(it: &mut Interpreter) -> (r: Result<Vec<u8>, InterpError>)
    requires
        old(it).wf(),
    ensures
        final(it).wf(),
        old(it).same_but_stack(final(it)),
        old(it).stack().len() < 2 ==> r == Err::<Vec<u8>, InterpError>(InterpError::StackUnderflow),
        old(it).stack().len() >= 2 ==> {
            let s = old(it).stack();
            &&& final(it).stack() == below(s, 2)
            &&& r is Ok
            &&& r.unwrap()@ == text_or_empty(print_span(old(it).memory(), arg(s, 2, 0) as usize, arg(s, 2, 1) as usize))
        },
{
    let ghost s0 = *it;
    let a = it.pop_args(2)?;
    proof {
        lemma_args(s0.stack(), 2, a@);
        Interpreter::lemma_same_but_stack(s0, *it, *it);
    }
    let ptr = a[0] as usize;
    let len = a[1] as usize;
    let mem = it.mem_bytes();
    let end = span_end(ptr, len, mem.len());
    let mut out: Vec<u8> = Vec::new();
    if ptr <= end {
        let span = vstd::slice::slice_subrange(mem, ptr, end);
        if is_utf8(span) {
            push_all(&mut out, span);
        }
        assert(out@ =~= text_or_empty(span@));
    } else {
        assert(out@ =~= text_or_empty(Seq::<u8>::empty()));
    }
    Ok(out)
}

/// `print_int(n)`: the line to write, `n` (as 32 bits) in decimal.
pub fn host_print_int(it: &mut Interpreter) -> (r: Result<Vec<u8>, InterpError>)
    requires
        old(it).wf(),
    ensures
        final(it).wf(),
        old(it).same_but_stack(final(it)),
        old(it).stack().len() < 1 ==> r == Err::<Vec<u8>, InterpError>(InterpError::StackUnderflow),
        old(it).stack().len() >= 1 ==> final(it).stack() == below(old(it).stack(), 1) && r is Ok
            && r.unwrap()@ == dec_text(arg(old(it).stack(), 1, 0) as i32 as int).push(10u8),
{
    let a = it.pop_args(1)?;
    Ok(fmt_i32(a[0] as i32))
}

/// `print_i64(n)`: the line to write, `n` in decimal.
pub fn host_print_i64(it: &mut Interpreter) -> (r: Result<Vec<u8>, InterpError>)
    requires
        old(it).wf(),
    ensures
        final(it).wf(),
        old(it).same_but_stack(final(it)),
        old(it).stack().len() < 1 ==> r == Err::<Vec<u8>, InterpError>(InterpError::StackUnderflow),
        old(it).stack().len() >= 1 ==> final(it).stack() == below(old(it).stack(), 1) && r is Ok
            && r.unwrap()@ == dec_text(arg(old(it).stack(), 1, 0) as int).push(10u8),
{
    let a = it.pop_args(1)?;
    Ok(fmt_i64(a[0]))
}

/// `print_char(c)`: the text to write, the low byte of `c` when it is
/// ASCII and nothing otherwise.
pub fn host_print_char(it: &mut Interpreter) -> (r: Result<Vec<u8>, InterpError>)
    requires
        old(it).wf(),
    ensures
        final(it).wf(),
        old(it).same_but_stack(final(it)),
        old(it).stack().len() < 1 ==> r == Err::<Vec<u8>, InterpError>(InterpError::StackUnderflow),
        old(it).stack().len() >= 1 ==> {
            let c = arg(old(it).stack(), 1, 0) as u8;
            &&& final(it).stack() == below(old(it).stack(), 1)
            &&& r is Ok
            &&& r.unwrap()@ == if c < 128 { seq![c] } else { Seq::<u8>::empty() }
        },
{
    let a = it.pop_args(1)?;
    let c = a[0] as u8;
    let mut out: Vec<u8> = Vec::new();
    if c < 128 {
        out.push(c);
    }
    assert(out@ =~= if c < 128 { seq![c] } else { Seq::<u8>::empty() });
    Ok(out)
}

/// `print_hex(n)`: the line to write, `n` (as 32 bits) in hex.
pub fn host_print_hex(it: &mut Interpreter) -> (r: Result<Vec<u8>, InterpError>)
    requires
        old(it).wf(),
    ensures
        final(it).wf(),
        old(it).same_but_stack(final(it)),
        old(it).stack().len() < 1 ==> r == Err::<Vec<u8>, InterpError>(InterpError::StackUnderflow),
        old(it).stack().len() >= 1 ==> final(it).stack() == below(old(it).stack(), 1) && r is Ok
            && r.unwrap()@ == seq![48u8, 120u8] + hex_digits(arg(old(it).stack(), 1, 0) as u32 as nat, 8).push(10u8),
{
    let a = it.pop_args(1)?;
    Ok(fmt_hex(a[0] as u32))
}

/// `sleep_ms(ms)`: ask to sleep `ms` milliseconds (none when negative) and
/// give up the CPU: `Err(Yielded)`.
pub fn host_sleep_ms(it: &mut Interpreter, chan: &mut SleepChannel) -> (r: Result<(), InterpError>)
    requires
        old(it).wf(),
    ensures
        final(it).wf(),
        old(it).same_but_stack(final(it)),
        old(it).stack().len() < 1 ==> r == Err::<(), InterpError>(InterpError::StackUnderflow) && *final(chan)
            == *old(chan),
        old(it).stack().len() >= 1 ==> {
            let ms = arg(old(it).stack(), 1, 0) as i32;
            &&& final(it).stack() == below(old(it).stack(), 1)
            &&& r == Err::<(), InterpError>(InterpError::Yielded)
            &&& final(chan).pending() == if ms < 0 { 0 } else { ms as u32 }
        },
{
    let a = it.pop_args(1)?;
    let ms = a[0] as i32;
    chan.request_sleep_ms(if ms < 0 { 0 } else { ms as u32 });
    Err(InterpError::Yielded)
}

/// `exit(code)`: end the module as if it had returned: `Err(Exited)`.
pub fn host_exit(it: &mut Interpreter) -> (r: Result<(), InterpError>)
    requires
        old(it).wf(),
    ensures
        final(it).wf(),
        old(it).same_but_stack(final(it)),
        old(it).stack().len() < 1 ==> r == Err::<(), InterpError>(InterpError::StackUnderflow),
        old(it).stack().len() >= 1 ==> final(it).stack() == below(old(it).stack(), 1) && r == Err::<
            (),
            InterpError,
        >(InterpError::Exited),
{
    let _ = it.pop_args(1)?;
    Err(InterpError::Exited)
}

/// The code `read_char` returns for a key: the character's, or 10 for
/// Enter; `None` for a key it waits past.
pub fn read_char_code(k: Key) -> (r: Option<i32>)
    ensures
        r == match k {
            Key::Char(c) => Some(c as i32),
            Key::Enter => Some(10i32),
            _ => None,
        },
{
    match k {
        Key::Char(c) => Some(c as i32),
        Key::Enter => Some(10),
        _ => None,
    }
}

/// `read_line(ptr, cap)`, first half: where the line goes. When `cap`
/// bytes from `ptr` do not fit in memory the answer is -1 and there is no
/// line to read (`None`).
pub fn host_read_line_target(it: &mut Interpreter) -> (r: Result<Option<(usize, usize)>, InterpError>)
    requires
        old(it).wf(),
    ensures
        final(it).wf(),
        old(it).same_but_stack(final(it)),
        old(it).stack().len() < 2 ==> r == Err::<Option<(usize, usize)>, InterpError>(InterpError::StackUnderflow),
        old(it).stack().len() >= 2 ==> {
            let s = old(it).stack();
            let ptr = arg(s, 2, 0) as usize;
            let cap = arg(s, 2, 1) as usize;
            if ptr + cap <= old(it).memory().len() {
                r == Ok::<Option<(usize, usize)>, InterpError>(Some((ptr, cap))) && final(it).stack() == below(s, 2)
            } else {
                r == Ok::<Option<(usize, usize)>, InterpError>(None) && final(it).stack() == below(s, 2).push(-1i64)
            }
        },
{
    proof {
        it.lemma_stack_fits();
    }
    let ghost s0 = *it;
    let a = it.pop_args(2)?;
    proof {
        lemma_args(s0.stack(), 2, a@);
        Interpreter::lemma_same_but_stack(s0, *it, *it);
    }
    let ptr = a[0] as usize;
    let cap = a[1] as usize;
    if fits(ptr, cap, it.mem_bytes().len()) {
        Ok(Some((ptr, cap)))
    } else {
        let ghost s1 = *it;
        push_result(it, -1);
        proof {
            Interpreter::lemma_same_but_stack(s0, s1, *it);
        }
        Ok(None)
    }
}

/// `read_line`, second half: store the line typed at `ptr` and answer its
/// length (-1, storing nothing, when it does not fit in memory).
pub fn host_read_line_finish(it: &mut Interpreter, ptr: usize, line: &[u8]) -> (r: Result<(), InterpError>)
    requires
        old(it).wf(),
    ensures
        final(it).wf(),
        old(it).same_but_stack_and_memory(final(it)),
        old(it).stack().len() >= STACK_DEPTH ==> r == Err::<(), InterpError>(InterpError::StackOverflow)
            && *final(it) == *old(it),
        old(it).stack().len() < STACK_DEPTH ==> r is Ok && if ptr + line@.len() <= old(it).memory().len() {
            &&& final(it).memory() == old(it).memory().take(ptr as int) + line@ + old(it).memory().skip(ptr + line@.len())
            &&& final(it).stack() == old(it).stack().push(line@.len() as i64)
        } else {
            &&& final(it).memory() == old(it).memory()
            &&& final(it).stack() == old(it).stack().push(-1i64)
        },
{
    if it.stack_len() >= STACK_DEPTH {
        proof {
            Interpreter::lemma_same_but_stack(*it, *it, *it);
        }
        return Err(InterpError::StackOverflow);
    }
    let ghost s0 = *it;
    let ok = it.host_write(ptr, line);
    let ghost s1 = *it;
    let v: i64 = if ok { line.len() as i64 } else { -1 };
    push_result(it, v);
    proof {
        Interpreter::lemma_same_but_stack(s1, *it, *it);
        Interpreter::lemma_same_but_stack(s0, s1, *it);
    }
    Ok(())
}

/// The data of the first file of `slots` named `name`.
pub open spec fn file_named(slots: Seq<Option<FileView>>, name: Seq<u8>) -> Option<Seq<u8>> {
    match find_slot_from(slots, name, 0) {
        Some(i) => Some(slots[i].unwrap().data),
        None => None,
    }
}

/// The file that memory names with `len` bytes from `ptr`: none when they
/// do not fit in memory or are not valid UTF-8.
pub open spec fn named_file(mem: Seq<u8>, slots: Seq<Option<FileView>>, ptr: usize, len: usize) -> Option<Seq<u8>> {
    if ptr + len > mem.len() {
        None
    } else {
        let name = mem.subrange(ptr as int, ptr + len);
        if valid_utf8(name) {
            file_named(slots, name)
        } else {
            None
        }
    }
}

/// Look up the file that memory names with `len` bytes from `ptr`.
fn find_named<'a>(mem: &[u8], table: &FileTable<'a>, ptr: usize, len: usize) -> (r: Option<&'a [u8]>)
    ensures
        match named_file(mem@, table.slots(), ptr, len) {
            Some(d) => r is Some && r.unwrap()@ == d,
            None => r is None,
        },
{
    if !fits(ptr, len, mem.len()) {
        return None;
    }
    let name_bytes = vstd::slice::slice_subrange(mem, ptr, ptr + len);
    match str_from_utf8(name_bytes) {
        Some(name) => table.find_file(name),
        None => None,
    }
}

/// What `fs_read` copies to `buf_ptr`: the named file, when it fits in
/// the `buf_cap` bytes there and they fit in memory.
pub open spec fn fs_read_data(
    mem: Seq<u8>,
    slots: Seq<Option<FileView>>,
    name_ptr: usize,
    name_len: usize,
    buf_ptr: usize,
    buf_cap: usize,
) -> Option<Seq<u8>> {
    match named_file(mem, slots, name_ptr, name_len) {
        None => None,
        Some(d) => if buf_ptr + buf_cap > mem.len() || d.len() > buf_cap {
            None
        } else {
            Some(d)
        },
    }
}

/// `fs_read(name_ptr, name_len, buf_ptr, buf_cap)`: copy the named file
/// to `buf_ptr` and answer its length; -1, copying nothing, when
/// `fs_read_data` has nothing.
pub fn host_fs_read<'a>(it: &mut Interpreter, table: &FileTable<'a>) -> (r: Result<(), InterpError>)
    requires
        old(it).wf(),
    ensures
        final(it).wf(),
        old(it).same_but_stack_and_memory(final(it)),
        old(it).stack().len() < 4 ==> r == Err::<(), InterpError>(InterpError::StackUnderflow) && *final(it)
            == *old(it),
        old(it).stack().len() >= 4 ==> {
            let s = old(it).stack();
            let m = old(it).memory();
            &&& r is Ok
            &&& match fs_read_data(m, table.slots(), arg(s, 4, 0) as usize, arg(s, 4, 1) as usize,
                arg(s, 4, 2) as usize, arg(s, 4, 3) as usize) {
                Some(d) => final(it).memory() == m.take(arg(s, 4, 2) as usize as int) + d + m.skip(
                    arg(s, 4, 2) as usize + d.len(),
                ) && final(it).stack() == below(s, 4).push(d.len() as i64),
                None => final(it).memory() == m && final(it).stack() == below(s, 4).push(-1i64),
            }
        },
{
    proof {
        it.lemma_stack_fits();
        Interpreter::lemma_same_but_stack(*it, *it, *it);
    }
    let ghost s0 = *it;
    let a = it.pop_args(4)?;
    proof {
        lemma_args(s0.stack(), 4, a@);
        Interpreter::lemma_same_but_stack(s0, *it, *it);
    }
    let name_ptr = a[0] as usize;
    let name_len = a[1] as usize;
    let buf_ptr = a[2] as usize;
    let buf_cap = a[3] as usize;
    let found = find_named(it.mem_bytes(), table, name_ptr, name_len);
    let ghost s1 = *it;
    let v: i64 = match found {
        Some(d) => {
            if !fits(buf_ptr, buf_cap, it.mem_bytes().len()) || d.len() > buf_cap {
                -1
            } else {
                let ok = it.host_write(buf_ptr, d);
                assert(ok);
                d.len() as i64
            }
        },
        None => -1,
    };
    let ghost s2 = *it;
    push_result(it, v);
    proof {
        Interpreter::lemma_same_but_stack(s2, *it, *it);
        Interpreter::lemma_same_but_stack(s1, s2, *it);
        Interpreter::lemma_same_but_stack(s0, s1, *it);
    }
    Ok(())
}

/// What `fs_size` answers: the named file's length, or -1.
pub open spec fn fs_size_value(mem: Seq<u8>, slots: Seq<Option<FileView>>, name_ptr: usize, name_len: usize) -> i64 {
    match named_file(mem, slots, name_ptr, name_len) {
        Some(d) => d.len() as i64,
        None => -1i64,
    }
}

/// `fs_size(name_ptr, name_len)`: the named file's length, or -1.
pub fn host_fs_size<'a>(it: &mut Interpreter, table: &FileTable<'a>) -> (r: Result<(), InterpError>)
    requires
        old(it).wf(),
    ensures
        final(it).wf(),
        old(it).same_but_stack(final(it)),
        old(it).stack().len() < 2 ==> r == Err::<(), InterpError>(InterpError::StackUnderflow) && *final(it)
            == *old(it),
        old(it).stack().len() >= 2 ==> {
            let s = old(it).stack();
            &&& r is Ok
            &&& final(it).stack() == below(s, 2).push(
                fs_size_value(old(it).memory(), table.slots(), arg(s, 2, 0) as usize, arg(s, 2, 1) as usize),
            )
        },
{
    proof {
        it.lemma_stack_fits();
    }
    let ghost s0 = *it;
    let a = it.pop_args(2)?;
    proof {
        lemma_args(s0.stack(), 2, a@);
        Interpreter::lemma_same_but_stack(s0, *it, *it);
    }
    let v: i64 = match find_named(it.mem_bytes(), table, a[0] as usize, a[1] as usize) {
        Some(d) => d.len() as i64,
        None => -1,
    };
    let ghost s1 = *it;
    push_result(it, v);
    proof {
        Interpreter::lemma_same_but_stack(s0, s1, *it);
    }
    Ok(())
}

/// `args_get(ptr, cap)`: copy the argument string to `ptr` and answer its
/// length; -1, copying nothing, when it is longer than `cap` or does not
/// fit in memory there.
pub fn host_args_get(it: &mut Interpreter, args: &ArgsBuf) -> (r: Result<(), InterpError>)
    requires
        old(it).wf(),
    ensures
        final(it).wf(),
        old(it).same_but_stack_and_memory(final(it)),
        old(it).stack().len() < 2 ==> r == Err::<(), InterpError>(InterpError::StackUnderflow) && *final(it)
            == *old(it),
        old(it).stack().len() >= 2 ==> {
            let s = old(it).stack();
            let m = old(it).memory();
            let ptr = arg(s, 2, 0) as usize;
            let cap = arg(s, 2, 1) as usize;
            let t = args.args();
            &&& r is Ok
            &&& if ptr + t.len() > m.len() || t.len() > cap {
                final(it).memory() == m && final(it).stack() == below(s, 2).push(-1i64)
            } else {
                final(it).memory() == m.take(ptr as int) + t + m.skip(ptr + t.len()) && final(it).stack()
                    == below(s, 2).push(t.len() as i64)
            }
        },
{
    proof {
        it.lemma_stack_fits();
        Interpreter::lemma_same_but_stack(*it, *it, *it);
    }
    let ghost s0 = *it;
    let a = it.pop_args(2)?;
    proof {
        lemma_args(s0.stack(), 2, a@);
        Interpreter::lemma_same_but_stack(s0, *it, *it);
    }
    let ptr = a[0] as usize;
    let cap = a[1] as usize;
    let t = args.get();
    let ghost s1 = *it;
    let v: i64 = if !fits(ptr, t.len(), it.mem_bytes().len()) || t.len() > cap {
        -1
    } else {
        let ok = it.host_write(ptr, t);
        t.len() as i64
    };
    let ghost s2 = *it;
    push_result(it, v);
    proof {
        Interpreter::lemma_same_but_stack(s2, *it, *it);
        Interpreter::lemma_same_but_stack(s1, s2, *it);
        Interpreter::lemma_same_but_stack(s0, s1, *it);
    }
    Ok(())
}

/// The longest file name `fs_write` keeps, in bytes.
pub const FS_WRITE_NAME_MAX: usize = 64;

/// `fs_write(name_ptr, name_len, buf_ptr, buf_len)`, first half: the file
/// name (its first 64 bytes) and the data to store, copied out of memory.
/// When either does not fit in memory, or the name is not valid UTF-8, the
/// answer is -1 and there is nothing to store (`None`); otherwise the
/// caller stores the file and answers 0, or -1 when it cannot.
pub fn host_fs_write_args(it: &mut Interpreter) -> (r: Result<Option<(Vec<u8>, Vec<u8>)>, InterpError>)
    requires
        old(it).wf(),
    ensures
        final(it).wf(),
        old(it).same_but_stack(final(it)),
        old(it).stack().len() < 4 ==> r == Err::<Option<(Vec<u8>, Vec<u8>)>, InterpError>(
            InterpError::StackUnderflow,
        ) && *final(it) == *old(it),
        old(it).stack().len() >= 4 ==> {
            let s = old(it).stack();
            let m = old(it).memory();
            let np = arg(s, 4, 0) as usize;
            let nl = arg(s, 4, 1) as usize;
            let bp = arg(s, 4, 2) as usize;
            let bl = arg(s, 4, 3) as usize;
            let keep: int = if nl <= FS_WRITE_NAME_MAX { nl as int } else { FS_WRITE_NAME_MAX as int };
            let name = m.subrange(np as int, np + keep);
            &&& r is Ok
            &&& if np + nl > m.len() || bp + bl > m.len() || !valid_utf8(name) {
                r.unwrap() is None && final(it).stack() == below(s, 4).push(-1i64)
            } else {
                r.unwrap() is Some && r.unwrap().unwrap().0@ == name && r.unwrap().unwrap().1@ == m.subrange(
                    bp as int,
                    bp + bl,
                ) && final(it).stack() == below(s, 4)
            }
        },
{
    proof {
        it.lemma_stack_fits();
    }
    let ghost s0 = *it;
    let a = it.pop_args(4)?;
    proof {
        lemma_args(s0.stack(), 4, a@);
        Interpreter::lemma_same_but_stack(s0, *it, *it);
    }
    let np = a[0] as usize;
    let nl = a[1] as usize;
    let bp = a[2] as usize;
    let bl = a[3] as usize;
    let mem = it.mem_bytes();
    let mlen = mem.len();
    let keep = if nl <= FS_WRITE_NAME_MAX { nl } else { FS_WRITE_NAME_MAX };
    let ok = fits(np, nl, mlen) && fits(bp, bl, mlen) && is_utf8(vstd::slice::slice_subrange(mem, np, np + keep));
    if !ok {
        let ghost s1 = *it;
        push_result(it, -1);
        proof {
            Interpreter::lemma_same_but_stack(s0, s1, *it);
        }
        return Ok(None);
    }
    let mut name: Vec<u8> = Vec::new();
    push_all(&mut name, vstd::slice::slice_subrange(mem, np, np + keep));
    let mut data: Vec<u8> = Vec::new();
    push_all(&mut data, vstd::slice::slice_subrange(mem, bp, bp + bl));
    assert(name@ =~= s0.memory().subrange(np as int, np + keep));
    assert(data@ =~= s0.memory().subrange(bp as int, bp + bl));
    Ok(Some((name, data)))
}

/// `fb_set_pixel(x, y, rgb)`: set a pixel (see `vga::set_pixel`).
pub fn host_fb_set_pixel(it: &mut Interpreter, vga: &mut VgaBuffer) -> (r: Result<(), InterpError>)
    requires
        old(it).wf(),
    ensures
        final(it).wf(),
        old(it).same_but_stack(final(it)),
        final(vga)@ == old(vga)@,
        old(it).stack().len() < 3 ==> r == Err::<(), InterpError>(InterpError::StackUnderflow) && final(vga).ops@
            == old(vga).ops@,
        old(it).stack().len() >= 3 ==> {
            let s = old(it).stack();
            let x = arg(s, 3, 0) as i32;
            let y = arg(s, 3, 1) as i32;
            &&& r is Ok
            &&& final(it).stack() == below(s, 3)
            &&& final(vga).ops@ == if on_screen(old(vga).width, old(vga).height, x, y) {
                old(vga).ops@.push(FbOp::Pixel { x: x as usize, y: y as usize, color: rgb_color(arg(s, 3, 2) as u32) })
            } else {
                old(vga).ops@
            }
        },
{
    let ghost s0 = *it;
    let a = it.pop_args(3)?;
    proof {
        lemma_args(s0.stack(), 3, a@);
    }
    set_pixel(vga, a[0] as i32, a[1] as i32, a[2] as u32);
    Ok(())
}

/// The pixels of a blit: `n` little-endian 32-bit values from `ptr`.
pub open spec fn blit_pixels(mem: Seq<u8>, ptr: int, n: nat) -> Seq<u32> {
    Seq::new(n, |i: int| le32_at(mem, ptr + 4 * i))
}

/// `fb_blit(ptr, width, height)`: draw the `width` by `height` pixels
/// stored (packed `0x00RRGGBB`, little-endian) from `ptr`; nothing when
/// they do not fit in memory.
pub fn host_fb_blit(it: &mut Interpreter, vga: &mut VgaBuffer) -> (r: Result<(), InterpError>)
    requires
        old(it).wf(),
    ensures
        final(it).wf(),
        old(it).same_but_stack(final(it)),
        final(vga)@ == old(vga)@,
        old(it).stack().len() < 3 ==> r == Err::<(), InterpError>(InterpError::StackUnderflow) && final(vga).ops@
            == old(vga).ops@,
        old(it).stack().len() >= 3 ==> {
            let s = old(it).stack();
            let m = old(it).memory();
            let ptr = arg(s, 3, 0) as usize;
            let w = arg(s, 3, 1) as usize;
            let h = arg(s, 3, 2) as usize;
            &&& r is Ok
            &&& final(it).stack() == below(s, 3)
            &&& final(vga).ops@ == if ptr + 4 * (w * h) > m.len() {
                old(vga).ops@
            } else {
                old(vga).ops@ + blit_ops(blit_pixels(m, ptr as int, (w * h) as nat), w as nat, (w * h) as nat)
            }
        },
{
    let ghost s0 = *it;
    let a = it.pop_args(3)?;
    proof {
        lemma_args(s0.stack(), 3, a@);
        Interpreter::lemma_same_but_stack(s0, *it, *it);
    }
    let ptr = a[0] as usize;
    let w = a[1] as usize;
    let h = a[2] as usize;
    let mem = it.mem_bytes();
    let mlen = mem.len();
    if h != 0 && w > mlen / h {
        assert(w * h > mlen) by (nonlinear_arith)
            requires
                h != 0,
                w > mlen / h,
        ;
        assert(ptr + 4 * (w * h) > mlen) by (nonlinear_arith)
            requires
                w * h > mlen,
        ;
        return Ok(());
    }
    assert(w * h <= mlen) by (nonlinear_arith)
        requires
            h == 0 || w <= mlen / h,
    ;
    let n = w * h;
    if n > mlen / 4 || !fits(ptr, 4 * n, mlen) {
        return Ok(());
    }
    let mut pixels: Vec<u32> = Vec::new();
    let mut i: usize = 0;
    while i < n
        invariant
            i <= n,
            n <= mlen / 4,
            ptr + 4 * n <= mlen,
            mlen == mem@.len(),
            pixels@ == blit_pixels(mem@, ptr as int, i as nat),
        decreases n - i,
    {
        pixels.push(u32_from_le(mem, ptr + 4 * i));
        i = i + 1;
        assert(pixels@ =~= blit_pixels(mem@, ptr as int, i as nat));
    }
    blit_rgb32(vga, pixels.as_slice(), w, h);
    Ok(())
}

/// A slot index as an answer: the index, or -1 for none.
pub open spec fn slot_answer(i: Option<int>) -> i64 {
    match i {
        Some(k) => k as i64,
        None => -1i64,
    }
}

/// An optional slot index as an answer.
fn answer_of(r: Option<usize>) -> (v: i64)
    requires
        r matches Some(k) ==> k < 8,
    ensures
        v == slot_answer(match r {
            Some(k) => Some(k as int),
            None => None,
        }),
{
    match r {
        Some(k) => k as i64,
        None => -1,
    }
}

/// `listen(port)`: open a listening TCP socket on `port` (its low 16
/// bits); the answer is its slot, the first free one, or -1.
pub fn host_net_listen(it: &mut Interpreter, net: &mut NetworkStack) -> (r: Result<(), InterpError>)
    requires
        old(it).wf(),
        old(net).wf(),
    ensures
        final(it).wf(),
        final(net).wf(),
        old(it).same_but_stack(final(it)),
        old(it).stack().len() < 1 ==> r == Err::<(), InterpError>(InterpError::StackUnderflow) && *final(net)
            == *old(net),
        old(it).stack().len() >= 1 ==> r is Ok && final(it).stack() == below(old(it).stack(), 1).push(
            slot_answer(first_free(old(net).tcp_sockets@, 0)),
        ),
{
    proof {
        it.lemma_stack_fits();
    }
    let ghost s0 = *it;
    let a = it.pop_args(1)?;
    proof {
        lemma_args(s0.stack(), 1, a@);
        crate::net::stack::lemma_first_free(old(net).tcp_sockets@, 0);
    }
    let res = net.tcp_listen(a[0] as u16);
    let ghost s1 = *it;
    push_result(it, answer_of(res));
    proof {
        Interpreter::lemma_same_but_stack(s0, s1, *it);
    }
    Ok(())
}

/// `connect(ip, port)`: open a TCP connection to `ip` (its low 32 bits,
/// first octet least significant) and `port`; the answer is its slot, the
/// first free one, or -1.
pub fn host_net_connect(it: &mut Interpreter, net: &mut NetworkStack) -> (r: Result<(), InterpError>)
    requires
        old(it).wf(),
        old(net).wf(),
    ensures
        final(it).wf(),
        final(net).wf(),
        old(it).same_but_stack(final(it)),
        old(it).stack().len() < 2 ==> r == Err::<(), InterpError>(InterpError::StackUnderflow) && *final(net)
            == *old(net),
        old(it).stack().len() >= 2 ==> r is Ok && final(it).stack() == below(old(it).stack(), 2).push(
            slot_answer(first_free(old(net).tcp_sockets@, 0)),
        ),
{
    proof {
        it.lemma_stack_fits();
    }
    let ghost s0 = *it;
    let a = it.pop_args(2)?;
    proof {
        lemma_args(s0.stack(), 2, a@);
        crate::net::stack::lemma_first_free(old(net).tcp_sockets@, 0);
    }
    let ip = IpAddr::from_u32(a[0] as u32);
    let res = net.tcp_connect(ip, a[1] as u16);
    let ghost s1 = *it;
    push_result(it, answer_of(res));
    proof {
        Interpreter::lemma_same_but_stack(s0, s1, *it);
    }
    Ok(())
}

/// `send(handle, ptr, len)`: send the `len` bytes from `ptr` on an
/// established TCP connection; the answer is the count sent (at most one
/// segment's worth), or -1 for another socket, a handle out of range or
/// bytes outside memory.
pub fn host_net_send(it: &mut Interpreter, net: &mut NetworkStack) -> (r: Result<(), InterpError>)
    requires
        old(it).wf(),
        old(net).wf(),
    ensures
        final(it).wf(),
        final(net).wf(),
        old(it).same_but_stack(final(it)),
        old(it).stack().len() < 3 ==> r == Err::<(), InterpError>(InterpError::StackUnderflow) && *final(net)
            == *old(net),
        old(it).stack().len() >= 3 ==> {
            let s = old(it).stack();
            let h = arg(s, 3, 0) as usize;
            let ptr = arg(s, 3, 1) as usize;
            let len = arg(s, 3, 2) as usize;
            &&& r is Ok
            &&& final(it).stack() == below(s, 3).push(
                if h < 8 && ptr + len <= old(it).memory().len() && slot_in_state(
                    old(net).tcp_sockets@[h as int],
                    TcpState::Established,
                ) {
                    clamp(len as nat, 1460) as i64
                } else {
                    -1i64
                },
            )
            &&& !(h < 8 && ptr + len <= old(it).memory().len()) ==> *final(net) == *old(net)
        },
{
    proof {
        it.lemma_stack_fits();
    }
    let ghost s0 = *it;
    let a = it.pop_args(3)?;
    proof {
        lemma_args(s0.stack(), 3, a@);
        Interpreter::lemma_same_but_stack(s0, *it, *it);
    }
    let h = a[0] as usize;
    let ptr = a[1] as usize;
    let len = a[2] as usize;
    let mem = it.mem_bytes();
    let v: i64 = if h < 8 && fits(ptr, len, mem.len()) {
        match net.tcp_send(h, vstd::slice::slice_subrange(mem, ptr, ptr + len)) {
            Ok(n) => n as i64,
            Err(_) => -1,
        }
    } else {
        -1
    };
    let ghost s1 = *it;
    push_result(it, v);
    proof {
        Interpreter::lemma_same_but_stack(s0, s1, *it);
    }
    Ok(())
}

/// A slot holding a TCP socket.
pub open spec fn holds_socket(slot: Option<crate::net::tcp::TcpSocket>) -> bool {
    slot is Some
}

/// `recv(handle, ptr, cap)`: move the bytes received on a TCP socket (at
/// most `cap`) to `ptr`; the answer is their count (0 when nothing has
/// arrived yet), or -1 for an empty slot, a handle out of range or a
/// buffer outside memory.
pub fn host_net_recv(it: &mut Interpreter, net: &mut NetworkStack) -> (r: Result<(), InterpError>)
    requires
        old(it).wf(),
        old(net).wf(),
    ensures
        final(it).wf(),
        final(net).wf(),
        old(it).same_but_stack_and_memory(final(it)),
        old(it).stack().len() < 3 ==> r == Err::<(), InterpError>(InterpError::StackUnderflow) && *final(net)
            == *old(net) && *final(it) == *old(it),
        old(it).stack().len() >= 3 ==> {
            let s = old(it).stack();
            let m = old(it).memory();
            let h = arg(s, 3, 0) as usize;
            let ptr = arg(s, 3, 1) as usize;
            let cap = arg(s, 3, 2) as usize;
            &&& r is Ok
            &&& if h < 8 && ptr + cap <= m.len() && holds_socket(old(net).tcp_sockets@[h as int]) {
                let t = old(net).tcp_sockets@[h as int].unwrap();
                let n = clamp(t.recv_len as nat, cap as nat);
                &&& final(it).stack() == below(s, 3).push(n as i64)
                &&& final(it).memory() == m.take(ptr as int) + t@.data.take(n as int) + m.skip(ptr + n)
            } else {
                &&& final(it).stack() == below(s, 3).push(-1i64)
                &&& final(it).memory() == m
                &&& *final(net) == *old(net)
            }
        },
{
    proof {
        it.lemma_stack_fits();
        Interpreter::lemma_same_but_stack(*it, *it, *it);
    }
    let ghost s0 = *it;
    let a = it.pop_args(3)?;
    proof {
        lemma_args(s0.stack(), 3, a@);
        Interpreter::lemma_same_but_stack(s0, *it, *it);
    }
    let h = a[0] as usize;
    let ptr = a[1] as usize;
    let cap = a[2] as usize;
    let ghost s1 = *it;
    let mut v: i64 = -1;
    if h < 8 && fits(ptr, cap, it.mem_bytes().len()) {
        let mut buf: Vec<u8> = Vec::new();
        push_all(&mut buf, vstd::slice::slice_subrange(it.mem_bytes(), ptr, ptr + cap));
        match net.tcp_recv(h, buf.as_mut_slice()) {
            Ok(n) => {
                let got = vstd::slice::slice_subrange(buf.as_slice(), 0, n);
                let ok = it.host_write(ptr, got);
                v = n as i64;
            },
            Err(_) => {},
        }
    }
    let ghost s2 = *it;
    push_result(it, v);
    proof {
        Interpreter::lemma_same_but_stack(s2, *it, *it);
        Interpreter::lemma_same_but_stack(s1, s2, *it);
        Interpreter::lemma_same_but_stack(s0, s1, *it);
    }
    Ok(())
}

/// `close(handle)`: start closing an established (or peer-closed) TCP
/// connection; other sockets, empty slots and handles out of range are left
/// alone. The answer is always 0.
pub fn host_net_close(it: &mut Interpreter, net: &mut NetworkStack) -> (r: Result<(), InterpError>)
    requires
        old(it).wf(),
        old(net).wf(),
    ensures
        final(it).wf(),
        final(net).wf(),
        old(it).same_but_stack(final(it)),
        old(it).stack().len() < 1 ==> r == Err::<(), InterpError>(InterpError::StackUnderflow) && *final(net)
            == *old(net),
        old(it).stack().len() >= 1 ==> {
            let h = arg(old(it).stack(), 1, 0) as usize;
            let closing = h < 8 && (slot_in_state(old(net).tcp_sockets@[h as int], TcpState::Established)
                || slot_in_state(old(net).tcp_sockets@[h as int], TcpState::CloseWait));
            &&& r is Ok
            &&& final(it).stack() == below(old(it).stack(), 1).push(0i64)
            &&& !closing ==> *final(net) == *old(net)
        },
{
    proof {
        it.lemma_stack_fits();
    }
    let ghost s0 = *it;
    let a = it.pop_args(1)?;
    proof {
        lemma_args(s0.stack(), 1, a@);
    }
    let h = a[0] as usize;
    if h < 8 {
        let _ = net.tcp_close(h);
    }
    let v: i64 = 0;
    let ghost s1 = *it;
    push_result(it, v);
    proof {
        Interpreter::lemma_same_but_stack(s0, s1, *it);
    }
    Ok(())
}

/// `set_ip(ip)`: set this host's address (the low 32 bits of `ip`, first
/// octet least significant); the answer is 0.
pub fn host_net_set_ip(it: &mut Interpreter, net: &mut NetworkStack) -> (r: Result<(), InterpError>)
    requires
        old(it).wf(),
        old(net).wf(),
    ensures
        final(it).wf(),
        final(net).wf(),
        old(it).same_but_stack(final(it)),
        old(it).stack().len() < 1 ==> r == Err::<(), InterpError>(InterpError::StackUnderflow) && *final(net)
            == *old(net),
        old(it).stack().len() >= 1 ==> {
            &&& r is Ok
            &&& final(it).stack() == below(old(it).stack(), 1).push(0i64)
            &&& final(net).ip.0@ == le_octets(arg(old(it).stack(), 1, 0) as u32)
            &&& *final(net) == (NetworkStack { ip: final(net).ip, ..*old(net) })
        },
{
    proof {
        it.lemma_stack_fits();
    }
    let ghost s0 = *it;
    let a = it.pop_args(1)?;
    proof {
        lemma_args(s0.stack(), 1, a@);
    }
    net.set_ip(IpAddr::from_u32(a[0] as u32));
    let ghost s1 = *it;
    push_result(it, 0);
    proof {
        Interpreter::lemma_same_but_stack(s0, s1, *it);
    }
    Ok(())
}

/// `accept(handle)`: when the listening socket has an established
/// connection, move it to the first free slot and answer that slot; -1
/// when it has none, no slot is free or the handle is out of range.
pub fn host_net_accept(it: &mut Interpreter, net: &mut NetworkStack) -> (r: Result<(), InterpError>)
    requires
        old(it).wf(),
        old(net).wf(),
    ensures
        final(it).wf(),
        final(net).wf(),
        old(it).same_but_stack(final(it)),
        old(it).stack().len() < 1 ==> r == Err::<(), InterpError>(InterpError::StackUnderflow) && *final(net)
            == *old(net),
        old(it).stack().len() >= 1 ==> {
            let h = arg(old(it).stack(), 1, 0) as usize;
            let ready = h < 8 && slot_in_state(old(net).tcp_sockets@[h as int], TcpState::Established)
                && first_free(old(net).tcp_sockets@, 0) is Some;
            &&& r is Ok
            &&& final(it).stack() == below(old(it).stack(), 1).push(
                if ready { slot_answer(first_free(old(net).tcp_sockets@, 0)) } else { -1i64 },
            )
            &&& !ready ==> *final(net) == *old(net)
        },
{
    proof {
        it.lemma_stack_fits();
        crate::net::stack::lemma_first_free(old(net).tcp_sockets@, 0);
    }
    let ghost s0 = *it;
    let a = it.pop_args(1)?;
    proof {
        lemma_args(s0.stack(), 1, a@);
    }
    let h = a[0] as usize;
    let v: i64 = if h < 8 {
        answer_of(net.tcp_accept(h))
    } else {
        -1
    };
    let ghost s1 = *it;
    push_result(it, v);
    proof {
        Interpreter::lemma_same_but_stack(s0, s1, *it);
    }
    Ok(())
}

/// `status(handle)`: the state of a TCP socket as a number (see
/// `tcp_status_of`), 0 for a handle out of range.
pub fn host_net_status(it: &mut Interpreter, net: &NetworkStack) -> (r: Result<(), InterpError>)
    requires
        old(it).wf(),
    ensures
        final(it).wf(),
        old(it).same_but_stack(final(it)),
        old(it).stack().len() < 1 ==> r == Err::<(), InterpError>(InterpError::StackUnderflow),
        old(it).stack().len() >= 1 ==> {
            let h = arg(old(it).stack(), 1, 0) as usize;
            &&& r is Ok
            &&& final(it).stack() == below(old(it).stack(), 1).push(
                (if h < 8 { tcp_status_of(net.tcp_sockets@[h as int]) } else { 0i32 }) as i64,
            )
        },
{
    proof {
        it.lemma_stack_fits();
    }
    let ghost s0 = *it;
    let a = it.pop_args(1)?;
    proof {
        lemma_args(s0.stack(), 1, a@);
    }
    let st = net.tcp_status(a[0] as usize);
    let ghost s1 = *it;
    push_result(it, st as i64);
    proof {
        Interpreter::lemma_same_but_stack(s0, s1, *it);
    }
    Ok(())
}

/// `get_ip()`: this host's address as a number, first octet least
/// significant; `Err(StackOverflow)` on a full stack.
pub fn host_net_get_ip(it: &mut Interpreter, net: &NetworkStack) -> (r: Result<(), InterpError>)
    requires
        old(it).wf(),
    ensures
        final(it).wf(),
        old(it).same_but_stack(final(it)),
        old(it).stack().len() >= STACK_DEPTH ==> r == Err::<(), InterpError>(InterpError::StackOverflow)
            && final(it).stack() == old(it).stack(),
        old(it).stack().len() < STACK_DEPTH ==> r is Ok && final(it).stack() == old(it).stack().push(
            le_value(net.ip.0@) as i64,
        ),
{
    it.push_value(net.get_ip() as i64)
}

/// `udp_bind(port)`: bind a UDP socket to `port` (its low 16 bits); the
/// answer is its slot, the first free one, or -1.
pub fn host_net_udp_bind(it: &mut Interpreter, net: &mut NetworkStack) -> (r: Result<(), InterpError>)
    requires
        old(it).wf(),
        old(net).wf(),
    ensures
        final(it).wf(),
        final(net).wf(),
        old(it).same_but_stack(final(it)),
        old(it).stack().len() < 1 ==> r == Err::<(), InterpError>(InterpError::StackUnderflow) && *final(net)
            == *old(net),
        old(it).stack().len() >= 1 ==> r is Ok && final(it).stack() == below(old(it).stack(), 1).push(
            slot_answer(first_free(old(net).udp_sockets@, 0)),
        ),
{
    proof {
        it.lemma_stack_fits();
        crate::net::stack::lemma_first_free(old(net).udp_sockets@, 0);
    }
    let ghost s0 = *it;
    let a = it.pop_args(1)?;
    proof {
        lemma_args(s0.stack(), 1, a@);
    }
    let res = net.udp_bind(a[0] as u16);
    let ghost s1 = *it;
    push_result(it, answer_of(res));
    proof {
        Interpreter::lemma_same_but_stack(s0, s1, *it);
    }
    Ok(())
}

/// `udp_connect(handle, ip, port)`: set where a UDP socket sends; 0, or -1
/// for an empty slot or a handle out of range.
pub fn host_net_udp_connect(it: &mut Interpreter, net: &mut NetworkStack) -> (r: Result<(), InterpError>)
    requires
        old(it).wf(),
        old(net).wf(),
    ensures
        final(it).wf(),
        final(net).wf(),
        old(it).same_but_stack(final(it)),
        old(it).stack().len() < 3 ==> r == Err::<(), InterpError>(InterpError::StackUnderflow) && *final(net)
            == *old(net),
        old(it).stack().len() >= 3 ==> {
            let s = old(it).stack();
            let h = arg(s, 3, 0) as usize;
            let bound = h < 8 && old(net).udp_sockets@[h as int] is Some;
            &&& r is Ok
            &&& final(it).stack() == below(s, 3).push(if bound { 0i64 } else { -1i64 })
            &&& bound ==> final(net).udp_sockets@[h as int] is Some && final(net).udp_sockets@[h as int].unwrap().remote_ip.0@
                == le_octets(arg(s, 3, 1) as u32) && final(net).udp_sockets@[h as int].unwrap().remote_port == arg(s, 3, 2) as u16
            &&& !bound ==> *final(net) == *old(net)
        },
{
    proof {
        it.lemma_stack_fits();
    }
    let ghost s0 = *it;
    let a = it.pop_args(3)?;
    proof {
        lemma_args(s0.stack(), 3, a@);
    }
    let ip = IpAddr::from_u32(a[1] as u32);
    let v: i64 = match net.udp_connect(a[0] as usize, ip, a[2] as u16) {
        Ok(()) => 0,
        Err(_) => -1,
    };
    let ghost s1 = *it;
    push_result(it, v);
    proof {
        Interpreter::lemma_same_but_stack(s0, s1, *it);
    }
    Ok(())
}

/// A UDP socket that can send: bound, with a remote port and address.
pub open spec fn udp_ready(slot: Option<crate::net::udp::UdpSocket>) -> bool {
    slot matches Some(u) && u.remote_port != 0 && u.remote_ip.0@ != seq![0u8, 0, 0, 0]
}

/// `udp_send(handle, ptr, len)`: send the bytes from `ptr` for `len` (cut
/// at the end of memory) as one datagram; the answer is the count sent (at
/// most one datagram's worth), or -1 for a socket that cannot send, a
/// handle out of range or `ptr` past the end of memory.
pub fn host_net_udp_send(it: &mut Interpreter, net: &mut NetworkStack) -> (r: Result<(), InterpError>)
    requires
        old(it).wf(),
        old(net).wf(),
    ensures
        final(it).wf(),
        final(net).wf(),
        old(it).same_but_stack(final(it)),
        old(it).stack().len() < 3 ==> r == Err::<(), InterpError>(InterpError::StackUnderflow) && *final(net)
            == *old(net),
        old(it).stack().len() >= 3 ==> {
            let s = old(it).stack();
            let m = old(it).memory();
            let h = arg(s, 3, 0) as usize;
            let ptr = arg(s, 3, 1) as usize;
            let len = arg(s, 3, 2) as usize;
            let ok = h < 8 && ptr <= m.len() && udp_ready(old(net).udp_sockets@[h as int]);
            &&& r is Ok
            &&& final(it).stack() == below(s, 3).push(
                if ok { clamp(print_span(m, ptr, len).len(), 1472) as i64 } else { -1i64 },
            )
            &&& !ok ==> *final(net) == *old(net)
        },
{
    proof {
        it.lemma_stack_fits();
    }
    let ghost s0 = *it;
    let a = it.pop_args(3)?;
    proof {
        lemma_args(s0.stack(), 3, a@);
        Interpreter::lemma_same_but_stack(s0, *it, *it);
    }
    let h = a[0] as usize;
    let ptr = a[1] as usize;
    let len = a[2] as usize;
    let mem = it.mem_bytes();
    let end = span_end(ptr, len, mem.len());
    let v: i64 = if h < 8 && ptr <= end {
        match net.udp_send(h, vstd::slice::slice_subrange(mem, ptr, end)) {
            Ok(n) => n as i64,
            Err(_) => -1,
        }
    } else {
        -1
    };
    let ghost s1 = *it;
    push_result(it, v);
    proof {
        Interpreter::lemma_same_but_stack(s0, s1, *it);
    }
    Ok(())
}

/// A slot holding a UDP socket with a datagram pending.
pub open spec fn has_datagram(slot: Option<crate::net::udp::UdpSocket>) -> bool {
    slot matches Some(u) && u.recv_len > 0
}

/// `udp_recv(handle, ptr, cap)`: move the pending datagram (at most `cap`
/// bytes, cut at the end of memory) to `ptr`; the answer is its length, or
/// 0 when nothing is pending, for an empty slot, a handle out of range or
/// `ptr` past the end of memory.
pub fn host_net_udp_recv(it: &mut Interpreter, net: &mut NetworkStack) -> (r: Result<(), InterpError>)
    requires
        old(it).wf(),
        old(net).wf(),
    ensures
        final(it).wf(),
        final(net).wf(),
        old(it).same_but_stack_and_memory(final(it)),
        old(it).stack().len() < 3 ==> r == Err::<(), InterpError>(InterpError::StackUnderflow) && *final(net)
            == *old(net) && *final(it) == *old(it),
        old(it).stack().len() >= 3 ==> {
            let s = old(it).stack();
            let m = old(it).memory();
            let h = arg(s, 3, 0) as usize;
            let ptr = arg(s, 3, 1) as usize;
            let cap = arg(s, 3, 2) as usize;
            &&& r is Ok
            &&& if h < 8 && ptr <= m.len() && has_datagram(old(net).udp_sockets@[h as int]) {
                let u = old(net).udp_sockets@[h as int].unwrap();
                let n = clamp(u.recv_len as nat, print_span(m, ptr, cap).len());
                &&& final(it).stack() == below(s, 3).push(n as i64)
                &&& final(it).memory() == m.take(ptr as int) + u.pending().take(n as int) + m.skip(ptr + n)
            } else {
                &&& final(it).stack() == below(s, 3).push(0i64)
                &&& final(it).memory() == m
                &&& *final(net) == *old(net)
            }
        },
{
    proof {
        it.lemma_stack_fits();
        Interpreter::lemma_same_but_stack(*it, *it, *it);
    }
    let ghost s0 = *it;
    let a = it.pop_args(3)?;
    proof {
        lemma_args(s0.stack(), 3, a@);
        Interpreter::lemma_same_but_stack(s0, *it, *it);
    }
    let h = a[0] as usize;
    let ptr = a[1] as usize;
    let cap = a[2] as usize;
    let ghost s1 = *it;
    let end = span_end(ptr, cap, it.mem_bytes().len());
    let mut v: i64 = 0;
    if h < 8 && ptr <= end {
        let mut buf: Vec<u8> = Vec::new();
        push_all(&mut buf, vstd::slice::slice_subrange(it.mem_bytes(), ptr, end));
        match net.udp_recv(h, buf.as_mut_slice()) {
            Ok(n) => {
                let got = vstd::slice::slice_subrange(buf.as_slice(), 0, n);
                let ok = it.host_write(ptr, got);
                v = n as i64;
            },
            Err(_) => {},
        }
    }
    let ghost s2 = *it;
    push_result(it, v);
    proof {
        Interpreter::lemma_same_but_stack(s2, *it, *it);
        Interpreter::lemma_same_but_stack(s1, s2, *it);
        Interpreter::lemma_same_but_stack(s0, s1, *it);
    }
    Ok(())
}

/// `udp_close(handle)`: free a UDP socket slot (a handle out of range is
/// ignored); the answer is 0.
pub fn host_net_udp_close(it: &mut Interpreter, net: &mut NetworkStack) -> (r: Result<(), InterpError>)
    requires
        old(it).wf(),
        old(net).wf(),
    ensures
        final(it).wf(),
        final(net).wf(),
        old(it).same_but_stack(final(it)),
        old(it).stack().len() < 1 ==> r == Err::<(), InterpError>(InterpError::StackUnderflow) && *final(net)
            == *old(net),
        old(it).stack().len() >= 1 ==> {
            let h = arg(old(it).stack(), 1, 0) as usize;
            &&& r is Ok
            &&& final(it).stack() == below(old(it).stack(), 1).push(0i64)
            &&& h < 8 ==> final(net).udp_sockets@ == old(net).udp_sockets@.update(h as int, None)
            &&& h >= 8 ==> *final(net) == *old(net)
        },
{
    proof {
        it.lemma_stack_fits();
    }
    let ghost s0 = *it;
    let a = it.pop_args(1)?;
    proof {
        lemma_args(s0.stack(), 1, a@);
    }
    net.udp_close(a[0] as usize);
    let ghost s1 = *it;
    push_result(it, 0);
    proof {
        Interpreter::lemma_same_but_stack(s0, s1, *it);
    }
    Ok(())
}

} // verus!
