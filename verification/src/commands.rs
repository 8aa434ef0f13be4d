//! What the shell commands compute before they print or touch storage:
//! hex decoding (`write`), path resolution against the working directory
//! (`cd`, `cat`, `asm`), `.wat` to `.wasm` names, the working directory
//! itself, integer arguments (`run`), module counts (`info`), the
//! argument string of background tasks, and the line-append editor.
use vstd::prelude::*;
use crate::fs::fat::{last_slash, trim_slashes, trim_leading_slashes};
use crate::shell::{checked_i32, parse_i32};
use crate::text::str_from_utf8;
use vstd::utf8::valid_utf8;
use vstd::string::StringSliceAdditionalSpecFns;
use crate::wasm::engine::{count_func_imports, func_import_count};
use crate::wasm::loader::{Module, opt_bytes};
use crate::leb128::{read_u32_leb128, uleb32_decode};

verus! {

/// The value of a hexadecimal digit.
pub open spec fn nibble(b: u8) -> Option<u8> {
    if 0x30 <= b <= 0x39 {
        Some((b - 0x30) as u8)
    } else if 0x61 <= b <= 0x66 {
        Some((b - 0x61 + 10) as u8)
    } else if 0x41 <= b <= 0x46 {
        Some((b - 0x41 + 10) as u8)
    } else {
        None
    }
}

/// The value of a hexadecimal digit (`0-9`, `a-f`, `A-F`).
pub fn hex_nibble(b: u8) -> (r: Option<u8>)
    ensures
        r == nibble(b),
{
    if 0x30 <= b && b <= 0x39 {
        Some(b - 0x30)
    } else if 0x61 <= b && b <= 0x66 {
        Some(b - 0x61 + 10)
    } else if 0x41 <= b && b <= 0x46 {
        Some(b - 0x41 + 10)
    } else {
        None
    }
}

/// Whether every character of `s` is a hexadecimal digit.
pub open spec fn all_hex(s: Seq<u8>) -> bool {
    forall|k: int| 0 <= k < s.len() ==> #[trigger] nibble(s[k]) is Some
}

/// Byte `i` of the hex string `s`: the digits at `2i` and `2i + 1`.
pub open spec fn hex_byte(s: Seq<u8>, i: int) -> u8 {
    (nibble(s[2 * i]).unwrap() * 16 + nibble(s[2 * i + 1]).unwrap()) as u8
}

/// Decode the hex string `hex` into `out`: `None` when its length is odd,
/// when it holds more bytes than `out`, or when a character is not a hex
/// digit; else the number of bytes, written to the front of `out`.
pub fn hex_decode(hex: &[u8], out: &mut [u8]) -> (r: Option<usize>)
    ensures
        final(out)@.len() == old(out)@.len(),
        r is Some <==> hex@.len() % 2 == 0 && hex@.len() / 2 <= old(out)@.len() && all_hex(hex@),
        r matches Some(n) ==> n == hex@.len() / 2 && forall|i: int| 0 <= i < n ==> #[trigger] final(out)@[i]
            == hex_byte(hex@, i),
        r matches Some(n) ==> forall|i: int| n <= i < old(out)@.len() ==> #[trigger] final(out)@[i] == old(out)@[i],
{
    let hlen = hex.len();
    if hlen % 2 != 0 {
        return None;
    }
    let len = hlen / 2;
    if len > out.len() {
        return None;
    }
    let mut i: usize = 0;
    while i < len
        invariant
            hlen == hex@.len(),
            len == hlen / 2,
            hlen % 2 == 0,
            len <= out@.len(),
            out@.len() == old(out)@.len(),
            i <= len,
            forall|k: int| 0 <= k < 2 * i ==> #[trigger] nibble(hex@[k]) is Some,
            forall|k: int| 0 <= k < i ==> #[trigger] out@[k] == hex_byte(hex@, k),
            forall|k: int| i <= k < out@.len() ==> #[trigger] out@[k] == old(out)@[k],
        decreases len - i,
    {
        let hi = match hex_nibble(hex[i * 2]) {
            Some(v) => v,
            None => return None,
        };
        let lo = match hex_nibble(hex[i * 2 + 1]) {
            Some(v) => v,
            None => return None,
        };
        out[i] = hi * 16 + lo;
        i = i + 1;
    }
    Some(len)
}

/// Whether `s` begins with `p`.
pub open spec fn has_prefix(s: Seq<u8>, p: Seq<u8>) -> bool {
    p.len() <= s.len() && s.take(p.len() as int) == p
}

/// Whether `s` ends with `p`.
pub open spec fn has_suffix(s: Seq<u8>, p: Seq<u8>) -> bool {
    p.len() <= s.len() && s.skip(s.len() - p.len()) == p
}

/// `s` without its trailing `/` characters.
pub open spec fn trim_trailing(s: Seq<u8>) -> Seq<u8>
    decreases s.len(),
{
    if s.len() > 0 && s.last() == 0x2F { trim_trailing(s.drop_last()) } else { s }
}

/// The absolute path `cd` goes to from `cwd`: an absolute `target` as it
/// is; `..` the part of `cwd` before its last `/` (the root when that `/`
/// is the first character or there is none); else `target` below `cwd`.
/// Trailing slashes are dropped, and nothing left is the root.
pub open spec fn resolved(cwd: Seq<u8>, target: Seq<u8>) -> Seq<u8> {
    let raw = if target.len() > 0 && target[0] == 0x2F {
        target
    } else if target == seq![0x2Eu8, 0x2E] {
        match last_slash(cwd, cwd.len() as int) {
            Some(p) => if p == 0 { seq![0x2Fu8] } else { cwd.take(p) },
            None => seq![0x2Fu8],
        }
    } else {
        (if cwd.len() > 0 && cwd.last() == 0x2F { cwd } else { cwd.push(0x2F) }) + target
    };
    let t = trim_trailing(raw);
    if t.len() == 0 { seq![0x2Fu8] } else { t }
}

/// `s` with the given bytes appended.
fn append(out: &mut Vec<u8>, s: &[u8])
    ensures
        final(out)@ == old(out)@ + s@,
{
    let mut k: usize = 0;
    while k < s.len()
        invariant
            k <= s@.len(),
            out@ == old(out)@ + s@.take(k as int),
        decreases s.len() - k,
    {
        out.push(s[k]);
        k = k + 1;
        assert(out@ =~= old(out)@ + s@.take(k as int));
    }
    assert(s@.take(s@.len() as int) =~= s@);
}

/// The bytes of `s`.
fn to_vec(s: &[u8]) -> (v: Vec<u8>)
    ensures
        v@ == s@,
{
    let mut v = Vec::new();
    append(&mut v, s);
    assert(Seq::<u8>::empty() + s@ =~= s@);
    v
}

/// Resolve `target` against the working directory `cwd` (see `resolved`).
pub fn resolve(cwd: &[u8], target: &[u8]) -> (r: Vec<u8>)
    ensures
        r@ == resolved(cwd@, target@),
{
    let mut raw: Vec<u8> = if target.len() > 0 && target[0] == 0x2F {
        to_vec(target)
    } else if target.len() == 2 && target[0] == 0x2E && target[1] == 0x2E {
        assert(target@ =~= seq![0x2Eu8, 0x2E]);
        let mut i: usize = cwd.len();
        while i > 0 && cwd[i - 1] != 0x2F
            invariant
                i <= cwd@.len(),
                last_slash(cwd@, cwd@.len() as int) == last_slash(cwd@, i as int),
            decreases i,
        {
            i = i - 1;
        }
        if i <= 1 {
            let mut v = Vec::new();
            v.push(0x2F);
            assert(v@ =~= seq![0x2Fu8]);
            v
        } else {
            let v = to_vec(vstd::slice::slice_subrange(cwd, 0, i - 1));
            assert(v@ =~= cwd@.take(i - 1));
            v
        }
    } else {
        proof {
            if target@ == seq![0x2Eu8, 0x2E] {
                assert(target@.len() == 2 && target@[0] == 0x2E && target@[1] == 0x2E);
            }
        }
        let mut v = to_vec(cwd);
        if !(cwd.len() > 0 && cwd[cwd.len() - 1] == 0x2F) {
            v.push(0x2F);
        }
        append(&mut v, target);
        v
    };
    let ghost r0 = raw@;
    while raw.len() > 0 && raw[raw.len() - 1] == 0x2F
        invariant
            trim_trailing(r0) == trim_trailing(raw@),
        decreases raw.len(),
    {
        raw.pop();
    }
    if raw.len() == 0 {
        raw.push(0x2F);
        assert(raw@ =~= seq![0x2Fu8]);
    }
    raw
}

/// The FAT path of a file `name` seen from the working directory `cwd`:
/// an absolute `name` as it is; in the root the bare name; else the
/// directory (without its leading `/`) and the name.
pub open spec fn fat_path(cwd: Seq<u8>, name: Seq<u8>) -> Seq<u8> {
    if name.len() > 0 && name[0] == 0x2F {
        name
    } else if cwd == seq![0x2Fu8] {
        name
    } else {
        trim_slashes(cwd).push(0x2F) + name
    }
}

/// `fat_path(cwd, name)`.
pub fn resolve_fat_path(cwd: &[u8], name: &[u8]) -> (r: Vec<u8>)
    ensures
        r@ == fat_path(cwd@, name@),
{
    if name.len() > 0 && name[0] == 0x2F {
        to_vec(name)
    } else if cwd.len() == 1 && cwd[0] == 0x2F {
        assert(cwd@ =~= seq![0x2Fu8]);
        to_vec(name)
    } else {
        proof {
            if cwd@ == seq![0x2Fu8] {
                assert(cwd@.len() == 1 && cwd@[0] == 0x2F);
            }
        }
        let mut v = to_vec(trim_leading_slashes(cwd));
        v.push(0x2F);
        append(&mut v, name);
        v
    }
}

/// Whether `name` ends with `.wat`.
pub fn is_wat_file(name: &[u8]) -> (r: bool)
    ensures
        r == has_suffix(name@, seq![0x2Eu8, 0x77, 0x61, 0x74]),
{
    let n = name.len();
    if n < 4 {
        return false;
    }
    let r = name[n - 4] == 0x2E && name[n - 3] == 0x77 && name[n - 2] == 0x61 && name[n - 1] == 0x74;
    proof {
        let s = name@.skip(n - 4);
        if r {
            assert(s =~= seq![0x2Eu8, 0x77, 0x61, 0x74]);
        } else if s == seq![0x2Eu8, 0x77, 0x61, 0x74] {
            assert(s[0] == name@[n - 4] && s[1] == name@[n - 3] && s[2] == name@[n - 2] && s[3] == name@[n - 1]);
        }
    }
    r
}

/// The name `asm` saves the binary of `name` under: `.wat` becomes
/// `.wasm`; another name is kept.
pub open spec fn wasm_name(name: Seq<u8>) -> Seq<u8> {
    if has_suffix(name, seq![0x2Eu8, 0x77, 0x61, 0x74]) {
        name.take(name.len() - 4) + seq![0x2Eu8, 0x77, 0x61, 0x73, 0x6D]
    } else {
        name
    }
}

/// `wasm_name(name)`.
pub fn wat_to_wasm_name(name: &[u8]) -> (r: Vec<u8>)
    ensures
        r@ == wasm_name(name@),
{
    if is_wat_file(name) {
        let mut v = to_vec(vstd::slice::slice_subrange(name, 0, name.len() - 4));
        v.push(0x2E);
        v.push(0x77);
        v.push(0x61);
        v.push(0x73);
        v.push(0x6D);
        assert(v@ =~= name@.take(name@.len() - 4) + seq![0x2Eu8, 0x77, 0x61, 0x73, 0x6D]);
        v
    } else {
        to_vec(name)
    }
}

/// Longest working directory kept.
pub const CWD_MAX: usize = 128;

/// The shell's working directory (at most `CWD_MAX` bytes; none set means
/// the root).
pub struct Cwd {
    buf: Vec<u8>,
}

/// The working directory a stored path shows as: the root when it is
/// empty or not UTF-8, else itself.
pub open spec fn cwd_text(b: Seq<u8>) -> Seq<u8> {
    if b.len() == 0 || !valid_utf8(b) { seq![0x2Fu8] } else { b }
}

impl Cwd {
    /// The stored bytes.
    pub closed spec fn bytes(&self) -> Seq<u8> {
        self.buf@
    }

    /// The root.
    pub fn new() -> (c: Self)
        ensures
            c.bytes().len() == 0,
    {
        Cwd { buf: Vec::new() }
    }

    /// Set the working directory to (at most the first `CWD_MAX` bytes of)
    /// `path`.
    pub fn set_cwd(&mut self, path: &str)
        ensures
            final(self).bytes() == path.spec_bytes().take(
                if path.spec_bytes().len() < CWD_MAX { path.spec_bytes().len() as int } else { CWD_MAX as int },
            ),
    {
        let b = path.as_bytes();
        let n = if b.len() < CWD_MAX { b.len() } else { CWD_MAX };
        self.buf = to_vec(vstd::slice::slice_subrange(b, 0, n));
    }

    /// The working directory (see `cwd_text`).
    pub fn get_cwd(&self) -> (r: &str)
        ensures
            r.spec_bytes() == cwd_text(self.bytes()),
    {
        if self.buf.len() == 0 {
            return root_text();
        }
        match str_from_utf8(self.buf.as_slice()) {
            Some(s) => s,
            None => root_text(),
        }
    }
}

/// The text `/`.
fn root_text() -> (s: &'static str)
    ensures
        s.spec_bytes() == seq![0x2Fu8],
{
    let s = "/";
    proof {
        reveal_strlit("/");
        vstd::string::is_ascii_spec_bytes(s);
        assert(s.spec_bytes() =~= seq![0x2Fu8]);
    }
    s
}

/// Most arguments `run` passes.
pub const MAX_RUN_ARGS: usize = 8;

/// The integer arguments of `run`: the first `MAX_RUN_ARGS` words parsed
/// as `i32`; `Err(k)` when word `k` among them is not a number.
pub fn parse_run_args(words: &[&str]) -> (r: Result<Vec<i32>, usize>)
    ensures
        ({
            let n = if words@.len() < MAX_RUN_ARGS { words@.len() as int } else { MAX_RUN_ARGS as int };
            match r {
                Ok(v) => v@.len() == n && forall|k: int| 0 <= k < n ==> checked_i32(#[trigger] words@[k].spec_bytes())
                    == Some(v@[k]),
                Err(k) => k < n && checked_i32(words@[k as int].spec_bytes()) is None && forall|j: int|
                    0 <= j < k ==> #[trigger] checked_i32(words@[j].spec_bytes()) is Some,
            }
        }),
{
    let n = if words.len() < MAX_RUN_ARGS { words.len() } else { MAX_RUN_ARGS };
    let mut v: Vec<i32> = Vec::new();
    let mut k: usize = 0;
    while k < n
        invariant
            n <= words@.len(),
            n == (if words@.len() < MAX_RUN_ARGS { words@.len() as int } else { MAX_RUN_ARGS as int }),
            k <= n,
            v@.len() == k,
            forall|j: int| 0 <= j < k ==> checked_i32(#[trigger] words@[j].spec_bytes()) == Some(v@[j]),
        decreases n - k,
    {
        match parse_i32(words[k].as_bytes()) {
            Some(x) => v.push(x),
            None => return Err(k),
        }
        k = k + 1;
    }
    Ok(v)
}

/// The count at the front of a section, or 0 without the section or a
/// count.
pub open spec fn section_count(s: Option<Seq<u8>>) -> u32 {
    match s {
        Some(b) => match uleb32_decode(b) {
            Some((n, _)) => n,
            None => 0,
        },
        None => 0,
    }
}

/// What `info` reports of a module: defined functions (the count of the
/// function section), function imports, and exports (the count of the
/// export section).
pub fn info_counts(module: &Module) -> (r: (u32, usize, u32))
    ensures
        r.0 == section_count(opt_bytes(module.function_section)),
        r.1 == func_import_count(opt_bytes(module.import_section)),
        r.2 == section_count(opt_bytes(module.export_section)),
{
    let funcs = match module.function_section {
        Some(s) => match read_u32_leb128(s) {
            Some((n, _)) => n,
            None => 0,
        },
        None => 0,
    };
    let imports = count_func_imports(module.import_section);
    let exports = match module.export_section {
        Some(s) => match read_u32_leb128(s) {
            Some((n, _)) => n,
            None => 0,
        },
        None => 0,
    };
    (funcs, imports, exports)
}

/// The words joined by single spaces.
pub open spec fn joined(ws: Seq<Seq<u8>>) -> Seq<u8>
    decreases ws.len(),
{
    if ws.len() == 0 {
        Seq::empty()
    } else if ws.len() == 1 {
        ws[0]
    } else {
        joined(ws.drop_last()).push(0x20) + ws.last()
    }
}

/// Longest argument string a task gets.
pub const TASK_ARGS_MAX: usize = 128;

/// The argument string of a background task: its words joined by spaces,
/// cut to `TASK_ARGS_MAX` bytes.
pub fn join_args(words: &[&str]) -> (r: Vec<u8>)
    ensures
        ({
            let j = joined(Seq::new(words@.len(), |i: int| words@[i].spec_bytes()));
            r@ == j.take(if j.len() < TASK_ARGS_MAX { j.len() as int } else { TASK_ARGS_MAX as int })
        }),
{
    let ghost ws = Seq::new(words@.len(), |i: int| words@[i].spec_bytes());
    let mut out: Vec<u8> = Vec::new();
    let mut i: usize = 0;
    while i < words.len()
        invariant
            i <= words@.len(),
            ws == Seq::new(words@.len(), |i: int| words@[i].spec_bytes()),
            out@ == joined(ws.take(i as int)),
        decreases words.len() - i,
    {
        if i > 0 {
            out.push(0x20);
        }
        append(&mut out, words[i].as_bytes());
        proof {
            let t = ws.take(i + 1);
            assert(t.drop_last() =~= ws.take(i as int));
            assert(t.last() == ws[i as int]);
            if i == 0 {
                assert(out@ =~= joined(t));
            }
        }
        i = i + 1;
    }
    assert(ws.take(words@.len() as int) =~= ws);
    if out.len() > TASK_ARGS_MAX {
        out.truncate(TASK_ARGS_MAX);
    }
    assert(out@ =~= joined(ws).take(
        if joined(ws).len() < TASK_ARGS_MAX { joined(ws).len() as int } else { TASK_ARGS_MAX as int },
    ));
    out
}

/// Bytes the `edit` buffer holds.
pub const EDIT_CAP: usize = 4096;

/// What a line typed into `edit` does.
#[derive(Clone, Copy, PartialEq, Eq, Debug, Structural)]
pub enum EditAction {
    /// `:q`: leave without saving.
    Quit,
    /// `:w`: save the buffer and leave.
    Save,
    /// The line and a newline were appended.
    Appended,
    /// The buffer has no room for the line; nothing changed.
    Full,
}

/// `line` without one trailing `\n` and then one trailing `\r`.
pub open spec fn strip_eol(line: Seq<u8>) -> Seq<u8> {
    let a = if line.len() > 0 && line.last() == 0x0A { line.drop_last() } else { line };
    if a.len() > 0 && a.last() == 0x0D { a.drop_last() } else { a }
}

/// Take in a line typed into `edit` (see `strip_eol`): `:q` quits, `:w`
/// saves; any other line is appended with a newline when the buffer keeps
/// within `EDIT_CAP` bytes.
pub fn edit_line(buf: &mut Vec<u8>, line: &[u8]) -> (r: EditAction)
    requires
        old(buf)@.len() <= EDIT_CAP,
    ensures
        final(buf)@.len() <= EDIT_CAP,
        ({
            let t = strip_eol(line@);
            if t == seq![0x3Au8, 0x71] {
                r == EditAction::Quit && final(buf)@ == old(buf)@
            } else if t == seq![0x3Au8, 0x77] {
                r == EditAction::Save && final(buf)@ == old(buf)@
            } else if old(buf)@.len() + t.len() + 1 > EDIT_CAP {
                r == EditAction::Full && final(buf)@ == old(buf)@
            } else {
                r == EditAction::Appended && final(buf)@ == old(buf)@ + t.push(0x0A)
            }
        }),
{
    let mut end = line.len();
    if end > 0 && line[end - 1] == 0x0A {
        end = end - 1;
    }
    if end > 0 && line[end - 1] == 0x0D {
        end = end - 1;
    }
    let t = vstd::slice::slice_subrange(line, 0, end);
    proof {
        let a = if line@.len() > 0 && line@.last() == 0x0A { line@.drop_last() } else { line@ };
        assert(a =~= line@.take(if line@.len() > 0 && line@.last() == 0x0A { line@.len() - 1 } else { line@.len() as int }));
        assert(t@ =~= strip_eol(line@));
    }
    if t.len() == 2 && t[0] == 0x3A && t[1] == 0x71 {
        assert(t@ =~= seq![0x3Au8, 0x71]);
        return EditAction::Quit;
    }
    if t.len() == 2 && t[0] == 0x3A && t[1] == 0x77 {
        assert(t@ =~= seq![0x3Au8, 0x77]);
        return EditAction::Save;
    }
    proof {
        if t@ == seq![0x3Au8, 0x71] || t@ == seq![0x3Au8, 0x77] {
            assert(t@.len() == 2 && t@[0] == 0x3A);
        }
    }
    if t.len() >= EDIT_CAP - buf.len() {
        return EditAction::Full;
    }
    append(buf, t);
    buf.push(0x0A);
    EditAction::Appended
}

} // verus!
