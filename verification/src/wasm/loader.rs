//! WASM binary loader: checks the magic and version header and splits the
//! binary into its sections, which borrow from the input; also the lookups
//! the engine needs in the export, import and memory sections.
use vstd::prelude::*;
use vstd::string::StringSliceAdditionalSpecFns;
use crate::leb128::{read_u32_leb128, uleb32_decode};
use crate::text::is_utf8;
use vstd::utf8::valid_utf8;

verus! {

pub const SECTION_TYPE: u8 = 1;
pub const SECTION_IMPORT: u8 = 2;
pub const SECTION_FUNCTION: u8 = 3;
pub const SECTION_TABLE: u8 = 4;
pub const SECTION_MEMORY: u8 = 5;
pub const SECTION_GLOBAL: u8 = 6;
pub const SECTION_EXPORT: u8 = 7;
pub const SECTION_ELEMENT: u8 = 9;
pub const SECTION_CODE: u8 = 10;
pub const SECTION_DATA: u8 = 11;

/// Errors that can occur while parsing a WASM binary.
#[derive(Clone, Copy, PartialEq, Eq, Debug, Structural)]
pub enum LoadError {
    /// Binary is shorter than the 8-byte header.
    TooShort,
    /// Magic bytes (`\0asm`) are missing or wrong.
    BadMagic,
    /// Version field is not `0x01 0x00 0x00 0x00`.
    BadVersion,
    /// A LEB-128 integer could not be decoded.
    InvalidLeb128,
    /// A section's declared byte-length runs past the end of the buffer.
    UnexpectedEof,
}

/// The description `LoadError::as_str` gives.
pub open spec fn load_error_text(e: LoadError) -> &'static str {
    match e {
        LoadError::TooShort => "binary too short",
        LoadError::BadMagic => "bad magic (not a WASM file)",
        LoadError::BadVersion => "unsupported WASM version",
        LoadError::InvalidLeb128 => "malformed LEB-128 integer",
        LoadError::UnexpectedEof => "unexpected end of section data",
    }
}

impl LoadError {
    /// A human-readable description of the error.
    pub fn as_str(self) -> (s: &'static str)
        ensures
            s == load_error_text(self),
    {
        match self {
            LoadError::TooShort => "binary too short",
            LoadError::BadMagic => "bad magic (not a WASM file)",
            LoadError::BadVersion => "unsupported WASM version",
            LoadError::InvalidLeb128 => "malformed LEB-128 integer",
            LoadError::UnexpectedEof => "unexpected end of section data",
        }
    }
}

/// The sections of a module, by kind; each the last of its id in the
/// binary.
pub struct Sections {
    pub type_section: Option<Seq<u8>>,
    pub import_section: Option<Seq<u8>>,
    pub function_section: Option<Seq<u8>>,
    pub table_section: Option<Seq<u8>>,
    pub memory_section: Option<Seq<u8>>,
    pub global_section: Option<Seq<u8>>,
    pub export_section: Option<Seq<u8>>,
    pub element_section: Option<Seq<u8>>,
    pub code_section: Option<Seq<u8>>,
    pub data_section: Option<Seq<u8>>,
}

/// No section found yet.
pub open spec fn no_sections() -> Sections {
    Sections {
        type_section: None,
        import_section: None,
        function_section: None,
        table_section: None,
        memory_section: None,
        global_section: None,
        export_section: None,
        element_section: None,
        code_section: None,
        data_section: None,
    }
}

/// `m` with the section of id `id` set to `d` (unknown ids ignored).
pub open spec fn with_section(m: Sections, id: u8, d: Seq<u8>) -> Sections {
    if id == SECTION_TYPE {
        Sections { type_section: Some(d), ..m }
    } else if id == SECTION_IMPORT {
        Sections { import_section: Some(d), ..m }
    } else if id == SECTION_FUNCTION {
        Sections { function_section: Some(d), ..m }
    } else if id == SECTION_TABLE {
        Sections { table_section: Some(d), ..m }
    } else if id == SECTION_MEMORY {
        Sections { memory_section: Some(d), ..m }
    } else if id == SECTION_GLOBAL {
        Sections { global_section: Some(d), ..m }
    } else if id == SECTION_EXPORT {
        Sections { export_section: Some(d), ..m }
    } else if id == SECTION_ELEMENT {
        Sections { element_section: Some(d), ..m }
    } else if id == SECTION_CODE {
        Sections { code_section: Some(d), ..m }
    } else if id == SECTION_DATA {
        Sections { data_section: Some(d), ..m }
    } else {
        m
    }
}

/// Reading sections from offset `c` on, on top of `m`: each section is its
/// id byte, its LEB-128 length and that many bytes.
pub open spec fn sections_from(b: Seq<u8>, c: int, m: Sections) -> Result<Sections, LoadError>
    decreases b.len() - c,
{
    if c < 0 || c >= b.len() {
        Ok(m)
    } else {
        match uleb32_decode(b.skip(c + 1)) {
            None => Err(LoadError::InvalidLeb128),
            Some((size, n)) => {
                let start = c + 1 + n;
                let end = start + size;
                if end > b.len() {
                    Err(LoadError::UnexpectedEof)
                } else {
                    sections_from(b, end, with_section(m, b[c], b.subrange(start, end)))
                }
            },
        }
    }
}

/// What loading `b` gives: the header checks, then the sections.
pub open spec fn load_spec(b: Seq<u8>) -> Result<Sections, LoadError> {
    if b.len() < 8 {
        Err(LoadError::TooShort)
    } else if b.take(4) != seq![0u8, 0x61, 0x73, 0x6D] {
        Err(LoadError::BadMagic)
    } else if b.subrange(4, 8) != seq![1u8, 0, 0, 0] {
        Err(LoadError::BadVersion)
    } else {
        sections_from(b, 8, no_sections())
    }
}

/// A module's sections, borrowed from its binary.
pub struct Module<'a> {
    pub type_section: Option<&'a [u8]>,
    pub import_section: Option<&'a [u8]>,
    pub function_section: Option<&'a [u8]>,
    pub table_section: Option<&'a [u8]>,
    pub memory_section: Option<&'a [u8]>,
    pub global_section: Option<&'a [u8]>,
    pub export_section: Option<&'a [u8]>,
    pub element_section: Option<&'a [u8]>,
    pub code_section: Option<&'a [u8]>,
    pub data_section: Option<&'a [u8]>,
}

/// The bytes of an optional section.
pub open spec fn opt_bytes(s: Option<&[u8]>) -> Option<Seq<u8>> {
    match s {
        Some(b) => Some(b@),
        None => None,
    }
}

impl<'a> Module<'a> {
    /// The sections as byte sequences.
    pub open spec fn sections(&self) -> Sections {
        Sections {
            type_section: opt_bytes(self.type_section),
            import_section: opt_bytes(self.import_section),
            function_section: opt_bytes(self.function_section),
            table_section: opt_bytes(self.table_section),
            memory_section: opt_bytes(self.memory_section),
            global_section: opt_bytes(self.global_section),
            export_section: opt_bytes(self.export_section),
            element_section: opt_bytes(self.element_section),
            code_section: opt_bytes(self.code_section),
            data_section: opt_bytes(self.data_section),
        }
    }
}

/// Parse a WASM binary: check the 8-byte header (`\0asm`, version 1) and
/// record every known section (see `load_spec`); custom and unknown
/// sections are skipped.
pub fn load<'a>(bytes: &'a [u8]) -> (r: Result<Module<'a>, LoadError>)
    ensures
        match (r, load_spec(bytes@)) {
            (Ok(m), Ok(s)) => m.sections() == s,
            (Err(e), Err(f)) => e == f,
            _ => false,
        },
{
    if bytes.len() < 8 {
        return Err(LoadError::TooShort);
    }
    if !(bytes[0] == 0 && bytes[1] == 0x61 && bytes[2] == 0x73 && bytes[3] == 0x6D) {
        proof {
            if bytes@.take(4) == seq![0u8, 0x61, 0x73, 0x6D] {
                assert(bytes@.take(4)[1] == bytes@[1]);
                assert(bytes@.take(4)[2] == bytes@[2]);
                assert(bytes@.take(4)[3] == bytes@[3]);
                assert(bytes@.take(4)[0] == bytes@[0]);
            }
        }
        return Err(LoadError::BadMagic);
    }
    assert(bytes@.take(4) =~= seq![0u8, 0x61, 0x73, 0x6D]);
    if !(bytes[4] == 1 && bytes[5] == 0 && bytes[6] == 0 && bytes[7] == 0) {
        proof {
            if bytes@.subrange(4, 8) == seq![1u8, 0, 0, 0] {
                assert(bytes@.subrange(4, 8)[0] == bytes@[4]);
                assert(bytes@.subrange(4, 8)[1] == bytes@[5]);
                assert(bytes@.subrange(4, 8)[2] == bytes@[6]);
                assert(bytes@.subrange(4, 8)[3] == bytes@[7]);
            }
        }
        return Err(LoadError::BadVersion);
    }
    assert(bytes@.subrange(4, 8) =~= seq![1u8, 0, 0, 0]);
    let mut module = Module {
        type_section: None,
        import_section: None,
        function_section: None,
        table_section: None,
        memory_section: None,
        global_section: None,
        export_section: None,
        element_section: None,
        code_section: None,
        data_section: None,
    };
    let mut cursor: usize = 8;
    while cursor < bytes.len()
        invariant
            8 <= cursor <= bytes@.len(),
            load_spec(bytes@) == sections_from(bytes@, cursor as int, module.sections()),
        decreases bytes@.len() - cursor,
    {
        let section_id = bytes[cursor];
        let rest = vstd::slice::slice_subrange(bytes, cursor + 1, bytes.len());
        assert(rest@ =~= bytes@.skip(cursor + 1));
        let (size, consumed) = match read_u32_leb128(rest) {
            Some(x) => x,
            None => return Err(LoadError::InvalidLeb128),
        };
        let start = cursor + 1 + consumed;
        if size as usize > bytes.len() - start {
            return Err(LoadError::UnexpectedEof);
        }
        let end = start + size as usize;
        let data = vstd::slice::slice_subrange(bytes, start, end);
        let ghost before = module.sections();
        if section_id == SECTION_TYPE {
            module.type_section = Some(data);
        } else if section_id == SECTION_IMPORT {
            module.import_section = Some(data);
        } else if section_id == SECTION_FUNCTION {
            module.function_section = Some(data);
        } else if section_id == SECTION_TABLE {
            module.table_section = Some(data);
        } else if section_id == SECTION_MEMORY {
            module.memory_section = Some(data);
        } else if section_id == SECTION_GLOBAL {
            module.global_section = Some(data);
        } else if section_id == SECTION_EXPORT {
            module.export_section = Some(data);
        } else if section_id == SECTION_ELEMENT {
            module.element_section = Some(data);
        } else if section_id == SECTION_CODE {
            module.code_section = Some(data);
        } else if section_id == SECTION_DATA {
            module.data_section = Some(data);
        }
        assert(module.sections() == with_section(before, section_id, bytes@.subrange(start as int, end as int)));
        cursor = end;
    }
    Ok(module)
}


/// Searching `left` more export entries from offset `cur` for a function
/// export named `name`: each entry is a length-prefixed name, a kind byte
/// and a LEB-128 index. A malformed entry, or a name that is not UTF-8,
/// ends the search without a result.
pub open spec fn exports_from(b: Seq<u8>, cur: int, left: nat, name: Seq<u8>) -> Option<u32>
    decreases left,
{
    if left == 0 || cur < 0 || cur > b.len() {
        None
    } else {
        match uleb32_decode(b.skip(cur)) {
            None => None,
            Some((nl, n)) => {
                let s = cur + n;
                let e = s + nl;
                if e > b.len() || !valid_utf8(b.subrange(s, e)) || e >= b.len() {
                    None
                } else {
                    match uleb32_decode(b.skip(e + 1)) {
                        None => None,
                        Some((idx, n2)) => if b[e] == 0 && b.subrange(s, e) == name {
                            Some(idx)
                        } else {
                            exports_from(b, e + 1 + n2, (left - 1) as nat, name)
                        },
                    }
                }
            },
        }
    }
}

/// The index of the function exported as `name` in an export section.
pub open spec fn export_index(sec: Option<Seq<u8>>, name: Seq<u8>) -> Option<u32> {
    match sec {
        None => None,
        Some(b) => match uleb32_decode(b) {
            None => None,
            Some((count, n)) => exports_from(b, n as int, count as nat, name),
        },
    }
}

/// Search the export section for a function export named `name` (see
/// `export_index`).
pub fn find_export(module: &Module, name: &str) -> (r: Option<u32>)
    ensures
        r == export_index(opt_bytes(module.export_section), name.spec_bytes()),
{
    let bytes = match module.export_section {
        Some(b) => b,
        None => return None,
    };
    let want = name.as_bytes();
    let (count, n) = match read_u32_leb128(bytes) {
        Some(x) => x,
        None => return None,
    };
    let mut cur: usize = n;
    let mut k: u32 = 0;
    while k < count
        invariant
            cur <= bytes@.len(),
            k <= count,
            export_index(opt_bytes(module.export_section), want@) == exports_from(bytes@, cur as int,
                (count - k) as nat, want@),
            opt_bytes(module.export_section) == Some(bytes@),
            want@ == name.spec_bytes(),
        decreases count - k,
    {
        let rest = vstd::slice::slice_subrange(bytes, cur, bytes.len());
        assert(rest@ =~= bytes@.skip(cur as int));
        let (name_len, n1) = match read_u32_leb128(rest) {
            Some(x) => x,
            None => return None,
        };
        let s = cur + n1;
        if name_len as usize > bytes.len() - s {
            return None;
        }
        let e = s + name_len as usize;
        let export_name = vstd::slice::slice_subrange(bytes, s, e);
        if !is_utf8(export_name) {
            return None;
        }
        if e >= bytes.len() {
            return None;
        }
        let kind = bytes[e];
        let rest2 = vstd::slice::slice_subrange(bytes, e + 1, bytes.len());
        assert(rest2@ =~= bytes@.skip(e + 1));
        let (index, n2) = match read_u32_leb128(rest2) {
            Some(x) => x,
            None => return None,
        };
        if kind == 0 && crate::bytes::bytes_eq(export_name, want) {
            return Some(index);
        }
        cur = e + 1 + n2;
        k = k + 1;
    }
    None
}

/// The `(module, field)` names of the function imports among `left` more
/// import entries from offset `cur`, in order. Table, memory and global
/// imports are stepped over; a malformed entry, a name that is not UTF-8
/// or an unknown kind ends the walk.
pub open spec fn func_imports_from(b: Seq<u8>, cur: int, left: nat) -> Seq<(Seq<u8>, Seq<u8>)>
    decreases left,
{
    if left == 0 || cur < 0 || cur > b.len() {
        Seq::empty()
    } else {
        match uleb32_decode(b.skip(cur)) {
            None => Seq::empty(),
            Some((ml, n)) => {
                let ms = cur + n;
                let me = ms + ml;
                if me > b.len() || !valid_utf8(b.subrange(ms, me)) {
                    Seq::empty()
                } else {
                    match uleb32_decode(b.skip(me)) {
                        None => Seq::empty(),
                        Some((nl, n2)) => {
                            let ns = me + n2;
                            let ne = ns + nl;
                            if ne > b.len() || !valid_utf8(b.subrange(ns, ne)) || ne >= b.len() {
                                Seq::empty()
                            } else {
                                let c = ne + 1;
                                let rest = skip_import_desc(b, b[ne], c);
                                match rest {
                                    None => Seq::empty(),
                                    Some(next) => if b[ne] == 0 {
                                        seq![(b.subrange(ms, me), b.subrange(ns, ne))] + func_imports_from(b,
                                            next, (left - 1) as nat)
                                    } else {
                                        func_imports_from(b, next, (left - 1) as nat)
                                    },
                                }
                            }
                        },
                    }
                }
            },
        }
    }
}

/// Where the description of an import of kind `kind` that starts at `c`
/// ends: a function has a type index; a table a reference type and limits;
/// a memory limits (a flag, a minimum, and a maximum when the flag is set);
/// a global two bytes. `None` when it is malformed or of an unknown kind.
pub open spec fn skip_import_desc(b: Seq<u8>, kind: u8, c: int) -> Option<int> {
    if kind == 0 {
        match uleb32_decode(b.skip(c)) {
            None => None,
            Some((_, n)) => Some(c + n),
        }
    } else if kind == 1 {
        if c + 1 >= b.len() { None } else { skip_limits(b, c + 1) }
    } else if kind == 2 {
        if c >= b.len() { None } else { skip_limits(b, c) }
    } else if kind == 3 {
        Some(c + 2)
    } else {
        None
    }
}

/// Where limits that start with their flag byte at `c` end.
pub open spec fn skip_limits(b: Seq<u8>, c: int) -> Option<int> {
    match uleb32_decode(b.skip(c + 1)) {
        None => None,
        Some((_, n)) => if b[c] != 0 {
            match uleb32_decode(b.skip(c + 1 + n)) {
                None => None,
                Some((_, n2)) => Some(c + 1 + n + n2),
            }
        } else {
            Some(c + 1 + n)
        },
    }
}

/// The function imports of an import section.
pub open spec fn func_imports(b: Seq<u8>) -> Seq<(Seq<u8>, Seq<u8>)> {
    match uleb32_decode(b) {
        None => Seq::empty(),
        Some((count, n)) => func_imports_from(b, n as int, count as nat),
    }
}

/// Skip a LEB-128 number at `c`.
pub(crate) fn skip_leb(b: &[u8], c: usize) -> (r: Option<usize>)
    requires
        c <= b@.len(),
    ensures
        match uleb32_decode(b@.skip(c as int)) {
            None => r is None,
            Some((_, n)) => r == Some((c + n) as usize) && c + n <= b@.len(),
        },
{
    let rest = vstd::slice::slice_subrange(b, c, b.len());
    assert(rest@ =~= b@.skip(c as int));
    match read_u32_leb128(rest) {
        Some((_, n)) => Some(c + n),
        None => None,
    }
}

/// Skip the limits whose flag byte is at `c` (see `skip_limits`).
pub(crate) fn skip_limits_at(b: &[u8], c: usize) -> (r: Option<usize>)
    requires
        c < b@.len(),
    ensures
        match skip_limits(b@, c as int) {
            Some(x) => r == Some(x as usize) && c < x <= b@.len(),
            None => r is None,
        },
{
    let flag = b[c];
    let c2 = match skip_leb(b, c + 1) {
        Some(x) => x,
        None => return None,
    };
    if flag != 0 {
        skip_leb(b, c2)
    } else {
        Some(c2)
    }
}

/// The `(module, field)` names of every function import of an import
/// section, in declaration order (see `func_imports_from`).
#[verifier::rlimit(40)]
pub fn for_each_func_import(section: &[u8]) -> (r: Vec<(&[u8], &[u8])>)
    ensures
        r@.len() == func_imports(section@).len(),
        forall|k: int| 0 <= k < r@.len() ==> (#[trigger] r@[k]).0@ == func_imports(section@)[k].0 && r@[k].1@
            == func_imports(section@)[k].1,
{
    let mut out: Vec<(&[u8], &[u8])> = Vec::new();
    let (count, n) = match read_u32_leb128(section) {
        Some(x) => x,
        None => return out,
    };
    let mut cur: usize = n;
    let mut k: u32 = 0;
    let ghost b = section@;
    while k < count
        invariant
            b == section@,
            cur <= b.len(),
            k <= count,
            func_imports(b) == func_imports_from(b, n as int, count as nat),
            uleb32_decode(b) == Some((count, n)),
            ({
                let done = func_imports_from(b, n as int, count as nat);
                let rest = func_imports_from(b, cur as int, (count - k) as nat);
                &&& out@.len() + rest.len() == done.len()
                &&& forall|q: int| 0 <= q < out@.len() ==> (#[trigger] out@[q]).0@ == done[q].0 && out@[q].1@
                    == done[q].1
                &&& forall|q: int| 0 <= q < rest.len() ==> #[trigger] rest[q] == done[out@.len() + q]
            }),
        decreases count - k,
    {
        let ghost rest0 = func_imports_from(b, cur as int, (count - k) as nat);
        let rest = vstd::slice::slice_subrange(section, cur, section.len());
        assert(rest@ =~= b.skip(cur as int));
        let (ml, n1) = match read_u32_leb128(rest) {
            Some(x) => x,
            None => return out,
        };
        let ms = cur + n1;
        if ml as usize > section.len() - ms {
            return out;
        }
        let me = ms + ml as usize;
        let mod_name = vstd::slice::slice_subrange(section, ms, me);
        if !is_utf8(mod_name) {
            return out;
        }
        let rest2 = vstd::slice::slice_subrange(section, me, section.len());
        assert(rest2@ =~= b.skip(me as int));
        let (nl, n2) = match read_u32_leb128(rest2) {
            Some(x) => x,
            None => return out,
        };
        let ns = me + n2;
        if nl as usize > section.len() - ns {
            return out;
        }
        let ne = ns + nl as usize;
        let func_name = vstd::slice::slice_subrange(section, ns, ne);
        if !is_utf8(func_name) {
            return out;
        }
        if ne >= section.len() {
            return out;
        }
        let kind = section[ne];
        let c = ne + 1;
        let next: usize;
        if kind == 0 {
            next = match skip_leb(section, c) {
                Some(x) => x,
                None => return out,
            };
        } else if kind == 1 {
            if section.len() - c < 2 {
                return out;
            }
            next = match skip_limits_at(section, c + 1) {
                Some(x) => x,
                None => return out,
            };
        } else if kind == 2 {
            if c >= section.len() {
                return out;
            }
            next = match skip_limits_at(section, c) {
                Some(x) => x,
                None => return out,
            };
        } else if kind == 3 {
            if section.len() - c < 2 {
                assert(func_imports_from(b, (c + 2) as int, (count - k - 1) as nat) =~= Seq::empty());
                return out;
            }
            next = c + 2;
        } else {
            return out;
        }
        assert(skip_import_desc(b, kind, c as int) == Some(next as int));
        let ghost done = func_imports_from(b, n as int, count as nat);
        let ghost nrest = func_imports_from(b, next as int, (count - k - 1) as nat);
        let ghost out0 = out@;
        if kind == 0 {
            out.push((mod_name, func_name));
            assert(rest0 == seq![(b.subrange(ms as int, me as int), b.subrange(ns as int, ne as int))]
                + nrest);
            proof {
                assert(rest0[0] == done[out0.len() as int]);
                assert forall|q: int| 0 <= q < nrest.len() implies #[trigger] nrest[q] == done[out@.len() + q] by {
                    assert(nrest[q] == rest0[q + 1]);
                }
                assert forall|q: int| 0 <= q < out@.len() implies (#[trigger] out@[q]).0@ == done[q].0
                    && out@[q].1@ == done[q].1 by {
                    if q < out0.len() {
                        assert(out@[q] == out0[q]);
                    }
                }
            }
        } else {
            assert(rest0 == nrest);
        }
        if next > section.len() {
            assert(func_imports_from(b, next as int, (count - k - 1) as nat) =~= Seq::empty());
            return out;
        }
        cur = next;
        k = k + 1;
    }
    out
}

/// The minimum page count a memory section declares: 0 when the section
/// declares no memory or is malformed.
pub open spec fn memory_min_pages(b: Seq<u8>) -> u32 {
    match uleb32_decode(b) {
        None => 0,
        Some((count, n)) => if count == 0 || n >= b.len() {
            0
        } else {
            match uleb32_decode(b.skip(n + 1)) {
                None => 0,
                Some((min, _)) => min,
            }
        },
    }
}

/// Read the minimum page count of the first memory of a memory section
/// (see `memory_min_pages`).
pub fn read_memory_min_pages(section: &[u8]) -> (r: u32)
    ensures
        r == memory_min_pages(section@),
{
    let (count, n) = match read_u32_leb128(section) {
        Some(x) => x,
        None => return 0,
    };
    if count == 0 {
        return 0;
    }
    if n >= section.len() {
        return 0;
    }
    let rest = vstd::slice::slice_subrange(section, n + 1, section.len());
    assert(rest@ =~= section@.skip(n + 1));
    match read_u32_leb128(rest) {
        Some((min, _)) => min,
        None => 0,
    }
}

} // verus!
