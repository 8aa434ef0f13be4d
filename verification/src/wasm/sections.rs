//! The module sections the interpreter reads at instantiation: function
//! signatures (parameter and result counts), the type of each function,
//! function bodies with their declared locals, globals, the types of
//! imported functions, and the function table.
use vstd::prelude::*;
use crate::leb128::{read_u32_leb128, uleb32_decode, read_i32_leb128, read_i64_leb128, sleb32_decode, sleb64_decode};
use crate::wasm::interp::InterpError;
use crate::wasm::scan::lemma_uleb32_len;

verus! {

/// Most signatures, functions, globals and table entries kept.
pub const TYPES_CAP: usize = 128;
pub const FUNCS_CAP: usize = 512;
pub const GLOBALS_CAP: usize = 64;
pub const TABLE_CAP: usize = 512;

/// The unsigned number at `cur` (`None` past the end).
pub open spec fn leb_at(b: Seq<u8>, cur: int) -> Option<(u32, int)> {
    if 0 <= cur <= b.len() {
        match uleb32_decode(b.skip(cur)) {
            Some((v, n)) => Some((v, n as int)),
            None => None,
        }
    } else {
        None
    }
}

/// `leb_at(b, cur)`.
fn read_leb_at(b: &[u8], cur: usize) -> (r: Option<(u32, usize)>)
    ensures
        match leb_at(b@, cur as int) {
            Some((v, n)) => r == Some((v, n as usize)) && 1 <= n && cur + n <= b@.len(),
            None => r is None,
        },
{
    if cur > b.len() {
        return None;
    }
    let rest = vstd::slice::slice_subrange(b, cur, b.len());
    assert(rest@ =~= b@.skip(cur as int));
    proof {
        lemma_uleb32_len(rest@, 0);
    }
    read_u32_leb128(rest)
}

/// Signatures from `cur`, `left` of them: each a marker byte, a parameter
/// count and that many type bytes, a result count and that many type bytes;
/// gives `(params, results)` of each. `None` when a count is missing or the
/// parameter types run past the end (the last result types may).
pub open spec fn types_from(b: Seq<u8>, cur: int, left: nat) -> Option<Seq<(u32, u32)>>
    decreases left,
{
    if left == 0 {
        Some(seq![])
    } else if cur < 0 || cur >= b.len() {
        None
    } else {
        match leb_at(b, cur + 1) {
            None => None,
            Some((p, n)) => {
                let c2 = cur + 1 + n + p;
                match leb_at(b, c2) {
                    None => None,
                    Some((r, m)) => match types_from(b, c2 + m + r, (left - 1) as nat) {
                        Some(t) => Some(seq![(p, r)] + t),
                        None => None,
                    },
                }
            },
        }
    }
}

/// The type section: a count (at most `TYPES_CAP`, else `TooManyTypes`),
/// then the signatures (see `types_from`; `MalformedCode` when cut off).
pub open spec fn type_section(b: Seq<u8>) -> Result<Seq<(u32, u32)>, InterpError> {
    match leb_at(b, 0) {
        None => Err(InterpError::MalformedCode),
        Some((count, n)) => if count > TYPES_CAP {
            Err(InterpError::TooManyTypes)
        } else {
            match types_from(b, n, count as nat) {
                Some(t) => Ok(t),
                None => Err(InterpError::MalformedCode),
            }
        },
    }
}

/// Fill `params[i]`, `results[i]` with the counts of signature `i` and give
/// the number of signatures.
pub(crate) fn parse_type_section(bytes: &[u8], params: &mut Vec<usize>, results: &mut Vec<usize>) -> (r: Result<
    usize,
    InterpError,
>)
    requires
        old(params)@.len() == TYPES_CAP,
        old(results)@.len() == TYPES_CAP,
    ensures
        final(params)@.len() == TYPES_CAP,
        final(results)@.len() == TYPES_CAP,
        match type_section(bytes@) {
            Ok(t) => r == Ok::<usize, InterpError>(t.len() as usize) && t.len() <= TYPES_CAP && (forall|i: int|
                0 <= i < t.len() ==> #[trigger] final(params)@[i] == t[i].0 as usize && final(results)@[i]
                == t[i].1 as usize),
            Err(e) => r == Err::<usize, InterpError>(e),
        },
{
    let blen = bytes.len();
    let (count, n) = match read_leb_at(bytes, 0) {
        Some(x) => x,
        None => return Err(InterpError::MalformedCode),
    };
    if count as usize > TYPES_CAP {
        return Err(InterpError::TooManyTypes);
    }
    let count = count as usize;
    let mut cur = n;
    let mut i: usize = 0;
    let ghost whole = types_from(bytes@, n as int, count as nat);
    proof {
        lemma_types_len(bytes@, n as int, count as nat);
        assert(whole is Some ==> whole.unwrap().take(0) + whole.unwrap() == whole.unwrap());
    }
    while i < count
        invariant
            blen == bytes@.len(),
            count <= TYPES_CAP,
            type_section(bytes@) == (match whole {
                Some(t) => Ok(t),
                None => Err(InterpError::MalformedCode),
            }),
            i <= count,
            params@.len() == TYPES_CAP,
            results@.len() == TYPES_CAP,
            cur <= blen,
            whole == types_from(bytes@, n as int, count as nat),
            match types_from(bytes@, cur as int, (count - i) as nat) {
                Some(t) => whole == Some(whole.unwrap().take(i as int) + t),
                None => whole is None,
            },
            whole is Some ==> whole.unwrap().len() == count,
            forall|j: int| 0 <= j < i ==> whole is Some ==> #[trigger] params@[j] == whole.unwrap()[j].0 as usize
                && results@[j] == whole.unwrap()[j].1 as usize,
        decreases count - i,
    {
        if cur >= blen {
            return Err(InterpError::MalformedCode);
        }
        let (p, pn) = match read_leb_at(bytes, cur + 1) {
            Some(x) => x,
            None => return Err(InterpError::MalformedCode),
        };
        let c1 = cur + 1 + pn;
        if p as usize > blen - c1 {
            return Err(InterpError::MalformedCode);
        }
        let c2 = c1 + p as usize;
        let (rc, rn) = match read_leb_at(bytes, c2) {
            Some(x) => x,
            None => return Err(InterpError::MalformedCode),
        };
        params.set(i, p as usize);
        results.set(i, rc as usize);
        let c3 = c2 + rn;
        let ghost next = c3 + rc;
        let ghost left = (count - i) as nat;
        assert(types_from(bytes@, cur as int, left) == match types_from(bytes@, next, (left - 1) as nat) {
            Some(t) => Some(seq![(p, rc)] + t),
            None => None,
        });
        if rc as usize > blen - c3 {
            if i + 1 < count {
                assert(types_from(bytes@, next, (left - 1) as nat) is None);
                return Err(InterpError::MalformedCode);
            }
            cur = blen;
        } else {
            cur = c3 + rc as usize;
        }
        proof {
            match types_from(bytes@, next, (left - 1) as nat) {
                Some(t2) => {
                    if whole is Some {
                        let w = whole.unwrap();
                        assert(w == w.take(i as int) + (seq![(p, rc)] + t2));
                        assert(w[i as int] == (p, rc));
                        assert(w.take(i + 1) =~= w.take(i as int) + seq![(p, rc)]);
                        assert(w =~= w.take(i + 1) + t2);
                    }
                },
                None => {},
            }
            assert(types_from(bytes@, cur as int, (left - 1) as nat) == types_from(bytes@, next, (left - 1) as nat));
            assert(params@[i as int] == p as usize && results@[i as int] == rc as usize);
            assert forall|j: int| 0 <= j < i + 1 implies (whole is Some ==> #[trigger] params@[j] == whole.unwrap()[j].0 as usize
                && results@[j] == whole.unwrap()[j].1 as usize) by {
                if j < i && whole is Some {
                    assert(params@[j] == whole.unwrap()[j].0 as usize);
                }
                if whole is Some && j == i {
                    assert(whole.unwrap()[i as int] == (p, rc)) by {
                        match types_from(bytes@, next, (left - 1) as nat) {
                            Some(t2) => {
                                let w = whole.unwrap();
                                assert(w == w.take(i as int) + (seq![(p, rc)] + t2));
                            },
                            None => {},
                        }
                    }
                }
            }
        }
        i = i + 1;
    }
    assert(whole.unwrap().take(count as int) + seq![] =~= whole.unwrap());
    Ok(count)
}

/// `left` unsigned numbers from `cur`.
pub open spec fn lebs_from(b: Seq<u8>, cur: int, left: nat) -> Option<Seq<u32>>
    decreases left,
{
    if left == 0 {
        Some(seq![])
    } else {
        match leb_at(b, cur) {
            None => None,
            Some((v, n)) => match lebs_from(b, cur + n, (left - 1) as nat) {
                Some(t) => Some(seq![v] + t),
                None => None,
            },
        }
    }
}

/// The function section: a count (at most `FUNCS_CAP`, else
/// `TooManyFuncs`), then the signature index of each defined function.
pub open spec fn function_section(b: Seq<u8>) -> Result<Seq<u32>, InterpError> {
    match leb_at(b, 0) {
        None => Err(InterpError::MalformedCode),
        Some((count, n)) => if count > FUNCS_CAP {
            Err(InterpError::TooManyFuncs)
        } else {
            match lebs_from(b, n, count as nat) {
                Some(t) => Ok(t),
                None => Err(InterpError::MalformedCode),
            }
        },
    }
}

/// Fill `out[i]` with the signature index of defined function `i`.
pub(crate) fn parse_function_section(bytes: &[u8], out: &mut Vec<usize>) -> (r: Result<(), InterpError>)
    requires
        old(out)@.len() == FUNCS_CAP,
    ensures
        final(out)@.len() == FUNCS_CAP,
        match function_section(bytes@) {
            Ok(t) => r is Ok && t.len() <= FUNCS_CAP && (forall|i: int| 0 <= i < t.len() ==> #[trigger] final(out)@[i]
                == t[i] as usize),
            Err(e) => r == Err::<(), InterpError>(e),
        },
{
    let (count, n) = match read_leb_at(bytes, 0) {
        Some(x) => x,
        None => return Err(InterpError::MalformedCode),
    };
    if count as usize > FUNCS_CAP {
        return Err(InterpError::TooManyFuncs);
    }
    let count = count as usize;
    let mut cur = n;
    let mut i: usize = 0;
    let ghost whole = lebs_from(bytes@, n as int, count as nat);
    let blen = bytes.len();
    proof {
        lemma_lebs_len(bytes@, n as int, count as nat);
        assert(whole is Some ==> whole.unwrap().take(0) + whole.unwrap() == whole.unwrap());
    }
    while i < count
        invariant
            blen == bytes@.len(),
            cur <= blen,
            count <= FUNCS_CAP,
            function_section(bytes@) == (match whole {
                Some(t) => Ok(t),
                None => Err(InterpError::MalformedCode),
            }),
            i <= count,
            out@.len() == FUNCS_CAP,
            whole == lebs_from(bytes@, n as int, count as nat),
            match lebs_from(bytes@, cur as int, (count - i) as nat) {
                Some(t) => whole == Some(whole.unwrap().take(i as int) + t),
                None => whole is None,
            },
            whole is Some ==> whole.unwrap().len() == count,
            forall|j: int| 0 <= j < i ==> whole is Some ==> #[trigger] out@[j] == whole.unwrap()[j] as usize,
        decreases count - i,
    {
        let (v, vn) = match read_leb_at(bytes, cur) {
            Some(x) => x,
            None => return Err(InterpError::MalformedCode),
        };
        out.set(i, v as usize);
        cur = cur + vn;
        i = i + 1;
    }
    assert(whole.unwrap().take(count as int) + seq![] =~= whole.unwrap());
    Ok(())
}

/// The local declarations of a code entry from `lc`, `left` groups of
/// them, inside the entry: each a count and a type byte; gives where they
/// end and the total count.
pub open spec fn local_groups_from(e: Seq<u8>, lc: int, left: nat) -> Option<(int, int)>
    decreases left,
{
    if left == 0 {
        Some((lc, 0))
    } else {
        match leb_at(e, lc) {
            None => None,
            Some((g, n)) => if lc + n + 1 > e.len() {
                None
            } else {
                match local_groups_from(e, lc + n + 1, (left - 1) as nat) {
                    Some((end, t)) => Some((end, t + g)),
                    None => None,
                }
            },
        }
    }
}

/// A code entry: the local groups, then the body; gives the body and the
/// number of declared locals.
pub open spec fn code_entry(e: Seq<u8>) -> Option<(Seq<u8>, int)> {
    match leb_at(e, 0) {
        None => None,
        Some((groups, n)) => match local_groups_from(e, n, groups as nat) {
            Some((lc, t)) => if lc <= e.len() { Some((e.skip(lc), t)) } else { None },
            None => None,
        },
    }
}

/// Code entries from `cur`, `left` of them: each a size and that many
/// bytes (see `code_entry`).
pub open spec fn code_from(b: Seq<u8>, cur: int, left: nat) -> Option<Seq<(Seq<u8>, int)>>
    decreases left,
{
    if left == 0 {
        Some(seq![])
    } else {
        match leb_at(b, cur) {
            None => None,
            Some((size, n)) => {
                let s = cur + n;
                if s + size > b.len() {
                    None
                } else {
                    match code_entry(b.subrange(s, s + size)) {
                        None => None,
                        Some(x) => match code_from(b, s + size, (left - 1) as nat) {
                            Some(t) => Some(seq![x] + t),
                            None => None,
                        },
                    }
                }
            },
        }
    }
}

/// The code section: a count (at most `FUNCS_CAP`, else `TooManyFuncs`),
/// then the entries (`MalformedCode` when cut off).
pub open spec fn code_section(b: Seq<u8>) -> Result<Seq<(Seq<u8>, int)>, InterpError> {
    match leb_at(b, 0) {
        None => Err(InterpError::MalformedCode),
        Some((count, n)) => if count > FUNCS_CAP {
            Err(InterpError::TooManyFuncs)
        } else {
            match code_from(b, n, count as nat) {
                Some(t) => Ok(t),
                None => Err(InterpError::MalformedCode),
            }
        },
    }
}

/// The declared locals of a code entry and where its body starts.
fn parse_code_entry(e: &[u8]) -> (r: Option<(usize, usize)>)
    ensures
        match code_entry(e@) {
            Some((body, t)) => r matches Some((lc, tt)) && lc <= e@.len() && e@.skip(lc as int) == body && tt
                == if t > usize::MAX { usize::MAX as int } else { t },
            None => r is None,
        },
{
    let elen = e.len();
    let (groups, n) = match read_leb_at(e, 0) {
        Some(x) => x,
        None => return None,
    };
    let mut lc = n;
    let mut total: usize = 0;
    let mut k: u32 = 0;
    let ghost whole = local_groups_from(e@, n as int, groups as nat);
    let ghost acc: int = 0;
    while k < groups
        invariant
            k <= groups,
            code_entry(e@) == (match whole {
                Some((lc, t)) => if lc <= e@.len() { Some((e@.skip(lc), t)) } else { None },
                None => None,
            }),
            lc <= elen,
            elen == e@.len(),
            whole == local_groups_from(e@, n as int, groups as nat),
            match local_groups_from(e@, lc as int, (groups - k) as nat) {
                Some((end, t)) => whole == Some((end, t + acc)),
                None => whole is None,
            },
            acc >= 0,
            total == if acc > usize::MAX { usize::MAX as int } else { acc },
        decreases groups - k,
    {
        let (g, gn) = match read_leb_at(e, lc) {
            Some(x) => x,
            None => return None,
        };
        if gn >= elen - lc {
            return None;
        }
        lc = lc + gn + 1;
        total = total.saturating_add(g as usize);
        proof {
            acc = acc + g;
        }
        k = k + 1;
    }
    Some((lc, total))
}

/// Fill `bodies[i]` and `locals[i]` with the body and declared locals of
/// code entry `i` (locals capped at `usize::MAX`) and give the count.
pub(crate) fn parse_code_section<'a>(bytes: &'a [u8], bodies: &mut Vec<&'a [u8]>, locals: &mut Vec<usize>) -> (r: Result<
    usize,
    InterpError,
>)
    requires
        old(bodies)@.len() == 0,
        old(locals)@.len() == 0,
    ensures
        match code_section(bytes@) {
            Ok(t) => r == Ok::<usize, InterpError>(t.len() as usize) && t.len() <= FUNCS_CAP && final(bodies)@.len()
                == t.len() && final(locals)@.len() == t.len() && (forall|i: int| 0 <= i < t.len()
                ==> #[trigger] final(bodies)@[i]@ == t[i].0 && final(locals)@[i] == if t[i].1 > usize::MAX {
                usize::MAX as int
            } else {
                t[i].1
            }),
            Err(e) => r == Err::<usize, InterpError>(e),
        },
{
    let blen = bytes.len();
    let (count, n) = match read_leb_at(bytes, 0) {
        Some(x) => x,
        None => return Err(InterpError::MalformedCode),
    };
    if count as usize > FUNCS_CAP {
        return Err(InterpError::TooManyFuncs);
    }
    let count = count as usize;
    let mut cur = n;
    let mut i: usize = 0;
    let ghost whole = code_from(bytes@, n as int, count as nat);
    proof {
        lemma_code_len(bytes@, n as int, count as nat);
        assert(whole is Some ==> whole.unwrap().take(0) + whole.unwrap() == whole.unwrap());
    }
    while i < count
        invariant
            blen == bytes@.len(),
            count <= FUNCS_CAP,
            i <= count,
            cur <= blen,
            code_section(bytes@) == (match whole {
                Some(t) => Ok(t),
                None => Err(InterpError::MalformedCode),
            }),
            bodies@.len() == i,
            locals@.len() == i,
            whole == code_from(bytes@, n as int, count as nat),
            match code_from(bytes@, cur as int, (count - i) as nat) {
                Some(t) => whole == Some(whole.unwrap().take(i as int) + t),
                None => whole is None,
            },
            whole is Some ==> whole.unwrap().len() == count,
            forall|j: int| 0 <= j < i ==> whole is Some ==> #[trigger] bodies@[j]@ == whole.unwrap()[j].0
                && locals@[j] == if whole.unwrap()[j].1 > usize::MAX {
                usize::MAX as int
            } else {
                whole.unwrap()[j].1
            },
        decreases count - i,
    {
        let (size, sn) = match read_leb_at(bytes, cur) {
            Some(x) => x,
            None => return Err(InterpError::MalformedCode),
        };
        let start = cur + sn;
        if size as usize > blen - start {
            return Err(InterpError::MalformedCode);
        }
        let end = start + size as usize;
        let entry = vstd::slice::slice_subrange(bytes, start, end);
        let (lc, declared) = match parse_code_entry(entry) {
            Some(x) => x,
            None => return Err(InterpError::MalformedCode),
        };
        let body = vstd::slice::slice_subrange(entry, lc, entry.len());
        assert(body@ =~= entry@.skip(lc as int));
        let ghost x = code_entry(entry@).unwrap();
        let ghost old_bodies = bodies@;
        let ghost old_locals = locals@;
        assert(body@ == x.0);
        assert(declared == if x.1 > usize::MAX { usize::MAX as int } else { x.1 });
        bodies.push(body);
        locals.push(declared);
        proof {
            let left = (count - i) as nat;
            assert(bodies@[i as int]@ == x.0);
            assert(locals@[i as int] == declared);
            assert(entry@ == bytes@.subrange(start as int, end as int));
            assert(code_from(bytes@, cur as int, left) == match code_from(bytes@, end as int, (left - 1) as nat) {
                Some(t) => Some(seq![x] + t),
                None => None,
            });
            match code_from(bytes@, end as int, (left - 1) as nat) {
                Some(t2) => {
                    if whole is Some {
                        let w = whole.unwrap();
                        assert(w == w.take(i as int) + (seq![x] + t2));
                        assert(w[i as int] == x);
                        assert(w.take(i + 1) =~= w.take(i as int) + seq![x]);
                        assert(w =~= w.take(i + 1) + t2);
                    }
                },
                None => {},
            }
            assert forall|j: int| 0 <= j < i + 1 implies (whole is Some ==> #[trigger] bodies@[j]@ == whole.unwrap()[j].0
                && locals@[j] == if whole.unwrap()[j].1 > usize::MAX {
                usize::MAX as int
            } else {
                whole.unwrap()[j].1
            }) by {
                if whole is Some && j == i {
                    match code_from(bytes@, end as int, (left - 1) as nat) {
                        Some(t2) => {
                            let w = whole.unwrap();
                            assert(w == w.take(i as int) + (seq![x] + t2));
                            assert(w[i as int] == x);
                        },
                        None => {},
                    }
                } else if whole is Some && j < i {
                    assert(bodies@[j] == old_bodies[j]);
                    assert(locals@[j] == old_locals[j]);
                }
            }
        }
        cur = end;
        i = i + 1;
    }
    assert(whole.unwrap().take(count as int) + seq![] =~= whole.unwrap());
    Ok(count)
}

/// Globals from `cur`, `left` of them: each a type byte, a mutability byte
/// (1 for mutable), an `i32.const` or `i64.const` initializer and an `end`
/// byte; gives `(mutable, value)` of each.
pub open spec fn globals_from(b: Seq<u8>, cur: int, left: nat) -> Option<Seq<(bool, i64)>>
    decreases left,
{
    if left == 0 {
        Some(seq![])
    } else if cur < 0 || cur + 2 > b.len() {
        None
    } else {
        let m = b[cur + 1] == 1;
        let c = cur + 2;
        if c >= b.len() {
            None
        } else {
            let init = if b[c] == 0x41 {
                match sleb32_decode(b.skip(c + 1)) {
                    Some((v, n)) => Some((v as i64, c + 1 + n)),
                    None => None,
                }
            } else if b[c] == 0x42 {
                match sleb64_decode(b.skip(c + 1)) {
                    Some((v, n)) => Some((v, c + 1 + n)),
                    None => None,
                }
            } else {
                None
            };
            match init {
                None => None,
                Some((v, e)) => if e >= b.len() || b[e] != 0x0B {
                    None
                } else {
                    match globals_from(b, e + 1, (left - 1) as nat) {
                        Some(t) => Some(seq![(m, v)] + t),
                        None => None,
                    }
                },
            }
        }
    }
}

/// The global section: a count (at most `GLOBALS_CAP`, else
/// `TooManyGlobals`), then the globals (`MalformedCode` otherwise).
pub open spec fn global_section(b: Seq<u8>) -> Result<Seq<(bool, i64)>, InterpError> {
    match leb_at(b, 0) {
        None => Err(InterpError::MalformedCode),
        Some((count, n)) => if count > GLOBALS_CAP {
            Err(InterpError::TooManyGlobals)
        } else {
            match globals_from(b, n, count as nat) {
                Some(t) => Ok(t),
                None => Err(InterpError::MalformedCode),
            }
        },
    }
}

/// Fill `vals[i]` and `mutable[i]` with global `i` and give the count.
pub(crate) fn parse_global_section(bytes: &[u8], vals: &mut Vec<i64>, mutable: &mut Vec<bool>) -> (r: Result<
    usize,
    InterpError,
>)
    requires
        old(vals)@.len() == GLOBALS_CAP,
        old(mutable)@.len() == GLOBALS_CAP,
    ensures
        final(vals)@.len() == GLOBALS_CAP,
        final(mutable)@.len() == GLOBALS_CAP,
        match global_section(bytes@) {
            Ok(t) => r == Ok::<usize, InterpError>(t.len() as usize) && t.len() <= GLOBALS_CAP && (forall|i: int|
                0 <= i < t.len() ==> #[trigger] final(vals)@[i] == t[i].1 && final(mutable)@[i] == t[i].0),
            Err(e) => r == Err::<usize, InterpError>(e),
        },
{
    let blen = bytes.len();
    let (count, n) = match read_leb_at(bytes, 0) {
        Some(x) => x,
        None => return Err(InterpError::MalformedCode),
    };
    if count as usize > GLOBALS_CAP {
        return Err(InterpError::TooManyGlobals);
    }
    let count = count as usize;
    let mut cur = n;
    let mut i: usize = 0;
    let ghost whole = globals_from(bytes@, n as int, count as nat);
    proof {
        lemma_globals_len(bytes@, n as int, count as nat);
        assert(whole is Some ==> whole.unwrap().take(0) + whole.unwrap() == whole.unwrap());
    }
    while i < count
        invariant
            blen == bytes@.len(),
            count <= GLOBALS_CAP,
            global_section(bytes@) == (match whole {
                Some(t) => Ok(t),
                None => Err(InterpError::MalformedCode),
            }),
            i <= count,
            cur <= blen,
            vals@.len() == GLOBALS_CAP,
            mutable@.len() == GLOBALS_CAP,
            whole == globals_from(bytes@, n as int, count as nat),
            match globals_from(bytes@, cur as int, (count - i) as nat) {
                Some(t) => whole == Some(whole.unwrap().take(i as int) + t),
                None => whole is None,
            },
            whole is Some ==> whole.unwrap().len() == count,
            forall|j: int| 0 <= j < i ==> whole is Some ==> #[trigger] vals@[j] == whole.unwrap()[j].1
                && mutable@[j] == whole.unwrap()[j].0,
        decreases count - i,
    {
        if blen - cur < 2 {
            return Err(InterpError::MalformedCode);
        }
        let m = bytes[cur + 1] == 1;
        let c = cur + 2;
        if c >= blen {
            return Err(InterpError::MalformedCode);
        }
        let op = bytes[c];
        let rest = vstd::slice::slice_subrange(bytes, c + 1, blen);
        assert(rest@ =~= bytes@.skip(c + 1));
        let (v, e): (i64, usize) = if op == 0x41 {
            match read_i32_leb128(rest) {
                Some((v, k)) => (v as i64, c + 1 + k),
                None => return Err(InterpError::MalformedCode),
            }
        } else if op == 0x42 {
            match read_i64_leb128(rest) {
                Some((v, k)) => (v, c + 1 + k),
                None => return Err(InterpError::MalformedCode),
            }
        } else {
            return Err(InterpError::MalformedCode);
        };
        if e >= blen || bytes[e] != 0x0B {
            return Err(InterpError::MalformedCode);
        }
        let ghost vals0 = vals@;
        let ghost mut0 = mutable@;
        vals.set(i, v);
        mutable.set(i, m);
        proof {
            let left = (count - i) as nat;
            assert(globals_from(bytes@, cur as int, left) == match globals_from(bytes@, e + 1, (left - 1) as nat) {
                Some(t) => Some(seq![(m, v)] + t),
                None => None,
            });
            match globals_from(bytes@, e + 1, (left - 1) as nat) {
                Some(t2) => {
                    if whole is Some {
                        let w = whole.unwrap();
                        assert(w == w.take(i as int) + (seq![(m, v)] + t2));
                        assert(w[i as int] == (m, v));
                        assert(w.take(i + 1) =~= w.take(i as int) + seq![(m, v)]);
                        assert(w =~= w.take(i + 1) + t2);
                    }
                },
                None => {},
            }
            assert forall|j: int| 0 <= j < i + 1 implies (whole is Some ==> #[trigger] vals@[j] == whole.unwrap()[j].1
                && mutable@[j] == whole.unwrap()[j].0) by {
                if j < i {
                    assert(vals@[j] == vals0[j]);
                    assert(mutable@[j] == mut0[j]);
                }
                if whole is Some && j == i {
                    match globals_from(bytes@, e + 1, (left - 1) as nat) {
                        Some(t2) => {
                            let w = whole.unwrap();
                            assert(w == w.take(i as int) + (seq![(m, v)] + t2));
                            assert(w[i as int] == (m, v));
                        },
                        None => {},
                    }
                }
            }
        }
        cur = e + 1;
        i = i + 1;
    }
    assert(whole.unwrap().take(count as int) + seq![] =~= whole.unwrap());
    Ok(count)
}

/// Skip a number at `cur`; `None` when it is cut off.
fn skip_num(bytes: &[u8], cur: usize) -> (r: Option<usize>)
    ensures
        r matches Some(c) ==> cur < c <= bytes@.len(),
        match leb_at(bytes@, cur as int) {
            Some((_v, n)) => r is Some && r.unwrap() == cur + n,
            None => r is None,
        },
{
    let blen = bytes.len();
    match read_leb_at(bytes, cur) {
        Some((_, n)) => Some(cur + n),
        None => None,
    }
}

/// One import entry at `cur`: where it ends, and the signature index when
/// it imports a function; `None` when it is cut off or of an unknown kind.
/// A global import needs only its kind byte when it is the `last` entry
/// (the section then ends there).
#[verifier::opaque]
pub open spec fn import_step(b: Seq<u8>, cur: int, last: bool) -> Option<(int, Option<u32>)> {
    match leb_at(b, cur) {
        None => None,
        Some((ml, mn)) => if ml > b.len() - (cur + mn) {
            None
        } else {
            let c1 = cur + mn + ml;
            match leb_at(b, c1) {
                None => None,
                Some((nl, nn)) => if nl >= b.len() - (c1 + nn) {
                    None
                } else {
                    let c3 = c1 + nn + nl + 1;
                    let kind = b[c1 + nn + nl];
                    if kind == 0 {
                        match leb_at(b, c3) {
                            None => None,
                            Some((ti, tn)) => Some((c3 + tn, Some(ti))),
                        }
                    } else if kind == 1 || kind == 2 {
                        let c4 = if kind == 1 { c3 + 1 } else { c3 };
                        if (kind == 1 && c3 >= b.len()) || c4 >= b.len() {
                            None
                        } else {
                            match leb_at(b, c4 + 1) {
                                None => None,
                                Some((_x, a)) => if b[c4] != 0 {
                                    match leb_at(b, c4 + 1 + a) {
                                        None => None,
                                        Some((_y, a2)) => Some((c4 + 1 + a + a2, None)),
                                    }
                                } else {
                                    Some((c4 + 1 + a, None))
                                },
                            }
                        }
                    } else if kind == 3 {
                        if b.len() - c3 < 2 {
                            if last { Some((b.len() as int, None)) } else { None }
                        } else {
                            Some((c3 + 2, None))
                        }
                    } else {
                        None
                    }
                },
            }
        },
    }
}

/// The signature indices of the function imports among entries `k` to
/// `count` of an import section, the `k`-th at `cur`; `None` when one is
/// malformed.
#[verifier::opaque]
pub open spec fn import_types_from(b: Seq<u8>, cur: int, k: nat, count: nat) -> Option<Seq<u32>>
    decreases count - k,
{
    if k >= count {
        Some(Seq::empty())
    } else {
        match import_step(b, cur, k + 1 == count) {
            None => None,
            Some((c, t)) => match import_types_from(b, c, k + 1, count) {
                None => None,
                Some(rest) => Some(
                    match t {
                        Some(ti) => seq![ti] + rest,
                        None => rest,
                    },
                ),
            },
        }
    }
}

/// The signature indices of an import section's function imports, in
/// order; `None` when it is malformed.
pub open spec fn import_types(b: Seq<u8>) -> Option<Seq<u32>> {
    match leb_at(b, 0) {
        None => None,
        Some((count, n)) => import_types_from(b, n, 0, count as nat),
    }
}

/// `done` followed by what `rest` holds.
pub open spec fn then_types(done: Seq<u32>, rest: Option<Seq<u32>>) -> Option<Seq<u32>> {
    match rest {
        None => None,
        Some(r) => Some(done + r),
    }
}

proof fn lemma_then_push(done: Seq<u32>, t: Option<u32>, rest: Option<Seq<u32>>)
    ensures
        then_types(
            done,
            match rest {
                None => None,
                Some(r) => Some(
                    match t {
                        Some(ti) => seq![ti] + r,
                        None => r,
                    },
                ),
            },
        ) == then_types(
            match t {
                Some(ti) => done.push(ti),
                None => done,
            },
            rest,
        ),
{
    match rest {
        Some(r) => match t {
            Some(ti) => {
                assert(done + (seq![ti] + r) =~= done.push(ti) + r);
            },
            None => {},
        },
        None => {},
    }
}

/// Read the import entry at `cur` (see `import_step`).
fn read_import(bytes: &[u8], cur: usize, last: bool) -> (r: Option<(usize, Option<u32>)>)
    requires
        cur <= bytes@.len(),
    ensures
        match import_step(bytes@, cur as int, last) {
            None => r is None,
            Some((c, t)) => r == Some((c as usize, t)) && cur < c <= bytes@.len(),
        },
{
    reveal(import_step);
    let blen = bytes.len();
    let (mod_len, mn) = match read_leb_at(bytes, cur) {
        Some(x) => x,
        None => return None,
    };
    if mod_len as usize > blen - (cur + mn) {
        return None;
    }
    let c1 = cur + mn + mod_len as usize;
    let (name_len, nn) = match read_leb_at(bytes, c1) {
        Some(x) => x,
        None => return None,
    };
    if name_len as usize >= blen - (c1 + nn) {
        return None;
    }
    let kind = bytes[c1 + nn + name_len as usize];
    let c3 = c1 + nn + name_len as usize + 1;
    assert(leb_at(bytes@, cur as int) == Some((mod_len, mn as int)));
    assert(leb_at(bytes@, c1 as int) == Some((name_len, nn as int)));
    assert(kind == bytes@[c1 + nn + name_len]);
    if kind == 0 {
        match read_leb_at(bytes, c3) {
            Some((type_idx, tn)) => {
                assert(leb_at(bytes@, c3 as int) == Some((type_idx, tn as int)));
                assert(import_step(bytes@, cur as int, last) == Some(((c3 + tn) as int, Some(type_idx))));
                let r = Some((c3 + tn, Some(type_idx)));
                assert(c3 + tn <= bytes@.len());
                assert(cur < c3 + tn);
                assert(r == Some((((c3 + tn) as int) as usize, Some(type_idx))));
                r
            },
            None => {
                assert(leb_at(bytes@, c3 as int) is None);
                assert(import_step(bytes@, cur as int, last) is None);
                None
            },
        }
    } else if kind == 1 || kind == 2 {
        if kind == 1 && c3 >= blen {
            return None;
        }
        let c4 = if kind == 1 { c3 + 1 } else { c3 };
        if c4 >= blen {
            return None;
        }
        let flag = bytes[c4];
        let c5 = match skip_num(bytes, c4 + 1) {
            Some(c) => c,
            None => {
                assert(import_step(bytes@, cur as int, last) is None);
                return None;
            },
        };
        assert(leb_at(bytes@, (c4 + 1) as int) is Some);
        assert(c5 == c4 + 1 + leb_at(bytes@, (c4 + 1) as int).unwrap().1);
        assert(flag == bytes@[c4 as int]);
        assert(c4 == (if kind == 1 { c3 + 1 } else { c3 as int }));
        if flag != 0 {
            match skip_num(bytes, c5) {
                Some(c) => {
                    assert(import_step(bytes@, cur as int, last) == Some((c as int, None::<u32>)));
                    Some((c, None))
                },
                None => {
                    assert(import_step(bytes@, cur as int, last) is None);
                    None
                },
            }
        } else {
            assert(import_step(bytes@, cur as int, last) == Some((c5 as int, None::<u32>)));
            Some((c5, None))
        }
    } else if kind == 3 {
        if blen - c3 < 2 {
            if last {
                assert(import_step(bytes@, cur as int, last) == Some((blen as int, None::<u32>)));
                Some((blen, None))
            } else {
                None
            }
        } else {
            assert(import_step(bytes@, cur as int, last) == Some(((c3 + 2) as int, None::<u32>)));
            Some((c3 + 2, None))
        }
    } else {
        assert(import_step(bytes@, cur as int, last) is None);
        None
    }
}

/// Record the signature index of each imported function, in order, in
/// `out` (those past `FUNCS_CAP` are counted, not kept), skipping table,
/// memory and global imports; give the number of function imports.
/// `MalformedCode` for a cut-off entry or an unknown import kind.
pub(crate) fn parse_import_func_types(bytes: &[u8], out: &mut Vec<usize>) -> (r: Result<usize, InterpError>)
    requires
        old(out)@.len() == FUNCS_CAP,
    ensures
        final(out)@.len() == FUNCS_CAP,
        r is Err ==> r == Err::<usize, InterpError>(InterpError::MalformedCode),
        match import_types(bytes@) {
            None => r is Err,
            Some(ts) => r == Ok::<usize, InterpError>(ts.len() as usize) && forall|i: int|
                0 <= i < FUNCS_CAP ==> #[trigger] final(out)@[i] == if i < ts.len() {
                    ts[i] as usize
                } else {
                    old(out)@[i]
                },
        },
{
    let blen = bytes.len();
    let (count, n) = match read_leb_at(bytes, 0) {
        Some(x) => x,
        None => return Err(InterpError::MalformedCode),
    };
    let mut cur = n;
    let mut func_count: usize = 0;
    let mut k: u32 = 0;
    let ghost mut done: Seq<u32> = Seq::empty();
    let ghost b = bytes@;
    while k < count
        invariant
            b == bytes@,
            blen == bytes@.len(),
            cur <= blen,
            out@.len() == FUNCS_CAP,
            func_count <= k,
            k <= count,
            func_count == done.len(),
            import_types(b) == then_types(done, import_types_from(b, cur as int, k as nat, count as nat)),
            forall|i: int| 0 <= i < FUNCS_CAP ==> #[trigger] out@[i] == if i < done.len() {
                done[i] as usize
            } else {
                old(out)@[i]
            },
        decreases count - k,
    {
        let ghost c0 = cur as int;
        let ghost last = k + 1 == count;
        proof {
            reveal_with_fuel(import_types_from, 1);
        }
        assert(import_types_from(b, c0, k as nat, count as nat) == match import_step(b, c0, last) {
            None => None,
            Some((c, t)) => match import_types_from(b, c, k as nat + 1, count as nat) {
                None => None,
                Some(rest) => Some(
                    match t {
                        Some(ti) => seq![ti] + rest,
                        None => rest,
                    },
                ),
            },
        });
        let (c, t) = match read_import(bytes, cur, k + 1 == count) {
            Some(x) => x,
            None => return Err(InterpError::MalformedCode),
        };
        match t {
            Some(type_idx) => {
                if func_count < FUNCS_CAP {
                    out.set(func_count, type_idx as usize);
                }
                func_count = func_count + 1;
            },
            None => {},
        }
        cur = c;
        proof {
            lemma_then_push(done, t, import_types_from(b, cur as int, k as nat + 1, count as nat));
            match t {
                Some(ti) => {
                    done = done.push(ti);
                },
                None => {},
            }
        }
        k = k + 1;
    }
    proof {
        reveal_with_fuel(import_types_from, 1);
    }
    assert(import_types_from(b, cur as int, k as nat, count as nat) == Some(Seq::<u32>::empty()));
    assert(done + Seq::<u32>::empty() =~= done);
    Ok(func_count)
}

/// The table writes of function indices `j` to `count` of a segment at
/// table offset `offset`, the `j`-th at `cur`: where they end, and the
/// `(slot, function)` pairs that land inside the table, in order; `None`
/// when one is cut off.
#[verifier::opaque]
pub open spec fn elem_funcs(b: Seq<u8>, cur: int, offset: i32, j: nat, count: nat) -> Option<(int, Seq<(int, u32)>)>
    decreases count - j,
{
    if j >= count {
        Some((cur, Seq::empty()))
    } else {
        match leb_at(b, cur) {
            None => None,
            Some((f, n)) => match elem_funcs(b, cur + n, offset, j + 1, count) {
                None => None,
                Some((e, ws)) => Some(
                    (
                        e,
                        if offset >= 0 && offset + j < TABLE_CAP {
                            seq![(offset + j, f)] + ws
                        } else {
                            ws
                        },
                    ),
                ),
            },
        }
    }
}

/// The table writes of segments `k` to `count` of an element section, the
/// `k`-th at `cur`; a segment of another kind than 0 ends the section.
/// `None` when a segment is cut off or ill-formed.
#[verifier::opaque]
pub open spec fn elem_segs(b: Seq<u8>, cur: int, k: nat, count: nat) -> Option<Seq<(int, u32)>>
    decreases count - k,
{
    if k >= count {
        Some(Seq::empty())
    } else {
        match leb_at(b, cur) {
            None => None,
            Some((kind, kn)) => if kind != 0 {
                Some(Seq::empty())
            } else {
                let c = cur + kn;
                if c >= b.len() || b[c] != 0x41 {
                    None
                } else {
                    match sleb32_decode(b.skip(c + 1)) {
                        None => None,
                        Some((off, on)) => {
                            let c2 = c + 1 + on;
                            if c2 >= b.len() || b[c2] != 0x0B {
                                None
                            } else {
                                match leb_at(b, c2 + 1) {
                                    None => None,
                                    Some((ec, en)) => match elem_funcs(b, c2 + 1 + en, off, 0, ec as nat) {
                                        None => None,
                                        Some((e, ws)) => match elem_segs(b, e, k + 1, count) {
                                            None => None,
                                            Some(rest) => Some(ws + rest),
                                        },
                                    },
                                }
                            }
                        },
                    }
                }
            },
        }
    }
}

/// The table writes of an element section, in order; `None` when it is
/// malformed.
pub open spec fn elem_writes(b: Seq<u8>) -> Option<Seq<(int, u32)>> {
    match leb_at(b, 0) {
        None => None,
        Some((count, n)) => elem_segs(b, n, 0, count as nat),
    }
}

/// A table after a run of writes, in order.
pub open spec fn apply_writes(t: Seq<u32>, ws: Seq<(int, u32)>) -> Seq<u32>
    decreases ws.len(),
{
    if ws.len() == 0 {
        t
    } else {
        apply_writes(t, ws.drop_last()).update(ws.last().0, ws.last().1)
    }
}

/// The table size after a run of writes: it grows to cover each slot
/// written.
pub open spec fn writes_size(s: int, ws: Seq<(int, u32)>) -> int
    decreases ws.len(),
{
    if ws.len() == 0 {
        s
    } else {
        let p = writes_size(s, ws.drop_last());
        if ws.last().0 + 1 > p { ws.last().0 + 1 } else { p }
    }
}

proof fn lemma_writes_push(t: Seq<u32>, s: int, ws: Seq<(int, u32)>, w: (int, u32))
    ensures
        apply_writes(t, ws.push(w)) == apply_writes(t, ws).update(w.0, w.1),
        writes_size(s, ws.push(w)) == if w.0 + 1 > writes_size(s, ws) { w.0 + 1 } else { writes_size(s, ws) },
{
    assert(ws.push(w).drop_last() =~= ws);
}

/// Write the function indices of a segment at table offset `offset` (see
/// `elem_funcs`) into `table`, growing `size`; where they end, or `None`
/// when one is cut off.
fn write_elem_funcs(
    bytes: &[u8],
    cur: usize,
    offset: i32,
    count: u32,
    table: &mut Vec<u32>,
    size: &mut usize,
) -> (r: Option<usize>)
    requires
        cur <= bytes@.len(),
        old(table)@.len() == TABLE_CAP,
        *old(size) <= TABLE_CAP,
    ensures
        final(table)@.len() == TABLE_CAP,
        *final(size) <= TABLE_CAP,
        match elem_funcs(bytes@, cur as int, offset, 0, count as nat) {
            None => r is None,
            Some((e, ws)) => r is Some && r.unwrap() as int == e && e <= bytes@.len() && final(table)@ == apply_writes(
                old(table)@,
                ws,
            ) && *final(size) as int == writes_size(*old(size) as int, ws),
        },
{
    let blen = bytes.len();
    let mut c = cur;
    let mut j: u32 = 0;
    let ghost mut dseg: Seq<(int, u32)> = Seq::empty();
    let ghost b = bytes@;
    let ghost t0 = old(table)@;
    let ghost s0 = *old(size) as int;
    while j < count
        invariant
            b == bytes@,
            blen == b.len(),
            c <= blen,
            j <= count,
            table@.len() == TABLE_CAP,
            *size <= TABLE_CAP,
            table@ == apply_writes(t0, dseg),
            *size as int == writes_size(s0, dseg),
            t0 == old(table)@,
            s0 == *old(size) as int,
            elem_funcs(b, cur as int, offset, 0, count as nat) == match elem_funcs(b, c as int, offset, j as nat, count as nat) {
                None => None,
                Some((e, ws)) => Some((e, dseg + ws)),
            },
        decreases count - j,
    {
        proof {
            reveal_with_fuel(elem_funcs, 1);
        }
        let (func_idx, fnn) = match read_leb_at(bytes, c) {
            Some(x) => x,
            None => return None,
        };
        let ghost rest = elem_funcs(b, (c + fnn) as int, offset, j as nat + 1, count as nat);
        c = c + fnn;
        if offset >= 0 && (offset as u64) + (j as u64) < TABLE_CAP as u64 {
            let ti = (offset as u64 + j as u64) as usize;
            proof {
                lemma_writes_push(t0, s0, dseg, (ti as int, func_idx));
                match rest {
                    Some((e, ws)) => {
                        assert(dseg + (seq![(ti as int, func_idx)] + ws) =~= dseg.push((ti as int, func_idx)) + ws);
                    },
                    None => {},
                }
                dseg = dseg.push((ti as int, func_idx));
            }
            table.set(ti, func_idx);
            if ti + 1 > *size {
                *size = ti + 1;
            }
        }
        j = j + 1;
    }
    proof {
        reveal_with_fuel(elem_funcs, 1);
        assert(dseg + Seq::<(int, u32)>::empty() =~= dseg);
    }
    Some(c)
}

/// Fill the function table from the active segments of the element
/// section (kind 0: an `i32.const` offset ended by `end`, then function
/// indices); entries past `TABLE_CAP` are dropped, and `size` grows to
/// cover the highest entry written. The first segment of another kind ends
/// the section. `MalformedCode` for a cut-off or ill-formed segment.
pub(crate) fn parse_element_section(bytes: &[u8], table: &mut Vec<u32>, size: &mut usize) -> (r: Result<(), InterpError>)
    requires
        old(table)@.len() == TABLE_CAP,
        *old(size) <= TABLE_CAP,
    ensures
        final(table)@.len() == TABLE_CAP,
        *final(size) <= TABLE_CAP,
        r is Err ==> r == Err::<(), InterpError>(InterpError::MalformedCode),
        match elem_writes(bytes@) {
            None => r is Err,
            Some(ws) => r is Ok && final(table)@ == apply_writes(old(table)@, ws) && *final(size) as int
                == writes_size(*old(size) as int, ws),
        },
{
    let blen = bytes.len();
    let (seg_count, n) = match read_leb_at(bytes, 0) {
        Some(x) => x,
        None => return Err(InterpError::MalformedCode),
    };
    let mut cur = n;
    let mut k: u32 = 0;
    let ghost mut done: Seq<(int, u32)> = Seq::empty();
    let ghost b = bytes@;
    let ghost t0 = old(table)@;
    let ghost s0 = *old(size) as int;
    while k < seg_count
        invariant
            b == bytes@,
            blen == bytes@.len(),
            cur <= blen,
            k <= seg_count,
            table@.len() == TABLE_CAP,
            *size <= TABLE_CAP,
            table@ == apply_writes(t0, done),
            *size as int == writes_size(s0, done),
            t0 == old(table)@,
            s0 == *old(size) as int,
            elem_writes(b) == match elem_segs(b, cur as int, k as nat, seg_count as nat) {
                None => None,
                Some(rest) => Some(done + rest),
            },
        decreases seg_count - k,
    {
        proof {
            reveal_with_fuel(elem_segs, 1);
        }
        let ghost c0 = cur as int;
        let (kind, kn) = match read_leb_at(bytes, cur) {
            Some(x) => x,
            None => return Err(InterpError::MalformedCode),
        };
        cur = cur + kn;
        if kind != 0 {
            assert(elem_segs(b, c0, k as nat, seg_count as nat) == Some(Seq::<(int, u32)>::empty()));
            assert(done + Seq::<(int, u32)>::empty() =~= done);
            return Ok(());
        }
        if cur >= blen || bytes[cur] != 0x41 {
            return Err(InterpError::MalformedCode);
        }
        cur = cur + 1;
        let rest = vstd::slice::slice_subrange(bytes, cur, blen);
        assert(rest@ =~= b.skip(cur as int));
        let (offset, on) = match read_i32_leb128(rest) {
            Some(x) => x,
            None => return Err(InterpError::MalformedCode),
        };
        cur = cur + on;
        if cur >= blen || bytes[cur] != 0x0B {
            return Err(InterpError::MalformedCode);
        }
        cur = cur + 1;
        let (elem_count, en) = match read_leb_at(bytes, cur) {
            Some(x) => x,
            None => return Err(InterpError::MalformedCode),
        };
        cur = cur + en;
        let ghost tb = table@;
        let ghost sb = *size as int;
        let ghost seg = elem_funcs(b, cur as int, offset, 0, elem_count as nat);
        assert(sleb32_decode(b.skip(c0 + kn + 1)) == Some((offset, on)));
        assert(elem_segs(b, c0, k as nat, seg_count as nat) == match seg {
            None => None,
            Some((e, ws)) => match elem_segs(b, e, k as nat + 1, seg_count as nat) {
                None => None,
                Some(rest) => Some(ws + rest),
            },
        });
        cur = match write_elem_funcs(bytes, cur, offset, elem_count, table, size) {
            Some(c) => c,
            None => return Err(InterpError::MalformedCode),
        };
        assert(seg is Some);
        assert(cur as int == seg.unwrap().0);
        proof {
            let ws = seg.unwrap().1;
            assert(table@ == apply_writes(tb, ws));
            lemma_apply_concat(t0, s0, done, ws);
            match elem_segs(b, cur as int, k as nat + 1, seg_count as nat) {
                Some(r2) => {
                    assert(done + (ws + r2) =~= (done + ws) + r2);
                },
                None => {},
            }
            done = done + ws;
        }
        k = k + 1;
    }
    proof {
        reveal_with_fuel(elem_segs, 1);
        assert(done + Seq::<(int, u32)>::empty() =~= done);
    }
    Ok(())
}

/// Writing `ws1` then `ws2` is writing `ws1 + ws2`.
proof fn lemma_apply_concat(t: Seq<u32>, s: int, ws1: Seq<(int, u32)>, ws2: Seq<(int, u32)>)
    ensures
        apply_writes(apply_writes(t, ws1), ws2) == apply_writes(t, ws1 + ws2),
        writes_size(writes_size(s, ws1), ws2) == writes_size(s, ws1 + ws2),
    decreases ws2.len(),
{
    if ws2.len() == 0 {
        assert(ws1 + ws2 =~= ws1);
    } else {
        lemma_apply_concat(t, s, ws1, ws2.drop_last());
        assert((ws1 + ws2).drop_last() =~= ws1 + ws2.drop_last());
        assert((ws1 + ws2).last() == ws2.last());
    }
}

proof fn lemma_types_len(b: Seq<u8>, cur: int, left: nat)
    ensures
        types_from(b, cur, left) matches Some(t) ==> t.len() == left,
    decreases left,
{
    if left > 0 && 0 <= cur < b.len() {
        match leb_at(b, cur + 1) {
            Some((p, n)) => match leb_at(b, cur + 1 + n + p) {
                Some((r, m)) => lemma_types_len(b, cur + 1 + n + p + m + r, (left - 1) as nat),
                None => {},
            },
            None => {},
        }
    }
}

proof fn lemma_lebs_len(b: Seq<u8>, cur: int, left: nat)
    ensures
        lebs_from(b, cur, left) matches Some(t) ==> t.len() == left,
    decreases left,
{
    if left > 0 {
        match leb_at(b, cur) {
            Some((v, n)) => lemma_lebs_len(b, cur + n, (left - 1) as nat),
            None => {},
        }
    }
}

proof fn lemma_code_len(b: Seq<u8>, cur: int, left: nat)
    ensures
        code_from(b, cur, left) matches Some(t) ==> t.len() == left,
    decreases left,
{
    if left > 0 {
        match leb_at(b, cur) {
            Some((size, n)) => lemma_code_len(b, cur + n + size, (left - 1) as nat),
            None => {},
        }
    }
}

proof fn lemma_globals_len(b: Seq<u8>, cur: int, left: nat)
    ensures
        globals_from(b, cur, left) matches Some(t) ==> t.len() == left,
    decreases left,
{
    if left > 0 && 0 <= cur && cur + 2 <= b.len() && cur + 2 < b.len() {
        let c = cur + 2;
        if b[c] == 0x41 {
            match sleb32_decode(b.skip(c + 1)) {
                Some((v, n)) => lemma_globals_len(b, c + 1 + n + 1, (left - 1) as nat),
                None => {},
            }
        } else if b[c] == 0x42 {
            match sleb64_decode(b.skip(c + 1)) {
                Some((v, n)) => lemma_globals_len(b, c + 1 + n + 1, (left - 1) as nat),
                None => {},
            }
        }
    }
}

} // verus!
