//! Structure of function bodies: skipping instruction immediates, finding
//! the `end` (and `else`) that closes a `block`/`loop`/`if`, and the jump
//! table that caches those positions for the interpreter.
use vstd::prelude::*;
use crate::leb128::{read_u32_leb128, uleb32_decode, uleb32_from};

verus! {

/// `else_pc` of a block without `else`.
pub const NO_ELSE: usize = usize::MAX;

/// Slots of the jump table (a power of two).
pub const JUMP_SLOTS: usize = 4096;

/// Length of the LEB-128 number at `i`: the bytes up to and including the
/// first one whose high bit is clear, when that byte lies inside `b`.
pub open spec fn leb_len(b: Seq<u8>, i: int) -> Option<int>
    decreases b.len() - i,
{
    if i < 0 || i >= b.len() {
        None
    } else if b[i] & 0x80 == 0 {
        Some(1)
    } else {
        match leb_len(b, i + 1) {
            Some(n) => Some(n + 1),
            None => None,
        }
    }
}

/// Position after `k` consecutive LEB-128 numbers starting at `i`.
pub open spec fn skip_lebs(b: Seq<u8>, i: int, k: nat) -> Option<int>
    decreases k,
{
    if k == 0 {
        Some(i)
    } else {
        match leb_len(b, i) {
            Some(n) => skip_lebs(b, i + n, (k - 1) as nat),
            None => None,
        }
    }
}

/// Position after the immediates of opcode `op`, which start at `i`:
/// one LEB-128 number for branches, calls, variable access, integer
/// constants and `0xFC` sub-opcodes; two for `call_indirect` and memory
/// instructions; a count and that many labels plus one for `br_table`; one
/// reserved byte for `memory.size`/`memory.grow`; 4 or 8 literal bytes for
/// float constants; none otherwise. `None` when a number is cut off.
pub open spec fn imm_end(b: Seq<u8>, i: int, op: u8) -> Option<int> {
    if op == 0x0C || op == 0x0D || op == 0x10 || (0x20 <= op <= 0x24) || op == 0x41 || op == 0x42 || op == 0xFC {
        skip_lebs(b, i, 1)
    } else if op == 0x11 || (0x28 <= op <= 0x3E) {
        skip_lebs(b, i, 2)
    } else if op == 0x0E {
        if 0 <= i <= b.len() {
            match uleb32_decode(b.skip(i)) {
                Some((count, n)) => skip_lebs(b, i + n, (count + 1) as nat),
                None => None,
            }
        } else {
            None
        }
    } else if op == 0x3F || op == 0x40 {
        Some(i + 1)
    } else if op == 0x43 {
        Some(i + 4)
    } else if op == 0x44 {
        Some(i + 8)
    } else {
        Some(i)
    }
}

/// The scan for the end of a block from position `i`, `depth` blocks deep,
/// with the `else` of the outermost block (if seen) at `else_pc`: nested
/// `block`/`loop`/`if` (and their block type byte) go one deeper, `end`
/// one shallower; the `end` that reaches depth 0 gives `(end, else)`.
pub open spec fn scan_from(b: Seq<u8>, i: int, depth: nat, else_pc: int) -> Option<(int, int)>
    decreases b.len() - i,
{
    if i < 0 || i >= b.len() || depth == 0 {
        None
    } else {
        let op = b[i];
        if op == 0x02 || op == 0x03 || op == 0x04 {
            if i + 2 <= b.len() {
                scan_from(b, i + 2, depth + 1, else_pc)
            } else {
                None
            }
        } else if op == 0x05 {
            scan_from(b, i + 1, depth, if depth == 1 { i } else { else_pc })
        } else if op == 0x0B {
            if depth == 1 {
                Some((i, else_pc))
            } else {
                scan_from(b, i + 1, (depth - 1) as nat, else_pc)
            }
        } else {
            match imm_end(b, i + 1, op) {
                Some(j) => if i < j <= b.len() {
                    scan_from(b, j, depth, else_pc)
                } else {
                    None
                },
                None => None,
            }
        }
    }
}

/// The positions of the `end` and of the `else` (`NO_ELSE` if none) of the
/// block whose body starts at `start`.
pub open spec fn scan_block(b: Seq<u8>, start: int) -> Option<(int, int)> {
    scan_from(b, start, 1, NO_ELSE as int)
}

proof fn lemma_skip_lebs_grows(b: Seq<u8>, i: int, k: nat)
    ensures
        skip_lebs(b, i, k) matches Some(j) ==> i + k <= j && (k > 0 ==> j <= b.len()),
    decreases k,
{
    if k > 0 {
        match leb_len(b, i) {
            Some(n) => {
                lemma_leb_len_range(b, i);
                lemma_skip_lebs_grows(b, i + n, (k - 1) as nat);
            },
            None => {},
        }
    }
}

proof fn lemma_leb_len_range(b: Seq<u8>, i: int)
    ensures
        leb_len(b, i) matches Some(n) ==> n >= 1 && 0 <= i && i + n <= b.len(),
    decreases b.len() - i,
{
    if 0 <= i < b.len() && b[i] & 0x80 != 0 {
        lemma_leb_len_range(b, i + 1);
    }
}

/// Number of bytes of the LEB-128 number at `start` (see `leb_len`).
pub fn skip_leb128(bytes: &[u8], start: usize) -> (r: Option<usize>)
    ensures
        r is None <==> leb_len(bytes@, start as int) is None,
        match r {
            Some(n) => leb_len(bytes@, start as int) == Some(n as int) && 1 <= n && start + n <= bytes@.len(),
            None => true,
        },
{
    proof {
        lemma_leb_len_range(bytes@, start as int);
    }
    let mut i = start;
    while i < bytes.len()
        invariant
            start <= i,
            i <= bytes@.len() || i == start,
            leb_len(bytes@, start as int) == match leb_len(bytes@, i as int) {
                Some(n) => Some(n + (i - start)),
                None => None::<int>,
            },
        decreases bytes.len() - i,
    {
        let b = bytes[i];
        i = i + 1;
        if b & 0x80 == 0 {
            return Some(i - start);
        }
    }
    None
}

/// Position after `k` LEB-128 numbers from `i` (see `skip_lebs`).
fn skip_leb128_n(bytes: &[u8], i: usize, k: u64) -> (r: Option<usize>)
    requires
        i <= bytes@.len(),
    ensures
        match skip_lebs(bytes@, i as int, k as nat) {
            Some(j) => r == Some(j as usize) && j <= bytes@.len(),
            None => r is None,
        },
{
    let mut pos = i;
    let mut left = k;
    let blen = bytes.len();
    while left > 0
        invariant
            blen == bytes@.len(),
            pos <= bytes@.len(),
            skip_lebs(bytes@, i as int, k as nat) == skip_lebs(bytes@, pos as int, left as nat),
        decreases left,
    {
        let step = skip_leb128(bytes, pos);
        match step {
            Some(n) => {
                pos = pos + n;
            },
            None => return None,
        }
        left = left - 1;
    }
    Some(pos)
}

/// Position after the immediates of `op`, which start at `i` (see
/// `imm_end`), when it lies inside the body.
fn skip_immediates(body: &[u8], i: usize, op: u8) -> (r: Option<usize>)
    requires
        i <= body@.len(),
    ensures
        match imm_end(body@, i as int, op) {
            Some(j) => if j <= body@.len() { r == Some(j as usize) } else { r is None },
            None => r is None,
        },
{
    if op == 0x0C || op == 0x0D || op == 0x10 || (0x20 <= op && op <= 0x24) || op == 0x41 || op == 0x42 || op == 0xFC {
        skip_leb128_n(body, i, 1)
    } else if op == 0x11 || (0x28 <= op && op <= 0x3E) {
        skip_leb128_n(body, i, 2)
    } else if op == 0x0E {
        let rest = vstd::slice::slice_subrange(body, i, body.len());
        assert(rest@ =~= body@.skip(i as int));
        proof {
            lemma_uleb32_len(rest@, 0);
        }
        match read_u32_leb128(rest) {
            Some((count, n)) => skip_leb128_n(body, i + n, count as u64 + 1),
            None => None,
        }
    } else {
        let w: usize = if op == 0x3F || op == 0x40 {
            1
        } else if op == 0x43 {
            4
        } else if op == 0x44 {
            8
        } else {
            0
        };
        if body.len() - i < w {
            None
        } else {
            Some(i + w)
        }
    }
}

/// Where a scan from `i` ends: at an `end` at or after `i`, with the
/// `else` it started with or one it met on the way.
pub proof fn lemma_scan_bounds(b: Seq<u8>, i: int, depth: nat, el0: int)
    ensures
        scan_from(b, i, depth, el0) matches Some((e, el)) ==> 0 <= i <= e < b.len() && (el == el0 || i <= el < e),
    decreases b.len() - i,
{
    if 0 <= i < b.len() && depth > 0 {
        let op = b[i];
        if op == 0x02 || op == 0x03 || op == 0x04 {
            if i + 2 <= b.len() {
                lemma_scan_bounds(b, i + 2, depth + 1, el0);
            }
        } else if op == 0x05 {
            lemma_scan_bounds(b, i + 1, depth, if depth == 1 { i } else { el0 });
        } else if op == 0x0B {
            if depth != 1 {
                lemma_scan_bounds(b, i + 1, (depth - 1) as nat, el0);
            }
        } else {
            match imm_end(b, i + 1, op) {
                Some(j) => if i < j <= b.len() {
                    lemma_scan_bounds(b, j, depth, el0);
                },
                None => {},
            }
        }
    }
}

/// From `start` (just past an opcode and its block type), the positions of
/// the matching `end` and of the block's own `else` (`NO_ELSE` if none), as
/// `scan_block` gives them; immediates are skipped so that their bytes are
/// never read as opcodes.
pub fn scan_block_end(body: &[u8], start: usize) -> (r: Option<(usize, usize)>)
    ensures
        match scan_block(body@, start as int) {
            Some((e, el)) => r == Some((e as usize, el as usize)) && start <= e < body@.len() && (el == NO_ELSE
                || start <= el < e),
            None => r is None,
        },
{
    proof {
        lemma_scan_bounds(body@, start as int, 1, NO_ELSE as int);
    }
    let mut depth: usize = 1;
    let mut i = start;
    let mut else_pc = NO_ELSE;
    while i < body.len()
        invariant
            1 <= depth <= i + 1,
            start <= i,
            else_pc == NO_ELSE || start <= else_pc < i,
            scan_block(body@, start as int) == scan_from(body@, i as int, depth as nat, else_pc as int),
        decreases body.len() - i,
    {
        let op = body[i];
        i = i + 1;
        if op == 0x02 || op == 0x03 || op == 0x04 {
            if i >= body.len() {
                return None;
            }
            i = i + 1;
            depth = depth + 1;
        } else if op == 0x05 {
            if depth == 1 {
                else_pc = i - 1;
            }
        } else if op == 0x0B {
            depth = depth - 1;
            if depth == 0 {
                return Some((i - 1, else_pc));
            }
        } else {
            proof {
                lemma_imm_end_grows(body@, i as int, op);
            }
            match skip_immediates(body, i, op) {
                Some(j) => {
                    i = j;
                },
                None => return None,
            }
        }
    }
    None
}

/// A decoded number ends inside the bytes, after where the search began.
pub proof fn lemma_uleb32_len(s: Seq<u8>, i: nat)
    ensures
        uleb32_from(s, i) matches Some((_, n)) ==> i < n <= s.len() && n <= 5,
    decreases 5 - i,
{
    if i < 5 && i < s.len() && (s[i as int] & 0x80 != 0) {
        lemma_uleb32_len(s, i + 1);
    }
}

proof fn lemma_imm_end_grows(b: Seq<u8>, i: int, op: u8)
    requires
        0 <= i <= b.len(),
    ensures
        imm_end(b, i, op) matches Some(j) ==> i <= j,
{
    lemma_skip_lebs_grows(b, i, 1);
    lemma_skip_lebs_grows(b, i, 2);
    if op == 0x0E {
        match uleb32_decode(b.skip(i)) {
            Some((count, n)) => {
                lemma_uleb32_len(b.skip(i), 0);
                lemma_skip_lebs_grows(b, i + n, (count + 1) as nat);
            },
            None => {},
        }
    }
}

/// One cached block: the body it lies in, where its body starts, and the
/// positions of its `end` and `else` (`u32::MAX` for none). An empty slot
/// has `key_body == u16::MAX`.
#[derive(Clone, Copy)]
pub struct JumpSlot {
    pub key_body: u16,
    pub key_pc: u32,
    pub end_pc: u32,
    pub else_pc: u32,
}

/// The empty slot.
pub open spec fn empty_slot() -> JumpSlot {
    JumpSlot { key_body: u16::MAX, key_pc: 0, end_pc: 0, else_pc: u32::MAX }
}

/// A slot's `else` position in the scan's terms.
pub open spec fn slot_else(s: JumpSlot) -> int {
    if s.else_pc == u32::MAX { NO_ELSE as int } else { s.else_pc as int }
}

/// A filled slot names a body, and holds what a scan of that body finds.
pub open spec fn slot_agrees(s: JumpSlot, bodies: Seq<Seq<u8>>) -> bool {
    s.key_body != u16::MAX ==> {
        &&& (s.key_body as int) < bodies.len()
        &&& scan_block(bodies[s.key_body as int], s.key_pc as int) == Some((s.end_pc as int, slot_else(s)))
    }
}

/// Every filled slot of the table agrees with a scan.
pub open spec fn table_sound(t: Seq<JumpSlot>, bodies: Seq<Seq<u8>>) -> bool {
    &&& t.len() == JUMP_SLOTS
    &&& forall|k: int| 0 <= k < t.len() ==> #[trigger] slot_agrees(t[k], bodies)
}

/// An empty jump table.
pub fn empty_jump_table() -> (t: Vec<JumpSlot>)
    ensures
        t@.len() == JUMP_SLOTS,
        forall|k: int| 0 <= k < JUMP_SLOTS ==> #[trigger] t@[k] == empty_slot(),
{
    let mut t: Vec<JumpSlot> = Vec::new();
    let mut k: usize = 0;
    while k < JUMP_SLOTS
        invariant
            k <= JUMP_SLOTS,
            t@.len() == k,
            forall|j: int| 0 <= j < k ==> #[trigger] t@[j] == empty_slot(),
        decreases JUMP_SLOTS - k,
    {
        t.push(JumpSlot { key_body: u16::MAX, key_pc: 0, end_pc: 0, else_pc: u32::MAX });
        k = k + 1;
    }
    t
}

/// The slot where the probe for `(body_idx, scan_start)` begins: the two
/// numbers multiplied (wrapping, in 64 bits) by two fixed odd constants,
/// combined by xor, folded with their upper bits, modulo the table size.
pub open spec fn hash_slot(body_idx: usize, scan_start: usize) -> int {
    let h: u64 = (body_idx as u64).wrapping_mul(2654435761) ^ (scan_start as u64).wrapping_mul(2246822519);
    ((h ^ (h >> 16)) % 4096) as int
}

/// The first of the `n` slots probed from `start` on (wrapping round the
/// table) that is empty.
pub open spec fn probe_empty(t: Seq<JumpSlot>, start: int, n: nat) -> Option<int>
    decreases n,
{
    if n == 0 {
        None
    } else if t[start].key_body == u16::MAX {
        Some(start)
    } else {
        probe_empty(t, (start + 1) % (JUMP_SLOTS as int), (n - 1) as nat)
    }
}

/// What the probe for `(body_idx, pc)` from `start` finds within `n`
/// slots: the `(end, else)` of the first slot keyed so, unless an empty
/// slot comes first.
pub open spec fn probe_find(t: Seq<JumpSlot>, body_idx: int, pc: int, start: int, n: nat) -> Option<(int, int)>
    decreases n,
{
    if n == 0 {
        None
    } else if t[start].key_body == u16::MAX {
        None
    } else if t[start].key_body == body_idx && t[start].key_pc == pc {
        Some((t[start].end_pc as int, slot_else(t[start])))
    } else {
        probe_find(t, body_idx, pc, (start + 1) % (JUMP_SLOTS as int), (n - 1) as nat)
    }
}

/// Whether a block can be recorded: the body number fits a slot and the
/// positions fit in 32 bits.
pub open spec fn recordable(body_idx: usize, scan_start: usize, end_pc: usize, else_pc: usize) -> bool {
    body_idx < 65535 && scan_start <= 0xFFFF_FFFF && end_pc <= 0xFFFF_FFFF && (else_pc == NO_ELSE || else_pc
        < 0xFFFF_FFFF)
}

/// The slot that records a block.
pub open spec fn block_slot(body_idx: usize, scan_start: usize, end_pc: usize, else_pc: usize) -> JumpSlot {
    JumpSlot {
        key_body: body_idx as u16,
        key_pc: scan_start as u32,
        end_pc: end_pc as u32,
        else_pc: if else_pc == NO_ELSE { u32::MAX } else { else_pc as u32 },
    }
}

/// The slot where the probe for `(body_idx, scan_start)` begins.
pub fn jump_hash(body_idx: usize, scan_start: usize) -> (h: usize)
    ensures
        h < JUMP_SLOTS,
        h == hash_slot(body_idx, scan_start),
{
    let h: u64 = (body_idx as u64).wrapping_mul(2654435761) ^ (scan_start as u64).wrapping_mul(2246822519);
    ((h ^ (h >> 16)) % 4096) as usize
}

/// Record the block of body `body_idx` starting at `scan_start` in the first
/// empty slot from its hash on (linear probing). Nothing is recorded when
/// the table is full, the body number does not fit a slot, or a position
/// does not fit in 32 bits.
pub fn jump_insert(
    table: &mut Vec<JumpSlot>,
    bodies: Ghost<Seq<Seq<u8>>>,
    body_idx: usize,
    scan_start: usize,
    end_pc: usize,
    else_pc: usize,
)
    requires
        table_sound(old(table)@, bodies@),
        body_idx < bodies@.len(),
        scan_block(bodies@[body_idx as int], scan_start as int) == Some((end_pc as int, else_pc as int)),
    ensures
        table_sound(final(table)@, bodies@),
        !recordable(body_idx, scan_start, end_pc, else_pc) ==> final(table)@ == old(table)@,
        final(table)@ == record_block(old(table)@, body_idx, scan_start, end_pc, else_pc),
        recordable(body_idx, scan_start, end_pc, else_pc) ==> final(table)@ == match probe_empty(
            old(table)@,
            hash_slot(body_idx, scan_start),
            JUMP_SLOTS as nat,
        ) {
            Some(p) => old(table)@.update(p, block_slot(body_idx, scan_start, end_pc, else_pc)),
            None => old(table)@,
        },
{
    if body_idx >= 65535 || scan_start > 0xFFFF_FFFF || end_pc > 0xFFFF_FFFF || (else_pc != NO_ELSE
        && else_pc >= 0xFFFF_FFFF) {
        return ;
    }
    let mut i = jump_hash(body_idx, scan_start);
    let mut n: usize = 0;
    while n < JUMP_SLOTS
        invariant
            table_sound(table@, bodies@),
            i < JUMP_SLOTS,
            body_idx < 65535,
            body_idx < bodies@.len(),
            scan_start <= 0xFFFF_FFFF,
            end_pc <= 0xFFFF_FFFF,
            else_pc == NO_ELSE || else_pc < 0xFFFF_FFFF,
            scan_block(bodies@[body_idx as int], scan_start as int) == Some((end_pc as int, else_pc as int)),
            n <= JUMP_SLOTS,
            table@ == old(table)@,
            probe_empty(old(table)@, hash_slot(body_idx, scan_start), JUMP_SLOTS as nat) == probe_empty(
                table@,
                i as int,
                (JUMP_SLOTS - n) as nat,
            ),
        decreases JUMP_SLOTS - n,
    {
        if table[i].key_body == u16::MAX {
            let slot = JumpSlot {
                key_body: body_idx as u16,
                key_pc: scan_start as u32,
                end_pc: end_pc as u32,
                else_pc: if else_pc == NO_ELSE { u32::MAX } else { else_pc as u32 },
            };
            assert(slot_agrees(slot, bodies@));
            let ghost t0 = table@;
            table.set(i, slot);
            assert forall|k: int| 0 <= k < table@.len() implies #[trigger] slot_agrees(table@[k], bodies@) by {
                if k != i {
                    assert(slot_agrees(t0[k], bodies@));
                }
            }
            return ;
        }
        i = (i + 1) % JUMP_SLOTS;
        n = n + 1;
    }
}

/// The cached `(end, else)` of the block of body `body_idx` starting at
/// `scan_start`: probes from its hash until an empty slot, at most once
/// round the table. `None` when it is not cached.
pub fn jump_lookup(table: &Vec<JumpSlot>, bodies: Ghost<Seq<Seq<u8>>>, body_idx: usize, scan_start: usize) -> (r:
    Option<(usize, usize)>)
    requires
        table_sound(table@, bodies@),
        body_idx < bodies@.len(),
    ensures
        r matches Some((e, el)) ==> scan_block(bodies@[body_idx as int], scan_start as int) == Some(
            (e as int, el as int),
        ),
        r == match probe_find(table@, body_idx as int, scan_start as int, hash_slot(body_idx, scan_start), JUMP_SLOTS as nat) {
            Some((e, el)) => Some((e as usize, el as usize)),
            None => None,
        },
{
    let mut i = jump_hash(body_idx, scan_start);
    let mut n: usize = 0;
    while n < JUMP_SLOTS
        invariant
            table_sound(table@, bodies@),
            i < JUMP_SLOTS,
            n <= JUMP_SLOTS,
            probe_find(table@, body_idx as int, scan_start as int, hash_slot(body_idx, scan_start), JUMP_SLOTS as nat)
                == probe_find(table@, body_idx as int, scan_start as int, i as int, (JUMP_SLOTS - n) as nat),
        decreases JUMP_SLOTS - n,
    {
        let s = table[i];
        if s.key_body == u16::MAX {
            return None;
        }
        if s.key_body as usize == body_idx && s.key_pc as usize == scan_start {
            assert(slot_agrees(table@[i as int], bodies@));
            let else_pc = if s.else_pc == u32::MAX { NO_ELSE } else { s.else_pc as usize };
            return Some((s.end_pc as usize, else_pc));
        }
        i = (i + 1) % JUMP_SLOTS;
        n = n + 1;
    }
    None
}

/// The table after recording a block as `jump_insert` does: in the first
/// empty slot probed from its hash, when it is recordable.
pub open spec fn record_block(
    t: Seq<JumpSlot>,
    body_idx: usize,
    scan_start: usize,
    end_pc: usize,
    else_pc: usize,
) -> Seq<JumpSlot> {
    if recordable(body_idx, scan_start, end_pc, else_pc) {
        match probe_empty(t, hash_slot(body_idx, scan_start), JUMP_SLOTS as nat) {
            Some(p) => t.update(p, block_slot(body_idx, scan_start, end_pc, else_pc)),
            None => t,
        }
    } else {
        t
    }
}

/// Where the pre-scan is after skipping `left` `br_table` labels from
/// `i`: each a number, or one byte when cut off; it stops at the end.
pub open spec fn br_skip(b: Seq<u8>, i: int, left: nat) -> int
    decreases left,
{
    if left == 0 || i >= b.len() {
        i
    } else {
        match leb_len(b, i) {
            Some(n) => br_skip(b, i + n, (left - 1) as nat),
            None => br_skip(b, i + 1, (left - 1) as nat),
        }
    }
}

/// Past one number at `i`, or at `i` when it is cut off.
pub open spec fn skip_one(b: Seq<u8>, i: int) -> int {
    match leb_len(b, i) {
        Some(n) => i + n,
        None => i,
    }
}

/// Where the pre-scan goes after the instruction at `i`; `None` when the
/// body ends inside it.
pub open spec fn walk_next(b: Seq<u8>, i: int) -> Option<int> {
    let op = b[i];
    let j = i + 1;
    if op == 0x02 || op == 0x03 || op == 0x04 {
        if j >= b.len() { None } else { Some(j + 1) }
    } else if op == 0x0C || op == 0x0D || op == 0x10 || (0x20 <= op <= 0x24) || op == 0x41 || op == 0x42 || op
        == 0xFC {
        Some(skip_one(b, j))
    } else if op == 0x11 || (0x28 <= op <= 0x3E) {
        Some(skip_one(b, skip_one(b, j)))
    } else if op == 0x0E {
        match uleb32_decode(b.skip(j)) {
            Some((count, n)) => Some(br_skip(b, j + n, (count + 1) as nat)),
            None => None,
        }
    } else if op == 0x3F || op == 0x40 {
        if j >= b.len() { None } else { Some(j + 1) }
    } else if op == 0x43 {
        if b.len() - j < 4 { None } else { Some(j + 4) }
    } else if op == 0x44 {
        if b.len() - j < 8 { None } else { Some(j + 8) }
    } else {
        Some(j)
    }
}

/// The table after the pre-scan of body `body_idx` (bytes `b`) from `i`:
/// each `block`, `loop` and `if` met whose end a scan finds is recorded
/// (see `record_block`), in the order met.
pub open spec fn prescan(t: Seq<JumpSlot>, b: Seq<u8>, body_idx: usize, i: int) -> Seq<JumpSlot>
    decreases b.len() - i,
{
    if i < 0 || i >= b.len() {
        t
    } else {
        match walk_next(b, i) {
            None => t,
            Some(j) => if j <= i || j > b.len() {
                t
            } else {
                let t2 = if b[i] == 0x02 || b[i] == 0x03 || b[i] == 0x04 {
                    match scan_block(b, i + 2) {
                        Some((e, el)) => record_block(t, body_idx, (i + 2) as usize, e as usize, el as usize),
                        None => t,
                    }
                } else {
                    t
                };
                prescan(t2, b, body_idx, j)
            },
        }
    }
}

/// Walk a function body and record in the table every `block`, `loop` and
/// `if` found in it, nested ones included, whose end a scan finds.
/// Immediates are skipped as the scan skips them; a cut-off number counts
/// as no bytes (one byte inside a `br_table`).
pub fn pre_scan_body_jumps(body: &[u8], body_idx: usize, table: &mut Vec<JumpSlot>, bodies: Ghost<Seq<Seq<u8>>>)
    requires
        table_sound(old(table)@, bodies@),
        body_idx < bodies@.len(),
        bodies@[body_idx as int] == body@,
    ensures
        table_sound(final(table)@, bodies@),
        final(table)@ == prescan(old(table)@, body@, body_idx, 0),
{
    let mut i: usize = 0;
    let ghost b = body@;
    while i < body.len()
        invariant
            b == body@,
            i <= body@.len(),
            table_sound(table@, bodies@),
            body_idx < bodies@.len(),
            bodies@[body_idx as int] == body@,
            prescan(old(table)@, b, body_idx, 0) == prescan(table@, b, body_idx, i as int),
        decreases body.len() - i,
    {
        let ghost i0 = i as int;
        let ghost t0 = table@;
        let op = body[i];
        i = i + 1;
        if op == 0x02 || op == 0x03 || op == 0x04 {
            if i >= body.len() {
                return ;
            }
            let scan_start = i + 1;
            i = i + 1;
            match scan_block_end(body, scan_start) {
                Some((end_pc, else_pc)) => {
                    jump_insert(table, bodies, body_idx, scan_start, end_pc, else_pc);
                },
                None => {},
            }
        } else if op == 0x0C || op == 0x0D || op == 0x10 || (0x20 <= op && op <= 0x24) || op == 0x41 || op == 0x42
            || op == 0xFC {
            match skip_leb128(body, i) {
                Some(n) => {
                    i = i + n;
                },
                None => {},
            }
        } else if op == 0x11 || (0x28 <= op && op <= 0x3E) {
            match skip_leb128(body, i) {
                Some(n) => {
                    i = i + n;
                },
                None => {},
            }
            match skip_leb128(body, i) {
                Some(n) => {
                    i = i + n;
                },
                None => {},
            }
        } else if op == 0x0E {
            let rest = vstd::slice::slice_subrange(body, i, body.len());
            assert(rest@ =~= b.skip(i as int));
            match read_u32_leb128(rest) {
                Some((count, n)) => {
                    i = i + n;
                    let ghost after = i as int;
                    let mut k: u64 = 0;
                    while k <= count as u64 && i < body.len()
                        invariant
                            b == body@,
                            i <= body@.len(),
                            i0 < i,
                            k <= count as u64 + 1,
                            br_skip(b, after, (count + 1) as nat) == br_skip(b, i as int, (count + 1 - k) as nat),
                        decreases count as u64 + 1 - k,
                    {
                        match skip_leb128(body, i) {
                            Some(m) => {
                                i = i + m;
                            },
                            None => {
                                i = i + 1;
                            },
                        }
                        k = k + 1;
                    }
                    assert(br_skip(b, i as int, (count + 1 - k) as nat) == i);
                },
                None => {
                    return ;
                },
            }
        } else if op == 0x3F || op == 0x40 {
            if i >= body.len() {
                return ;
            }
            i = i + 1;
        } else if op == 0x43 {
            if body.len() - i < 4 {
                return ;
            }
            i = i + 4;
        } else if op == 0x44 {
            if body.len() - i < 8 {
                return ;
            }
            i = i + 8;
        }
        assert(walk_next(b, i0) == Some(i as int));
        assert(prescan(t0, b, body_idx, i0) == prescan(table@, b, body_idx, i as int));
    }
}

} // verus!
