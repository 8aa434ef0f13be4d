//! The shell's line handling: the argument tokenizer, number parsing, the
//! history ring buffer, the interactive line editor and the simple line
//! readers. Executing commands, and all reading and printing, is left to
//! the caller.
use vstd::prelude::*;
use crate::keyboard::Key;

verus! {

pub const MAX_ARGS: usize = 8;
pub const HISTORY_LEN: usize = 16;
pub const MAX_LINE: usize = 128;

/// Errors of the command-line tokenizer.
#[derive(Debug, PartialEq, Eq, Structural)]
pub enum ShellError {
    TooManyArgs,
}

/// A space or a tab.
pub open spec fn is_blank(b: u8) -> bool {
    b == 0x20 || b == 0x09
}

/// The argument spans of `s` from offset `i`: runs of non-blank bytes, or
/// the bytes between a `"` and the next `"` (or the end); blanks separate.
pub open spec fn spans_from(s: Seq<u8>, i: int) -> Seq<(int, int)>
    decreases s.len() - i, 0int,
{
    if i < 0 || i >= s.len() {
        Seq::empty()
    } else if is_blank(s[i]) {
        spans_from(s, i + 1)
    } else if s[i] == 0x22 {
        quoted_from(s, i + 1, i + 1)
    } else {
        word_from(s, i, i + 1)
    }
}

/// Inside a quoted argument that started at `start`.
pub open spec fn quoted_from(s: Seq<u8>, start: int, i: int) -> Seq<(int, int)>
    decreases s.len() - i, 1int,
{
    if i < 0 || i >= s.len() {
        seq![(start, i)]
    } else if s[i] == 0x22 {
        seq![(start, i)] + spans_from(s, i + 1)
    } else {
        quoted_from(s, start, i + 1)
    }
}

/// Inside a plain argument that started at `start`.
pub open spec fn word_from(s: Seq<u8>, start: int, i: int) -> Seq<(int, int)>
    decreases s.len() - i, 1int,
{
    if i < 0 || i >= s.len() || is_blank(s[i]) {
        seq![(start, i)] + spans_from(s, i)
    } else {
        word_from(s, start, i + 1)
    }
}

/// The bytes of a span.
pub open spec fn span_bytes(s: Seq<u8>, sp: (int, int)) -> Seq<u8> {
    s.subrange(sp.0, sp.1)
}

/// Split a command line into arguments (see `spans_from`), at most
/// `MAX_ARGS` of them: `Ok(n)` with the arguments in `out[..n]`, or
/// `TooManyArgs` when a ninth is found (the first eight are in `out`).
/// Slots past the arguments keep what they held.
pub fn tokenize<'a>(line: &'a [u8], out: &mut [&'a [u8]; 8]) -> (r: Result<usize, ShellError>)
    ensures
        ({
            let sp = spans_from(line@, 0);
            &&& (r is Ok <==> sp.len() <= 8)
            &&& r matches Ok(n) ==> n == sp.len()
            &&& forall|k: int| 0 <= k < 8 ==> (#[trigger] final(out)@[k])@ == if k < sp.len() {
                span_bytes(line@, sp[k])
            } else {
                old(out)@[k]@
            }
        }),
{
    let ghost all = spans_from(line@, 0);
    let mut count: usize = 0;
    let mut i: usize = 0;
    while i < line.len()
        invariant
            all == spans_from(line@, 0),
            i <= line@.len(),
            count <= 8,
            count <= all.len(),
            all == all.take(count as int) + spans_from(line@, i as int),
            forall|k: int| 0 <= k < 8 ==> (#[trigger] out@[k])@ == if k < count {
                span_bytes(line@, all[k])
            } else {
                old(out)@[k]@
            },
        decreases line@.len() - i,
    {
        if line[i] == 0x20 || line[i] == 0x09 {
            i = i + 1;
            continue;
        }
        let start: usize;
        let end: usize;
        if line[i] == 0x22 {
            i = i + 1;
            start = i;
            while i < line.len() && line[i] != 0x22
                invariant
                    start <= i <= line@.len(),
                    quoted_from(line@, start as int, i as int) == quoted_from(line@, start as int,
                        start as int),
                decreases line@.len() - i,
            {
                i = i + 1;
            }
            end = i;
            if i < line.len() {
                i = i + 1;
            }
            assert(spans_from(line@, start - 1) == seq![(start as int, end as int)] + spans_from(
                line@, i as int));
        } else {
            start = i;
            i = i + 1;
            while i < line.len() && line[i] != 0x20 && line[i] != 0x09
                invariant
                    start < i <= line@.len(),
                    word_from(line@, start as int, i as int) == word_from(line@, start as int, start + 1),
                decreases line@.len() - i,
            {
                i = i + 1;
            }
            end = i;
            assert(spans_from(line@, start as int) == seq![(start as int, end as int)] + spans_from(
                line@, i as int));
        }
        proof {
            assert(all.take(count as int) + (seq![(start as int, end as int)] + spans_from(line@,
                i as int)) =~= all.take(count + 1) + spans_from(line@, i as int));
        }
        if count >= MAX_ARGS {
            assert(all.len() >= count + 1);
            assert(spans_from(line@, 0).len() > 8);
            return Err(ShellError::TooManyArgs);
        }
        out[count] = vstd::slice::slice_subrange(line, start, end);
        count = count + 1;
    }
    assert(spans_from(line@, i as int) =~= Seq::<(int, int)>::empty());
    assert(all =~= all.take(count as int));
    Ok(count)
}

/// Whether every byte of `s` is a decimal digit.
pub open spec fn all_digits(s: Seq<u8>) -> bool {
    forall|i: int| 0 <= i < s.len() ==> 48 <= #[trigger] s[i] <= 57
}

/// The decimal value of the digits `s`.
pub open spec fn dec_value(s: Seq<u8>) -> nat
    decreases s.len(),
{
    if s.len() == 0 { 0 } else { dec_value(s.drop_last()) * 10 + (s.last() - 48) as nat }
}

/// A longer run of digits is worth at least as much as its prefix.
pub proof fn lemma_dec_value_prefix(s: Seq<u8>, k: int)
    requires
        all_digits(s),
        0 <= k <= s.len(),
    ensures
        dec_value(s.take(k)) <= dec_value(s),
    decreases s.len(),
{
    if k < s.len() {
        assert(s.drop_last().take(k) =~= s.take(k));
        lemma_dec_value_prefix(s.drop_last(), k);
    } else {
        assert(s.take(k) =~= s);
    }
}

/// What `parse_i32` returns: `None` for an empty string, a lone `-`, any
/// non-digit or a value outside `i32` (so `-2147483648` is `i32::MIN`).
pub open spec fn checked_i32(s: Seq<u8>) -> Option<i32> {
    let neg = s.len() > 0 && s[0] == 0x2D;
    let body = if neg { s.skip(1) } else { s };
    let limit: int = if neg { i32::MAX + 1 } else { i32::MAX as int };
    if s.len() == 0 || body.len() == 0 || !all_digits(body) || dec_value(body) > limit {
        None
    } else {
        Some(if neg { -(dec_value(body) as int) } else { dec_value(body) as int } as i32)
    }
}

/// Parse a decimal integer with an optional leading `-` (see
/// `checked_i32`).
pub fn parse_i32(s: &[u8]) -> (r: Option<i32>)
    ensures
        r == checked_i32(s@),
{
    if s.len() == 0 {
        return None;
    }
    let neg = s[0] == 0x2D;
    let start: usize = if neg { 1 } else { 0 };
    if start >= s.len() {
        return None;
    }
    let limit: u64 = if neg { 2147483648 } else { 2147483647 };
    let ghost body = s@.skip(start as int);
    assert(!neg ==> body =~= s@);
    assert(body.take(0) =~= Seq::<u8>::empty());
    let mut val: u64 = 0;
    let mut i: usize = start;
    while i < s.len()
        invariant
            start <= i <= s@.len(),
            body == s@.skip(start as int),
            s@.len() > 0,
            neg == (s@[0] == 0x2D),
            start == if neg { 1usize } else { 0usize },
            limit == if neg { 2147483648u64 } else { 2147483647u64 },
            !neg ==> body == s@,
            all_digits(body.take(i - start)),
            val == dec_value(body.take(i - start)),
            val <= limit,
        decreases s@.len() - i,
    {
        let b = s[i];
        assert(body.take(i + 1 - start).drop_last() =~= body.take(i - start));
        if b < 48 || b > 57 {
            assert(body[i - start] == b);
            assert(!all_digits(body));
            assert(neg ==> body == s@.skip(1));
            return None;
        }
        assert(body.take(i + 1 - start) =~= body.take(i - start).push(b));
        assert(all_digits(body.take(i + 1 - start)));
        assert(dec_value(body.take(i + 1 - start)) == val * 10 + (b - 48));
        let nv: u64 = val * 10 + (b - 48) as u64;
        if nv > limit {
            proof {
                if all_digits(body) {
                    lemma_dec_value_prefix(body, i + 1 - start);
                }
                assert(neg ==> body == s@.skip(1));
            }
            return None;
        }
        val = nv;
        i = i + 1;
    }
    assert(body.take(i - start) =~= body);
    assert(neg ==> body == s@.skip(1));
    if neg {
        let v: i64 = 0 - (val as i64);
        Some(v as i32)
    } else {
        Some(val as i32)
    }
}

/// What `parse_usize` returns: `None` for an empty string, any non-digit or
/// a value beyond `usize::MAX`.
pub open spec fn checked_usize(s: Seq<u8>) -> Option<usize> {
    if s.len() == 0 || !all_digits(s) || dec_value(s) > usize::MAX {
        None
    } else {
        Some(dec_value(s) as usize)
    }
}

/// Parse a non-negative decimal integer (see `checked_usize`).
pub fn parse_usize(s: &[u8]) -> (r: Option<usize>)
    ensures
        r == checked_usize(s@),
{
    if s.len() == 0 {
        return None;
    }
    let mut val: usize = 0;
    let mut i: usize = 0;
    while i < s.len()
        invariant
            i <= s@.len(),
            all_digits(s@.take(i as int)),
            val == dec_value(s@.take(i as int)),
        decreases s@.len() - i,
    {
        let b = s[i];
        assert(s@.take(i + 1).drop_last() =~= s@.take(i as int));
        if b < 48 || b > 57 {
            assert(s@[i as int] == b);
            return None;
        }
        let d = (b - 48) as usize;
        match val.checked_mul(10) {
            Some(m) => match m.checked_add(d) {
                Some(v) => {
                    val = v;
                },
                None => {
                    proof {
                        if all_digits(s@) {
                            lemma_dec_value_prefix(s@, i + 1);
                        }
                    }
                    return None;
                },
            },
            None => {
                proof {
                    if all_digits(s@) {
                        lemma_dec_value_prefix(s@, i + 1);
                    }
                }
                return None;
            },
        }
        i = i + 1;
    }
    assert(s@.take(i as int) =~= s@);
    Some(val)
}


/// The first `MAX_LINE` bytes of a line, as the history keeps it.
pub open spec fn hist_entry(s: Seq<u8>) -> Seq<u8> {
    if s.len() <= 128 { s } else { s.take(128) }
}

/// The last `HISTORY_LEN` command lines, each cut to `MAX_LINE` bytes.
pub struct HistoryBuf {
    lines: Vec<Vec<u8>>,
    head: usize,
    len: usize,
}

impl HistoryBuf {
    /// Slots are in range and, until the ring is full, filled from 0.
    pub closed spec fn wf(&self) -> bool {
        &&& self.lines@.len() == 16
        &&& self.head < 16
        &&& self.len <= 16
        &&& self.len < 16 ==> self.head == self.len
    }

    /// The slot of the oldest entry.
    closed spec fn start(&self) -> int {
        if self.len < 16 { 0 } else { self.head as int }
    }

    /// The entries, oldest first.
    pub closed spec fn entries(&self) -> Seq<Seq<u8>> {
        Seq::new(self.len as nat, |i: int| self.lines@[(self.start() + i) % 16]@)
    }

    /// An empty history.
    pub fn new() -> (h: Self)
        ensures
            h.wf(),
            h.entries() == Seq::<Seq<u8>>::empty(),
    {
        let mut lines: Vec<Vec<u8>> = Vec::new();
        let mut k: usize = 0;
        while k < HISTORY_LEN
            invariant
                k <= 16,
                lines@.len() == k,
            decreases 16 - k,
        {
            lines.push(Vec::new());
            k = k + 1;
        }
        let h = HistoryBuf { lines, head: 0, len: 0 };
        assert(h.entries() =~= Seq::<Seq<u8>>::empty());
        h
    }

    /// Number of entries (0–16).
    pub fn len(&self) -> (n: usize)
        requires
            self.wf(),
        ensures
            n == self.entries().len(),
    {
        self.len
    }

    /// Record a line: the oldest entry gives way once 16 are kept.
    pub fn push(&mut self, s: &[u8])
        requires
            old(self).wf(),
        ensures
            final(self).wf(),
            final(self).entries() == if old(self).entries().len() < 16 {
                old(self).entries().push(hist_entry(s@))
            } else {
                old(self).entries().drop_first().push(hist_entry(s@))
            },
    {
        let copy_len = if s.len() < MAX_LINE { s.len() } else { MAX_LINE };
        let mut line: Vec<u8> = Vec::new();
        let mut k: usize = 0;
        while k < copy_len
            invariant
                k <= copy_len,
                copy_len <= s@.len(),
                line@ == s@.take(k as int),
            decreases copy_len - k,
        {
            line.push(s[k]);
            k = k + 1;
            assert(line@ =~= s@.take(k as int));
        }
        assert(line@ =~= hist_entry(s@));
        let ghost before = self.entries();
        let ghost old_lines = self.lines@;
        let ghost old_start = self.start();
        self.lines.set(self.head, line);
        self.head = (self.head + 1) % HISTORY_LEN;
        if self.len < HISTORY_LEN {
            self.len = self.len + 1;
            assert(self.entries() =~= before.push(hist_entry(s@)));
        } else {
            assert forall|i: int| 0 <= i < 16 implies #[trigger] self.entries()[i]
                == before.drop_first().push(hist_entry(s@))[i] by {
                if i < 15 {
                    assert((self.head + i) % 16 == (old_start + i + 1) % 16);
                }
            }
            assert(self.entries() =~= before.drop_first().push(hist_entry(s@)));
        }
    }

    /// The `i`-th entry, oldest first.
    pub fn get(&self, i: usize) -> (r: &[u8])
        requires
            self.wf(),
        ensures
            r@ == if i < self.entries().len() { self.entries()[i as int] } else { Seq::empty() },
    {
        if i >= self.len {
            return &[];
        }
        let start = if self.len < HISTORY_LEN { 0 } else { self.head };
        let idx = (start + i) % HISTORY_LEN;
        self.lines[idx].as_slice()
    }
}

/// What a command line comes to before it is dispatched.
pub enum CommandLine {
    /// Empty, or a comment (starting with `#`): nothing happens.
    Ignored,
    /// More than `MAX_ARGS` arguments.
    TooManyArgs,
    /// Recorded in the history but holding only blanks.
    Blank,
    /// Recorded; `n` arguments are in `out[..n]`, the command name first.
    Args(usize),
}

/// Take in a command line: comments and empty lines are ignored; any other
/// line is recorded in the history and split into arguments (see
/// `tokenize`).
pub fn prepare_command<'a>(line: &'a [u8], history: &mut HistoryBuf, out: &mut [&'a [u8]; 8]) -> (r: CommandLine)
    requires
        old(history).wf(),
    ensures
        final(history).wf(),
        line@.len() == 0 || line@[0] == 0x23 ==> r is Ignored && final(history).entries()
            == old(history).entries(),
        !(line@.len() == 0 || line@[0] == 0x23) ==> {
            let sp = spans_from(line@, 0);
            &&& final(history).entries() == if old(history).entries().len() < 16 {
                old(history).entries().push(hist_entry(line@))
            } else {
                old(history).entries().drop_first().push(hist_entry(line@))
            }
            &&& sp.len() > 8 ==> r is TooManyArgs
            &&& sp.len() == 0 ==> r is Blank
            &&& 0 < sp.len() <= 8 ==> r == CommandLine::Args(sp.len() as usize) && forall|k: int|
                0 <= k < sp.len() ==> (#[trigger] final(out)@[k])@ == span_bytes(line@, sp[k])
        },
{
    if line.len() == 0 || line[0] == 0x23 {
        return CommandLine::Ignored;
    }
    history.push(line);
    match tokenize(line, out) {
        Ok(0) => CommandLine::Blank,
        Ok(n) => CommandLine::Args(n),
        Err(_) => CommandLine::TooManyArgs,
    }
}


/// The names among `names` that start with `p`, in order.
pub open spec fn matching(names: Seq<Seq<char>>, p: Seq<char>) -> Seq<Seq<char>>
    decreases names.len(),
{
    if names.len() == 0 {
        Seq::empty()
    } else {
        let prev = matching(names.drop_last(), p);
        if p.is_prefix_of(names.last()) { prev.push(names.last()) } else { prev }
    }
}

/// The decimal digits of `n`.
pub open spec fn dec_chars(n: nat) -> Seq<char>
    decreases n,
{
    if n < 10 {
        seq![((48 + n) as u8) as char]
    } else {
        dec_chars(n / 10).push(((48 + n % 10) as u8) as char)
    }
}

/// The characters that redraw the prompt line: carriage return, erase to
/// the end of the line, the prompt `"> "`, the buffer, and the escape that
/// puts the cursor on its (1-based) column.
pub open spec fn prompt_line(buf: Seq<char>, cursor: nat) -> Seq<char> {
    seq!['\r', '\x1B', '[', '0', 'K', '>', ' '] + buf + seq!['\x1B', '['] + dec_chars(cursor + 3)
        + seq!['G']
}

/// The abstract state of the line editor.
pub struct EditorView {
    pub buffer: Seq<char>,
    pub cursor: nat,
    pub history: Seq<Seq<char>>,
    pub index: nat,
    pub dirty: bool,
    pub completions: Seq<Seq<char>>,
}

/// How the editor state changes on a key other than Enter, with `names`
/// the command names that Tab completes against: characters are inserted
/// at the cursor, the arrows, Home and End move the cursor or walk the
/// history, Backspace and Delete remove the character before or under the
/// cursor, Tab completes a unique match or lists several; every change
/// that shows marks the line for redrawing.
pub open spec fn edit_step(e: EditorView, key: Key, names: Seq<Seq<char>>) -> EditorView {
    match key {
        Key::Char(c) => if e.buffer.len() < usize::MAX {
            EditorView { buffer: e.buffer.insert(e.cursor as int, c), cursor: e.cursor + 1, dirty: true, ..e }
        } else {
            e
        },
        Key::ArrowLeft => if e.cursor > 0 {
            EditorView { cursor: (e.cursor - 1) as nat, dirty: true, ..e }
        } else {
            e
        },
        Key::ArrowRight => if e.cursor < e.buffer.len() {
            EditorView { cursor: e.cursor + 1, dirty: true, ..e }
        } else {
            e
        },
        Key::Backspace => if e.cursor > 0 {
            EditorView { buffer: e.buffer.remove(e.cursor - 1), cursor: (e.cursor - 1) as nat, dirty: true, ..e }
        } else {
            e
        },
        Key::Delete => if e.cursor < e.buffer.len() {
            EditorView { buffer: e.buffer.remove(e.cursor as int), dirty: true, ..e }
        } else {
            e
        },
        Key::Home => if e.cursor != 0 {
            EditorView { cursor: 0, dirty: true, ..e }
        } else {
            e
        },
        Key::End => if e.cursor != e.buffer.len() {
            EditorView { cursor: e.buffer.len(), dirty: true, ..e }
        } else {
            e
        },
        Key::ArrowUp => if e.history.len() > 0 && e.index > 0 {
            let b = e.history[e.index - 1];
            EditorView { index: (e.index - 1) as nat, buffer: b, cursor: b.len(), dirty: true, ..e }
        } else {
            e
        },
        Key::ArrowDown => if e.index < e.history.len() {
            let b = if e.index + 1 < e.history.len() { e.history[(e.index + 1) as int] } else { Seq::empty() };
            EditorView { index: e.index + 1, buffer: b, cursor: b.len(), dirty: true, ..e }
        } else {
            e
        },
        Key::Tab => {
            let m = matching(names, e.buffer);
            if m.len() == 0 {
                e
            } else if m.len() == 1 {
                EditorView { buffer: m[0], cursor: m[0].len(), dirty: true, ..e }
            } else {
                EditorView { completions: m, dirty: true, ..e }
            }
        },
        _ => e,
    }
}

/// Copy a line of characters.
fn copy_chars(v: &Vec<char>) -> (r: Vec<char>)
    ensures
        r@ == v@,
{
    let mut r: Vec<char> = Vec::new();
    let mut i: usize = 0;
    while i < v.len()
        invariant
            i <= v@.len(),
            r@ == v@.take(i as int),
        decreases v@.len() - i,
    {
        r.push(v[i]);
        i = i + 1;
        assert(r@ =~= v@.take(i as int));
    }
    assert(v@.take(i as int) =~= v@);
    r
}

/// Append the decimal digits of `n`.
fn push_dec(out: &mut Vec<char>, n: u128)
    ensures
        final(out)@ == old(out)@ + dec_chars(n as nat),
    decreases n,
{
    if n >= 10 {
        push_dec(out, n / 10);
    }
    let d = (48 + (n % 10) as u8) as char;
    out.push(d);
    assert(final(out)@ =~= old(out)@ + dec_chars(n as nat));
}

/// The interactive line editor: a buffer with a cursor, command history
/// and Tab completion.
pub struct CommandLineEditor {
    pub buffer: Vec<char>,
    pub cursor_pos: usize,
    pub history: Vec<Vec<char>>,
    pub history_index: usize,
    needs_render: bool,
    /// Matches of the last ambiguous Tab, for the caller to list.
    pub completions: Vec<Vec<char>>,
}

/// The lines of a list of character vectors.
pub open spec fn lines_view(v: Seq<Vec<char>>) -> Seq<Seq<char>> {
    v.map_values(|l: Vec<char>| l@)
}

impl View for CommandLineEditor {
    type V = EditorView;

    closed spec fn view(&self) -> EditorView {
        EditorView {
            buffer: self.buffer@,
            cursor: self.cursor_pos as nat,
            history: lines_view(self.history@),
            index: self.history_index as nat,
            dirty: self.needs_render,
            completions: lines_view(self.completions@),
        }
    }
}

impl CommandLineEditor {
    /// The cursor is within the buffer and the history position within the
    /// history.
    pub open spec fn wf(&self) -> bool {
        &&& self@.cursor <= self@.buffer.len()
        &&& self@.index <= self@.history.len()
    }

    /// An empty editor whose prompt is still to be drawn.
    pub fn new() -> (e: Self)
        ensures
            e.wf(),
            e@ == (EditorView { buffer: Seq::empty(), cursor: 0, history: Seq::empty(), index: 0,
                dirty: true, completions: Seq::empty() }),
    {
        let e = CommandLineEditor {
            buffer: Vec::new(),
            cursor_pos: 0,
            history: Vec::new(),
            history_index: 0,
            needs_render: true,
            completions: Vec::new(),
        };
        assert(e@.history =~= Seq::<Seq<char>>::empty());
        assert(e@.completions =~= Seq::<Seq<char>>::empty());
        e
    }
}


/// Whether `p` is a prefix of `name`.
fn starts_with(name: &Vec<char>, p: &Vec<char>) -> (r: bool)
    ensures
        r == p@.is_prefix_of(name@),
{
    if p.len() > name.len() {
        return false;
    }
    let mut i: usize = 0;
    while i < p.len()
        invariant
            i <= p@.len(),
            p@.len() <= name@.len(),
            forall|k: int| 0 <= k < i ==> p@[k] == name@[k],
        decreases p@.len() - i,
    {
        if p[i] != name[i] {
            return false;
        }
        i = i + 1;
    }
    true
}

/// Backspace undoes a typed character: `insert_char` then `delete_left`
/// (whose contracts are `edit_step` with `Key::Char` and `Key::Backspace`)
/// bring the buffer, cursor, history and completions back to what they were;
/// the line is only marked for redrawing.
pub proof fn lemma_backspace_undoes_char(e: EditorView, c: char, names: Seq<Seq<char>>)
    requires
        e.cursor <= e.buffer.len(),
        e.buffer.len() < usize::MAX,
    ensures
        edit_step(edit_step(e, Key::Char(c), names), Key::Backspace, names) == (EditorView { dirty: true, ..e }),
{
    let e1 = edit_step(e, Key::Char(c), names);
    assert(e1.buffer.remove(e.cursor as int) =~= e.buffer);
}

/// Delete removes the character under the cursor and leaves the cursor
/// where it is: the characters before the cursor stay, those after it move
/// one place left, and it is the same as moving right and then erasing
/// backward; at the end of the line it changes nothing.
pub proof fn lemma_delete_removes_at_cursor(e: EditorView, names: Seq<Seq<char>>)
    requires
        e.cursor <= e.buffer.len(),
    ensures
        ({
            let d = edit_step(e, Key::Delete, names);
            &&& e.cursor < e.buffer.len() ==> {
                &&& d.cursor == e.cursor
                &&& d.buffer.len() + 1 == e.buffer.len()
                &&& forall|i: int| 0 <= i < e.cursor ==> #[trigger] d.buffer[i] == e.buffer[i]
                &&& forall|i: int| e.cursor <= i < d.buffer.len() ==> #[trigger] d.buffer[i] == e.buffer[i + 1]
                &&& d.history == e.history
                &&& d.index == e.index
                &&& d == edit_step(edit_step(e, Key::ArrowRight, names), Key::Backspace, names)
            }
            &&& e.cursor == e.buffer.len() ==> d == e
        }),
{
}

/// The cursor keys move the cursor only, never the line or the history:
/// Left then Right (and Right then Left) come back to the same place when
/// there is room to move; Left at the start and Right at the end do
/// nothing; Home goes to the start and End past the last character.
pub proof fn lemma_cursor_keys(e: EditorView, names: Seq<Seq<char>>)
    requires
        e.cursor <= e.buffer.len(),
    ensures
        ({
            let l = edit_step(e, Key::ArrowLeft, names);
            let r = edit_step(e, Key::ArrowRight, names);
            let h = edit_step(e, Key::Home, names);
            let n = edit_step(e, Key::End, names);
            &&& l.buffer == e.buffer && r.buffer == e.buffer && h.buffer == e.buffer && n.buffer == e.buffer
            &&& l.history == e.history && r.history == e.history && h.history == e.history && n.history == e.history
            &&& e.cursor > 0 ==> l.cursor + 1 == e.cursor && edit_step(l, Key::ArrowRight, names) == (EditorView {
                dirty: true,
                ..e
            })
            &&& e.cursor < e.buffer.len() ==> r.cursor == e.cursor + 1 && edit_step(r, Key::ArrowLeft, names) == (
            EditorView { dirty: true, ..e })
            &&& e.cursor == 0 ==> l == e
            &&& e.cursor == e.buffer.len() ==> r == e
            &&& h.cursor == 0
            &&& n.cursor == e.buffer.len()
        }),
{
}

/// History browsing: Up shows the entry before the one shown (the most
/// recent one first, from a new line), with the cursor at its end; Down
/// shows the next one, and from the most recent one an empty line; so Up
/// then Down from the most recent entry leaves an empty line, and Down then
/// Up comes back to the entry shown. At the oldest entry Up, and on a new
/// line Down, do nothing.
pub proof fn lemma_history_keys(e: EditorView, names: Seq<Seq<char>>)
    requires
        e.index <= e.history.len(),
    ensures
        ({
            let u = edit_step(e, Key::ArrowUp, names);
            let d = edit_step(e, Key::ArrowDown, names);
            &&& e.index > 0 ==> u.index + 1 == e.index && u.buffer == e.history[e.index - 1] && u.cursor
                == u.buffer.len() && u.history == e.history
            &&& e.index == 0 ==> u == e
            &&& e.index < e.history.len() ==> d.index == e.index + 1 && d.cursor == d.buffer.len() && d.history
                == e.history && (if e.index + 1 < e.history.len() {
                d.buffer == e.history[(e.index + 1) as int]
            } else {
                d.buffer.len() == 0
            })
            &&& e.index == e.history.len() ==> d == e
            &&& e.index == e.history.len() && e.history.len() > 0 ==> edit_step(u, Key::ArrowDown, names).buffer.len()
                == 0
            &&& e.index + 1 < e.history.len() ==> edit_step(d, Key::ArrowUp, names).buffer == e.history[e.index as int]
        }),
{
}

/// A typed character goes in at the cursor, which moves past it: the
/// characters before the cursor stay and those after it move one place
/// right.
pub proof fn lemma_char_inserts_at_cursor(e: EditorView, c: char, names: Seq<Seq<char>>)
    requires
        e.cursor <= e.buffer.len(),
        e.buffer.len() < usize::MAX,
    ensures
        ({
            let d = edit_step(e, Key::Char(c), names);
            &&& d.cursor == e.cursor + 1
            &&& d.buffer.len() == e.buffer.len() + 1
            &&& d.buffer[e.cursor as int] == c
            &&& forall|i: int| 0 <= i < e.cursor ==> #[trigger] d.buffer[i] == e.buffer[i]
            &&& forall|i: int| e.cursor < i < d.buffer.len() ==> #[trigger] d.buffer[i] == e.buffer[i - 1]
        }),
{
}

/// Backspace removes the character before the cursor and moves the cursor
/// back over it; at the start of the line it changes nothing.
pub proof fn lemma_backspace_removes_before_cursor(e: EditorView, names: Seq<Seq<char>>)
    requires
        e.cursor <= e.buffer.len(),
    ensures
        ({
            let d = edit_step(e, Key::Backspace, names);
            &&& e.cursor > 0 ==> {
                &&& d.cursor + 1 == e.cursor
                &&& d.buffer.len() + 1 == e.buffer.len()
                &&& forall|i: int| 0 <= i < d.cursor ==> #[trigger] d.buffer[i] == e.buffer[i]
                &&& forall|i: int| d.cursor <= i < d.buffer.len() ==> #[trigger] d.buffer[i] == e.buffer[i + 1]
            }
            &&& e.cursor == 0 ==> d == e
        }),
{
}

/// The outcome of a key for the editor: the new state, and the finished
/// command line when Enter ends a non-empty line (which also goes into the
/// history, moves the history position past it and clears the buffer).
pub open spec fn input_step(e: EditorView, key: Key, names: Seq<Seq<char>>) -> (EditorView, Option<Seq<char>>) {
    if key == Key::Enter {
        if e.buffer.len() > 0 {
            (EditorView { history: e.history.push(e.buffer), index: e.history.len() + 1, buffer: Seq::empty(),
                cursor: 0, dirty: true, ..e }, Some(e.buffer))
        } else {
            (e, None)
        }
    } else {
        (edit_step(e, key, names), None)
    }
}

impl CommandLineEditor {

    fn insert_char(&mut self, c: char)
        requires
            old(self).wf(),
        ensures
            final(self).wf(),
            final(self)@ == edit_step(old(self)@, Key::Char(c), Seq::empty()),
    {
        if self.buffer.len() < usize::MAX {
            if self.cursor_pos < self.buffer.len() {
                self.buffer.insert(self.cursor_pos, c);
            } else {
                let ghost b0 = self.buffer@;
                self.buffer.push(c);
                assert(self.buffer@ =~= b0.insert(b0.len() as int, c));
            }
            self.cursor_pos = self.cursor_pos + 1;
            self.needs_render = true;
        }
    }

    fn move_left(&mut self)
        requires
            old(self).wf(),
        ensures
            final(self).wf(),
            final(self)@ == edit_step(old(self)@, Key::ArrowLeft, Seq::empty()),
    {
        if self.cursor_pos > 0 {
            self.cursor_pos = self.cursor_pos - 1;
            self.needs_render = true;
        }
    }

    fn move_right(&mut self)
        requires
            old(self).wf(),
        ensures
            final(self).wf(),
            final(self)@ == edit_step(old(self)@, Key::ArrowRight, Seq::empty()),
    {
        if self.cursor_pos < self.buffer.len() {
            self.cursor_pos = self.cursor_pos + 1;
            self.needs_render = true;
        }
    }

    fn delete_left(&mut self)
        requires
            old(self).wf(),
        ensures
            final(self).wf(),
            final(self)@ == edit_step(old(self)@, Key::Backspace, Seq::empty()),
    {
        if self.cursor_pos > 0 {
            self.buffer.remove(self.cursor_pos - 1);
            self.cursor_pos = self.cursor_pos - 1;
            self.needs_render = true;
        }
    }

    fn delete_right(&mut self)
        requires
            old(self).wf(),
        ensures
            final(self).wf(),
            final(self)@ == edit_step(old(self)@, Key::Delete, Seq::empty()),
    {
        if self.cursor_pos < self.buffer.len() {
            self.buffer.remove(self.cursor_pos);
            self.needs_render = true;
        }
    }

    fn move_home(&mut self)
        requires
            old(self).wf(),
        ensures
            final(self).wf(),
            final(self)@ == edit_step(old(self)@, Key::Home, Seq::empty()),
    {
        if self.cursor_pos != 0 {
            self.cursor_pos = 0;
            self.needs_render = true;
        }
    }

    fn move_end(&mut self)
        requires
            old(self).wf(),
        ensures
            final(self).wf(),
            final(self)@ == edit_step(old(self)@, Key::End, Seq::empty()),
    {
        if self.cursor_pos != self.buffer.len() {
            self.cursor_pos = self.buffer.len();
            self.needs_render = true;
        }
    }

    fn navigate_history_up(&mut self)
        requires
            old(self).wf(),
        ensures
            final(self).wf(),
            final(self)@ == edit_step(old(self)@, Key::ArrowUp, Seq::empty()),
    {
        if self.history.len() > 0 && self.history_index > 0 {
            self.history_index = self.history_index - 1;
            self.buffer = copy_chars(&self.history[self.history_index]);
            self.cursor_pos = self.buffer.len();
            self.needs_render = true;
        }
    }

    fn navigate_history_down(&mut self)
        requires
            old(self).wf(),
        ensures
            final(self).wf(),
            final(self)@ == edit_step(old(self)@, Key::ArrowDown, Seq::empty()),
    {
        if self.history_index < self.history.len() {
            self.history_index = self.history_index + 1;
            if self.history_index < self.history.len() {
                self.buffer = copy_chars(&self.history[self.history_index]);
            } else {
                self.buffer.clear();
            }
            self.cursor_pos = self.buffer.len();
            self.needs_render = true;
        }
    }

    /// Complete the buffer against `names` (see `edit_step` for Tab).
    fn auto_complete(&mut self, names: &[Vec<char>])
        requires
            old(self).wf(),
        ensures
            final(self).wf(),
            final(self)@ == edit_step(old(self)@, Key::Tab, lines_view(names@)),
    {
        let mut found: Vec<Vec<char>> = Vec::new();
        let mut i: usize = 0;
        while i < names.len()
            invariant
                i <= names@.len(),
                *self == *old(self),
                lines_view(found@) == matching(lines_view(names@).take(i as int), self@.buffer),
            decreases names@.len() - i,
        {
            assert(lines_view(names@).take(i + 1).drop_last() =~= lines_view(names@).take(i as int));
            if starts_with(&names[i], &self.buffer) {
                let ghost f0 = found@;
                found.push(copy_chars(&names[i]));
                assert(lines_view(found@) =~= lines_view(f0).push(names@[i as int]@));
            }
            i = i + 1;
        }
        assert(lines_view(names@).take(i as int) =~= lines_view(names@));
        if found.len() == 0 {
            return;
        } else if found.len() == 1 {
            self.buffer = copy_chars(&found[0]);
            self.cursor_pos = self.buffer.len();
            self.needs_render = true;
        } else {
            self.completions = found;
            self.needs_render = true;
        }
    }

    fn handle_key(&mut self, key: Key, names: &[Vec<char>])
        requires
            old(self).wf(),
        ensures
            final(self).wf(),
            final(self)@ == edit_step(old(self)@, key, lines_view(names@)),
    {
        match key {
            Key::Char(c) => self.insert_char(c),
            Key::ArrowLeft => self.move_left(),
            Key::ArrowRight => self.move_right(),
            Key::Backspace => self.delete_left(),
            Key::Delete => self.delete_right(),
            Key::Home => self.move_home(),
            Key::End => self.move_end(),
            Key::ArrowUp => self.navigate_history_up(),
            Key::ArrowDown => self.navigate_history_down(),
            Key::Tab => self.auto_complete(names),
            Key::Enter => {},
            Key::Unknown => {},
        }
    }

    /// Process one key (see `input_step`); returns the finished command line
    /// on Enter.
    pub fn get_input(&mut self, key: Key, names: &[Vec<char>]) -> (r: Option<Vec<char>>)
        requires
            old(self).wf(),
        ensures
            final(self).wf(),
            (final(self)@, match r { Some(v) => Some(v@), None => None }) == input_step(old(self)@, key,
                lines_view(names@)),
    {
        if key == Key::Enter {
            if self.buffer.len() > 0 {
                let ghost h0 = self.history@;
                self.history.push(copy_chars(&self.buffer));
                assert(lines_view(self.history@) =~= lines_view(h0).push(old(self)@.buffer));
                self.history_index = self.history.len();
                let input = copy_chars(&self.buffer);
                self.buffer.clear();
                self.cursor_pos = 0;
                self.needs_render = true;
                return Some(input);
            }
            return None;
        }
        self.handle_key(key, names);
        None
    }

    /// Mark the prompt as needing a redraw.
    pub fn request_render(&mut self)
        ensures
            final(self)@ == (EditorView { dirty: true, ..old(self)@ }),
    {
        self.needs_render = true;
    }

    /// The characters that redraw the prompt line (see `prompt_line`) when
    /// something changed since the last redraw; `None` otherwise.
    pub fn render(&mut self) -> (r: Option<Vec<char>>)
        requires
            old(self).wf(),
        ensures
            final(self).wf(),
            final(self)@ == (EditorView { dirty: false, ..old(self)@ }),
            match r {
                Some(v) => old(self)@.dirty && v@ == prompt_line(old(self)@.buffer, old(self)@.cursor),
                None => !old(self)@.dirty,
            },
    {
        if !self.needs_render {
            return None;
        }
        self.needs_render = false;
        let mut out: Vec<char> = Vec::new();
        out.push('\r');
        out.push('\x1B');
        out.push('[');
        out.push('0');
        out.push('K');
        out.push('>');
        out.push(' ');
        let mut i: usize = 0;
        let ghost head = out@;
        while i < self.buffer.len()
            invariant
                i <= self.buffer@.len(),
                out@ == head + self.buffer@.take(i as int),
            decreases self.buffer@.len() - i,
        {
            out.push(self.buffer[i]);
            i = i + 1;
            assert(out@ =~= head + self.buffer@.take(i as int));
        }
        out.push('\x1B');
        out.push('[');
        push_dec(&mut out, self.cursor_pos as u128 + 3);
        out.push('G');
        assert(self.buffer@.take(i as int) =~= self.buffer@);
        assert(out@ =~= prompt_line(self.buffer@, self.cursor_pos as nat));
        Some(out)
    }
}

/// Persistent state of the shell's line editor.
pub struct ShellState {
    pub editor: CommandLineEditor,
}

impl ShellState {
    /// A fresh editor.
    pub fn new() -> (s: Self)
        ensures
            s.editor.wf(),
            s.editor@ == (EditorView { buffer: Seq::empty(), cursor: 0, history: Seq::empty(), index: 0,
                dirty: true, completions: Seq::empty() }),
    {
        ShellState { editor: CommandLineEditor::new() }
    }

    /// Mark the prompt as needing a redraw.
    pub fn request_render(&mut self)
        ensures
            final(self).editor@ == (EditorView { dirty: true, ..old(self).editor@ }),
    {
        self.editor.request_render();
    }
}

/// What a key does to a plain line being typed.
#[derive(PartialEq, Eq, Debug, Structural)]
pub enum LineEvent {
    /// Nothing changed.
    Ignored,
    /// The character was appended; echo it.
    Echo(char),
    /// The last character was removed; erase it on screen.
    Erase,
    /// Enter: the line is complete.
    Done,
}

/// A line typed without editing, holding at most `cap` bytes.
pub struct LineBuffer {
    pub data: Vec<u8>,
    pub cap: usize,
}

impl LineBuffer {
    /// An empty line that holds at most `cap` bytes.
    pub fn new(cap: usize) -> (l: Self)
        ensures
            l.data@ == Seq::<u8>::empty(),
            l.cap == cap,
    {
        LineBuffer { data: Vec::new(), cap }
    }

    /// Take in a key: a character is stored (as its low byte) and echoed
    /// while there is room, Backspace removes the last byte, Enter
    /// completes the line; other keys do nothing.
    pub fn handle_key(&mut self, key: Key) -> (ev: LineEvent)
        ensures
            final(self).cap == old(self).cap,
            match key {
                Key::Char(c) => if old(self).data@.len() < old(self).cap {
                    ev == LineEvent::Echo(c) && final(self).data@ == old(self).data@.push(c as u8)
                } else {
                    ev == LineEvent::Ignored && final(self).data@ == old(self).data@
                },
                Key::Backspace => if old(self).data@.len() > 0 {
                    ev == LineEvent::Erase && final(self).data@ == old(self).data@.drop_last()
                } else {
                    ev == LineEvent::Ignored && final(self).data@ == old(self).data@
                },
                Key::Enter => ev == LineEvent::Done && final(self).data@ == old(self).data@,
                _ => ev == LineEvent::Ignored && final(self).data@ == old(self).data@,
            },
    {
        match key {
            Key::Char(c) => {
                if self.data.len() < self.cap {
                    self.data.push(c as u8);
                    LineEvent::Echo(c)
                } else {
                    LineEvent::Ignored
                }
            },
            Key::Backspace => {
                if self.data.len() > 0 {
                    self.data.pop();
                    LineEvent::Erase
                } else {
                    LineEvent::Ignored
                }
            },
            Key::Enter => LineEvent::Done,
            _ => LineEvent::Ignored,
        }
    }
}

} // verus!
