//! The text console on the framebuffer: cursor movement, colors, and the
//! ANSI escape sequences it understands. The console decides what to draw
//! and queues it as `FbOp`s; whoever owns the framebuffer carries them out
//! (glyphs come from an 8×8 font, one character cell is 8×8 pixels).
use vstd::prelude::*;

verus! {

/// Pixels per character cell, each way.
pub const CHAR_W: usize = 8;
pub const CHAR_H: usize = 8;

/// An RGB color.
#[derive(Clone, Copy, PartialEq, Eq, Debug, Structural)]
pub struct Color(pub u8, pub u8, pub u8);

/// A drawing operation on the framebuffer.
#[derive(Clone, Copy, PartialEq, Eq, Debug, Structural)]
pub enum FbOp {
    /// Draw the glyph of `ch` (the blank glyph outside ASCII 32–126) in
    /// the cell at `row`, `col`: set bits in `fg`, the rest in `bg`.
    Glyph { row: usize, col: usize, ch: char, fg: Color, bg: Color },
    /// Paint the cell at `row`, `col` black.
    EraseCell { row: usize, col: usize },
    /// Move every character row up by one and zero the last.
    ScrollUp,
    /// Zero the whole framebuffer.
    ClearAll,
    /// Zero `count` character rows from `from`.
    ZeroRows { from: usize, count: usize },
    /// Paint pixel columns `from_px..to_px` of character row `row` in `color`.
    FillRow { row: usize, from_px: usize, to_px: usize, color: Color },
    /// Copy `count` character rows from `src` to `dst` (as `memmove`).
    MoveRows { src: usize, dst: usize, count: usize },
    /// Set one pixel.
    Pixel { x: usize, y: usize, color: Color },
}

/// The console state: screen size in characters, cursor, saved cursor,
/// and current colors.
pub struct VgaView {
    pub cols: nat,
    pub rows: nat,
    pub col: nat,
    pub row: nat,
    pub saved_col: nat,
    pub saved_row: nat,
    pub fg: Color,
    pub bg: Color,
}

/// The 16-color palette: the eight normal colors, then the bright ones.
pub open spec fn palette(k: int) -> Color {
    if k == 0 { Color(0, 0, 0) }
    else if k == 1 { Color(170, 0, 0) }
    else if k == 2 { Color(0, 170, 0) }
    else if k == 3 { Color(170, 170, 0) }
    else if k == 4 { Color(0, 0, 170) }
    else if k == 5 { Color(170, 0, 170) }
    else if k == 6 { Color(0, 170, 170) }
    else if k == 7 { Color(170, 170, 170) }
    else if k == 8 { Color(85, 85, 85) }
    else if k == 9 { Color(255, 85, 85) }
    else if k == 10 { Color(85, 255, 85) }
    else if k == 11 { Color(255, 255, 85) }
    else if k == 12 { Color(85, 85, 255) }
    else if k == 13 { Color(255, 85, 255) }
    else if k == 14 { Color(85, 255, 255) }
    else { Color(255, 255, 255) }
}

/// The colors after SGR code `code`: 0 resets to bright white on black,
/// 30–37 and 90–97 set the foreground, 40–47 and 100–107 the background;
/// other codes change nothing.
pub open spec fn sgr(fg: Color, bg: Color, code: u8) -> (Color, Color) {
    if code == 0 {
        (palette(15), palette(0))
    } else if 30 <= code <= 37 {
        (palette(code - 30), bg)
    } else if 40 <= code <= 47 {
        (fg, palette(code - 40))
    } else if 90 <= code <= 97 {
        (palette(code - 82), bg)
    } else if 100 <= code <= 107 {
        (fg, palette(code - 92))
    } else {
        (fg, bg)
    }
}

/// The sixteen colors follow the ANSI order: bit 0 of the index is red,
/// bit 1 green and bit 2 blue; the first eight set their channels to 170,
/// the bright eight (index + 8) to 255 with the others at 85.
pub proof fn lemma_palette_bits(k: int)
    requires
        0 <= k < 8,
    ensures
        palette(k) == Color(
            if k % 2 == 1 { 170 } else { 0 },
            if (k / 2) % 2 == 1 { 170 } else { 0 },
            if (k / 4) % 2 == 1 { 170 } else { 0 },
        ),
        palette(k + 8) == Color(
            if k % 2 == 1 { 255 } else { 85 },
            if (k / 2) % 2 == 1 { 255 } else { 85 },
            if (k / 4) % 2 == 1 { 255 } else { 85 },
        ),
{
}

/// SGR codes: 30+k and 40+k give color k to the foreground and the
/// background, 90+k and 100+k its bright version, each leaving the other
/// color alone; 0 goes back to bright white on black.
pub proof fn lemma_sgr_colors(fg: Color, bg: Color, k: u8)
    requires
        k < 8,
    ensures
        sgr(fg, bg, (30 + k) as u8) == (palette(k as int), bg),
        sgr(fg, bg, (40 + k) as u8) == (fg, palette(k as int)),
        sgr(fg, bg, (90 + k) as u8) == (palette(k + 8), bg),
        sgr(fg, bg, (100 + k) as u8) == (fg, palette(k + 8)),
        sgr(fg, bg, 0) == (palette(15), palette(0)),
{
}

/// The palette entry `k` (0–15).
pub fn palette_color(k: u8) -> (c: Color)
    requires
        k < 16,
    ensures
        c == palette(k as int),
{
    match k {
        0 => Color(0, 0, 0),
        1 => Color(170, 0, 0),
        2 => Color(0, 170, 0),
        3 => Color(170, 170, 0),
        4 => Color(0, 0, 170),
        5 => Color(170, 0, 170),
        6 => Color(0, 170, 170),
        7 => Color(170, 170, 170),
        8 => Color(85, 85, 85),
        9 => Color(255, 85, 85),
        10 => Color(85, 255, 85),
        11 => Color(255, 255, 85),
        12 => Color(85, 85, 255),
        13 => Color(255, 85, 255),
        14 => Color(85, 255, 255),
        _ => Color(255, 255, 255),
    }
}

/// What writing character `c` does: newline and carriage return move the
/// cursor, backspace steps back (to the end of the previous row at the
/// start of a row) and blanks that cell, anything else is drawn and
/// advances the cursor, wrapping at the end of the row; past the last row
/// the screen scrolls up and the cursor stays on the last row.
pub open spec fn put_char(v: VgaView, c: char) -> (VgaView, Seq<FbOp>) {
    let (w, ops) = if c == '\n' {
        (VgaView { col: 0, row: v.row + 1, ..v }, Seq::<FbOp>::empty())
    } else if c == '\r' {
        (VgaView { col: 0, ..v }, Seq::<FbOp>::empty())
    } else if c == '\x08' {
        let u = if v.col > 0 {
            VgaView { col: (v.col - 1) as nat, ..v }
        } else if v.row > 0 {
            VgaView { row: (v.row - 1) as nat, col: (v.cols - 1) as nat, ..v }
        } else {
            v
        };
        (u, seq![FbOp::EraseCell { row: u.row as usize, col: u.col as usize }])
    } else {
        let g = FbOp::Glyph { row: v.row as usize, col: v.col as usize, ch: c, fg: v.fg, bg: v.bg };
        if v.col + 1 >= v.cols {
            (VgaView { col: 0, row: v.row + 1, ..v }, seq![g])
        } else {
            (VgaView { col: v.col + 1, ..v }, seq![g])
        }
    };
    if w.row >= w.rows {
        (VgaView { row: (w.rows - 1) as nat, ..w }, ops.push(FbOp::ScrollUp))
    } else {
        (w, ops)
    }
}


/// Characters that may appear in the parameters of a control sequence.
pub open spec fn is_param(c: char) -> bool {
    ('0' <= c && c <= '9') || c == ';'
}

/// End of the parameter characters from `p`.
pub open spec fn scan_params(s: Seq<char>, p: int) -> int
    decreases s.len() - p,
{
    if p < 0 || p >= s.len() || !is_param(s[p]) { p } else { scan_params(s, p + 1) }
}

pub proof fn lemma_scan_params(s: Seq<char>, p: int)
    requires
        0 <= p <= s.len(),
    ensures
        p <= scan_params(s, p) <= s.len(),
        forall|k: int| p <= k < scan_params(s, p) ==> is_param(#[trigger] s[k]),
    decreases s.len() - p,
{
    if p < s.len() && is_param(s[p]) {
        lemma_scan_params(s, p + 1);
    }
}

/// The `;`-separated fields of a parameter string (at least one).
pub open spec fn fields(s: Seq<char>) -> Seq<Seq<char>>
    decreases s.len(),
{
    if s.len() == 0 {
        seq![Seq::empty()]
    } else {
        let f = fields(s.drop_last());
        if s.last() == ';' {
            f.push(Seq::empty())
        } else {
            f.update(f.len() - 1, f.last().push(s.last()))
        }
    }
}

pub proof fn lemma_fields_len(s: Seq<char>)
    ensures
        fields(s).len() >= 1,
    decreases s.len(),
{
    if s.len() > 0 {
        lemma_fields_len(s.drop_last());
    }
}

/// The decimal value of a field of digits.
pub open spec fn field_value(f: Seq<char>) -> nat
    decreases f.len(),
{
    if f.len() == 0 { 0 } else { field_value(f.drop_last()) * 10 + (f.last() as nat - 48) as nat }
}

/// A field read as a `usize`: 0 when empty or too large.
pub open spec fn field_usize(f: Seq<char>) -> nat {
    if f.len() == 0 || field_value(f) > usize::MAX { 0 } else { field_value(f) }
}

/// A field read as a `u8`: 0 when empty or too large.
pub open spec fn field_u8(f: Seq<char>) -> u8 {
    if f.len() == 0 || field_value(f) > 255 { 0 } else { field_value(f) as u8 }
}

/// The colors after the SGR codes `fs`, in order.
pub open spec fn sgr_all(fg: Color, bg: Color, fs: Seq<Seq<char>>) -> (Color, Color)
    decreases fs.len(),
{
    if fs.len() == 0 {
        (fg, bg)
    } else {
        let (f, b) = sgr_all(fg, bg, fs.drop_last());
        sgr(f, b, field_u8(fs.last()))
    }
}

/// The smaller of two numbers.
pub open spec fn nmin(a: nat, b: nat) -> nat {
    if a <= b { a } else { b }
}

/// `n`, but at least 1.
pub open spec fn at_least_one(n: nat) -> nat {
    if n == 0 { 1 } else { n }
}

/// `a - b`, but not below 0.
pub open spec fn sat_sub(a: nat, b: nat) -> nat {
    if a >= b { (a - b) as nat } else { 0 }
}

/// Clearing from the cursor to the end of its row.
pub open spec fn clear_eol(v: VgaView) -> FbOp {
    FbOp::FillRow { row: v.row as usize, from_px: (v.col * 8) as usize, to_px: (v.cols * 8) as usize, color: v.bg }
}

/// Clearing from the start of the cursor's row through the cursor cell.
pub open spec fn clear_sol(v: VgaView) -> FbOp {
    FbOp::FillRow { row: v.row as usize, from_px: 0, to_px: ((v.col + 1) * 8) as usize, color: v.bg }
}

/// What the control sequence `ESC [ ps cmd` does. The first two fields of
/// `ps` are the numeric parameters (0 when missing); `m` sets colors for
/// every field; `J` and `K` erase parts of the screen or row; `H`/`f`
/// place the cursor (1-based); `A`–`G` and `d` move it, never past the
/// screen; `s`/`u` save and restore it; `L`/`M` insert and delete rows at
/// the cursor. Anything else is ignored.
pub open spec fn csi(v: VgaView, ps: Seq<char>, cmd: char) -> (VgaView, Seq<FbOp>) {
    let fs = fields(ps);
    let p0 = field_usize(fs[0]);
    let p1 = if fs.len() >= 2 { field_usize(fs[1]) } else { 0 };
    let r1 = (v.rows - 1) as nat;
    let c1 = (v.cols - 1) as nat;
    if cmd == 'm' {
        let (f, b) = if ps.len() == 0 { sgr(v.fg, v.bg, 0) } else { sgr_all(v.fg, v.bg, fs) };
        (VgaView { fg: f, bg: b, ..v }, Seq::empty())
    } else if cmd == 'J' {
        if p0 == 0 {
            (v, seq![clear_eol(v)] + if v.row + 1 < v.rows {
                seq![FbOp::ZeroRows { from: (v.row + 1) as usize, count: (v.rows - v.row - 1) as usize }]
            } else {
                Seq::empty()
            })
        } else if p0 == 1 {
            (v, (if v.row > 0 { seq![FbOp::ZeroRows { from: 0, count: v.row as usize }] } else {
                Seq::empty() }) + seq![clear_sol(v)])
        } else if p0 == 2 {
            (VgaView { col: 0, row: 0, ..v }, seq![FbOp::ClearAll])
        } else {
            (v, Seq::empty())
        }
    } else if cmd == 'K' {
        if p0 == 0 {
            (v, seq![clear_eol(v)])
        } else if p0 == 1 {
            (v, seq![clear_sol(v)])
        } else if p0 == 2 {
            (VgaView { col: 0, ..v }, seq![FbOp::FillRow { row: v.row as usize, from_px: 0, to_px: (v.cols
                * 8) as usize, color: v.bg }])
        } else {
            (v, Seq::empty())
        }
    } else if cmd == 'H' || cmd == 'f' {
        (VgaView { row: nmin(sat_sub(p0, 1), r1), col: nmin(sat_sub(p1, 1), c1), ..v }, Seq::empty())
    } else if cmd == 'A' {
        (VgaView { row: sat_sub(v.row, at_least_one(p0)), ..v }, Seq::empty())
    } else if cmd == 'F' {
        (VgaView { row: sat_sub(v.row, at_least_one(p0)), col: 0, ..v }, Seq::empty())
    } else if cmd == 'B' {
        (VgaView { row: nmin(v.row + at_least_one(p0), r1), ..v }, Seq::empty())
    } else if cmd == 'E' {
        (VgaView { row: nmin(v.row + at_least_one(p0), r1), col: 0, ..v }, Seq::empty())
    } else if cmd == 'C' {
        (VgaView { col: nmin(v.col + at_least_one(p0), c1), ..v }, Seq::empty())
    } else if cmd == 'D' {
        (VgaView { col: sat_sub(v.col, at_least_one(p0)), ..v }, Seq::empty())
    } else if cmd == 'G' {
        (VgaView { col: nmin(sat_sub(p0, 1), c1), ..v }, Seq::empty())
    } else if cmd == 'd' {
        (VgaView { row: nmin(sat_sub(p0, 1), r1), ..v }, Seq::empty())
    } else if cmd == 's' {
        (VgaView { saved_row: v.row, saved_col: v.col, ..v }, Seq::empty())
    } else if cmd == 'u' {
        (VgaView { row: v.saved_row, col: v.saved_col, ..v }, Seq::empty())
    } else if cmd == 'L' {
        let n = nmin(at_least_one(p0), (v.rows - v.row) as nat);
        let mv = (v.rows - v.row - n) as nat;
        (v, (if mv > 0 { seq![FbOp::MoveRows { src: v.row as usize, dst: (v.row + n) as usize, count: mv
            as usize }] } else { Seq::empty() }) + seq![FbOp::ZeroRows { from: v.row as usize, count: n
            as usize }])
    } else if cmd == 'M' {
        let n = nmin(at_least_one(p0), (v.rows - v.row) as nat);
        let mv = (v.rows - v.row - n) as nat;
        (v, (if mv > 0 { seq![FbOp::MoveRows { src: (v.row + n) as usize, dst: v.row as usize, count: mv
            as usize }] } else { Seq::empty() }) + seq![FbOp::ZeroRows { from: (v.rows - n) as usize,
            count: n as usize }])
    } else {
        (v, Seq::empty())
    }
}

/// What writing the characters `s` from offset `i` does: plain characters
/// go through `put_char`; `ESC [` starts a control sequence (see `csi`),
/// ESC followed by anything else is dropped with that character; a control
/// sequence cut off by the end of the text ends processing.
pub open spec fn ansi_from(v: VgaView, s: Seq<char>, i: int) -> (VgaView, Seq<FbOp>)
    decreases s.len() - i,
{
    if i < 0 || i >= s.len() {
        (v, Seq::empty())
    } else if s[i] != '\x1B' {
        let (v1, o1) = put_char(v, s[i]);
        let (v2, o2) = ansi_from(v1, s, i + 1);
        (v2, o1 + o2)
    } else if i + 1 >= s.len() {
        (v, Seq::empty())
    } else if s[i + 1] != '[' {
        ansi_from(v, s, i + 2)
    } else {
        proof {
            lemma_scan_params(s, i + 2);
        }
        let j = scan_params(s, i + 2);
        if j >= s.len() {
            (v, Seq::empty())
        } else {
            let (v1, o1) = csi(v, s.subrange(i + 2, j), s[j]);
            let (v2, o2) = ansi_from(v1, s, j + 1);
            (v2, o1 + o2)
        }
    }
}


/// The text console.
pub struct VgaBuffer {
    /// Width of the framebuffer in pixels.
    pub width: usize,
    /// Height of the framebuffer in pixels.
    pub height: usize,
    pub cols: usize,
    pub rows: usize,
    pub col: usize,
    pub row: usize,
    pub saved_col: usize,
    pub saved_row: usize,
    pub fg: Color,
    pub bg: Color,
    /// Drawing operations not yet carried out, oldest first.
    pub ops: Vec<FbOp>,
}

impl View for VgaBuffer {
    type V = VgaView;

    open spec fn view(&self) -> VgaView {
        VgaView {
            cols: self.cols as nat,
            rows: self.rows as nat,
            col: self.col as nat,
            row: self.row as nat,
            saved_col: self.saved_col as nat,
            saved_row: self.saved_row as nat,
            fg: self.fg,
            bg: self.bg,
        }
    }
}

/// A console state fits its screen.
pub open spec fn view_wf(v: VgaView) -> bool {
    &&& 1 <= v.cols <= 0x0FFF_FFFF
    &&& 1 <= v.rows <= 0x0FFF_FFFF
    &&& v.col < v.cols && v.row < v.rows
    &&& v.saved_col < v.cols && v.saved_row < v.rows
}

impl VgaBuffer {
    pub open spec fn wf(&self) -> bool {
        view_wf(self@)
    }

    /// A console for a `width` × `height` pixel framebuffer: cursor at the
    /// top left, bright white on black, nothing queued.
    pub fn new(width: usize, height: usize) -> (v: Self)
        requires
            8 <= width <= 0x7FFF_FFFF,
            8 <= height <= 0x7FFF_FFFF,
        ensures
            v.wf(),
            v@ == (VgaView { cols: (width / 8) as nat, rows: (height / 8) as nat, col: 0, row: 0,
                saved_col: 0, saved_row: 0, fg: palette(15), bg: palette(0) }),
            v.ops@ == Seq::<FbOp>::empty(),
            v.width == width,
            v.height == height,
    {
        VgaBuffer {
            width,
            height,
            cols: width / CHAR_W,
            rows: height / CHAR_H,
            col: 0,
            row: 0,
            saved_col: 0,
            saved_row: 0,
            fg: Color(255, 255, 255),
            bg: Color(0, 0, 0),
            ops: Vec::new(),
        }
    }

    /// Hand out the queued drawing operations, oldest first.
    pub fn take_ops(&mut self) -> (ops: Vec<FbOp>)
        ensures
            ops@ == old(self).ops@,
            final(self).ops@ == Seq::<FbOp>::empty(),
            final(self)@ == old(self)@,
    {
        let mut out: Vec<FbOp> = Vec::new();
        core::mem::swap(&mut out, &mut self.ops);
        out
    }

    /// Apply SGR code `code` to the colors (see `sgr`).
    pub fn set_color(&mut self, code: u8)
        ensures
            (final(self)@.fg, final(self)@.bg) == sgr(old(self)@.fg, old(self)@.bg, code),
            final(self)@ == (VgaView { fg: final(self)@.fg, bg: final(self)@.bg, ..old(self)@ }),
            final(self).ops == old(self).ops,
    {
        if code == 0 {
            self.fg = palette_color(15);
            self.bg = palette_color(0);
        } else if 30 <= code && code <= 37 {
            self.fg = palette_color(code - 30);
        } else if 40 <= code && code <= 47 {
            self.bg = palette_color(code - 40);
        } else if 90 <= code && code <= 97 {
            self.fg = palette_color(code - 82);
        } else if 100 <= code && code <= 107 {
            self.bg = palette_color(code - 92);
        }
    }

    /// Write one character (see `put_char`).
    pub fn write_char(&mut self, c: char)
        requires
            old(self).wf(),
        ensures
            final(self).wf(),
            (final(self)@, final(self).ops@.skip(old(self).ops@.len() as int)) == put_char(old(self)@, c),
            final(self).ops@.len() >= old(self).ops@.len(),
            final(self).ops@.take(old(self).ops@.len() as int) == old(self).ops@,
    {
        let ghost o0 = self.ops@;
        if c == '\n' {
            self.col = 0;
            self.row = self.row + 1;
        } else if c == '\r' {
            self.col = 0;
        } else if c == '\x08' {
            if self.col > 0 {
                self.col = self.col - 1;
            } else if self.row > 0 {
                self.row = self.row - 1;
                self.col = self.cols - 1;
            }
            self.ops.push(FbOp::EraseCell { row: self.row, col: self.col });
        } else {
            self.ops.push(FbOp::Glyph { row: self.row, col: self.col, ch: c, fg: self.fg, bg: self.bg });
            self.col = self.col + 1;
            if self.col >= self.cols {
                self.col = 0;
                self.row = self.row + 1;
            }
        }
        if self.row >= self.rows {
            self.ops.push(FbOp::ScrollUp);
            self.row = self.rows - 1;
        }
        assert(self.ops@.take(o0.len() as int) =~= o0);
        let ghost added = self.ops@.skip(o0.len() as int);
        assert(added =~= put_char(old(self)@, c).1);
    }
}


/// The `usize` and `u8` readings of a field (see `field_usize`,
/// `field_u8`).
pub open spec fn field_pair(f: Seq<char>) -> (usize, u8) {
    (field_usize(f) as usize, field_u8(f))
}

/// The readings of every field of a parameter string.
fn param_fields(ps: &Vec<char>) -> (r: Vec<(usize, u8)>)
    requires
        forall|k: int| 0 <= k < ps@.len() ==> is_param(#[trigger] ps@[k]),
    ensures
        r@.len() == fields(ps@).len(),
        forall|k: int| 0 <= k < r@.len() ==> #[trigger] r@[k] == field_pair(fields(ps@)[k]),
{
    let mut out: Vec<(usize, u8)> = Vec::new();
    let mut acc: usize = 0;
    let mut ovf = false;
    let mut nonempty = false;
    let mut i: usize = 0;
    assert(ps@.take(0) =~= Seq::<char>::empty());
    while i < ps.len()
        invariant
            i <= ps@.len(),
            forall|k: int| 0 <= k < ps@.len() ==> is_param(#[trigger] ps@[k]),
            out@.len() + 1 == fields(ps@.take(i as int)).len(),
            forall|k: int| 0 <= k < out@.len() ==> #[trigger] out@[k] == field_pair(fields(ps@.take(i as int))[k]),
            nonempty == (fields(ps@.take(i as int)).last().len() > 0),
            ovf == (field_value(fields(ps@.take(i as int)).last()) > usize::MAX),
            !ovf ==> acc == field_value(fields(ps@.take(i as int)).last()),
        decreases ps@.len() - i,
    {
        let c = ps[i];
        let ghost fs = fields(ps@.take(i as int));
        assert(ps@.take(i + 1).drop_last() =~= ps@.take(i as int));
        assert(is_param(ps@[i as int]));
        if c == ';' {
            let u: usize = if !nonempty || ovf { 0 } else { acc };
            let b: u8 = if !nonempty || ovf || acc > 255 { 0 } else { acc as u8 };
            out.push((u, b));
            acc = 0;
            ovf = false;
            nonempty = false;
            proof {
                let nf = fields(ps@.take(i + 1));
                assert(nf == fs.push(Seq::empty()));
                assert forall|k: int| 0 <= k < out@.len() implies #[trigger] out@[k] == field_pair(nf[k]) by {
                    if k < out@.len() - 1 {
                        assert(nf[k] == fs[k]);
                    }
                }
            }
        } else {
            let d = (c as u32 - 48) as usize;
            nonempty = true;
            if !ovf {
                match acc.checked_mul(10) {
                    Some(m) => match m.checked_add(d) {
                        Some(v) => {
                            acc = v;
                        },
                        None => {
                            ovf = true;
                        },
                    },
                    None => {
                        ovf = true;
                    },
                }
            }
            proof {
                let nf = fields(ps@.take(i + 1));
                assert(nf == fs.update(fs.len() - 1, fs.last().push(c)));
                assert(fs.last().push(c).drop_last() =~= fs.last());
                assert(nf.last() == fs.last().push(c));
                assert forall|k: int| 0 <= k < out@.len() implies #[trigger] out@[k] == field_pair(nf[k]) by {
                    assert(nf[k] == fs[k]);
                }
            }
        }
        i = i + 1;
    }
    assert(ps@.take(i as int) =~= ps@);
    let u: usize = if !nonempty || ovf { 0 } else { acc };
    let b: u8 = if !nonempty || ovf || acc > 255 { 0 } else { acc as u8 };
    out.push((u, b));
    out
}


impl VgaBuffer {
    /// Columns of characters on the screen.
    pub fn cols(&self) -> (n: usize)
        ensures
            n == self@.cols,
    {
        self.cols
    }

    /// Rows of characters on the screen.
    pub fn rows(&self) -> (n: usize)
        ensures
            n == self@.rows,
    {
        self.rows
    }

    /// Carry out one control sequence (see `csi`).
    fn apply_csi(&mut self, ps: &Vec<char>, cmd: char)
        requires
            old(self).wf(),
            forall|k: int| 0 <= k < ps@.len() ==> is_param(#[trigger] ps@[k]),
        ensures
            final(self).wf(),
            (final(self)@, final(self).ops@.skip(old(self).ops@.len() as int)) == csi(old(self)@, ps@, cmd),
            final(self).ops@.len() >= old(self).ops@.len(),
            final(self).ops@.take(old(self).ops@.len() as int) == old(self).ops@,
    {
        let ghost o0 = self.ops@;
        let ghost v0 = self@;
        proof {
            lemma_fields_len(ps@);
        }
        let vals = param_fields(ps);
        let p0 = vals[0].0;
        let p1 = if vals.len() >= 2 { vals[1].0 } else { 0 };
        let r1 = self.rows - 1;
        let c1 = self.cols - 1;
        let n1 = if p0 == 0 { 1 } else { p0 };
        if cmd == 'm' {
            if ps.len() == 0 {
                self.set_color(0);
            } else {
                let mut k: usize = 0;
                assert(fields(ps@).take(0) =~= Seq::<Seq<char>>::empty());
                while k < vals.len()
                    invariant
                        k <= vals@.len(),
                        vals@.len() == fields(ps@).len(),
                        forall|q: int| 0 <= q < vals@.len() ==> #[trigger] vals@[q] == field_pair(fields(ps@)[q]),
                        (self@.fg, self@.bg) == sgr_all(v0.fg, v0.bg, fields(ps@).take(k as int)),
                        self@ == (VgaView { fg: self@.fg, bg: self@.bg, ..v0 }),
                        self.ops@ == o0,
                    decreases vals@.len() - k,
                {
                    assert(fields(ps@).take(k + 1).drop_last() =~= fields(ps@).take(k as int));
                    self.set_color(vals[k].1);
                    k = k + 1;
                }
                assert(fields(ps@).take(k as int) =~= fields(ps@));
            }
        } else if cmd == 'J' {
            if p0 == 0 {
                self.ops.push(FbOp::FillRow { row: self.row, from_px: self.col * 8, to_px: self.cols * 8, color: self.bg });
                if self.row + 1 < self.rows {
                    self.ops.push(FbOp::ZeroRows { from: self.row + 1, count: self.rows - self.row - 1 });
                }
            } else if p0 == 1 {
                if self.row > 0 {
                    self.ops.push(FbOp::ZeroRows { from: 0, count: self.row });
                }
                self.ops.push(FbOp::FillRow { row: self.row, from_px: 0, to_px: (self.col + 1) * 8, color: self.bg });
            } else if p0 == 2 {
                self.ops.push(FbOp::ClearAll);
                self.col = 0;
                self.row = 0;
            }
        } else if cmd == 'K' {
            if p0 == 0 {
                self.ops.push(FbOp::FillRow { row: self.row, from_px: self.col * 8, to_px: self.cols * 8, color: self.bg });
            } else if p0 == 1 {
                self.ops.push(FbOp::FillRow { row: self.row, from_px: 0, to_px: (self.col + 1) * 8, color: self.bg });
            } else if p0 == 2 {
                self.ops.push(FbOp::FillRow { row: self.row, from_px: 0, to_px: self.cols * 8, color: self.bg });
                self.col = 0;
            }
        } else if cmd == 'H' || cmd == 'f' {
            let r = if p0 >= 1 { p0 - 1 } else { 0 };
            let c = if p1 >= 1 { p1 - 1 } else { 0 };
            self.row = if r <= r1 { r } else { r1 };
            self.col = if c <= c1 { c } else { c1 };
        } else if cmd == 'A' {
            self.row = if self.row >= n1 { self.row - n1 } else { 0 };
        } else if cmd == 'F' {
            self.row = if self.row >= n1 { self.row - n1 } else { 0 };
            self.col = 0;
        } else if cmd == 'B' {
            self.row = if n1 <= r1 - self.row { self.row + n1 } else { r1 };
        } else if cmd == 'E' {
            self.row = if n1 <= r1 - self.row { self.row + n1 } else { r1 };
            self.col = 0;
        } else if cmd == 'C' {
            self.col = if n1 <= c1 - self.col { self.col + n1 } else { c1 };
        } else if cmd == 'D' {
            self.col = if self.col >= n1 { self.col - n1 } else { 0 };
        } else if cmd == 'G' {
            let c = if p0 >= 1 { p0 - 1 } else { 0 };
            self.col = if c <= c1 { c } else { c1 };
        } else if cmd == 'd' {
            let r = if p0 >= 1 { p0 - 1 } else { 0 };
            self.row = if r <= r1 { r } else { r1 };
        } else if cmd == 's' {
            self.saved_row = self.row;
            self.saved_col = self.col;
        } else if cmd == 'u' {
            self.row = self.saved_row;
            self.col = self.saved_col;
        } else if cmd == 'L' {
            let room = self.rows - self.row;
            let n = if n1 <= room { n1 } else { room };
            let mv = self.rows - self.row - n;
            if mv > 0 {
                self.ops.push(FbOp::MoveRows { src: self.row, dst: self.row + n, count: mv });
            }
            self.ops.push(FbOp::ZeroRows { from: self.row, count: n });
        } else if cmd == 'M' {
            let room = self.rows - self.row;
            let n = if n1 <= room { n1 } else { room };
            let mv = self.rows - self.row - n;
            if mv > 0 {
                self.ops.push(FbOp::MoveRows { src: self.row + n, dst: self.row, count: mv });
            }
            self.ops.push(FbOp::ZeroRows { from: self.rows - n, count: n });
        }
        assert(self.ops@.take(o0.len() as int) =~= o0);
        assert(self.ops@.skip(o0.len() as int) =~= csi(v0, ps@, cmd).1);
    }

    /// Write text, interpreting ANSI escape sequences (see `ansi_from`).
    pub fn parse_ansi(&mut self, s: &[char])
        requires
            old(self).wf(),
        ensures
            final(self).wf(),
            (final(self)@, final(self).ops@.skip(old(self).ops@.len() as int)) == ansi_from(old(self)@, s@, 0),
            final(self).ops@.len() >= old(self).ops@.len(),
            final(self).ops@.take(old(self).ops@.len() as int) == old(self).ops@,
    {
        let ghost o0 = self.ops@;
        let ghost v0 = self@;
        let mut i: usize = 0;
        assert(self.ops@.skip(o0.len() as int) + ansi_from(self@, s@, 0).1 =~= ansi_from(self@, s@, 0).1);
        while i < s.len()
            invariant
                self.wf(),
                i <= s@.len(),
                o0 == old(self).ops@,
                v0 == old(self)@,
                self.ops@.len() >= o0.len(),
                self.ops@.take(o0.len() as int) == o0,
                ansi_from(v0, s@, 0) == (ansi_from(self@, s@, i as int).0, self.ops@.skip(o0.len() as int)
                    + ansi_from(self@, s@, i as int).1),
            decreases s@.len() - i,
        {
            let ghost before = self.ops@.skip(o0.len() as int);
            let ghost vb = self@;
            let ghost ob = self.ops@;
            let c = s[i];
            if c != '\x1B' {
                self.write_char(c);
                proof {
                    assert(self.ops@.skip(ob.len() as int) == put_char(vb, c).1);
                    assert(self.ops@ =~= self.ops@.take(ob.len() as int) + self.ops@.skip(ob.len() as int));
                    assert(self.ops@ =~= ob + put_char(vb, c).1);
                    assert(self.ops@.skip(o0.len() as int) =~= before + put_char(vb, c).1);
                    assert(self.ops@.take(o0.len() as int) =~= o0);
                }
                i = i + 1;
                continue;
            }
            if s.len() - i < 2 {
                assert(self.ops@.skip(o0.len() as int) + Seq::<FbOp>::empty() =~= self.ops@.skip(o0.len() as int));
                return;
            }
            if s[i + 1] != '[' {
                i = i + 2;
                continue;
            }
            let mut j: usize = i + 2;
            let mut ps: Vec<char> = Vec::new();
            proof {
                lemma_scan_params(s@, i + 2);
            }
            while j < s.len() && (('0' <= s[j] && s[j] <= '9') || s[j] == ';')
                invariant
                    i + 2 <= j <= s@.len(),
                    scan_params(s@, j as int) == scan_params(s@, i + 2),
                    ps@ == s@.subrange(i + 2, j as int),
                decreases s@.len() - j,
            {
                ps.push(s[j]);
                j = j + 1;
                assert(ps@ =~= s@.subrange(i + 2, j as int));
            }
            proof {
                lemma_scan_params(s@, i + 2);
            }
            if j >= s.len() {
                assert(self.ops@.skip(o0.len() as int) + Seq::<FbOp>::empty() =~= self.ops@.skip(o0.len() as int));
                return;
            }
            self.apply_csi(&ps, s[j]);
            proof {
                let cs = csi(vb, s@.subrange(i + 2, j as int), s@[j as int]);
                assert(self.ops@.skip(ob.len() as int) == cs.1);
                assert(self.ops@ =~= self.ops@.take(ob.len() as int) + self.ops@.skip(ob.len() as int));
                assert(self.ops@ =~= ob + cs.1);
                assert(self.ops@.skip(o0.len() as int) =~= before + cs.1);
                assert(self.ops@.take(o0.len() as int) =~= o0);
            }
            i = j + 1;
        }
        assert(self.ops@.skip(o0.len() as int) + Seq::<FbOp>::empty() =~= self.ops@.skip(o0.len() as int));
    }

    /// Zero the whole framebuffer and put the cursor at the top left.
    pub fn clear_screen(&mut self)
        requires
            old(self).wf(),
        ensures
            final(self).wf(),
            final(self)@ == (VgaView { col: 0, row: 0, ..old(self)@ }),
            final(self).ops@ == old(self).ops@.push(FbOp::ClearAll),
    {
        self.ops.push(FbOp::ClearAll);
        self.col = 0;
        self.row = 0;
    }
}

/// Clear the console and put the cursor at the top left.
pub fn clear_screen(vga: &mut VgaBuffer)
    requires
        old(vga).wf(),
    ensures
        final(vga).wf(),
        final(vga)@ == (VgaView { col: 0, row: 0, ..old(vga)@ }),
        final(vga).ops@ == old(vga).ops@.push(FbOp::ClearAll),
{
    vga.clear_screen();
}

/// The red, green and blue bytes of a `0x00RRGGBB` value.
pub open spec fn rgb_color(rgb: u32) -> Color {
    Color(((rgb / 65536) % 256) as u8, ((rgb / 256) % 256) as u8, (rgb % 256) as u8)
}

/// Whether pixel `x`, `y` lies on a `width` × `height` framebuffer.
pub open spec fn on_screen(width: usize, height: usize, x: i32, y: i32) -> bool {
    0 <= x && 0 <= y && x < width && y < height
}

/// Set the pixel at `x`, `y` to `rgb` (`0x00RRGGBB`), bypassing the text
/// cursor; coordinates off the framebuffer are ignored.
pub fn set_pixel(vga: &mut VgaBuffer, x: i32, y: i32, rgb: u32)
    ensures
        final(vga)@ == old(vga)@,
        final(vga).width == old(vga).width,
        final(vga).height == old(vga).height,
        final(vga).ops@ == if on_screen(old(vga).width, old(vga).height, x, y) {
            old(vga).ops@.push(FbOp::Pixel { x: x as usize, y: y as usize, color: rgb_color(rgb) })
        } else {
            old(vga).ops@
        },
{
    if x < 0 || y < 0 || x as usize >= vga.width || y as usize >= vga.height {
        return;
    }
    let c = Color(((rgb / 65536) % 256) as u8, ((rgb / 256) % 256) as u8, (rgb % 256) as u8);
    vga.ops.push(FbOp::Pixel { x: x as usize, y: y as usize, color: c });
}

/// The drawing operations of a blit of `n` pixels of `buf`, `width` to a
/// row: one pixel each, row by row from the top left.
pub open spec fn blit_ops(buf: Seq<u32>, width: nat, n: nat) -> Seq<FbOp> {
    Seq::new(
        n,
        |i: int|
            FbOp::Pixel {
                x: (i % (width as int)) as usize,
                y: (i / (width as int)) as usize,
                color: rgb_color(buf[i]),
            },
    )
}

/// Copy a `width` by `height` block of packed `0x00RRGGBB` pixels from
/// `buf` (row by row) to the framebuffer's top-left corner.
pub fn blit_rgb32(vga: &mut VgaBuffer, buf: &[u32], width: usize, height: usize)
    requires
        width * height <= buf@.len(),
    ensures
        final(vga)@ == old(vga)@,
        final(vga).ops@ == old(vga).ops@ + blit_ops(buf@, width as nat, (width * height) as nat),
{
    let blen = buf.len();
    assert(width * height <= blen);
    let n = width * height;
    let mut i: usize = 0;
    while i < n
        invariant
            n == width * height,
            n <= buf@.len(),
            i <= n,
            vga@ == old(vga)@,
            vga.ops@ == old(vga).ops@ + blit_ops(buf@, width as nat, i as nat),
        decreases n - i,
    {
        assert(width > 0) by (nonlinear_arith)
            requires
                i < n,
                n == width * height,
        ;
        let rgb = buf[i];
        let c = Color(((rgb / 65536) % 256) as u8, ((rgb / 256) % 256) as u8, (rgb % 256) as u8);
        vga.ops.push(FbOp::Pixel { x: i % width, y: i / width, color: c });
        i = i + 1;
        assert(vga.ops@ =~= old(vga).ops@ + blit_ops(buf@, width as nat, i as nat));
    }
}

} // verus!
