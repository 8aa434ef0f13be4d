//! Key decoding: PS/2 scancode set 1 (make codes, with a Shift state) and
//! bytes from a serial terminal.
use vstd::prelude::*;

verus! {

/// A decoded key press.
#[derive(Clone, Copy, PartialEq, Eq, Debug, Structural)]
pub enum Key {
    Char(char),
    Backspace,
    Enter,
    ArrowLeft,
    ArrowRight,
    ArrowUp,
    ArrowDown,
    Delete,
    Home,
    End,
    Tab,
    Unknown,
}

/// The character of a scancode (set 1, make code) without and with Shift.
pub open spec fn scancode_pair(sc: u8) -> Option<(char, char)> {
    match sc {
        0x02 => Some(('1', '!')),
        0x03 => Some(('2', '@')),
        0x04 => Some(('3', '#')),
        0x05 => Some(('4', '$')),
        0x06 => Some(('5', '%')),
        0x07 => Some(('6', '^')),
        0x08 => Some(('7', '&')),
        0x09 => Some(('8', '*')),
        0x0A => Some(('9', '(')),
        0x0B => Some(('0', ')')),
        0x0C => Some(('-', '_')),
        0x0D => Some(('=', '+')),
        0x10 => Some(('q', 'Q')),
        0x11 => Some(('w', 'W')),
        0x12 => Some(('e', 'E')),
        0x13 => Some(('r', 'R')),
        0x14 => Some(('t', 'T')),
        0x15 => Some(('y', 'Y')),
        0x16 => Some(('u', 'U')),
        0x17 => Some(('i', 'I')),
        0x18 => Some(('o', 'O')),
        0x19 => Some(('p', 'P')),
        0x1A => Some(('[', '{')),
        0x1B => Some((']', '}')),
        0x1E => Some(('a', 'A')),
        0x1F => Some(('s', 'S')),
        0x20 => Some(('d', 'D')),
        0x21 => Some(('f', 'F')),
        0x22 => Some(('g', 'G')),
        0x23 => Some(('h', 'H')),
        0x24 => Some(('j', 'J')),
        0x25 => Some(('k', 'K')),
        0x26 => Some(('l', 'L')),
        0x27 => Some((';', ':')),
        0x28 => Some(('\'', '"')),
        0x29 => Some(('`', '~')),
        0x2B => Some(('\\', '|')),
        0x2C => Some(('z', 'Z')),
        0x2D => Some(('x', 'X')),
        0x2E => Some(('c', 'C')),
        0x2F => Some(('v', 'V')),
        0x30 => Some(('b', 'B')),
        0x31 => Some(('n', 'N')),
        0x32 => Some(('m', 'M')),
        0x33 => Some((',', '<')),
        0x34 => Some(('.', '>')),
        0x35 => Some(('/', '?')),
        0x39 => Some((' ', ' ')),
        _ => None,
    }
}

/// The key that types `c` without Shift (0 for none).
spec fn key_of_plain(c: char) -> u8 {
    match c {
        '1' => 0x02u8,
        '2' => 0x03u8,
        '3' => 0x04u8,
        '4' => 0x05u8,
        '5' => 0x06u8,
        '6' => 0x07u8,
        '7' => 0x08u8,
        '8' => 0x09u8,
        '9' => 0x0Au8,
        '0' => 0x0Bu8,
        '-' => 0x0Cu8,
        '=' => 0x0Du8,
        'q' => 0x10u8,
        'w' => 0x11u8,
        'e' => 0x12u8,
        'r' => 0x13u8,
        't' => 0x14u8,
        'y' => 0x15u8,
        'u' => 0x16u8,
        'i' => 0x17u8,
        'o' => 0x18u8,
        'p' => 0x19u8,
        '[' => 0x1Au8,
        ']' => 0x1Bu8,
        'a' => 0x1Eu8,
        's' => 0x1Fu8,
        'd' => 0x20u8,
        'f' => 0x21u8,
        'g' => 0x22u8,
        'h' => 0x23u8,
        'j' => 0x24u8,
        'k' => 0x25u8,
        'l' => 0x26u8,
        ';' => 0x27u8,
        '\'' => 0x28u8,
        '`' => 0x29u8,
        '\\' => 0x2Bu8,
        'z' => 0x2Cu8,
        'x' => 0x2Du8,
        'c' => 0x2Eu8,
        'v' => 0x2Fu8,
        'b' => 0x30u8,
        'n' => 0x31u8,
        'm' => 0x32u8,
        ',' => 0x33u8,
        '.' => 0x34u8,
        '/' => 0x35u8,
        ' ' => 0x39u8,
        _ => 0u8,
    }
}

/// The key that types `c` with Shift, Space aside (0 for none).
spec fn key_of_shifted(c: char) -> u8 {
    match c {
        '!' => 0x02u8,
        '@' => 0x03u8,
        '#' => 0x04u8,
        '$' => 0x05u8,
        '%' => 0x06u8,
        '^' => 0x07u8,
        '&' => 0x08u8,
        '*' => 0x09u8,
        '(' => 0x0Au8,
        ')' => 0x0Bu8,
        '_' => 0x0Cu8,
        '+' => 0x0Du8,
        'Q' => 0x10u8,
        'W' => 0x11u8,
        'E' => 0x12u8,
        'R' => 0x13u8,
        'T' => 0x14u8,
        'Y' => 0x15u8,
        'U' => 0x16u8,
        'I' => 0x17u8,
        'O' => 0x18u8,
        'P' => 0x19u8,
        '{' => 0x1Au8,
        '}' => 0x1Bu8,
        'A' => 0x1Eu8,
        'S' => 0x1Fu8,
        'D' => 0x20u8,
        'F' => 0x21u8,
        'G' => 0x22u8,
        'H' => 0x23u8,
        'J' => 0x24u8,
        'K' => 0x25u8,
        'L' => 0x26u8,
        ':' => 0x27u8,
        '"' => 0x28u8,
        '~' => 0x29u8,
        '|' => 0x2Bu8,
        'Z' => 0x2Cu8,
        'X' => 0x2Du8,
        'C' => 0x2Eu8,
        'V' => 0x2Fu8,
        'B' => 0x30u8,
        'N' => 0x31u8,
        'M' => 0x32u8,
        '<' => 0x33u8,
        '>' => 0x34u8,
        '?' => 0x35u8,
        _ => 0u8,
    }
}

/// Each key's characters lead back to that key.
proof fn lemma_key_of(sc: u8)
    ensures
        match scancode_pair(sc) {
            Some((lo, hi)) => key_of_plain(lo) == sc && (sc != 0x39 ==> key_of_shifted(hi) == sc),
            None => true,
        },
{
}

/// Distinct keys type distinct characters, without Shift and with it
/// (Space types a space either way, and no other key does).
pub proof fn lemma_keys_distinct(s1: u8, s2: u8)
    requires
        s1 != s2,
        scancode_pair(s1) is Some,
        scancode_pair(s2) is Some,
    ensures
        scancode_char(s1, false) != scancode_char(s2, false),
        scancode_char(s1, true) != scancode_char(s2, true),
{
    lemma_key_of(s1);
    lemma_key_of(s2);
}

/// The number keys `1`..`9`, `0` are the make codes 0x02..0x0B in order, and
/// Shift on a letter key gives the capital of the letter it types.
pub proof fn lemma_key_rows(sc: u8)
    ensures
        0x02 <= sc <= 0x0A ==> scancode_char(sc, false) == Some(((sc - 2) + '1' as u32) as char),
        sc == 0x0B ==> scancode_char(sc, false) == Some('0'),
        match scancode_pair(sc) {
            Some((lo, hi)) => ('a' <= lo <= 'z' <==> 'A' <= hi <= 'Z') && ('a' <= lo <= 'z' ==> hi as u32 + 32
                == lo as u32),
            None => true,
        },
{
}

/// The character a make code types, given the Shift state.
pub open spec fn scancode_char(sc: u8, shift: bool) -> Option<char> {
    match scancode_pair(sc) {
        Some((lo, hi)) => Some(if shift { hi } else { lo }),
        None => None,
    }
}

/// Map a scancode (set 1, make code only) to the character it types.
pub fn scancode_to_char(sc: u8, shift: bool) -> (r: Option<char>)
    ensures
        r == scancode_char(sc, shift),
{
    let pair: Option<(char, char)> = match sc {
        0x02 => Some(('1', '!')),
        0x03 => Some(('2', '@')),
        0x04 => Some(('3', '#')),
        0x05 => Some(('4', '$')),
        0x06 => Some(('5', '%')),
        0x07 => Some(('6', '^')),
        0x08 => Some(('7', '&')),
        0x09 => Some(('8', '*')),
        0x0A => Some(('9', '(')),
        0x0B => Some(('0', ')')),
        0x0C => Some(('-', '_')),
        0x0D => Some(('=', '+')),
        0x10 => Some(('q', 'Q')),
        0x11 => Some(('w', 'W')),
        0x12 => Some(('e', 'E')),
        0x13 => Some(('r', 'R')),
        0x14 => Some(('t', 'T')),
        0x15 => Some(('y', 'Y')),
        0x16 => Some(('u', 'U')),
        0x17 => Some(('i', 'I')),
        0x18 => Some(('o', 'O')),
        0x19 => Some(('p', 'P')),
        0x1A => Some(('[', '{')),
        0x1B => Some((']', '}')),
        0x1E => Some(('a', 'A')),
        0x1F => Some(('s', 'S')),
        0x20 => Some(('d', 'D')),
        0x21 => Some(('f', 'F')),
        0x22 => Some(('g', 'G')),
        0x23 => Some(('h', 'H')),
        0x24 => Some(('j', 'J')),
        0x25 => Some(('k', 'K')),
        0x26 => Some(('l', 'L')),
        0x27 => Some((';', ':')),
        0x28 => Some(('\'', '"')),
        0x29 => Some(('`', '~')),
        0x2B => Some(('\\', '|')),
        0x2C => Some(('z', 'Z')),
        0x2D => Some(('x', 'X')),
        0x2E => Some(('c', 'C')),
        0x2F => Some(('v', 'V')),
        0x30 => Some(('b', 'B')),
        0x31 => Some(('n', 'N')),
        0x32 => Some(('m', 'M')),
        0x33 => Some((',', '<')),
        0x34 => Some(('.', '>')),
        0x35 => Some(('/', '?')),
        0x39 => Some((' ', ' ')),
        _ => None,
    };
    match pair {
        Some((lo, hi)) => Some(if shift { hi } else { lo }),
        None => None,
    }
}

/// What a scancode does, given the Shift state: the new Shift state and
/// the key it reports, if any. Shift presses and releases only change the
/// state; other releases (bit 7 set) are ignored; Backspace and Enter have
/// their own keys; a make code without a character is `Unknown`.
pub open spec fn decode_scancode(shift: bool, sc: u8) -> (bool, Option<Key>) {
    if sc == 0x2A || sc == 0x36 {
        (true, None)
    } else if sc == 0xAA || sc == 0xB6 {
        (false, None)
    } else if sc >= 0x80 {
        (shift, None)
    } else if sc == 0x0E {
        (shift, Some(Key::Backspace))
    } else if sc == 0x1C {
        (shift, Some(Key::Enter))
    } else {
        (shift, Some(match scancode_char(sc, shift) {
            Some(c) => Key::Char(c),
            None => Key::Unknown,
        }))
    }
}

/// Shift keys: pressing either (0x2A, 0x36) holds Shift and releasing it
/// (the same code with the top bit set) lets it go, neither typing a key;
/// any other code leaves the Shift state as it was; other releases type
/// nothing; and a make code of a character key types that key's character
/// for the Shift state held, so the same key gives its unshifted character
/// after a release of Shift and its shifted one after a press.
pub proof fn lemma_shift_state(shift: bool, sc: u8)
    ensures
        (sc == 0x2A || sc == 0x36) ==> decode_scancode(shift, sc) == (true, None::<Key>),
        (sc == 0x2A || sc == 0x36) ==> decode_scancode(shift, (sc + 0x80) as u8) == (false, None::<Key>),
        !(sc == 0x2A || sc == 0x36 || sc == 0xAA || sc == 0xB6) ==> decode_scancode(shift, sc).0 == shift,
        sc >= 0x80 ==> decode_scancode(shift, sc).1 is None,
        scancode_pair(sc) is Some ==> decode_scancode(shift, sc).1 == Some(
            Key::Char(if shift { scancode_pair(sc).unwrap().1 } else { scancode_pair(sc).unwrap().0 }),
        ),
        scancode_pair(sc) is Some ==> decode_scancode(decode_scancode(shift, 0x2A).0, sc).1 == Some(
            Key::Char(scancode_pair(sc).unwrap().1),
        ) && decode_scancode(decode_scancode(shift, 0xAA).0, sc).1 == Some(Key::Char(scancode_pair(sc).unwrap().0)),
{
    if scancode_pair(sc) is Some {
        assert(sc < 0x80 && sc != 0x0E && sc != 0x1C && sc != 0x2A && sc != 0x36);
    }
}

/// A printable byte from a serial terminal types the character with that
/// code, and no other byte types a character.
pub proof fn lemma_serial_chars(b: u8)
    ensures
        serial_key(b) matches Key::Char(c) ==> c as u32 == b as u32 && 0x20 <= b <= 0x7E,
        0x20 <= b <= 0x7E ==> serial_key(b) is Char,
{
}

/// The PS/2 decoding state: whether a Shift key is held.
pub struct KeyDecoder {
    pub shift: bool,
}

impl KeyDecoder {
    /// A decoder with no Shift key held.
    pub fn new() -> (d: Self)
        ensures
            !d.shift,
    {
        KeyDecoder { shift: false }
    }

    /// Take in one scancode from the data port (see `decode_scancode`).
    pub fn feed(&mut self, sc: u8) -> (r: Option<Key>)
        ensures
            (final(self).shift, r) == decode_scancode(old(self).shift, sc),
    {
        if sc == 0x2A || sc == 0x36 {
            self.shift = true;
            return None;
        }
        if sc == 0xAA || sc == 0xB6 {
            self.shift = false;
            return None;
        }
        if sc >= 0x80 {
            return None;
        }
        if sc == 0x0E {
            Some(Key::Backspace)
        } else if sc == 0x1C {
            Some(Key::Enter)
        } else {
            match scancode_to_char(sc, self.shift) {
                Some(c) => Some(Key::Char(c)),
                None => Some(Key::Unknown),
            }
        }
    }
}

/// The key a byte from a serial terminal stands for.
pub open spec fn serial_key(b: u8) -> Key {
    if b == 0x08 || b == 0x7F {
        Key::Backspace
    } else if b == 0x0D || b == 0x0A {
        Key::Enter
    } else if 0x20 <= b <= 0x7E {
        Key::Char(b as char)
    } else {
        Key::Unknown
    }
}

/// Decode a byte from a serial terminal: BS and DEL erase, CR and LF end
/// the line, printable ASCII is typed, anything else is unknown.
pub fn serial_byte_to_key(b: u8) -> (k: Key)
    ensures
        k == serial_key(b),
{
    if b == 0x08 || b == 0x7F {
        Key::Backspace
    } else if b == 0x0D || b == 0x0A {
        Key::Enter
    } else if 0x20 <= b && b <= 0x7E {
        Key::Char(b as char)
    } else {
        Key::Unknown
    }
}

} // verus!
