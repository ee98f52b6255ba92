//! Editing what has been typed so far, one key at a time.

use vstd::prelude::*;

verus! {

/// `String::push` appends one character.
///
/// std documents that it appends the given char to the end of the string,
/// and that it panics when the new capacity would exceed `isize::MAX` bytes;
/// a char takes at most four bytes, so the bound below keeps clear of that.
pub assume_specification[ String::push ](s: &mut String, ch: char)
    requires
        4 * (old(s)@.len() + 1) <= isize::MAX,
    ensures
        final(s)@ == old(s)@.push(ch),
;

/// `String::pop` removes the last character and returns it, or returns
/// `None` and leaves the string alone when it is empty, as std documents.
pub assume_specification[ String::pop ](s: &mut String) -> (c: Option<char>)
    ensures
        old(s)@.len() == 0 ==> c is None && final(s)@ == old(s)@,
        old(s)@.len() > 0 ==> c == Some(old(s)@.last()) && final(s)@ == old(s)@.drop_last(),
;

/// A control character, as `char::is_control` counts them: the C0 codes
/// and DEL with the C1 codes.
pub open spec fn is_control(c: char) -> bool {
    (c as u32) < 0x20 || (0x7F <= (c as u32) && (c as u32) <= 0x9F)
}

/// One key pressed during LINE INPUT: Enter finishes (`true`), backspace
/// removes the last character typed, any other character that is not a
/// control character is added, and nothing else changes anything.
pub fn line_input_key(buf: &mut String, key: Option<char>) -> (done: bool)
    requires
        4 * (old(buf)@.len() + 1) <= isize::MAX,
    ensures
        done == (key == Some('\r')),
        final(buf)@ == match key {
            Some(c) => if c == '\r' {
                old(buf)@
            } else if c == '\u{8}' {
                if old(buf)@.len() == 0 {
                    old(buf)@
                } else {
                    old(buf)@.drop_last()
                }
            } else if !is_control(c) {
                old(buf)@.push(c)
            } else {
                old(buf)@
            },
            None => old(buf)@,
        },
{
    match key {
        Some(c) => {
            if c == '\r' {
                true
            } else if c == '\u{8}' {
                let _ = buf.pop();
                false
            } else {
                let code: u32 = c as u32;
                if !(code < 0x20 || (0x7F <= code && code <= 0x9F)) {
                    buf.push(c);
                }
                false
            }
        },
        None => false,
    }
}

/// The keyboard's shift: a lower case letter becomes upper case and the
/// minus key gives an underscore; every other character is unchanged.
pub fn shift_char(c: char) -> (s: char)
    ensures
        s == (if 'a' <= c && c <= 'z' {
            ((c as u32) - 32) as char
        } else if c == '-' {
            '_'
        } else {
            c
        }),
{
    if 'a' <= c && c <= 'z' {
        let b: u8 = c as u8;
        assert(b == c as u32);
        ((b - 32) as u8) as char
    } else if c == '-' {
        '_'
    } else {
        c
    }
}

} // verus!
