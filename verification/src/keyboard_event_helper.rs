//! Mapping of keyboard key codes to calculator input characters.
//!
//! A key press arrives as a key-code string and a shift flag; the result
//! is the character the calculator treats it as: a digit or operator to
//! append, `=` to evaluate, `%` for percent mode, `d` to delete, and the
//! NUL character for a key the calculator ignores.

use vstd::prelude::*;

use vstd::string::StrSliceExecFns;

verus! {

/// Character-for-character equality of two string slices.
fn str_eq(a: &str, b: &str) -> (r: bool)
    ensures
        r == (a@ == b@),
{
    let na = a.unicode_len();
    let nb = b.unicode_len();
    if na != nb {
        proof {
            if a@ == b@ {
                assert(a@.len() == b@.len());
            }
        }
        return false;
    }
    let mut i: usize = 0;
    while i < na
        invariant
            na == a@.len(),
            nb == b@.len(),
            na == nb,
            i <= na,
            forall|k: int| 0 <= k < i as int ==> a@[k] == b@[k],
        decreases na - i,
    {
        if a.get_char(i) != b.get_char(i) {
            proof {
                if a@ == b@ {
                    assert(a@[i as int] == b@[i as int]);
                }
            }
            return false;
        }
        i += 1;
    }
    proof {
        assert(a@ =~= b@);
    }
    true
}

/// The calculator character of a key code, shifted keys first: only
/// `Equal` (`+`) and `Digit5` (`%`) mean anything with shift held.
pub open spec fn key_char(code: Seq<char>, shift_key: bool) -> char {
    if shift_key {
        if code == "Equal"@ {
            '+'
        } else if code == "Digit5"@ {
            '%'
        } else {
            '\u{0}'
        }
    } else if code == "Numpad0"@ || code == "Digit0"@ {
        '0'
    } else if code == "Numpad1"@ || code == "Digit1"@ {
        '1'
    } else if code == "Numpad2"@ || code == "Digit2"@ {
        '2'
    } else if code == "Numpad3"@ || code == "Digit3"@ {
        '3'
    } else if code == "Numpad4"@ || code == "Digit4"@ {
        '4'
    } else if code == "Numpad5"@ || code == "Digit5"@ {
        '5'
    } else if code == "Numpad6"@ || code == "Digit6"@ {
        '6'
    } else if code == "Numpad7"@ || code == "Digit7"@ {
        '7'
    } else if code == "Numpad8"@ || code == "Digit8"@ {
        '8'
    } else if code == "Numpad9"@ || code == "Digit9"@ {
        '9'
    } else if code == "Enter"@ || code == "NumpadEnter"@ {
        '='
    } else if code == "Minus"@ || code == "NumpadSubtract"@ {
        '-'
    } else if code == "Period"@ || code == "NumpadDecimal"@ {
        '.'
    } else if code == "NumpadAdd"@ {
        '+'
    } else if code == "NumpadMultiply"@ {
        '*'
    } else if code == "NumpadDivide"@ {
        '/'
    } else if code == "Delete"@ || code == "Backspace"@ {
        'd'
    } else {
        '\u{0}'
    }
}

/// The character a key press stands for, exactly as [`key_char`] says.
pub fn keyboard_code_to_character(code: &str, shift_key: bool) -> (r: char)
    ensures
        r == key_char(code@, shift_key),
{
    if shift_key {
        if str_eq(code, "Equal") {
            return '+';
        }
        if str_eq(code, "Digit5") {
            return '%';
        }
        return '\u{0}';
    }
    if str_eq(code, "Numpad0") || str_eq(code, "Digit0") {
        return '0';
    }
    if str_eq(code, "Numpad1") || str_eq(code, "Digit1") {
        return '1';
    }
    if str_eq(code, "Numpad2") || str_eq(code, "Digit2") {
        return '2';
    }
    if str_eq(code, "Numpad3") || str_eq(code, "Digit3") {
        return '3';
    }
    if str_eq(code, "Numpad4") || str_eq(code, "Digit4") {
        return '4';
    }
    if str_eq(code, "Numpad5") || str_eq(code, "Digit5") {
        return '5';
    }
    if str_eq(code, "Numpad6") || str_eq(code, "Digit6") {
        return '6';
    }
    if str_eq(code, "Numpad7") || str_eq(code, "Digit7") {
        return '7';
    }
    if str_eq(code, "Numpad8") || str_eq(code, "Digit8") {
        return '8';
    }
    if str_eq(code, "Numpad9") || str_eq(code, "Digit9") {
        return '9';
    }
    if str_eq(code, "Enter") || str_eq(code, "NumpadEnter") {
        return '=';
    }
    if str_eq(code, "Minus") || str_eq(code, "NumpadSubtract") {
        return '-';
    }
    if str_eq(code, "Period") || str_eq(code, "NumpadDecimal") {
        return '.';
    }
    if str_eq(code, "NumpadAdd") {
        return '+';
    }
    if str_eq(code, "NumpadMultiply") {
        return '*';
    }
    if str_eq(code, "NumpadDivide") {
        return '/';
    }
    if str_eq(code, "Delete") || str_eq(code, "Backspace") {
        return 'd';
    }
    '\u{0}'
}

} // verus!
