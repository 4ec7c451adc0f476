use calculator::keyboard_event_helper::keyboard_code_to_character;

#[test]
fn test_shifted_keys() {
    assert_eq!(keyboard_code_to_character("Equal", true), '+');
    assert_eq!(keyboard_code_to_character("Digit5", true), '%');
    assert_eq!(keyboard_code_to_character("Digit4", true), '\0');
    assert_eq!(keyboard_code_to_character("Enter", true), '\0');
}

#[test]
fn test_digit_keys() {
    assert_eq!(keyboard_code_to_character("Digit0", false), '0');
    assert_eq!(keyboard_code_to_character("Digit5", false), '5');
    assert_eq!(keyboard_code_to_character("Digit9", false), '9');
    assert_eq!(keyboard_code_to_character("Numpad0", false), '0');
    assert_eq!(keyboard_code_to_character("Numpad7", false), '7');
}

#[test]
fn test_operator_and_control_keys() {
    assert_eq!(keyboard_code_to_character("NumpadAdd", false), '+');
    assert_eq!(keyboard_code_to_character("Minus", false), '-');
    assert_eq!(keyboard_code_to_character("NumpadSubtract", false), '-');
    assert_eq!(keyboard_code_to_character("NumpadMultiply", false), '*');
    assert_eq!(keyboard_code_to_character("NumpadDivide", false), '/');
    assert_eq!(keyboard_code_to_character("Enter", false), '=');
    assert_eq!(keyboard_code_to_character("NumpadEnter", false), '=');
    assert_eq!(keyboard_code_to_character("Period", false), '.');
    assert_eq!(keyboard_code_to_character("NumpadDecimal", false), '.');
    assert_eq!(keyboard_code_to_character("Delete", false), 'd');
    assert_eq!(keyboard_code_to_character("Backspace", false), 'd');
}

#[test]
fn test_unknown_keys() {
    assert_eq!(keyboard_code_to_character("KeyA", false), '\0');
    assert_eq!(keyboard_code_to_character("", false), '\0');
    assert_eq!(keyboard_code_to_character("Digit", false), '\0');
    assert_eq!(keyboard_code_to_character("Digit55", false), '\0');
}
