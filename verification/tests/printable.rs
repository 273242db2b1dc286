use rustc_utils::printable::is_printable;

#[test]
fn ascii_controls_are_not_printable_and_letters_are() {
    assert!(!is_printable('\u{0}'));
    assert!(!is_printable('\u{1f}'));
    assert!(is_printable(' '));
    assert!(is_printable('a'));
    assert!(is_printable('~'));
    assert!(!is_printable('\u{7f}'));
    assert!(!is_printable('\u{9f}'));
    // The range (0x7f, 0x22) ends just before U+00A1.
    assert!(!is_printable('\u{a0}'));
    assert!(is_printable('\u{a1}'));
}

#[test]
fn singletons_and_ranges_below_u10000() {
    // A singleton.
    assert!(!is_printable('\u{ad}'));
    assert!(is_printable('\u{ac}'));
    // Inside the range (0x380, 4).
    assert!(!is_printable('\u{380}'));
    assert!(!is_printable('\u{383}'));
    assert!(is_printable('\u{384}'));
    assert!(is_printable('\u{3b1}'));
}

#[test]
fn supplementary_planes() {
    assert!(is_printable('\u{1f600}'));
    assert!(is_printable('\u{20000}'));
    assert!(!is_printable('\u{2a6d7}'));
    assert!(is_printable('\u{2a700}'));
    assert!(!is_printable('\u{30000}'));
    assert!(!is_printable('\u{e0000}'));
    assert!(is_printable('\u{e0100}'));
    assert!(!is_printable('\u{10ffff}'));
}
