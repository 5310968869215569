use cargo_llvm_lines::{has_hash, is_ascii_hexdigit, normalize_symbol, strip_hash};

#[test]
fn hex_digits_are_lowercase_only() {
    assert!(is_ascii_hexdigit(b'0'));
    assert!(is_ascii_hexdigit(b'9'));
    assert!(is_ascii_hexdigit(b'a'));
    assert!(is_ascii_hexdigit(b'f'));
    assert!(!is_ascii_hexdigit(b'g'));
    assert!(!is_ascii_hexdigit(b'A'));
    assert!(!is_ascii_hexdigit(b'F'));
    assert!(!is_ascii_hexdigit(b' '));
}

#[test]
fn hash_suffix_is_detected() {
    assert!(has_hash("foo::bar::h0123456789abcdef"));
    assert!(has_hash("::h0123456789abcdef"));
    assert!(!has_hash("foo::bar"));
    assert!(!has_hash(""));
}

#[test]
fn hash_suffix_is_stripped() {
    assert_eq!(strip_hash("foo::bar::h0123456789abcdef"), "foo::bar");
    assert_eq!(strip_hash("::h0123456789abcdef"), "");
    assert_eq!(
        strip_hash("<T as core::fmt::Debug>::fmt::hfedcba9876543210"),
        "<T as core::fmt::Debug>::fmt"
    );
}

#[test]
fn fifteen_hex_digits_are_kept() {
    assert!(!has_hash("foo::bar::h123456789abcdef"));
    assert_eq!(strip_hash("foo::bar::h123456789abcdef"), "foo::bar::h123456789abcdef");
}

#[test]
fn non_hex_tail_is_kept() {
    assert_eq!(strip_hash("foo::bar::h0123456789abcdeg"), "foo::bar::h0123456789abcdeg");
    assert_eq!(strip_hash("foo::bar::h0123456789ABCDEF"), "foo::bar::h0123456789ABCDEF");
    assert_eq!(strip_hash("foo::bar:xh0123456789abcdef"), "foo::bar:xh0123456789abcdef");
    assert_eq!(strip_hash("foo::bar::g0123456789abcdef"), "foo::bar::g0123456789abcdef");
}

#[test]
fn unhashed_name_is_a_fixed_point() {
    let once = strip_hash("alloc::vec::Vec<T>::push");
    assert_eq!(once, "alloc::vec::Vec<T>::push");
    assert_eq!(strip_hash(&once), once);
}

#[test]
fn non_ascii_names_are_stripped_by_characters() {
    assert_eq!(strip_hash("grüße::h0123456789abcdef"), "grüße");
}

#[test]
fn mangled_symbol_is_demangled_and_stripped() {
    assert_eq!(normalize_symbol(b"_ZN3foo3bar17h0123456789abcdefE"), "foo::bar");
    assert_eq!(
        normalize_symbol(b"_ZN4core3ptr13drop_in_place17h00112233445566ffE"),
        "core::ptr::drop_in_place"
    );
}

#[test]
fn unmangled_symbol_is_kept() {
    assert_eq!(normalize_symbol(b"main"), "main");
}

#[test]
fn invalid_utf8_is_replaced() {
    assert_eq!(normalize_symbol(b"abc\xffdef"), "abc\u{fffd}def");
}
