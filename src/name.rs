//! Turning a mangled symbol into the key under which its copies are counted.
//!
//! A symbol is demangled into its readable path and, when that path ends in
//! the per-instantiation hash (`::h` and sixteen lowercase hex digits), the
//! hash is removed, so that every copy of one generic function gets one key.

use vstd::prelude::*;
use crate::text::chars_of;

verus! {

/// Number of hex digits in the per-instantiation hash.
pub const HASH_DIGITS: usize = 16;

/// Length of the whole hash suffix: `::h` followed by the hex digits.
pub const HASH_SUFFIX_LEN: usize = 19;

/// A byte that is an ASCII digit or a lowercase letter `a` to `f`.
pub open spec fn is_hex_byte(b: u8) -> bool {
    (0x30 <= b && b <= 0x39) || (0x61 <= b && b <= 0x66)
}

/// A character that is an ASCII digit or a lowercase letter `a` to `f`.
pub open spec fn is_hex_char(c: char) -> bool {
    ('0' <= c && c <= '9') || ('a' <= c && c <= 'f')
}

/// `s` ends in `::h` followed by sixteen lowercase hex digits.
pub open spec fn ends_with_hash(s: Seq<char>) -> bool {
    &&& s.len() >= 19
    &&& s[s.len() - 19] == ':'
    &&& s[s.len() - 18] == ':'
    &&& s[s.len() - 17] == 'h'
    &&& forall|i: int| s.len() - 16 <= i < s.len() ==> is_hex_char(#[trigger] s[i])
}

/// `s` without its hash suffix, or `s` itself when it has none.
pub open spec fn without_hash(s: Seq<char>) -> Seq<char> {
    if ends_with_hash(s) {
        s.subrange(0, s.len() - 19)
    } else {
        s
    }
}

/// What `String::from_utf8_lossy` makes of a byte string.
pub uninterp spec fn lossy_utf8(bytes: Seq<u8>) -> Seq<char>;

/// What `rustc_demangle` prints for a symbol (in the plain, non-alternate form).
pub uninterp spec fn demangled(symbol: Seq<char>) -> Seq<char>;

/// The aggregation key of a raw symbol taken from the IR.
pub open spec fn normalized_name(symbol: Seq<u8>) -> Seq<char> {
    without_hash(demangled(lossy_utf8(symbol)))
}

/// Relies on `String::from_utf8_lossy`: decodes the bytes, replacing each
/// invalid sequence with U+FFFD; the result depends on the bytes alone.
#[verifier::external_body]
fn decode_lossy(bytes: &[u8]) -> (r: String)
    ensures
        r@ == lossy_utf8(bytes@),
{
    String::from_utf8_lossy(bytes).into_owned()
}

/// Relies on `rustc_demangle::demangle` and the `Display` impl of its result:
/// the demangled form of a symbol (hash suffix kept), or the symbol itself
/// when it is not mangled; the result depends on the symbol alone.
#[verifier::external_body]
fn demangle_symbol(symbol: &str) -> (r: String)
    ensures
        r@ == demangled(symbol@),
{
    rustc_demangle::demangle(symbol).to_string()
}

/// Whether `byte` is an ASCII digit or a lowercase hex letter.
pub fn is_ascii_hexdigit(byte: u8) -> (r: bool)
    ensures
        r == is_hex_byte(byte),
{
    (0x30 <= byte && byte <= 0x39) || (0x61 <= byte && byte <= 0x66)
}

fn is_hex_digit_char(c: char) -> (r: bool)
    ensures
        r == is_hex_char(c),
{
    ('0' <= c && c <= '9') || ('a' <= c && c <= 'f')
}

fn ends_with_hash_chars(cs: &Vec<char>) -> (r: bool)
    ensures
        r == ends_with_hash(cs@),
{
    let n = cs.len();
    if n < HASH_SUFFIX_LEN {
        return false;
    }
    let mut i: usize = n - HASH_DIGITS;
    while i < n
        invariant
            n == cs@.len(),
            n >= 19,
            n - 16 <= i <= n,
            forall|j: int| n - 16 <= j < i ==> is_hex_char(#[trigger] cs@[j]),
        decreases n - i,
    {
        if !is_hex_digit_char(cs[i]) {
            return false;
        }
        i = i + 1;
    }
    cs[n - 19] == ':' && cs[n - 18] == ':' && cs[n - 17] == 'h'
}

/// Whether `name` ends in `::h` followed by sixteen lowercase hex digits.
pub fn has_hash(name: &str) -> (r: bool)
    ensures
        r == ends_with_hash(name@),
{
    let cs = chars_of(name);
    ends_with_hash_chars(&cs)
}

/// `name` with its trailing hash suffix removed, if it has one.
pub fn strip_hash(name: &str) -> (r: String)
    ensures
        r@ == without_hash(name@),
{
    let cs = chars_of(name);
    if ends_with_hash_chars(&cs) {
        name.substring_char(0, cs.len() - HASH_SUFFIX_LEN).to_owned()
    } else {
        name.to_owned()
    }
}

/// The aggregation key of a raw symbol: decoded, demangled, hash removed.
pub fn normalize_symbol(symbol: &[u8]) -> (r: String)
    ensures
        r@ == normalized_name(symbol@),
{
    let text = decode_lossy(symbol);
    let readable = demangle_symbol(text.as_str());
    strip_hash(readable.as_str())
}

/// A name that does not end in a hash suffix is left as it is, however many
/// times it is normalized.
pub proof fn lemma_unhashed_name_is_fixed(s: Seq<char>)
    requires
        !ends_with_hash(s),
    ensures
        without_hash(s) == s,
        without_hash(without_hash(s)) == without_hash(s),
{
}

/// The suffix is removed exactly when the full pattern is present: then the
/// result is the name minus its last nineteen characters; a name whose last
/// sixteen characters are not all hex digits (for instance `::h` with only
/// fifteen digits) keeps every character.
pub proof fn lemma_strip_exactly_the_suffix(s: Seq<char>)
    ensures
        ends_with_hash(s) <==> without_hash(s).len() + 19 == s.len(),
        ends_with_hash(s) ==> s == without_hash(s) + s.subrange(s.len() - 19, s.len() as int),
        !ends_with_hash(s) ==> without_hash(s) == s,
        (exists|i: int| s.len() - 16 <= i < s.len() && !is_hex_char(#[trigger] s[i]))
            ==> without_hash(s) == s,
{
    if ends_with_hash(s) {
        assert(s =~= without_hash(s) + s.subrange(s.len() - 19, s.len() as int));
    }
}

} // verus!
