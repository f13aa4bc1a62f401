//! Byte classes of the scanner, and the conversion of names to text.

use vstd::prelude::*;
use vstd::string::StringSliceAdditionalSpecFns;
use vstd::utf8::{partial_valid_utf8_extend_ascii_block, valid_utf8};

verus! {

/// The blank bytes: line feed, carriage return and space.
pub open spec fn space_byte(c: u8) -> bool {
    c == 10 || c == 13 || c == 32
}

/// The ASCII decimal digits `0` to `9`.
pub open spec fn digit_byte(c: u8) -> bool {
    48 <= c < 58
}

/// The ASCII letters, upper and lower case.
pub open spec fn alpha_byte(c: u8) -> bool {
    65 <= c < 91 || 97 <= c < 123
}

/// What may continue a name: a letter or a digit.
pub open spec fn alnum_byte(c: u8) -> bool {
    digit_byte(c) || alpha_byte(c)
}

/// Whether `c` is a blank.
pub fn is_space(c: &u8) -> (b: bool)
    ensures
        b == space_byte(*c),
{
    *c == 10 || *c == 13 || *c == 32
}

/// Whether `c` is a decimal digit.
pub fn is_digit(c: &u8) -> (b: bool)
    ensures
        b == digit_byte(*c),
{
    48 <= *c && *c < 58
}

/// Whether `c` is a letter.
pub fn is_alpha(c: &u8) -> (b: bool)
    ensures
        b == alpha_byte(*c),
{
    (65 <= *c && *c < 91) || (97 <= *c && *c < 123)
}

/// Whether `c` is a letter or a digit.
pub fn is_alnum(c: &u8) -> (b: bool)
    ensures
        b == alnum_byte(*c),
{
    is_digit(c) || is_alpha(c)
}

/// The four classes are pairwise disjoint apart from `alnum_byte`, which is
/// the union of digits and letters, and none of them holds the zero byte
/// that stands for the end of the input.
pub proof fn lemma_byte_classes(c: u8)
    ensures
        !(space_byte(c) && alnum_byte(c)),
        !(digit_byte(c) && alpha_byte(c)),
        c == 0 ==> !space_byte(c) && !alnum_byte(c),
{
}

/// A word is a letter followed by letters and digits.
pub open spec fn is_word(bytes: Seq<u8>) -> bool {
    &&& bytes.len() > 0
    &&& alpha_byte(bytes[0])
    &&& forall|i: int| 0 <= i < bytes.len() ==> alnum_byte(#[trigger] bytes[i])
}

/// A word is ASCII, and so it is well-formed UTF-8.
pub proof fn lemma_word_is_utf8(bytes: Seq<u8>)
    requires
        is_word(bytes),
    ensures
        valid_utf8(bytes),
{
    assert(bytes.subrange(0, 0) == Seq::<u8>::empty());
    partial_valid_utf8_extend_ascii_block(bytes, 0, bytes.len() as int);
    assert(bytes.subrange(0, bytes.len() as int) == bytes);
}

/// A copy of a byte string.
pub fn copy_bytes(bytes: &Vec<u8>) -> (copy: Vec<u8>)
    ensures
        copy@ == bytes@,
{
    let mut copy: Vec<u8> = Vec::new();
    let mut i: usize = 0;
    while i < bytes.len()
        invariant
            i <= bytes.len(),
            copy@ == bytes@.subrange(0, i as int),
        decreases bytes.len() - i,
    {
        copy.push(bytes[i]);
        i += 1;
    }
    copy
}

/// Why std refused to read bytes as text. Nothing is said of what is in it.
#[verifier::external_type_specification]
#[verifier::external_body]
pub struct ExUtf8Error(core::str::Utf8Error);

/// `core::str::from_utf8`: succeeds exactly on well-formed UTF-8, and the
/// string slice it then returns has the bytes it was given.
#[verifier::external_body]
fn checked_utf8(v: &Vec<u8>) -> (r: Result<&str, core::str::Utf8Error>)
    ensures
        r is Ok <==> valid_utf8(v@),
        r matches Ok(s) ==> s.spec_bytes() == v@,
{
    core::str::from_utf8(v)
}

/// Reads a byte string as text. The bytes must be well-formed UTF-8.
pub fn str_from_u8(v: &Vec<u8>) -> (s: &str)
    requires
        valid_utf8(v@),
    ensures
        s.spec_bytes() == v@,
{
    match checked_utf8(v) {
        Ok(s) => s,
        Err(_) => vstd::pervasive::unreached(),
    }
}

} // verus!
