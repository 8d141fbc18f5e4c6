//! Character- and byte-level helpers on strings shared by the other modules.

use vstd::prelude::*;
use vstd::utf8::encode_utf8;

verus! {

/// Appends one character to a string (`String::push`).
/// Trusted: `String::push` appends the character at the end and changes nothing else.
#[verifier::external_body]
pub(crate) fn push_char(s: &mut String, c: char)
    ensures
        final(s)@ == old(s)@.push(c),
{
    s.push(c);
}

/// The characters of `s`, in order.
pub fn chars_of(s: &str) -> (v: Vec<char>)
    ensures
        v@ == s@,
{
    let mut v: Vec<char> = Vec::new();
    let mut it = s.chars();
    for c in iter: it
        invariant
            v@ == iter.seq().take(iter.index() as int),
    {
        v.push(c);
    }
    v
}

/// The index of the first zero byte of `b`, if it holds one.
pub open spec fn first_zero_byte(b: Seq<u8>) -> Option<int> {
    if exists|i: int| 0 <= i < b.len() && b[i] == 0 {
        Some(choose|i: int| 0 <= i < b.len() && b[i] == 0 && forall|j: int| 0 <= j < i ==> b[j] != 0)
    } else {
        None
    }
}

/// The byte offset of the first NUL byte in the UTF-8 encoding of `s`, if it
/// holds one: where a C string made of `s` would end early.
pub open spec fn nul_byte_offset(s: Seq<char>) -> Option<int> {
    first_zero_byte(encode_utf8(s))
}

/// A string that was to become a C string holds a NUL byte: `item` is the
/// index of the offending string in the list, `position` the byte offset of
/// its first NUL byte.
#[derive(Debug, PartialEq, Eq, Clone, Copy)]
pub struct NulError {
    pub item: usize,
    pub position: usize,
}

/// The byte offset of the first NUL byte of `s`.
pub fn find_nul(s: &String) -> (r: Option<usize>)
    ensures
        match r {
            Some(p) => p < encode_utf8(s@).len() && encode_utf8(s@)[p as int] == 0
                && forall|j: int| 0 <= j < p ==> encode_utf8(s@)[j] != 0,
            None => forall|j: int| 0 <= j < encode_utf8(s@).len() ==> encode_utf8(s@)[j] != 0,
        },
        r matches Some(p) ==> nul_byte_offset(s@) == Some(p as int),
        r is None <==> nul_byte_offset(s@) is None,
{
    let bytes = s.as_str().as_bytes();
    let ghost b = encode_utf8(s@);
    assert(bytes@ == b);
    let mut i: usize = 0;
    while i < bytes.len()
        invariant
            bytes@ == b,
            b == encode_utf8(s@),
            i <= b.len(),
            forall|j: int| 0 <= j < i ==> b[j] != 0,
        decreases bytes.len() - i,
    {
        if bytes[i] == 0 {
            proof {
                // `i` is the first zero byte, the one `first_zero_byte` names
                assert(0 <= i < b.len() && b[i as int] == 0 && forall|j: int| 0 <= j < i ==> b[j] != 0);
            }
            return Some(i);
        }
        i = i + 1;
    }
    None
}

/// Checks that none of the strings holds a NUL byte.
pub fn check_no_nul(v: &Vec<String>) -> (r: Result<(), NulError>)
    ensures
        r is Ok <==> forall|k: int| 0 <= k < v@.len() ==> nul_byte_offset(#[trigger] v@[k]@) is None,
        r matches Err(e) ==> {
            &&& e.item < v@.len()
            &&& nul_byte_offset(v@[e.item as int]@) == Some(e.position as int)
            &&& forall|k: int| 0 <= k < e.item ==> nul_byte_offset(#[trigger] v@[k]@) is None
        },
{
    let mut k: usize = 0;
    while k < v.len()
        invariant
            k <= v@.len(),
            forall|j: int| 0 <= j < k ==> nul_byte_offset(#[trigger] v@[j]@) is None,
        decreases v.len() - k,
    {
        match find_nul(&v[k]) {
            Some(p) => {
                return Err(NulError { item: k, position: p });
            },
            None => {},
        }
        k = k + 1;
    }
    Ok(())
}

} // verus!
