//! The cheap test on a raw dump line, made before any parsing, and the
//! framing of the record text within the line.
use crate::record::SUBCLASS_OF_CLAIM;
use vstd::prelude::*;
use vstd::string::*;
use vstd::utf8::encode_utf8;

verus! {

/// `needle` occurs in `haystack` at byte offset `i`.
pub open spec fn occurs_at(haystack: Seq<u8>, needle: Seq<u8>, i: int) -> bool {
    0 <= i && i + needle.len() <= haystack.len() && haystack.subrange(i, i + needle.len()) == needle
}

/// `needle` occurs somewhere in `haystack`.
pub open spec fn mentions(haystack: Seq<u8>, needle: Seq<u8>) -> bool {
    exists|i: int| occurs_at(haystack, needle, i)
}

/// Relies on `memchr::memmem::find`: the offset of the first occurrence of
/// `needle` in `haystack`, if there is one.
#[verifier::external_body]
fn find_bytes(haystack: &[u8], needle: &[u8]) -> (r: Option<usize>)
    ensures
        match r {
            Some(i) => occurs_at(haystack@, needle@, i as int) && forall|j: int|
                0 <= j < i ==> !occurs_at(haystack@, needle@, j),
            None => forall|j: int| !occurs_at(haystack@, needle@, j),
        },
{
    memchr::memmem::find(haystack, needle)
}

/// Whether `needle` occurs in `line`, byte for byte.
pub fn grep(line: &str, needle: &str) -> (r: bool)
    ensures
        r == mentions(encode_utf8(line@), encode_utf8(needle@)),
{
    match find_bytes(line.as_bytes(), needle.as_bytes()) {
        Some(i) => {
            assert(occurs_at(line.spec_bytes(), needle.spec_bytes(), i as int));
            true
        },
        None => false,
    }
}

/// A line is worth parsing when it mentions every mandatory claim kind, or
/// the subtype claim kind.
pub open spec fn worth_parsing(line: Seq<char>, mandatory: Seq<String>) -> bool {
    let bytes = encode_utf8(line);
    (forall|k: int| 0 <= k < mandatory.len() ==> mentions(bytes, encode_utf8((#[trigger] mandatory[k])@)))
        || mentions(bytes, encode_utf8(SUBCLASS_OF_CLAIM@))
}

/// Whether a raw line is worth parsing.
pub fn passes_prefilter(line: &str, mandatory: &Vec<String>) -> (r: bool)
    ensures
        r == worth_parsing(line@, mandatory@),
{
    let mut all = true;
    let mut k: usize = 0;
    while k < mandatory.len()
        invariant
            k <= mandatory@.len(),
            all == forall|j: int| 0 <= j < k ==> mentions(encode_utf8(line@), encode_utf8((#[trigger] mandatory@[j])@)),
        decreases mandatory@.len() - k,
    {
        if !grep(line, mandatory[k].as_str()) {
            all = false;
        }
        k = k + 1;
    }
    all || grep(line, SUBCLASS_OF_CLAIM)
}

/// The record text of a dump line: lines of two bytes or fewer (the opening
/// and closing brackets of the dump) hold none; otherwise the line without
/// its last character (the separating comma).
pub open spec fn record_body(line: Seq<char>) -> Option<Seq<char>> {
    if encode_utf8(line).len() <= 2 {
        None
    } else {
        Some(line.drop_last())
    }
}

/// The record text of a dump line, if it holds one.
pub fn record_text(line: &str) -> (r: Option<String>)
    ensures
        match r {
            Some(s) => record_body(line@) == Some(s@),
            None => record_body(line@) is None,
        },
{
    if line.as_bytes().len() <= 2 {
        return None;
    }
    let n = line.unicode_len();
    if n == 0 {
        assert(line@ =~= Seq::<char>::empty());
        assert(encode_utf8(line@).len() == 0) by {
            reveal_with_fuel(encode_utf8, 1);
        }
        return None;
    }
    Some(String::from_str(line.substring_char(0, n - 1)))
}

} // verus!
