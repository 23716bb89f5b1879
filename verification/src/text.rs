//! Text matching for the search: lower-casing and substring search.

use vstd::prelude::*;
use vstd::slice::*;
use vstd::string::*;
use vstd::utf8::*;

verus! {

/// The lower-case form of a text, as `str::to_lowercase` gives it.
pub uninterp spec fn lowercased(text: Seq<char>) -> Seq<char>;

/// `str::to_lowercase`: the text with every character mapped to lower case
/// by the Unicode rules.
#[verifier::external_body]
pub(crate) fn to_lowercase(text: &str) -> (res: String)
    ensures
        res@ == lowercased(text@),
{
    text.to_lowercase()
}

/// Whether `needle` stands in `hay` at offset `at`.
pub open spec fn occurs_at(hay: Seq<u8>, needle: Seq<u8>, at: int) -> bool {
    0 <= at && at + needle.len() <= hay.len() && hay.subrange(at, at + needle.len()) == needle
}

/// Whether `needle` stands somewhere in `hay`, as one contiguous run.
pub open spec fn occurs_in(hay: Seq<u8>, needle: Seq<u8>) -> bool {
    exists|at: int| occurs_at(hay, needle, at)
}

/// Whether a body matches a keyword: the keyword's lower-case form occurs in
/// the body's lower-case form, both taken as UTF-8.
pub open spec fn body_matches(body: Seq<char>, keyword: Seq<char>) -> bool {
    occurs_in(encode_utf8(lowercased(body)), encode_utf8(lowercased(keyword)))
}

/// Whether `needle` stands in `hay` at offset `at`.
fn matches_at(hay: &[u8], needle: &[u8], at: usize) -> (res: bool)
    requires
        at + needle@.len() <= hay@.len(),
    ensures
        res == occurs_at(hay@, needle@, at as int),
{
    let mut k: usize = 0;
    while k < needle.len()
        invariant
            k <= needle@.len(),
            needle@.len() == needle.len(),
            hay@.len() == hay.len(),
            at + needle@.len() <= hay@.len(),
            forall|i: int| 0 <= i < k ==> hay@[at + i] == needle@[i],
        decreases needle@.len() - k,
    {
        if hay[at + k] != needle[k] {
            assert(hay@.subrange(at as int, at + needle@.len())[k as int] != needle@[k as int]);
            return false;
        }
        k += 1;
    }
    assert(hay@.subrange(at as int, at + needle@.len()) =~= needle@);
    true
}

/// Whether `needle` stands somewhere in `hay`. The empty needle stands in
/// every text.
pub fn contains_bytes(hay: &[u8], needle: &[u8]) -> (res: bool)
    ensures
        res == occurs_in(hay@, needle@),
{
    if needle.len() > hay.len() {
        return false;
    }
    let last: usize = hay.len() - needle.len();
    let mut at: usize = 0;
    loop
        invariant
            at <= last,
            last == hay@.len() - needle@.len(),
            forall|i: int| 0 <= i < at ==> !occurs_at(hay@, needle@, i),
        decreases last - at,
    {
        if matches_at(hay, needle, at) {
            return true;
        }
        if at == last {
            return false;
        }
        at += 1;
    }
}

/// Whether `body` contains `keyword`, letter case aside.
pub fn matches_keyword(body: &str, keyword: &str) -> (res: bool)
    ensures
        res == body_matches(body@, keyword@),
{
    let hay = to_lowercase(body);
    let needle = to_lowercase(keyword);
    contains_bytes(hay.as_str().as_bytes(), needle.as_str().as_bytes())
}

} // verus!
