//! The two text normalizers: one for fuzzy completion keys, one for exact
//! lookup keys.
use unicode_normalization::UnicodeNormalization;
use vstd::prelude::*;
use crate::text::{char_from_code, chars_of, string_of};

verus! {

/// What Unicode compatibility composition (NFKC) makes of a text.
pub uninterp spec fn nfkc_of(s: Seq<char>) -> Seq<char>;

/// What Unicode canonical composition (NFC) makes of a text.
pub uninterp spec fn nfc_of(s: Seq<char>) -> Seq<char>;

/// Relies on `unicode_normalization`'s `nfkc` iterator: the NFKC form of `s`,
/// which depends on the characters alone; the empty text stays empty.
#[verifier::external_body]
fn nfkc_string(s: &str) -> (r: String)
    ensures
        r@ == nfkc_of(s@),
        s@.len() == 0 ==> r@.len() == 0,
{
    s.nfkc().collect()
}

/// Relies on `unicode_normalization`'s `nfc` iterator: the NFC form of `s`,
/// which depends on the characters alone; the empty text stays empty.
#[verifier::external_body]
fn nfc_string(s: &str) -> (r: String)
    ensures
        r@ == nfc_of(s@),
        s@.len() == 0 ==> r@.len() == 0,
{
    s.nfc().collect()
}

/// Whether `c` is one of the Katakana letters that have a Hiragana twin
/// (U+30A1 to U+30F6).
pub open spec fn is_folded_katakana(c: char) -> bool {
    0x30a1 <= c as u32 && c as u32 <= 0x30f6
}

/// The per-character mapping of completion keys: underscore becomes a space,
/// Katakana becomes Hiragana, everything else stays.
pub open spec fn completion_char(c: char) -> char {
    if c == '_' {
        ' '
    } else if is_folded_katakana(c) {
        ((c as u32 - 0x60) as u32) as char
    } else {
        c
    }
}

/// The per-character mapping of query keys: underscore becomes a space.
pub open spec fn query_char(c: char) -> char {
    if c == '_' {
        ' '
    } else {
        c
    }
}

pub open spec fn map_completion_chars(s: Seq<char>) -> Seq<char> {
    s.map_values(|c: char| completion_char(c))
}

pub open spec fn map_query_chars(s: Seq<char>) -> Seq<char> {
    s.map_values(|c: char| query_char(c))
}

/// The completion form of a text: NFKC, then the completion mapping.
pub open spec fn completion_form(s: Seq<char>) -> Seq<char> {
    map_completion_chars(nfkc_of(s))
}

/// The query form of a text: NFC, then the query mapping.
pub open spec fn query_form(s: Seq<char>) -> Seq<char> {
    map_query_chars(nfc_of(s))
}

fn completion_char_exec(c: char) -> (r: char)
    ensures
        r == completion_char(c),
{
    if c == '_' {
        ' '
    } else if 0x30a1 <= c as u32 && c as u32 <= 0x30f6 {
        match char_from_code(c as u32 - 0x60) {
            Some(d) => d,
            None => c,
        }
    } else {
        c
    }
}

/// Applies the completion mapping to each character.
pub fn map_completion(cs: &[char]) -> (r: Vec<char>)
    ensures
        r@ == map_completion_chars(cs@),
{
    let mut r: Vec<char> = Vec::new();
    let mut i: usize = 0;
    while i < cs.len()
        invariant
            i <= cs@.len(),
            r@ == map_completion_chars(cs@.take(i as int)),
        decreases cs.len() - i,
    {
        let d = completion_char_exec(cs[i]);
        r.push(d);
        i = i + 1;
        assert(map_completion_chars(cs@.take(i as int)) =~= r@);
    }
    assert(cs@.take(i as int) =~= cs@);
    r
}

/// Applies the query mapping to each character.
pub fn map_query(cs: &[char]) -> (r: Vec<char>)
    ensures
        r@ == map_query_chars(cs@),
{
    let mut r: Vec<char> = Vec::new();
    let mut i: usize = 0;
    while i < cs.len()
        invariant
            i <= cs@.len(),
            r@ == map_query_chars(cs@.take(i as int)),
        decreases cs.len() - i,
    {
        let c = cs[i];
        let d = if c == '_' {
            ' '
        } else {
            c
        };
        r.push(d);
        i = i + 1;
        assert(map_query_chars(cs@.take(i as int)) =~= r@);
    }
    assert(cs@.take(i as int) =~= cs@);
    r
}

/// The key under which a text is indexed for fuzzy completion: NFKC, with
/// underscores turned into spaces and Katakana folded to Hiragana.
pub fn normalize_for_auto_completion(text: &str) -> (r: String)
    ensures
        r@ == completion_form(text@),
{
    let composed = nfkc_string(text);
    let cs = chars_of(composed.as_str());
    let mapped = map_completion(cs.as_slice());
    string_of(mapped.as_slice())
}

/// The key under which a text is indexed for exact lookup: NFC, with
/// underscores turned into spaces.
pub fn normalize_for_query(text: &str) -> (r: String)
    ensures
        r@ == query_form(text@),
{
    let composed = nfc_string(text);
    let cs = chars_of(composed.as_str());
    let mapped = map_query(cs.as_slice());
    string_of(mapped.as_slice())
}

} // verus!
