//! Derivation of stems, exclusion decisions and locale keys from the names of
//! definition files.
//!
//! A definition file is named `<stem>.xml`; its locale key is the stem
//! truncated at the first occurrence of the variant-separator token `-t`, and
//! a stem whose first character is the exclusion marker `_` keeps the file out
//! of the corpus index altogether.

use vstd::prelude::*;

verus! {

/// The corpus convention reserves a leading underscore in a file's stem for
/// files that must never be indexed.
pub open spec fn excluded_spec(stem: Seq<char>) -> bool {
    stem.len() > 0 && stem[0] == '_'
}

/// Decides whether a file stem carries the exclusion marker.
pub fn is_excluded(stem: &str) -> (r: bool)
    ensures
        r == excluded_spec(stem@),
{
    let n = stem.unicode_len();
    if n == 0 {
        false
    } else {
        stem.get_char(0) == '_'
    }
}

/// The name ends in the `.xml` extension.
pub open spec fn xml_named_spec(name: Seq<char>) -> bool {
    &&& name.len() >= 4
    &&& name[name.len() - 4] == '.'
    &&& name[name.len() - 3] == 'x'
    &&& name[name.len() - 2] == 'm'
    &&& name[name.len() - 1] == 'l'
}

/// Decides whether a file name carries the `.xml` extension.
pub fn is_xml_named(name: &str) -> (r: bool)
    ensures
        r == xml_named_spec(name@),
{
    let n = name.unicode_len();
    if n < 4 {
        return false;
    }
    name.get_char(n - 4) == '.' && name.get_char(n - 3) == 'x' && name.get_char(n - 2) == 'm'
        && name.get_char(n - 1) == 'l'
}

/// The stem of a definition file's name: the name with its final `.xml`
/// extension removed. A name that is nothing but the extension has no
/// shorter stem and stands as its own, as does a name without the extension.
pub open spec fn stem_spec(name: Seq<char>) -> Seq<char> {
    if name.len() > 4 && xml_named_spec(name) {
        name.take(name.len() - 4)
    } else {
        name
    }
}

/// Removes the `.xml` extension from a file name.
pub fn stem_of(name: &str) -> (r: String)
    ensures
        r@ == stem_spec(name@),
{
    let n = name.unicode_len();
    if n > 4 && is_xml_named(name) {
        let s = name.substring_char(0, n - 4);
        assert(s@ =~= name@.take(n - 4));
        s.to_owned()
    } else {
        name.to_owned()
    }
}

/// The variant-separator token `-t` starts at position `i` of the stem.
pub open spec fn sep_at(s: Seq<char>, i: int) -> bool {
    &&& 0 <= i
    &&& i + 2 <= s.len()
    &&& s[i] == '-'
    &&& s[i + 1] == 't'
}

/// The position of the first variant-separator token at or after `from`,
/// if the stem holds one.
pub open spec fn first_sep_from(s: Seq<char>, from: int) -> Option<int>
    recommends
        0 <= from,
    decreases s.len() - from when 0 <= from

{
    if from + 2 > s.len() {
        None
    } else if sep_at(s, from) {
        Some(from)
    } else {
        first_sep_from(s, from + 1)
    }
}

/// The locale key of a stem: the stem truncated at the first occurrence of
/// the variant-separator token, or the whole stem when the token is absent.
pub open spec fn locale_key_spec(stem: Seq<char>) -> Seq<char> {
    match first_sep_from(stem, 0) {
        Some(i) => stem.take(i),
        None => stem,
    }
}

/// Truncates a stem at the first variant-separator token.
pub fn locale_key_of(stem: &str) -> (r: String)
    ensures
        r@ == locale_key_spec(stem@),
{
    let n = stem.unicode_len();
    let mut i: usize = 0;
    loop
        invariant
            n == stem@.len(),
            i <= n,
            first_sep_from(stem@, 0) == first_sep_from(stem@, i as int),
        decreases n - i,
    {
        if n - i < 2 {
            assert(first_sep_from(stem@, i as int) is None);
            return stem.to_owned();
        }
        if stem.get_char(i) == '-' && stem.get_char(i + 1) == 't' {
            assert(sep_at(stem@, i as int));
            assert(first_sep_from(stem@, i as int) == Some(i as int));
            let r = stem.substring_char(0, i);
            assert(r@ =~= stem@.take(i as int));
            return r.to_owned();
        }
        assert(!sep_at(stem@, i as int));
        assert(first_sep_from(stem@, i as int) == first_sep_from(stem@, i + 1 as int));
        i = i + 1;
    }
}

/// A file name enters the corpus index exactly when it carries the `.xml`
/// extension and its stem does not carry the exclusion marker.
pub open spec fn indexed_spec(name: Seq<char>) -> bool {
    xml_named_spec(name) && !excluded_spec(stem_spec(name))
}

/// Decides whether a file name belongs in the corpus index.
pub fn is_indexed(name: &str) -> (r: bool)
    ensures
        r == indexed_spec(name@),
{
    if !is_xml_named(name) {
        return false;
    }
    let stem = stem_of(name);
    !is_excluded(stem.as_str())
}

} // verus!
