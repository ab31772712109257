//! Locale table: named target alphabets.

use vstd::prelude::*;
use crate::text::collect_chars;
use crate::text::is_sorted;
use crate::text::sort_chars;

verus! {

/// Identifier of a supported target alphabet; a value type compared by
/// identity.
#[derive(Hash, PartialEq, Eq, Debug, Clone, Copy, Structural)]
pub enum LocaleID {
    Ru,
    En,
}

/// A named target alphabet: every character of a source string, sorted
/// ascending by code point with duplicates preserved, paired with its
/// identifier. Immutable once constructed.
#[derive(Debug, PartialEq)]
pub struct Locale {
    pub symbols: Vec<char>,
    pub id: LocaleID,
}

impl Locale {
    /// Builds a locale table from the characters of `text`; construction
    /// never fails. `symbols` is the sorted permutation of the characters
    /// of `text`.
    pub fn new(text: &str, id: LocaleID) -> (l: Locale)
        ensures
            is_sorted(l.symbols@),
            l.symbols@.to_multiset() == text@.to_multiset(),
            l.id == id,
    {
        let symbols = sort_chars(collect_chars(text));
        Locale { symbols, id }
    }

    /// The built-in Russian and English alphabet tables, covering the
    /// respective upper- and lower-case letters.
    pub fn create_defaults() -> (r: Vec<Locale>)
        ensures
            r@.len() == 2,
            r@[0].id == LocaleID::Ru,
            r@[1].id == LocaleID::En,
            is_sorted(r@[0].symbols@),
            is_sorted(r@[1].symbols@),
            r@[0].symbols@.to_multiset() == (
            "АаБбВвГгДдЕеЁёЖжЗзИиЙйКкЛлМмНнОоПпСсТтУуФфХхЦцЧчШшЩщЪъЫыЬьЭэЮюЯя")@.to_multiset(),
            r@[1].symbols@.to_multiset() == (
            "abcdefeghjiklmnopqrstuvwxyzABCDEFEGHJIKLMNOPQRSTUVWXYZ")@.to_multiset(),
    {
        let ru = Locale::new(
            "АаБбВвГгДдЕеЁёЖжЗзИиЙйКкЛлМмНнОоПпСсТтУуФфХхЦцЧчШшЩщЪъЫыЬьЭэЮюЯя",
            LocaleID::Ru,
        );
        let en = Locale::new("abcdefeghjiklmnopqrstuvwxyzABCDEFEGHJIKLMNOPQRSTUVWXYZ", LocaleID::En);
        let mut r: Vec<Locale> = Vec::new();
        r.push(ru);
        r.push(en);
        r
    }
}

} // verus!
