//! Confusable-set registry: one equivalence class of visually similar
//! characters, with a bijective locale-to-canonical-glyph mapping.

use vstd::prelude::*;
use crate::locale::LocaleID;
use crate::text::collect_chars;
use crate::text::is_sorted;
use crate::text::sort_chars;
use crate::text::sorted_contains;

verus! {

broadcast use vstd::seq_lib::group_to_multiset_ensures;

/// Errors raised by confusable-set construction and queries.
#[derive(Debug, Clone, Copy, PartialEq, Eq)]
pub enum Error {
    /// The character is not a member of this set's `all_symbols`.
    LookalikesMissingSymbol(char),
    /// The character is a member, but no canonical glyph is registered for
    /// the requested locale within this set.
    LookalikesMissingLocale(LocaleID),
    /// Construction found a second canonical candidate for a locale or a
    /// character that was already registered; the offending pair is carried.
    LookalikesCanonicalCollision(LocaleID, char),
}

/// The mapping that a sequence of `(locale, canonical character)` entries
/// denotes; a later entry for the same locale overrides an earlier one.
spec fn entries_map(entries: Seq<(LocaleID, char)>) -> Map<LocaleID, char>
    decreases entries.len(),
{
    if entries.len() == 0 {
        Map::empty()
    } else {
        entries_map(entries.drop_last()).insert(entries.last().0, entries.last().1)
    }
}

/// The outcome of assembling candidate `(locale, canonical character)` pairs
/// into a bijective mapping, scanning left to right: a repeated identical
/// pair is ignored; a pair whose locale or character was already registered
/// with a different partner is a collision and construction stops there.
pub open spec fn build_canon(cands: Seq<(LocaleID, char)>) -> Result<
    Map<LocaleID, char>,
    (LocaleID, char),
>
    decreases cands.len(),
{
    if cands.len() == 0 {
        Ok(Map::empty())
    } else {
        match build_canon(cands.drop_last()) {
            Err(p) => Err(p),
            Ok(m) => {
                let l = cands.last().0;
                let c = cands.last().1;
                if m.dom().contains(l) && m[l] == c {
                    Ok(m)
                } else if m.dom().contains(l) {
                    Err((l, c))
                } else if exists|l2: LocaleID| #[trigger] m.dom().contains(l2) && m[l2] == c {
                    Err((l, c))
                } else {
                    Ok(m.insert(l, c))
                }
            },
        }
    }
}

/// The classifier can answer only `Some(l)` at the character `c`: every
/// outcome its postcondition admits there is that locale.
pub open spec fn classifies_to<F: Fn(&char) -> Option<LocaleID>>(
    symbol_sorter: F,
    c: char,
    l: LocaleID,
) -> bool {
    forall|o: Option<LocaleID>| #[trigger] call_ensures(symbol_sorter, (&c,), o) ==> o == Some(l)
}

/// No collision is possible among the characters of `text`: the classifier
/// answers deterministically on each of them, and no two distinct characters
/// can be classified to one locale.
pub open spec fn classifier_collision_free<F: Fn(&char) -> Option<LocaleID>>(
    symbol_sorter: F,
    text: Seq<char>,
) -> bool {
    &&& forall|c: char, o1: Option<LocaleID>, o2: Option<LocaleID>|
        text.contains(c) && #[trigger] call_ensures(symbol_sorter, (&c,), o1)
            && #[trigger] call_ensures(symbol_sorter, (&c,), o2) ==> o1 == o2
    &&& forall|c1: char, c2: char, l: LocaleID|
        text.contains(c1) && text.contains(c2) && #[trigger] call_ensures(
            symbol_sorter,
            (&c1,),
            Some(l),
        ) && #[trigger] call_ensures(symbol_sorter, (&c2,), Some(l)) ==> c1 == c2
}

/// A confusable set: the sorted membership sequence of all lookalike
/// characters, and the bijective locale-to-canonical-glyph mapping, kept as
/// entries with pairwise distinct locales and pairwise distinct characters.
/// Immutable once constructed.
#[derive(Debug)]
pub struct Lookalikes {
    all_symbols: Vec<char>,
    by_locale: Vec<(LocaleID, char)>,
}

impl Lookalikes {
    /// The full membership sequence, sorted ascending by code point
    /// (duplicates preserved).
    pub closed spec fn symbols(&self) -> Seq<char> {
        self.all_symbols@
    }

    /// The locale-to-canonical-glyph mapping.
    pub closed spec fn canon(&self) -> Map<LocaleID, char> {
        entries_map(self.by_locale@)
    }

    /// What resolving a character against this set for a target locale
    /// yields: the canonical glyph when the character is a member and the
    /// locale is registered, nothing otherwise.
    pub open spec fn resolve_spec(&self, c: char, locale: LocaleID) -> Option<char> {
        if self.symbols().contains(c) && self.canon().dom().contains(locale) {
            Some(self.canon()[locale])
        } else {
            None
        }
    }

    #[verifier::type_invariant]
    spec fn wf(&self) -> bool {
        &&& is_sorted(self.all_symbols@)
        &&& forall|k: int|
            0 <= k < self.by_locale@.len() ==> self.all_symbols@.contains(
                (#[trigger] self.by_locale@[k]).1,
            )
        &&& forall|k1: int, k2: int|
            0 <= k1 < k2 < self.by_locale@.len() ==> self.by_locale@[k1].0
                != self.by_locale@[k2].0
        &&& forall|k1: int, k2: int|
            0 <= k1 < k2 < self.by_locale@.len() ==> self.by_locale@[k1].1
                != self.by_locale@[k2].1
    }
}

/// An entry of a sequence with pairwise distinct locales is bound in the
/// denoted mapping.
proof fn lemma_entries_map_index(entries: Seq<(LocaleID, char)>, i: int)
    requires
        0 <= i < entries.len(),
        forall|k1: int, k2: int|
            0 <= k1 < k2 < entries.len() ==> entries[k1].0 != entries[k2].0,
    ensures
        entries_map(entries).dom().contains(entries[i].0),
        entries_map(entries)[entries[i].0] == entries[i].1,
    decreases entries.len(),
{
    if i < entries.len() - 1 {
        lemma_entries_map_index(entries.drop_last(), i);
        assert(entries.drop_last()[i] == entries[i]);
        assert(entries[entries.len() - 1].0 != entries[i].0);
    }
}

/// Every locale bound in the denoted mapping has an entry.
proof fn lemma_entries_map_dom(entries: Seq<(LocaleID, char)>, l: LocaleID)
    ensures
        entries_map(entries).dom().contains(l) ==> exists|i: int|
            0 <= i < entries.len() && (#[trigger] entries[i]).0 == l,
    decreases entries.len(),
{
    if entries.len() > 0 {
        lemma_entries_map_dom(entries.drop_last(), l);
        if entries_map(entries).dom().contains(l) {
            if entries.last().0 == l {
                assert(entries[entries.len() - 1].0 == l);
            } else {
                let i = choose|i: int|
                    0 <= i < entries.drop_last().len() && (#[trigger] entries.drop_last()[i]).0
                        == l;
                assert(entries[i].0 == l);
            }
        }
    }
}

/// A successfully assembled mapping binds only pairs among the candidates.
proof fn lemma_build_canon_ok_pairs(cands: Seq<(LocaleID, char)>)
    ensures
        build_canon(cands) matches Ok(m) ==> forall|l: LocaleID|
            #[trigger] m.dom().contains(l) ==> exists|k: int|
                0 <= k < cands.len() && cands[k] == (l, m[l]),
    decreases cands.len(),
{
    if cands.len() > 0 {
        lemma_build_canon_ok_pairs(cands.drop_last());
        if build_canon(cands) is Ok {
            let m = build_canon(cands)->Ok_0;
            let m0 = build_canon(cands.drop_last())->Ok_0;
            assert forall|l: LocaleID| #[trigger] m.dom().contains(l) implies exists|k: int|
                0 <= k < cands.len() && cands[k] == (l, m[l]) by {
                if m0.dom().contains(l) && m[l] == m0[l] {
                    let k = choose|k: int|
                        0 <= k < cands.drop_last().len() && cands.drop_last()[k] == (l, m0[l]);
                    assert(cands[k] == (l, m[l]));
                } else {
                    assert(cands[cands.len() - 1] == (l, m[l]));
                }
            }
        }
    }
}

/// A collision reported by the assembly is one of the candidate pairs.
proof fn lemma_build_canon_err_member(cands: Seq<(LocaleID, char)>)
    ensures
        build_canon(cands) matches Err(p) ==> exists|k: int|
            0 <= k < cands.len() && #[trigger] cands[k] == p,
    decreases cands.len(),
{
    if cands.len() > 0 {
        lemma_build_canon_err_member(cands.drop_last());
        if build_canon(cands) is Err {
            let p = build_canon(cands)->Err_0;
            if build_canon(cands.drop_last()) is Err {
                let k = choose|k: int|
                    0 <= k < cands.drop_last().len() && #[trigger] cands.drop_last()[k] == p;
                assert(cands[k] == p);
            } else {
                assert(cands[cands.len() - 1] == p);
            }
        }
    }
}

/// In a successful assembly every candidate pair is bound in the result:
/// the candidate's locale maps to exactly the candidate's character.
proof fn lemma_build_canon_candidate_value(cands: Seq<(LocaleID, char)>, k: int)
    requires
        build_canon(cands) is Ok,
        0 <= k < cands.len(),
    ensures
        build_canon(cands)->Ok_0.dom().contains(cands[k].0),
        build_canon(cands)->Ok_0[cands[k].0] == cands[k].1,
    decreases cands.len(),
{
    if k < cands.len() - 1 {
        lemma_build_canon_candidate_value(cands.drop_last(), k);
        assert(cands.drop_last()[k] == cands[k]);
    }
}

/// Candidates that are consistent — equal locales carry equal characters,
/// and equal characters carry equal locales — always assemble successfully.
proof fn lemma_build_canon_consistent_ok(cands: Seq<(LocaleID, char)>)
    requires
        forall|k1: int, k2: int|
            0 <= k1 < cands.len() && 0 <= k2 < cands.len() && (#[trigger] cands[k1]).0 == (
            #[trigger] cands[k2]).0 ==> cands[k1].1 == cands[k2].1,
        forall|k1: int, k2: int|
            0 <= k1 < cands.len() && 0 <= k2 < cands.len() && (#[trigger] cands[k1]).1 == (
            #[trigger] cands[k2]).1 ==> cands[k1].0 == cands[k2].0,
    ensures
        build_canon(cands) is Ok,
    decreases cands.len(),
{
    if cands.len() > 0 {
        let prefix = cands.drop_last();
        assert forall|k: int| 0 <= k < prefix.len() implies #[trigger] prefix[k] == cands[k] by {}
        lemma_build_canon_consistent_ok(prefix);
        lemma_build_canon_ok_pairs(prefix);
        let m0 = build_canon(prefix)->Ok_0;
        let l = cands.last().0;
        let c = cands.last().1;
        assert(cands[cands.len() - 1] == (l, c));
        if m0.dom().contains(l) && m0[l] != c {
            let k = choose|k: int| 0 <= k < prefix.len() && prefix[k] == (l, m0[l]);
            assert(cands[k].0 == cands[cands.len() - 1].0);
            assert(false);
        }
        if !m0.dom().contains(l) && (exists|l2: LocaleID|
            #[trigger] m0.dom().contains(l2) && m0[l2] == c) {
            let l2 = choose|l2: LocaleID| #[trigger] m0.dom().contains(l2) && m0[l2] == c;
            let k = choose|k: int| 0 <= k < prefix.len() && prefix[k] == (l2, m0[l2]);
            assert(cands[k].1 == cands[cands.len() - 1].1);
            assert(m0.dom().contains(l));
            assert(false);
        }
    }
}

/// Once a prefix of the candidates collides, the whole assembly reports
/// that same collision.
proof fn lemma_build_canon_err_prefix(cands: Seq<(LocaleID, char)>, i: int)
    requires
        0 <= i <= cands.len(),
        build_canon(cands.subrange(0, i)) is Err,
    ensures
        build_canon(cands) == build_canon(cands.subrange(0, i)),
    decreases cands.len() - i,
{
    if i == cands.len() {
        assert(cands.subrange(0, i) =~= cands);
    } else {
        assert(cands.subrange(0, i + 1).drop_last() =~= cands.subrange(0, i));
        assert(cands.subrange(0, i + 1).last() == cands[i]);
        lemma_build_canon_err_prefix(cands, i + 1);
    }
}

/// Returns the partner character of the first entry for the locale, if any.
fn find_key(entries: &Vec<(LocaleID, char)>, l: LocaleID) -> (r: Option<char>)
    ensures
        r matches Some(c) ==> exists|k: int|
            0 <= k < entries@.len() && #[trigger] entries@[k] == (l, c),
        r is None ==> forall|k: int|
            0 <= k < entries@.len() ==> (#[trigger] entries@[k]).0 != l,
{
    let mut k: usize = 0;
    while k < entries.len()
        invariant
            k <= entries@.len(),
            forall|j: int| 0 <= j < k ==> (#[trigger] entries@[j]).0 != l,
        decreases entries@.len() - k,
    {
        if entries[k].0 == l {
            return Some(entries[k].1);
        }
        k = k + 1;
    }
    None
}

/// Whether some entry carries the character as its canonical glyph.
fn has_value(entries: &Vec<(LocaleID, char)>, c: char) -> (r: bool)
    ensures
        r == exists|k: int| 0 <= k < entries@.len() && (#[trigger] entries@[k]).1 == c,
{
    let mut k: usize = 0;
    while k < entries.len()
        invariant
            k <= entries@.len(),
            forall|j: int| 0 <= j < k ==> (#[trigger] entries@[j]).1 != c,
        decreases entries@.len() - k,
    {
        if entries[k].1 == c {
            return true;
        }
        k = k + 1;
    }
    false
}

impl Lookalikes {
    /// Assembles a confusable set from its sorted membership and the
    /// candidate canonical pairs, scanning the candidates in order; fails
    /// with the first pair whose locale or character is already registered
    /// with a different partner.
    pub fn from_candidates(symbols: Vec<char>, candidates: Vec<(LocaleID, char)>) -> (r: Result<
        Lookalikes,
        Error,
    >)
        requires
            is_sorted(symbols@),
            forall|k: int|
                0 <= k < candidates@.len() ==> symbols@.contains((#[trigger] candidates@[k]).1),
        ensures
            r is Ok <==> build_canon(candidates@) is Ok,
            r matches Ok(la) ==> {
                &&& la.symbols() == symbols@
                &&& la.canon() == build_canon(candidates@)->Ok_0
                &&& forall|l1: LocaleID, l2: LocaleID|
                    la.canon().dom().contains(l1) && la.canon().dom().contains(l2)
                        && #[trigger] la.canon()[l1] == #[trigger] la.canon()[l2] ==> l1 == l2
            },
            r matches Err(e) ==> {
                &&& build_canon(candidates@) is Err
                &&& e == Error::LookalikesCanonicalCollision(
                    build_canon(candidates@)->Err_0.0,
                    build_canon(candidates@)->Err_0.1,
                )
            },
    {
        let mut entries: Vec<(LocaleID, char)> = Vec::new();
        let mut i: usize = 0;
        proof {
            assert(candidates@.subrange(0, 0) =~= Seq::<(LocaleID, char)>::empty());
        }
        while i < candidates.len()
            invariant
                i <= candidates@.len(),
                is_sorted(symbols@),
                forall|k: int|
                    0 <= k < candidates@.len() ==> symbols@.contains(
                        (#[trigger] candidates@[k]).1,
                    ),
                build_canon(candidates@.subrange(0, i as int)) is Ok,
                entries_map(entries@) == build_canon(candidates@.subrange(0, i as int))->Ok_0,
                forall|k: int|
                    0 <= k < entries@.len() ==> symbols@.contains((#[trigger] entries@[k]).1),
                forall|k1: int, k2: int|
                    0 <= k1 < k2 < entries@.len() ==> entries@[k1].0 != entries@[k2].0,
                forall|k1: int, k2: int|
                    0 <= k1 < k2 < entries@.len() ==> entries@[k1].1 != entries@[k2].1,
            decreases candidates@.len() - i,
        {
            let (l, c) = candidates[i];
            let ghost prefix = candidates@.subrange(0, i as int);
            let ghost e0 = entries@;
            let ghost m = entries_map(entries@);
            proof {
                assert(candidates@.subrange(0, i + 1).drop_last() =~= prefix);
                assert(candidates@.subrange(0, i + 1).last() == (l, c));
            }
            match find_key(&entries, l) {
                Some(c2) => {
                    proof {
                        let k = choose|k: int|
                            0 <= k < entries@.len() && #[trigger] entries@[k] == (l, c2);
                        lemma_entries_map_index(entries@, k);
                    }
                    if c2 != c {
                        proof {
                            assert(build_canon(candidates@.subrange(0, i + 1)) == Err::<
                                Map<LocaleID, char>,
                                (LocaleID, char),
                            >((l, c)));
                            lemma_build_canon_err_prefix(candidates@, i + 1);
                        }
                        return Err(Error::LookalikesCanonicalCollision(l, c));
                    }
                    proof {
                        assert(build_canon(candidates@.subrange(0, i + 1)) == Ok::<
                            Map<LocaleID, char>,
                            (LocaleID, char),
                        >(m));
                    }
                },
                None => {
                    proof {
                        lemma_entries_map_dom(entries@, l);
                        assert(!m.dom().contains(l));
                    }
                    if has_value(&entries, c) {
                        proof {
                            let k = choose|k: int|
                                0 <= k < entries@.len() && (#[trigger] entries@[k]).1 == c;
                            lemma_entries_map_index(entries@, k);
                            assert(m.dom().contains(entries@[k].0) && m[entries@[k].0] == c);
                            assert(build_canon(candidates@.subrange(0, i + 1)) == Err::<
                                Map<LocaleID, char>,
                                (LocaleID, char),
                            >((l, c)));
                            lemma_build_canon_err_prefix(candidates@, i + 1);
                        }
                        return Err(Error::LookalikesCanonicalCollision(l, c));
                    }
                    proof {
                        assert forall|l2: LocaleID| !(#[trigger] m.dom().contains(l2) && m[l2]
                            == c) by {
                            if m.dom().contains(l2) && m[l2] == c {
                                lemma_entries_map_dom(entries@, l2);
                                let k = choose|k: int|
                                    0 <= k < entries@.len() && (#[trigger] entries@[k]).0 == l2;
                                lemma_entries_map_index(entries@, k);
                            }
                        }
                        assert(build_canon(candidates@.subrange(0, i + 1)) == Ok::<
                            Map<LocaleID, char>,
                            (LocaleID, char),
                        >(m.insert(l, c)));
                    }
                    entries.push((l, c));
                    proof {
                        assert(entries@.drop_last() =~= e0);
                        assert(entries@.last() == (l, c));
                    }
                },
            }
            i = i + 1;
        }
        proof {
            assert(candidates@.subrange(0, candidates@.len() as int) =~= candidates@);
        }
        let la = Lookalikes { all_symbols: symbols, by_locale: entries };
        proof {
            assert forall|l1: LocaleID, l2: LocaleID|
                la.canon().dom().contains(l1) && la.canon().dom().contains(l2)
                    && #[trigger] la.canon()[l1] == #[trigger] la.canon()[l2] implies l1 == l2 by {
                lemma_entries_map_dom(la.by_locale@, l1);
                lemma_entries_map_dom(la.by_locale@, l2);
                let k1 = choose|k: int|
                    0 <= k < la.by_locale@.len() && (#[trigger] la.by_locale@[k]).0 == l1;
                let k2 = choose|k: int|
                    0 <= k < la.by_locale@.len() && (#[trigger] la.by_locale@[k]).0 == l2;
                lemma_entries_map_index(la.by_locale@, k1);
                lemma_entries_map_index(la.by_locale@, k2);
            }
        }
        Ok(la)
    }

    /// Builds a confusable set from the characters of `all_symbols_text` and
    /// a classifier: each character the classifier assigns to a locale is a
    /// candidate canonical glyph for that locale. Construction fails exactly
    /// when two candidates collide on a locale or on a character; for a
    /// classifier whose answers are pinned, every classified character of the
    /// text is registered under its locale.
    pub fn new<F: Fn(&char) -> Option<LocaleID>>(all_symbols_text: &str, symbol_sorter: F) -> (r:
        Result<Lookalikes, Error>)
        requires
            forall|c: char| symbol_sorter.requires((&c,)),
        ensures
            r matches Ok(la) ==> {
                &&& is_sorted(la.symbols())
                &&& la.symbols().to_multiset() == all_symbols_text@.to_multiset()
                &&& forall|l: LocaleID|
                    #[trigger] la.canon().dom().contains(l) ==> la.symbols().contains(
                        la.canon()[l],
                    ) && symbol_sorter.ensures((&la.canon()[l],), Some(l))
                &&& forall|l1: LocaleID, l2: LocaleID|
                    la.canon().dom().contains(l1) && la.canon().dom().contains(l2)
                        && #[trigger] la.canon()[l1] == #[trigger] la.canon()[l2] ==> l1 == l2
                &&& forall|c: char, l: LocaleID|
                    all_symbols_text@.contains(c) && #[trigger] classifies_to(symbol_sorter, c, l)
                        ==> la.canon().dom().contains(l) && la.canon()[l] == c
            },
            r matches Err(e) ==> exists|l: LocaleID, c: char|
                {
                    &&& e == Error::LookalikesCanonicalCollision(l, c)
                    &&& all_symbols_text@.contains(c)
                    &&& symbol_sorter.ensures((&c,), Some(l))
                },
            classifier_collision_free(symbol_sorter, all_symbols_text@) ==> r is Ok,
            (exists|c1: char, c2: char, l: LocaleID|
                c1 != c2 && all_symbols_text@.contains(c1) && all_symbols_text@.contains(c2)
                    && #[trigger] classifies_to(symbol_sorter, c1, l) && #[trigger] classifies_to(
                    symbol_sorter,
                    c2,
                    l,
                )) ==> r is Err,
    {
        let chars = sort_chars(collect_chars(all_symbols_text));
        let mut candidates: Vec<(LocaleID, char)> = Vec::new();
        let mut i: usize = 0;
        let ghost mut results: Seq<Option<LocaleID>> = Seq::empty();
        while i < chars.len()
            invariant
                i <= chars@.len(),
                is_sorted(chars@),
                chars@.to_multiset() == all_symbols_text@.to_multiset(),
                forall|c: char| symbol_sorter.requires((&c,)),
                forall|k: int|
                    0 <= k < candidates@.len() ==> chars@.contains((#[trigger] candidates@[k]).1)
                        && symbol_sorter.ensures(
                        (&candidates@[k].1,),
                        Some(candidates@[k].0),
                    ),
                results.len() == i,
                forall|j: int|
                    0 <= j < i ==> symbol_sorter.ensures((&chars@[j],), #[trigger] results[j]),
                forall|j: int|
                    0 <= j < i ==> ((#[trigger] results[j]) is Some ==> candidates@.contains(
                        (results[j]->Some_0, chars@[j]),
                    )),
            decreases chars@.len() - i,
        {
            let c = chars[i];
            let res = symbol_sorter(&c);
            let ghost previous = candidates@;
            match res {
                Some(loc) => {
                    candidates.push((loc, c));
                },
                None => {},
            }
            proof {
                results = results.push(res);
                assert(chars@[i as int] == c);
                if res is Some {
                    assert(candidates@ == previous.push((res->Some_0, c)));
                    assert(candidates@[candidates@.len() - 1] == (res->Some_0, c));
                    assert(candidates@.contains((res->Some_0, c)));
                }
                assert forall|j: int|
                    0 <= j < i + 1 && (#[trigger] results[j]) is Some implies candidates@.contains(
                    (results[j]->Some_0, chars@[j]),
                ) by {
                    if j < i {
                        let k = choose|k: int|
                            0 <= k < previous.len() && previous[k] == (
                                results[j]->Some_0,
                                chars@[j],
                            );
                        assert(candidates@[k] == (results[j]->Some_0, chars@[j]));
                    }
                }
            }
            i = i + 1;
        }
        let result = Lookalikes::from_candidates(chars, candidates);
        proof {
            lemma_build_canon_ok_pairs(candidates@);
            lemma_build_canon_err_member(candidates@);
            if result is Ok {
                let la = result->Ok_0;
                assert forall|l: LocaleID| #[trigger] la.canon().dom().contains(l) implies
                    la.symbols().contains(la.canon()[l]) && symbol_sorter.ensures(
                    (&la.canon()[l],),
                    Some(l),
                ) by {
                    let m = build_canon(candidates@)->Ok_0;
                    let k = choose|k: int|
                        0 <= k < candidates@.len() && candidates@[k] == (l, m[l]);
                    assert(chars@.contains(candidates@[k].1));
                }
                assert forall|c: char, l: LocaleID|
                    all_symbols_text@.contains(c) && #[trigger] classifies_to(
                        symbol_sorter,
                        c,
                        l,
                    ) implies la.canon().dom().contains(l) && la.canon()[l] == c by {
                    assert(all_symbols_text@.to_multiset().count(c) > 0);
                    assert(chars@.to_multiset().count(c) > 0);
                    assert(chars@.contains(c));
                    let j = choose|j: int| 0 <= j < chars@.len() && chars@[j] == c;
                    assert(symbol_sorter.ensures((&chars@[j],), results[j]));
                    assert(call_ensures(symbol_sorter, (&c,), results[j]));
                    assert(results[j] == Some(l));
                    assert(candidates@.contains((l, c)));
                    let k = choose|k: int|
                        0 <= k < candidates@.len() && candidates@[k] == (l, c);
                    lemma_build_canon_candidate_value(candidates@, k);
                }
            }
            if result is Err {
                let p = build_canon(candidates@)->Err_0;
                let k = choose|k: int|
                    0 <= k < candidates@.len() && #[trigger] candidates@[k] == p;
                assert(chars@.contains(candidates@[k].1));
                assert(chars@.to_multiset().count(p.1) > 0);
                assert(all_symbols_text@.to_multiset().count(p.1) > 0);
                assert(all_symbols_text@.contains(p.1));
            }
            if classifier_collision_free(symbol_sorter, all_symbols_text@) {
                assert forall|k1: int, k2: int|
                    0 <= k1 < candidates@.len() && 0 <= k2 < candidates@.len() && (
                    #[trigger] candidates@[k1]).0 == (#[trigger] candidates@[k2]).0 implies
                    candidates@[k1].1 == candidates@[k2].1 by {
                    assert(chars@.to_multiset().count(candidates@[k1].1) > 0);
                    assert(all_symbols_text@.to_multiset().count(candidates@[k1].1) > 0);
                    assert(all_symbols_text@.contains(candidates@[k1].1));
                    assert(chars@.to_multiset().count(candidates@[k2].1) > 0);
                    assert(all_symbols_text@.to_multiset().count(candidates@[k2].1) > 0);
                    assert(all_symbols_text@.contains(candidates@[k2].1));
                    assert(call_ensures(
                        symbol_sorter,
                        (&candidates@[k1].1,),
                        Some(candidates@[k1].0),
                    ));
                    assert(call_ensures(
                        symbol_sorter,
                        (&candidates@[k2].1,),
                        Some(candidates@[k2].0),
                    ));
                }
                assert forall|k1: int, k2: int|
                    0 <= k1 < candidates@.len() && 0 <= k2 < candidates@.len() && (
                    #[trigger] candidates@[k1]).1 == (#[trigger] candidates@[k2]).1 implies
                    candidates@[k1].0 == candidates@[k2].0 by {
                    assert(chars@.to_multiset().count(candidates@[k1].1) > 0);
                    assert(all_symbols_text@.to_multiset().count(candidates@[k1].1) > 0);
                    assert(all_symbols_text@.contains(candidates@[k1].1));
                    assert(call_ensures(
                        symbol_sorter,
                        (&candidates@[k1].1,),
                        Some(candidates@[k1].0),
                    ));
                    assert(call_ensures(
                        symbol_sorter,
                        (&candidates@[k2].1,),
                        Some(candidates@[k2].0),
                    ));
                    assert(call_ensures(
                        symbol_sorter,
                        (&candidates@[k1].1,),
                        Some(candidates@[k2].0),
                    ));
                }
                lemma_build_canon_consistent_ok(candidates@);
            }
            if exists|c1: char, c2: char, l: LocaleID|
                c1 != c2 && all_symbols_text@.contains(c1) && all_symbols_text@.contains(c2)
                    && #[trigger] classifies_to(symbol_sorter, c1, l) && #[trigger] classifies_to(
                    symbol_sorter,
                    c2,
                    l,
                ) {
                let (c1, c2, l) = choose|c1: char, c2: char, l: LocaleID|
                    c1 != c2 && all_symbols_text@.contains(c1) && all_symbols_text@.contains(c2)
                        && #[trigger] classifies_to(symbol_sorter, c1, l)
                        && #[trigger] classifies_to(symbol_sorter, c2, l);
                assert(all_symbols_text@.to_multiset().count(c1) > 0);
                assert(chars@.to_multiset().count(c1) > 0);
                assert(chars@.contains(c1));
                assert(all_symbols_text@.to_multiset().count(c2) > 0);
                assert(chars@.to_multiset().count(c2) > 0);
                assert(chars@.contains(c2));
                let j1 = choose|j: int| 0 <= j < chars@.len() && chars@[j] == c1;
                let j2 = choose|j: int| 0 <= j < chars@.len() && chars@[j] == c2;
                assert(call_ensures(symbol_sorter, (&c1,), results[j1]));
                assert(results[j1] == Some(l));
                assert(call_ensures(symbol_sorter, (&c2,), results[j2]));
                assert(results[j2] == Some(l));
                assert(candidates@.contains((l, c1)));
                assert(candidates@.contains((l, c2)));
                if build_canon(candidates@) is Ok {
                    let k1 = choose|k: int|
                        0 <= k < candidates@.len() && candidates@[k] == (l, c1);
                    let k2 = choose|k: int|
                        0 <= k < candidates@.len() && candidates@[k] == (l, c2);
                    lemma_build_canon_candidate_value(candidates@, k1);
                    lemma_build_canon_candidate_value(candidates@, k2);
                    assert(false);
                }
            }
        }
        result
    }

    /// Binary-search membership test against the sorted `all_symbols`.
    pub fn contains_symbol(&self, symbol: &char) -> (r: bool)
        ensures
            r == self.symbols().contains(*symbol),
    {
        proof {
            use_type_invariant(&*self);
        }
        sorted_contains(&self.all_symbols, *symbol)
    }

    /// Resolves a character against this set for a target locale: the
    /// canonical glyph when the character is a member and the locale is
    /// registered, the matching error otherwise.
    pub fn try_convert_to_locale(&self, symbol: &char, locale: LocaleID) -> (r: Result<
        char,
        Error,
    >)
        ensures
            !self.symbols().contains(*symbol) ==> r == Err::<char, Error>(
                Error::LookalikesMissingSymbol(*symbol),
            ),
            self.symbols().contains(*symbol) && !self.canon().dom().contains(locale) ==> r
                == Err::<char, Error>(Error::LookalikesMissingLocale(locale)),
            self.symbols().contains(*symbol) && self.canon().dom().contains(locale) ==> r == Ok::<
                char,
                Error,
            >(self.canon()[locale]),
            r is Ok <==> self.resolve_spec(*symbol, locale) is Some,
            r matches Ok(c) ==> self.resolve_spec(*symbol, locale) == Some(c)
                && self.symbols().contains(c),
    {
        proof {
            use_type_invariant(&*self);
        }
        if !self.contains_symbol(symbol) {
            return Err(Error::LookalikesMissingSymbol(*symbol));
        }
        match find_key(&self.by_locale, locale) {
            Some(out_char) => {
                proof {
                    let k = choose|k: int|
                        0 <= k < self.by_locale@.len() && #[trigger] self.by_locale@[k] == (
                        locale,
                        out_char,
                    );
                    lemma_entries_map_index(self.by_locale@, k);
                }
                Ok(out_char)
            },
            None => {
                proof {
                    lemma_entries_map_dom(self.by_locale@, locale);
                }
                Err(Error::LookalikesMissingLocale(locale))
            },
        }
    }
}

} // verus!
