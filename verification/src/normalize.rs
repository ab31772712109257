//! Normalizer: rewrites text character by character against an ordered
//! collection of confusable sets, first match wins.

use vstd::prelude::*;
use crate::locale::Locale;
use crate::locale::LocaleID;
use crate::lookalikes::Lookalikes;
use crate::text::build_string;
use crate::text::collect_chars;

verus! {

/// The outcome of normalizing a text: the rewritten string, and whether any
/// substitution happened anywhere, computed as a whole-string inequality
/// between input and output (not a count or a list of positions).
#[derive(Debug)]
pub struct TextNormalizationResult {
    pub lookalikes_removed: bool,
    pub value: String,
}

/// The character that a single character is rewritten to: the first set in
/// the given order that resolves it for the target locale decides; if no set
/// resolves it, the character passes through unchanged.
pub open spec fn resolved_char(sets: Seq<Lookalikes>, c: char, target: LocaleID) -> char
    decreases sets.len(),
{
    if sets.len() == 0 {
        c
    } else {
        match sets[0].resolve_spec(c, target) {
            Some(nc) => nc,
            None => resolved_char(sets.drop_first(), c, target),
        }
    }
}

/// The rewritten text: each character mapped independently and in place, so
/// order and count are preserved.
pub open spec fn normalized_text(sets: Seq<Lookalikes>, text: Seq<char>, target: LocaleID) -> Seq<
    char,
> {
    text.map_values(|c: char| resolved_char(sets, c, target))
}

/// Resolves one character against the sets in order; the first success wins.
fn resolve_first(sets: &Vec<Lookalikes>, c: char, target: LocaleID) -> (r: char)
    ensures
        r == resolved_char(sets@, c, target),
{
    let mut j: usize = 0;
    proof {
        assert(sets@.skip(0) =~= sets@);
    }
    while j < sets.len()
        invariant
            j <= sets@.len(),
            resolved_char(sets@, c, target) == resolved_char(sets@.skip(j as int), c, target),
        decreases sets@.len() - j,
    {
        proof {
            assert(sets@.skip(j as int)[0] == sets@[j as int]);
            assert(sets@.skip(j as int).drop_first() =~= sets@.skip(j + 1));
        }
        match sets[j].try_convert_to_locale(&c, target) {
            Ok(nc) => {
                return nc;
            },
            Err(_) => {},
        }
        j = j + 1;
    }
    c
}

/// Rewrites `text` character by character: each character is replaced by the
/// canonical glyph of the first confusable set that resolves it for
/// `target_locale`, and passes through unchanged when no set does.
/// `lookalikes_removed` reports whether the output differs from the input.
/// The locale table is reserved for future passthrough shortcuts and has no
/// effect on the result.
pub fn make_normalized_text(
    text: &str,
    _locales: &Vec<Locale>,
    lookalike_sets: &Vec<Lookalikes>,
    target_locale: LocaleID,
) -> (r: TextNormalizationResult)
    ensures
        r.value@ == normalized_text(lookalike_sets@, text@, target_locale),
        r.lookalikes_removed == (r.value@ != text@),
{
    let in_chars = collect_chars(text);
    let mut out_chars: Vec<char> = Vec::new();
    let mut changed = false;
    let mut i: usize = 0;
    while i < in_chars.len()
        invariant
            i <= in_chars@.len(),
            in_chars@ == text@,
            out_chars@.len() == i,
            forall|k: int|
                0 <= k < i ==> out_chars@[k] == resolved_char(
                    lookalike_sets@,
                    in_chars@[k],
                    target_locale,
                ),
            changed == exists|k: int| 0 <= k < i && out_chars@[k] != in_chars@[k],
        decreases in_chars@.len() - i,
    {
        let c = in_chars[i];
        let nc = resolve_first(lookalike_sets, c, target_locale);
        out_chars.push(nc);
        if nc != c {
            changed = true;
            proof {
                assert(out_chars@[i as int] != in_chars@[i as int]);
            }
        } else {
            proof {
                assert(out_chars@[i as int] == in_chars@[i as int]);
            }
        }
        i = i + 1;
    }
    proof {
        assert(out_chars@ =~= normalized_text(lookalike_sets@, text@, target_locale));
        if changed {
            let k = choose|k: int| 0 <= k < i && out_chars@[k] != in_chars@[k];
            assert(out_chars@[k] != text@[k]);
        } else {
            assert(out_chars@ =~= text@);
        }
    }
    let value = build_string(&out_chars);
    TextNormalizationResult { lookalikes_removed: changed, value }
}

/// Determinism: the normalized text is a function of the text, the sets and
/// the target locale alone, so two normalizations of identical inputs yield
/// identical character sequences.
pub proof fn lemma_normalize_deterministic(
    sets: Seq<Lookalikes>,
    text: Seq<char>,
    target: LocaleID,
    v1: Seq<char>,
    v2: Seq<char>,
)
    requires
        v1 == normalized_text(sets, text, target),
        v2 == normalized_text(sets, text, target),
    ensures
        v1 == v2,
{
}

/// Priority: the first set in order that resolves a character decides its
/// replacement; every later set is ignored for that character, whatever it
/// would map it to.
pub proof fn lemma_first_match_wins(sets: Seq<Lookalikes>, c: char, target: LocaleID, i: int)
    requires
        0 <= i < sets.len(),
        sets[i].resolve_spec(c, target) is Some,
        forall|k: int| 0 <= k < i ==> (#[trigger] sets[k].resolve_spec(c, target)) is None,
    ensures
        resolved_char(sets, c, target) == sets[i].resolve_spec(c, target)->Some_0,
    decreases i,
{
    if i > 0 {
        assert(sets[0].resolve_spec(c, target) is None);
        assert forall|k: int| 0 <= k < i - 1 implies (#[trigger] sets.drop_first()[k].resolve_spec(
            c,
            target,
        )) is None by {
            assert(sets.drop_first()[k] == sets[k + 1]);
        }
        assert(sets.drop_first()[i - 1] == sets[i]);
        lemma_first_match_wins(sets.drop_first(), c, target, i - 1);
    }
}

/// Priority over a pair of sets: when the earlier of two sets resolves a
/// character for the target locale, its canonical character is chosen,
/// whatever the later set would map the character to.
pub proof fn lemma_earlier_of_two_wins(s1: Lookalikes, s2: Lookalikes, x: char, target: LocaleID)
    requires
        s1.resolve_spec(x, target) is Some,
    ensures
        resolved_char(seq![s1, s2], x, target) == s1.resolve_spec(x, target)->Some_0,
{
    assert(seq![s1, s2][0] == s1);
}

/// A character that every set either fails to resolve or maps to itself
/// passes through unchanged.
proof fn lemma_resolved_char_fixed(sets: Seq<Lookalikes>, c: char, target: LocaleID)
    requires
        forall|k: int|
            0 <= k < sets.len() && (#[trigger] sets[k].resolve_spec(c, target)) is Some ==> sets[
                k
            ].resolve_spec(c, target) == Some(c),
    ensures
        resolved_char(sets, c, target) == c,
    decreases sets.len(),
{
    if sets.len() > 0 {
        assert forall|k: int|
            0 <= k < sets.drop_first().len() && (#[trigger] sets.drop_first()[k].resolve_spec(
                c,
                target,
            )) is Some implies sets.drop_first()[k].resolve_spec(c, target) == Some(c) by {
            assert(sets.drop_first()[k] == sets[k + 1]);
        }
        lemma_resolved_char_fixed(sets.drop_first(), c, target);
    }
}

/// Identity: when every character of the text is, in each set that resolves
/// it, already the canonical glyph for the target locale, normalization
/// leaves the text unchanged.
pub proof fn lemma_canonical_text_unchanged(
    sets: Seq<Lookalikes>,
    text: Seq<char>,
    target: LocaleID,
)
    requires
        forall|j: int, k: int|
            0 <= j < text.len() && 0 <= k < sets.len() && (#[trigger] sets[k].resolve_spec(
                text[j],
                target,
            )) is Some ==> sets[k].resolve_spec(text[j], target) == Some(text[j]),
    ensures
        normalized_text(sets, text, target) == text,
{
    assert forall|j: int| 0 <= j < text.len() implies resolved_char(sets, text[j], target)
        == text[j] by {
        lemma_resolved_char_fixed(sets, text[j], target);
    }
    assert(normalized_text(sets, text, target) =~= text);
}

/// With an empty sequence of confusable sets, normalization is the identity
/// on any text.
pub proof fn lemma_no_sets_identity(text: Seq<char>, target: LocaleID)
    ensures
        normalized_text(Seq::<Lookalikes>::empty(), text, target) == text,
{
    assert(normalized_text(Seq::<Lookalikes>::empty(), text, target) =~= text);
}

} // verus!
