use homoglyphs::Error;
use homoglyphs::Locale;
use homoglyphs::LocaleID;
use homoglyphs::Lookalikes;

#[test]
fn build_sample_lookalike() {
    let lookalikes_string = "iıɩɪⅰｉιіӏᎥιℹⅈ𝐢𝑖𝒊𝒾𝓲𝔦𝕚𝖎𝗂𝗶𝘪𝙞𝚒𝚤𝛊𝜄𝜾𝝸𝞲⍳";
    let lookalikes = Lookalikes::new(lookalikes_string, |c| match c {
        'i' => Some(LocaleID::En),
        _ => None,
    })
    .unwrap();
    let test_chars = vec!['ı', 'ɪ', 'ɪ'];
    let filtered_chars: Vec<_> = test_chars
        .into_iter()
        .filter_map(|c| lookalikes.try_convert_to_locale(&c, LocaleID::En).ok())
        .collect();
    let desired_chars = vec!['i', 'i', 'i'];
    assert_eq!(filtered_chars, desired_chars)
}

#[test]
fn member_characters_are_contained() {
    let set = Lookalikes::new("iıɩɪⅰｉιіӏᎥιℹⅈ", |c| match c {
        'i' => Some(LocaleID::En),
        _ => None,
    })
    .unwrap();
    for c in "iıɩɪⅰｉιіӏᎥιℹⅈ".chars() {
        assert!(set.contains_symbol(&c));
    }
}

#[test]
fn non_member_characters_are_not_contained() {
    let set = Lookalikes::new("iıɩɪ", |c| match c {
        'i' => Some(LocaleID::En),
        _ => None,
    })
    .unwrap();
    assert!(!set.contains_symbol(&'z'));
    assert!(!set.contains_symbol(&'a'));
}

#[test]
fn resolve_missing_symbol() {
    let set = Lookalikes::new("iıɩɪ", |c| match c {
        'i' => Some(LocaleID::En),
        _ => None,
    })
    .unwrap();
    let r = set.try_convert_to_locale(&'z', LocaleID::En);
    assert_eq!(r, Err(Error::LookalikesMissingSymbol('z')));
}

#[test]
fn resolve_missing_locale() {
    let set = Lookalikes::new("yуɣ", |c| match c {
        'y' => Some(LocaleID::En),
        _ => None,
    })
    .unwrap();
    let r = set.try_convert_to_locale(&'y', LocaleID::Ru);
    assert_eq!(r, Err(Error::LookalikesMissingLocale(LocaleID::Ru)));
}

#[test]
fn construction_rejects_locale_collision() {
    let r = Lookalikes::new("ab", |c| match c {
        'a' => Some(LocaleID::En),
        'b' => Some(LocaleID::En),
        _ => None,
    });
    assert_eq!(
        r.err(),
        Some(Error::LookalikesCanonicalCollision(LocaleID::En, 'b'))
    );
}

#[test]
fn construction_ignores_repeated_identical_candidate() {
    let set = Lookalikes::new("aab", |c| match c {
        'a' => Some(LocaleID::En),
        _ => None,
    })
    .unwrap();
    assert_eq!(set.try_convert_to_locale(&'b', LocaleID::En), Ok('a'));
}

#[test]
fn locale_new_sorts_and_keeps_duplicates() {
    let l = Locale::new("cbaa", LocaleID::En);
    assert_eq!(l.symbols, vec!['a', 'a', 'b', 'c']);
    assert_eq!(l.id, LocaleID::En);
}

#[test]
fn default_locales_cover_russian_and_english() {
    let locales = Locale::create_defaults();
    assert_eq!(locales.len(), 2);
    assert_eq!(locales[0].id, LocaleID::Ru);
    assert_eq!(locales[1].id, LocaleID::En);
    assert_eq!(locales[0].symbols.len(), 64);
    assert_eq!(locales[1].symbols.len(), 54);
    assert!(locales[0].symbols.contains(&'а'));
    assert!(locales[1].symbols.contains(&'a'));
}
