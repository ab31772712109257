use homoglyphs::make_normalized_text;
use homoglyphs::Locale;
use homoglyphs::LocaleID;
use homoglyphs::Lookalikes;

#[test]
fn normalize_text() {
    let start_text = "iıɩɪⅰｉιіӏᎥ";
    let lookalikes = Lookalikes::new(start_text, |c| match c {
        'i' => Some(LocaleID::En),
        _ => None,
    })
    .unwrap();
    let locales = Locale::create_defaults();
    let lookalike_sets = vec![lookalikes];
    let tnr = make_normalized_text(start_text, &locales, &lookalike_sets, LocaleID::En);
    let (normalized, _obfuscation_detected) = (tnr.value, tnr.lookalikes_removed);
    assert_eq!(normalized.as_str(), "iiiiiiiiii")
}

#[test]
fn normalize_reports_substitution() {
    let lookalikes = Lookalikes::new("iıɩɪⅰｉιіӏᎥ", |c| match c {
        'i' => Some(LocaleID::En),
        _ => None,
    })
    .unwrap();
    let locales = Locale::create_defaults();
    let sets = vec![lookalikes];
    let tnr = make_normalized_text("iıɩɪⅰｉιіӏᎥ", &locales, &sets, LocaleID::En);
    assert!(tnr.lookalikes_removed);
}

#[test]
fn normalize_is_deterministic() {
    let locales = Locale::create_defaults();
    let build = || {
        Lookalikes::new("iıɩɪⅰｉιіӏᎥ", |c| match c {
            'i' => Some(LocaleID::En),
            _ => None,
        })
        .unwrap()
    };
    let sets1 = vec![build()];
    let sets2 = vec![build()];
    let r1 = make_normalized_text("ⅰｉ plain ӏᎥ", &locales, &sets1, LocaleID::En);
    let r2 = make_normalized_text("ⅰｉ plain ӏᎥ", &locales, &sets2, LocaleID::En);
    assert_eq!(r1.value, r2.value);
    assert_eq!(r1.lookalikes_removed, r2.lookalikes_removed);
}

#[test]
fn earlier_set_wins_over_later() {
    let s1 = Lookalikes::new("xa", |c| match c {
        'a' => Some(LocaleID::En),
        _ => None,
    })
    .unwrap();
    let s2 = Lookalikes::new("xb", |c| match c {
        'b' => Some(LocaleID::En),
        _ => None,
    })
    .unwrap();
    let locales = Locale::create_defaults();
    let tnr = make_normalized_text("x", &locales, &vec![s1, s2], LocaleID::En);
    assert_eq!(tnr.value.as_str(), "a");
    assert!(tnr.lookalikes_removed);

    let s1 = Lookalikes::new("xa", |c| match c {
        'a' => Some(LocaleID::En),
        _ => None,
    })
    .unwrap();
    let s2 = Lookalikes::new("xb", |c| match c {
        'b' => Some(LocaleID::En),
        _ => None,
    })
    .unwrap();
    let tnr = make_normalized_text("x", &locales, &vec![s2, s1], LocaleID::En);
    assert_eq!(tnr.value.as_str(), "b");
}

#[test]
fn canonical_text_is_unchanged() {
    let lookalikes = Lookalikes::new("iıɩɪ", |c| match c {
        'i' => Some(LocaleID::En),
        _ => None,
    })
    .unwrap();
    let locales = Locale::create_defaults();
    let sets = vec![lookalikes];
    let tnr = make_normalized_text("ii", &locales, &sets, LocaleID::En);
    assert_eq!(tnr.value.as_str(), "ii");
    assert!(!tnr.lookalikes_removed);
}

#[test]
fn no_sets_is_identity() {
    let locales = Locale::create_defaults();
    let sets: Vec<Lookalikes> = vec![];
    let tnr = make_normalized_text("iıɩɪ mixed Ӏ", &locales, &sets, LocaleID::En);
    assert_eq!(tnr.value.as_str(), "iıɩɪ mixed Ӏ");
    assert!(!tnr.lookalikes_removed);

    let tnr = make_normalized_text("", &locales, &sets, LocaleID::En);
    assert_eq!(tnr.value.as_str(), "");
    assert!(!tnr.lookalikes_removed);
}

#[test]
fn plain_text_passes_through() {
    let lookalikes = Lookalikes::new("iıɩɪⅰｉιіӏᎥ", |c| match c {
        'i' => Some(LocaleID::En),
        _ => None,
    })
    .unwrap();
    let locales = Locale::create_defaults();
    let sets = vec![lookalikes];
    let tnr = make_normalized_text("hello", &locales, &sets, LocaleID::En);
    assert_eq!(tnr.value.as_str(), "hello");
    assert!(!tnr.lookalikes_removed);
}

#[test]
fn member_without_target_mapping_passes_through() {
    let lookalikes = Lookalikes::new("yуɣ", |c| match c {
        'y' => Some(LocaleID::En),
        _ => None,
    })
    .unwrap();
    let locales = Locale::create_defaults();
    let sets = vec![lookalikes];
    let tnr = make_normalized_text("уɣ", &locales, &sets, LocaleID::Ru);
    assert_eq!(tnr.value.as_str(), "уɣ");
    assert!(!tnr.lookalikes_removed);
}
