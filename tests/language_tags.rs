use language_tags::{LanguageTag, ParseError, ValidationError};
use std::hash::{Hash, Hasher};

fn tag(s: &str) -> LanguageTag {
    LanguageTag::parse(s).unwrap()
}

#[test]
fn basic() {
    let input = "en-Latn-gb-boont-r-extended-sequence-x-private";
    let deser = LanguageTag::parse(input).unwrap();
    deser.validate().unwrap();
    let ser = deser.as_str();
    assert!(ser.eq_ignore_ascii_case(input));
}

#[test]
fn fr_be_keeps_its_text() {
    assert_eq!(tag("fr-BE").as_str(), "fr-BE");
}

#[test]
fn private_use_of_english() {
    let t: LanguageTag = "en-x-twain".parse().unwrap();
    assert_eq!(t.primary_language(), "en");
    assert_eq!(t.private_use_subtags(), vec!["twain"]);
    assert_eq!(t.private_use(), Some("x-twain"));
}

#[test]
fn range_more_specific_than_tag_fails() {
    let server = tag("de-AT");
    let user = tag("de");
    assert!(!server.matches(&user));
    assert!(user.matches(&server));
}

#[test]
fn italian_and_spanish_ranges() {
    let range_italian = tag("it");
    assert!(!range_italian.matches(&tag("de")));
    assert!(range_italian.matches(&tag("it-CH")));
    assert!(!tag("es-BR").matches(&tag("es")));
}

#[test]
fn empty_subtag_between_dashes() {
    assert_eq!(LanguageTag::parse("en--GB"), Err(ParseError::EmptySubtag));
    assert_eq!(LanguageTag::parse("en-"), Err(ParseError::EmptySubtag));
    assert_eq!(LanguageTag::parse("-en"), Err(ParseError::EmptySubtag));
    assert_eq!(LanguageTag::parse(""), Err(ParseError::EmptySubtag));
}

#[test]
fn four_extlangs_are_too_many() {
    assert_eq!(LanguageTag::parse("zh-abc-def-ghi-jkl"), Err(ParseError::TooManyExtlangs));
    let three = tag("zh-abc-def-ghi");
    assert_eq!(three.extended_language(), Some("abc-def-ghi"));
    assert_eq!(three.extended_language_subtags(), vec!["abc", "def", "ghi"]);
}

#[test]
fn klingon_after_canonicalization() {
    let raw = tag("i-klingon");
    assert_eq!(raw.as_str(), "i-klingon");
    assert!(raw != tag("tlh"));
    assert_eq!(raw.canonicalize(), tag("tlh"));
}

#[test]
fn duplicate_variants_parse_but_do_not_validate() {
    let t = tag("de-1901-1901");
    assert_eq!(t.validate(), Err(ValidationError::DuplicateVariant));
    assert!(!t.is_valid());
}

#[test]
fn components_are_normalized() {
    let t = tag("EN-latn-gb-BOONT-R-Extended-Sequence-X-Private");
    assert_eq!(t.as_str(), "en-Latn-GB-boont-r-extended-sequence-x-private");
    assert_eq!(t.primary_language(), "en");
    assert_eq!(t.extended_language(), None);
    assert_eq!(t.full_language(), "en");
    assert_eq!(t.script(), Some("Latn"));
    assert_eq!(t.region(), Some("GB"));
    assert_eq!(t.variant(), Some("boont"));
    assert_eq!(t.variant_subtags(), vec!["boont"]);
    assert_eq!(t.extension(), Some("r-extended-sequence"));
    assert_eq!(t.extension_subtags(), vec![('r', "extended"), ('r', "sequence")]);
    assert_eq!(t.private_use(), Some("x-private"));
    assert_eq!(t.private_use_subtags(), vec!["private"]);
    assert!(!t.is_language_range());
}

#[test]
fn reparsing_the_text_gives_the_same_tag() {
    for s in ["sgn-BE-FR", "zh-yue-HK", "de-CH-1996", "x-Whatever", "ES-419", "en-a-bbb-B-ccc-x-a"] {
        let t = tag(s);
        let again = tag(t.as_str());
        assert_eq!(again.as_str(), t.as_str());
        assert_eq!(again.primary_language(), t.primary_language());
        assert_eq!(again.region(), t.region());
        assert_eq!(again.extension(), t.extension());
        assert_eq!(again.private_use(), t.private_use());
    }
}

#[test]
fn numeric_region_and_variants() {
    let t = tag("es-419-1994-rozaj");
    assert_eq!(t.region(), Some("419"));
    assert_eq!(t.variant(), Some("1994-rozaj"));
    assert_eq!(t.variant_subtags(), vec!["1994", "rozaj"]);
    assert!(t.is_language_range());
}

#[test]
fn parse_errors() {
    assert_eq!(LanguageTag::parse("en-verylongsubtag"), Err(ParseError::SubtagTooLong));
    assert_eq!(LanguageTag::parse("1a"), Err(ParseError::InvalidLanguage));
    assert_eq!(LanguageTag::parse("e"), Err(ParseError::InvalidLanguage));
    assert_eq!(LanguageTag::parse("en-a"), Err(ParseError::EmptyExtension));
    assert_eq!(LanguageTag::parse("en-a-b-ccc"), Err(ParseError::EmptyExtension));
    assert_eq!(LanguageTag::parse("en-a-x-foo"), Err(ParseError::EmptyExtension));
    assert_eq!(LanguageTag::parse("en-x"), Err(ParseError::EmptyPrivateUse));
    assert_eq!(LanguageTag::parse("x-"), Err(ParseError::EmptyPrivateUse));
    assert_eq!(LanguageTag::parse("x-a_b"), Err(ParseError::ForbiddenChar));
    assert_eq!(LanguageTag::parse("en-GB-US"), Err(ParseError::InvalidSubtag));
    assert_eq!(LanguageTag::parse("en-Latn-Cyrl"), Err(ParseError::InvalidSubtag));
    assert_eq!(LanguageTag::parse("en-x-a!"), Err(ParseError::InvalidSubtag));
    assert_eq!(LanguageTag::parse("en-a-b!c"), Err(ParseError::InvalidSubtag));
}

#[test]
fn private_use_only_tags() {
    let t = tag("X-Foo-BAR");
    assert_eq!(t.as_str(), "x-foo-bar");
    assert_eq!(t.private_use(), Some("x-foo-bar"));
    assert_eq!(t.private_use_subtags(), vec!["foo", "bar"]);
    assert_eq!(tag("x--a").as_str(), "x--a");
}

#[test]
fn grandfathered_tags_keep_the_table_spelling() {
    let t = tag("EN-gb-OED");
    assert_eq!(t.as_str(), "en-GB-oed");
    assert_eq!(t.primary_language(), "en-GB-oed");
    assert_eq!(t.region(), None);
    assert_eq!(t.canonicalize().as_str(), "en-GB-oxendict");
    assert_eq!(tag("i-default").canonicalize().as_str(), "i-default");
}

#[test]
fn canonical_forms() {
    assert_eq!(tag("iw-IL").canonicalize().as_str(), "he-IL");
    assert_eq!(tag("zh-yue").canonicalize().as_str(), "yue");
    assert_eq!(tag("de-DD").canonicalize().as_str(), "de-DE");
    assert_eq!(tag("ja-Latn-hepburn-heploc").canonicalize().as_str(), "ja-Latn-hepburn-alalc97");
    assert_eq!(tag("en-BU-a-xyz-x-priv").canonicalize().as_str(), "en-MM-a-xyz-x-priv");
    let c = tag("en-Latn-ZR-x-a").canonicalize();
    assert_eq!(c.region(), Some("CD"));
    assert_eq!(c.private_use_subtags(), vec!["a"]);
}

#[test]
fn validation_errors() {
    assert_eq!(tag("en-a-bbb-a-ccc").validate(), Err(ValidationError::DuplicateExtension));
    assert_eq!(tag("en-a-bbb-A-ccc").validate(), Err(ValidationError::DuplicateExtension));
    assert_eq!(tag("zh-abc-def").validate(), Err(ValidationError::MultipleExtendedLanguageSubtags));
    assert_eq!(tag("zh-yue").validate(), Ok(()));
    assert!(tag("en-a-bbb-b-ccc").is_valid());
}

#[test]
fn matching_ignores_extra_variants() {
    assert!(tag("de-1996").matches(&tag("de-1996-fonipa")));
    assert!(tag("de-1996-fonipa").matches(&tag("de-1996")));
    assert!(!tag("de-1901").matches(&tag("de-1996")));
    assert!(tag("en").matches(&tag("en-Arab-GB")));
    assert!(!tag("en-Latn").matches(&tag("en-Arab")));
}

#[test]
fn equality_and_text() {
    assert_eq!(tag("EN-us"), tag("en-US"));
    assert_eq!(tag("en-US").clone().into_string(), "en-US");
    assert_eq!(ParseError::EmptySubtag.description(), "A subtag should not be empty");
    assert_eq!(
        ValidationError::DuplicateVariant.description(),
        "The same variant subtag is only allowed once in a tag"
    );
}

#[test]
fn private_use_tag_is_its_own_canonical_form() {
    let t = tag("x-twain");
    let c = t.canonicalize();
    assert_eq!(c.as_str(), "x-twain");
    assert_eq!(c.private_use(), t.private_use());
    assert_eq!(c.private_use_subtags(), vec!["twain"]);
    assert_eq!(c, t);
}

fn hash_of(t: &LanguageTag) -> u64 {
    let mut h = std::collections::hash_map::DefaultHasher::new();
    t.hash(&mut h);
    h.finish()
}

#[test]
fn equal_tags_hash_alike() {
    let promoted = tag("zh-abc-def").canonicalize();
    let parsed = tag("abc-def");
    assert_eq!(promoted.as_str(), "abc-def");
    assert_eq!(promoted, parsed);
    assert_eq!(hash_of(&promoted), hash_of(&parsed));
    assert_eq!(hash_of(&tag("EN-us")), hash_of(&tag("en-US")));
}

#[test]
fn every_error_has_its_sentence() {
    assert_eq!(ParseError::EmptyExtension.description(), "If an extension subtag is present, it must not be empty");
    assert_eq!(ParseError::EmptyPrivateUse.description(), "If the `x` subtag is present, it must not be empty");
    assert_eq!(ParseError::ForbiddenChar.description(), "The langtag contains a char not allowed");
    assert_eq!(
        ParseError::InvalidSubtag.description(),
        "A subtag fails to parse, it does not match any other subtags"
    );
    assert_eq!(ParseError::InvalidLanguage.description(), "The given language subtag is invalid");
    assert_eq!(ParseError::SubtagTooLong.description(), "A subtag may be eight characters in length at maximum");
    assert_eq!(ParseError::TooManyExtlangs.description(), "At maximum three extlangs are allowed");
    assert_eq!(
        ValidationError::DuplicateExtension.description(),
        "The same extension subtag is only allowed once in a tag"
    );
    assert_eq!(
        ValidationError::MultipleExtendedLanguageSubtags.description(),
        "only one extended language subtag is allowed"
    );
}

#[test]
fn parsing_changes_only_the_case() {
    for s in ["eN-lATN-gB-BoOnT-R-ExTeNdEd-x-PrIvAtE", "I-KLINGON", "X-AbC", "sr-latn-rs", "ZH-hant-tw"] {
        let t = tag(s);
        assert_eq!(t.as_str().len(), s.len());
        assert!(t.as_str().eq_ignore_ascii_case(s));
    }
    let t = tag("SR-cYRL-rs-EKAVSK-u-CA-x-ABC");
    assert_eq!(t.script(), Some("Cyrl"));
    assert_eq!(t.region(), Some("RS"));
    assert_eq!(t.variant(), Some("ekavsk"));
    assert_eq!(t.extension(), Some("u-ca"));
    assert_eq!(t.private_use(), Some("x-abc"));
}

#[test]
fn dashes_in_the_wrong_place() {
    assert_eq!(LanguageTag::parse("de-AT-"), Err(ParseError::EmptySubtag));
    assert_eq!(LanguageTag::parse("de-AT--1996"), Err(ParseError::EmptySubtag));
    assert_eq!(LanguageTag::parse("-de"), Err(ParseError::EmptySubtag));
    assert_eq!(LanguageTag::parse("de-abc-def-ghi-jkl-CH"), Err(ParseError::TooManyExtlangs));
}
