use txtt::parse::template;
use txtt::scan::Scanner;
use txtt::{
    ContentIndex, ContentRequirement, ContentToken, ContentTokens, ContentType, FillOutError,
    Ident, IdentMap, RequiredContent, VolatileContent,
};
use unic_locale::Locale;

fn tokens_of(s: &str) -> ContentTokens {
    template(&mut Scanner::new(s)).unwrap()
}

fn content_map_from_vec(v: Vec<(ContentIndex, ContentRequirement)>) -> RequiredContent {
    let mut map = RequiredContent::new();
    for (idx, value) in v {
        map.insert(&idx, value);
    }
    map
}

#[test]
fn content_draft_works() {
    let variants = vec![
        (
            tokens_of("a {name} b $Bye"),
            vec![
                (ContentIndex::new(ContentType::Key, "name"), ContentRequirement::Unset),
                (ContentIndex::new(ContentType::Constant, "Bye"), ContentRequirement::Unset),
            ],
        ),
        (
            tokens_of("{other:{othername:Leto}}"),
            vec![
                (
                    ContentIndex::new(ContentType::Key, "other"),
                    ContentRequirement::Default(ContentIndex::new(ContentType::Key, "othername")),
                ),
                (
                    ContentIndex::new(ContentType::Key, "othername"),
                    ContentRequirement::Literal("Leto".into()),
                ),
            ],
        ),
    ];
    for (tokens, pairs) in variants {
        let expected = content_map_from_vec(pairs);
        let output = tokens.draft();
        assert_eq!(expected, output);
    }
}

fn volatile_content_draft(input: &str) -> VolatileContent {
    tokens_of(input).draft().draft_volatile_content()
}

#[test]
fn volatile_content_drafts_work() {
    {
        // Options and keys are entered into the volatile content instance
        let vc = volatile_content_draft("{key}${option}");
        let mut expected_vc = VolatileContent::new();
        expected_vc.map_key("key", "");
        expected_vc.map_choice("option", "");
        assert_eq!(vc, expected_vc);
    }
    {
        // Defaults are copied into the volatile content instance
        let vc = volatile_content_draft("{key:key-default-literal}${option:option-default-literal}");
        let mut expected_vc = VolatileContent::new();
        expected_vc.map_key("key", "key-default-literal");
        expected_vc.map_choice("option", "option-default-literal");
        assert_eq!(vc, expected_vc);
    }
    {
        // Nested key defaults are entered into the volatile content instance
        let vc = volatile_content_draft("{key:{defaultKey:default-literal}}");
        let mut expected_vc = VolatileContent::new();
        expected_vc.map_key("key", "default-literal");
        expected_vc.map_key("defaultKey", "default-literal");
        assert_eq!(vc, expected_vc);
    }
    {
        // Nested option defaults are entered into the volatile content instance
        let vc = volatile_content_draft("${option:${defaultOption:default-literal}}");
        let mut expected_vc = VolatileContent::new();
        expected_vc.map_choice("option", "default-literal");
        expected_vc.map_choice("defaultOption", "default-literal");
        assert_eq!(vc, expected_vc);
    }
    {
        // Default constants are not entered as defaults
        let vc = volatile_content_draft("{key:$constant}${option:$constant}");
        let mut expected_vc = VolatileContent::new();
        expected_vc.map_key("key", "");
        expected_vc.map_choice("option", "");
        assert_eq!(vc, expected_vc);
    }
    {
        // Constants and text literals are not entered
        let vc = volatile_content_draft("$constant some funny text literal! $anotherConstant");
        assert_eq!(vc, VolatileContent::new());
    }
}

#[test]
fn user_content_drafts_work() {
    {
        let vc = volatile_content_draft("{key}${option}");
        let mut expected_vc = VolatileContent::new();
        expected_vc.map_key("key", "");
        expected_vc.map_choice("option", "");
        assert_eq!(vc, expected_vc);
    }
    {
        let vc = volatile_content_draft("{key:key-default-literal}${option:option-default-literal}");
        let mut expected_vc = VolatileContent::new();
        expected_vc.map_key("key", "key-default-literal");
        expected_vc.map_choice("option", "option-default-literal");
        assert_eq!(vc, expected_vc);
    }
    {
        let vc = volatile_content_draft("{key:{defaultKey:default-literal}}");
        let mut expected_vc = VolatileContent::new();
        expected_vc.map_key("key", "default-literal");
        expected_vc.map_key("defaultKey", "default-literal");
        assert_eq!(vc, expected_vc);
    }
    {
        let vc = volatile_content_draft("${option:${defaultOption:default-literal}}");
        let mut expected_vc = VolatileContent::new();
        expected_vc.map_choice("option", "default-literal");
        expected_vc.map_choice("defaultOption", "default-literal");
        assert_eq!(vc, expected_vc);
    }
    {
        let vc = volatile_content_draft("{key:$constant}${option:$constant}");
        let mut expected_vc = VolatileContent::new();
        expected_vc.map_key("key", "");
        expected_vc.map_choice("option", "");
        assert_eq!(vc, expected_vc);
    }
    {
        let vc = volatile_content_draft("$constant some funny text literal! $anotherConstant");
        assert_eq!(vc, VolatileContent::new());
    }
}

#[test]
fn content_templates_are_parsed_correctly() {
    let pairs = vec![
        (
            "locale:fr-FR\n{key}$Constant${Option}",
            vec![
                ContentToken::Key(Ident::from("key"), None),
                ContentToken::Constant(Ident::from("Constant")),
                ContentToken::Option(Box::new(ContentToken::Key(Ident::from("Option"), None))),
            ],
            Some("fr-FR"),
        ),
        (
            "S ${Anrede} {name}\n{n}\n$M\n$S",
            vec![
                ContentToken::Text("S ".into()),
                ContentToken::Option(Box::new(ContentToken::Key(Ident::from("Anrede"), None))),
                ContentToken::Text(" ".into()),
                ContentToken::Key(Ident::from("name"), None),
                ContentToken::Text("\n".into()),
                ContentToken::Key(Ident::from("n"), None),
                ContentToken::Text("\n".into()),
                ContentToken::Constant(Ident::from("M")),
                ContentToken::Text("\n".into()),
                ContentToken::Constant(Ident::from("S")),
            ],
            None,
        ),
        (
            "Sehr geehrte Frau {name}\n{nachricht}\nMit freundlichen Grüßen\nBar",
            vec![
                ContentToken::Text("Sehr geehrte Frau ".into()),
                ContentToken::Key(Ident::from("name"), None),
                ContentToken::Text("\n".into()),
                ContentToken::Key(Ident::from("nachricht"), None),
                ContentToken::Text("\nMit freundlichen Grüßen\nBar".into()),
            ],
            None,
        ),
        (
            "{name:Peter} bla ${bye:{mfg:MfG}}",
            vec![
                ContentToken::Key(
                    Ident::from("name"),
                    Some(Box::new(ContentToken::Text("Peter".into()))),
                ),
                ContentToken::Text(" bla ".into()),
                ContentToken::Option(Box::new(ContentToken::Key(
                    Ident::from("bye"),
                    Some(Box::new(ContentToken::Key(
                        Ident::from("mfg"),
                        Some(Box::new(ContentToken::Text("MfG".into()))),
                    ))),
                ))),
            ],
            None,
        ),
    ];
    for (source, tokens, locale_str) in pairs {
        let result = tokens_of(source);
        if let Some(locale_str) = locale_str {
            let locale: Locale = locale_str.parse().unwrap();
            assert_eq!(result.locale, locale);
        }
        for (idx, token) in result.tokens_ref().iter().enumerate() {
            assert_eq!(token, tokens.get(idx).unwrap());
        }
    }
}

#[test]
fn draft_is_the_same_every_time() {
    let tokens = tokens_of("{key:${opt1:${opt2:{key:default-literal}}}} $c {d}");
    assert_eq!(tokens.draft(), tokens.draft());
}

#[test]
fn later_declarations_of_a_slot_replace_earlier_ones() {
    let draft = tokens_of("{a:x}{a}").draft();
    let expected = content_map_from_vec(vec![(
        ContentIndex::new(ContentType::Key, "a"),
        ContentRequirement::Unset,
    )]);
    assert_eq!(draft, expected);
    assert_eq!(draft.len(), 1);
}

#[test]
fn resolution_errors_name_the_slot() {
    let mut missing = RequiredContent::new();
    missing.insert(&ContentIndex::new(ContentType::Key, "k"), ContentRequirement::Unset);
    assert!(matches!(
        missing.try_resolve(),
        Err(FillOutError::MissingElement(ContentIndex(ContentType::Key, ref id))) if id == "k"
    ));

    let mut empty = RequiredContent::new();
    empty.insert(
        &ContentIndex::new(ContentType::Constant, "c"),
        ContentRequirement::Literal(String::new()),
    );
    assert!(matches!(
        empty.try_resolve(),
        Err(FillOutError::EmptyContent(ContentIndex(ContentType::Constant, ref id))) if id == "c"
    ));

    let mut no_type = RequiredContent::new();
    no_type.insert(
        &ContentIndex::new(ContentType::Key, "k"),
        ContentRequirement::Default(ContentIndex::new(ContentType::Option, "o")),
    );
    assert!(matches!(
        no_type.try_resolve(),
        Err(FillOutError::MissingDefaultType(ContentIndex(ContentType::Option, ref id))) if id == "o"
    ));

    let mut no_ident = RequiredContent::new();
    no_ident.insert(
        &ContentIndex::new(ContentType::Key, "k"),
        ContentRequirement::Default(ContentIndex::new(ContentType::Key, "other")),
    );
    assert!(matches!(
        no_ident.try_resolve(),
        Err(FillOutError::MissingDefault(ContentIndex(ContentType::Key, ref id))) if id == "other"
    ));

    let mut cyclic = RequiredContent::new();
    cyclic.insert(
        &ContentIndex::new(ContentType::Key, "a"),
        ContentRequirement::Default(ContentIndex::new(ContentType::Key, "b")),
    );
    cyclic.insert(
        &ContentIndex::new(ContentType::Key, "b"),
        ContentRequirement::Default(ContentIndex::new(ContentType::Key, "a")),
    );
    assert!(matches!(cyclic.try_resolve(), Err(FillOutError::CyclicDefault(_))));
}

#[test]
fn resolved_content_follows_defaults() {
    let mut required = RequiredContent::new();
    required.insert(
        &ContentIndex::new(ContentType::Key, "a"),
        ContentRequirement::Default(ContentIndex::new(ContentType::Constant, "c")),
    );
    required.insert(
        &ContentIndex::new(ContentType::Constant, "c"),
        ContentRequirement::Literal("value".to_owned()),
    );
    let full = required.try_resolve().unwrap();
    assert_eq!(full.get(ContentIndex::new(ContentType::Key, "a")), "value");
    assert_eq!(full.get(ContentIndex::new(ContentType::Constant, "c")), "value");
}

#[test]
fn merges_touch_only_their_namespace() {
    let mut required = tokens_of("{x}${x}$x").draft();
    let mut keys = IdentMap::new();
    keys.insert("x".to_owned(), "k".to_owned());
    required.add_keys(keys);
    let mut constants = IdentMap::new();
    constants.insert("x".to_owned(), "c".to_owned());
    required.add_constants(constants);
    let expected = content_map_from_vec(vec![
        (ContentIndex::new(ContentType::Key, "x"), ContentRequirement::Literal("k".into())),
        (ContentIndex::new(ContentType::Option, "x"), ContentRequirement::Unset),
        (ContentIndex::new(ContentType::Constant, "x"), ContentRequirement::Literal("c".into())),
    ]);
    assert_eq!(required, expected);
}

#[test]
fn ident_maps_replace_and_remove() {
    let mut map: IdentMap<String> = IdentMap::new();
    map.insert("a".to_owned(), "1".to_owned());
    map.insert("a".to_owned(), "2".to_owned());
    assert_eq!(map.len(), 1);
    assert_eq!(map.get(&"a".to_owned()), Some(&"2".to_owned()));
    assert_eq!(map.remove(&"a".to_owned()), Some("2".to_owned()));
    assert_eq!(map.get(&"a".to_owned()), None);
    assert_eq!(map.len(), 0);
}

#[test]
fn fill_out_errors_read_as_messages() {
    let idx = ContentIndex::new(ContentType::Option, "opt");
    assert_eq!(idx.message(), "Type: Option, Ident: opt");
    assert_eq!(ContentType::Constant.name(), "Constant");
    let err = FillOutError::MissingElement(ContentIndex::new(ContentType::Key, "key"));
    assert_eq!(err.message(), "The given content is missing an element Type: Key, Ident: key");
    let err = FillOutError::EmptyContent(ContentIndex::new(ContentType::Key, "k"));
    assert_eq!(err.message(), "The given content for the entry Type: Key, Ident: k is empty");
}

#[test]
fn decimals() {
    let mut s = String::from("n=");
    txtt::chars::push_decimal(&mut s, 0);
    txtt::chars::push_decimal(&mut s, 1907);
    assert_eq!(s, "n=01907");
}

#[test]
fn ident_maps_compare_as_maps() {
    let mut a: IdentMap<String> = IdentMap::new();
    a.insert("x".to_owned(), "1".to_owned());
    a.insert("y".to_owned(), "2".to_owned());
    let mut b: IdentMap<String> = IdentMap::new();
    b.insert("y".to_owned(), "2".to_owned());
    b.insert("x".to_owned(), "1".to_owned());
    assert_eq!(a, b);
    b.insert("x".to_owned(), "3".to_owned());
    assert_ne!(a, b);
}
