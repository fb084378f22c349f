use txtt::parse::{constant, ident, item, key, locale, option, template, text, UserError};
use txtt::scan::Scanner;
use txtt::token::ContentTokens;
use unic_locale::Locale;

fn accepts<T, E>(parse_fn: fn(&mut Scanner) -> Result<T, E>, variants: Vec<&str>) {
    for variant in variants {
        let mut scanner = Scanner::new(variant);
        assert!(parse_fn(&mut scanner).is_ok(), "falsely rejected: {:?}", variant);
    }
}

fn rejects<T, E>(parse_fn: fn(&mut Scanner) -> Result<T, E>, cases: Vec<(&str, &str)>) {
    for (variant, case) in cases {
        let mut scanner = Scanner::new(variant);
        assert!(
            parse_fn(&mut scanner).is_err(),
            "An invalid variant: '{}' was falsely accepted! Case: {}",
            variant,
            case,
        );
    }
}

fn parse_template(s: &str) -> Result<ContentTokens, UserError> {
    template(&mut Scanner::new(s))
}

#[test]
fn colon_terminal_symbol_may_stand_alone_in_text() {
    let variants = vec!["This is some text with the message: colons are cool"];
    accepts(template, variants);
}

#[test]
fn locales_are_accepted_and_correct() {
    let cases = vec![
        ("locale \n :  \t en_us\n", "Delimiter can be surrounded by whitespaces", "en-US"),
        ("locale:fr-FR\n", "Whitespaces are optional", "fr-FR"),
    ];
    for (variant, case, locale_str) in cases {
        let mut scanner = Scanner::new(variant);
        let locale_result = locale(&mut scanner)
            .unwrap_or_else(|_| panic!("Valid locale setting was falsely rejected. Case: {}", case));
        let locale_expected: Locale = locale_str.parse().unwrap();
        assert_eq!(
            locale_result, locale_expected,
            "Accepted locale setting did not return the expected locale. Case: {}",
            case
        );
    }

    // The locale setting itself is optional
    let content_tokens = parse_template("example text literal").unwrap();
    let expected_locale: Locale = "en-US".parse().unwrap();
    assert_eq!(expected_locale, content_tokens.locale);
}

#[test]
fn locales_are_rejected() {
    let cases = vec![
        ("en_US\n", "Locales require `locale` keyword"),
        ("locale:en-US", "Locales require newline behind locale string"),
        ("locale en-US\n", "Locales require colon delimiter"),
        (" anything locale:en-US\n", "Locale keyword has to be at the very start of the file"),
    ];
    rejects(locale, cases);
}

#[test]
fn parse_defaults_are_accepted() {
    let key_defaults = vec![
        "{name:hallo}",
        "{name:$Me}",
        "{name:${Someone}}",
        "{name:${Kontake:Müller}}",
    ];
    accepts(key, key_defaults);
    let opt_defaults = vec!["${Someone:{name}}"];
    accepts(option, opt_defaults);
}

#[test]
fn parse_keys_are_accepted() {
    let keys = vec!["{name}", "{NAME}", "{NaMe}", "{n}", "{N}", "{08nsf}"];
    accepts(key, keys);
}

#[test]
fn parse_idents_are_accepted() {
    let idents = vec!["hallo", "HALLO", "hAlLO", "h4ll0", "823480", "H4LLO"];
    accepts(ident, idents);

    let all_symbols = "ABCDEFGHIJKLMNOPQRSTUVWXYZabcdefghijklmnopqrstuvwxyz0123456789";
    let mut scanner = Scanner::new(all_symbols);
    assert!(ident(&mut scanner).is_ok());
}

#[test]
fn parse_options_are_accepted() {
    let options = vec!["${Adressat}", "${addressat}", "${NAME}"];
    accepts(option, options);
}

#[test]
fn parse_constants_are_accepted() {
    let constants = vec!["$MyName", "$myname", "$me13", "$3.141"];
    accepts(constant, constants);
}

#[test]
fn parse_templates_are_accepted() {
    let templates = vec![
        "{key}$Constant${Option}",
        "Sehr ${Anrede} {name}\n{nachricht}\n$Mfg\n$Sender",
        "Sehr geehrte Frau {name}\n{nachricht}\nMit freundlichen Grüßen\nBar",
        "Hallo Herr {name:${Kontake:Müller}}, ich wollte ...",
    ];
    accepts(template, templates);
}

#[test]
fn parse_texts_are_accepted() {
    let texts = vec![
        "Sehr geehrter Herr Foo \n\t iblbl",
        "\nHallo",
        "h",
        "\nllsf\n",
        ")_!_&_)*@#*^+_[]0=082q5-=8';,m;,.<''\"",
        "\n \t ",
    ];
    accepts(text, texts);
}

#[test]
fn parse_keys_are_rejected() {
    let cases = vec![
        ("name", "is missing braces"),
        ("{name", "is missing right brace"),
        ("name}", "is missing left brace"),
        ("{&*(^)}", "contains invalid characters"),
        ("{ /t\n}", "only contains whitespace charactes"),
        ("{ /tsf\n}", "contains whitespace charactes"),
    ];
    rejects(key, cases);
}

#[test]
fn parse_idents_are_rejected() {
    let cases = vec![
        (" \n \t", "only contains whitespace characters"),
        ("*)&%%_)+|", "only contains invalid characters"),
        ("&*!abc", "starts out with invalid characters"),
    ];
    rejects(ident, cases);
}

#[test]
fn parse_options_are_rejected() {
    let cases = vec![
        ("$name", "is missing the braces"),
        ("{name}", "is missing the dollar sign"),
        ("${}", "is missing an identifier"),
        ("$ {name}", "has a whitespace between the dollar sign and the first brace"),
    ];
    rejects(option, cases);
}

#[test]
fn parse_constants_are_rejected() {
    let cases = vec![
        ("$ name", "has a whitespace between the dollar sign and the ident"),
        ("${name}", "has braces around it's ident"),
    ];
    rejects(constant, cases);
}

#[test]
fn parse_texts_are_rejected() {
    let cases = vec![
        ("{}\nsf{dsf}$", "contains invalid characters"),
        ("$$}}{}$", "only contains invalid characters"),
    ];
    rejects(text, cases);
}

#[test]
fn lib_defaults_are_accepted() {
    let key_defaults = vec![
        "{name:hallo}",
        "{name:$Me}",
        "{name:${Someone}}",
        "{name:${Kontake:Müller}}",
    ];
    accepts(key, key_defaults);
    let opt_defaults = vec!["${Someone:{name}}"];
    accepts(option, opt_defaults);
}

#[test]
fn lib_keys_are_accepted() {
    let keys = vec!["{name}", "{NAME}", "{NaMe}", "{n}", "{N}", "{08nsf}"];
    accepts(key, keys);
}

#[test]
fn lib_idents_are_accepted() {
    let idents = vec!["hallo", "HALLO", "hAlLO", "h4ll0", "823480", "H4LLO"];
    accepts(ident, idents);

    let all_symbols = "ABCDEFGHIJKLMNOPQRSTUVWXYZabcdefghijklmnopqrstuvwxyz0123456789";
    let mut scanner = Scanner::new(all_symbols);
    assert!(ident(&mut scanner).is_ok());
}

#[test]
fn lib_options_are_accepted() {
    let options = vec!["${Adressat}", "${addressat}", "${NAME}"];
    accepts(option, options);
}

#[test]
fn lib_constants_are_accepted() {
    let constants = vec!["$MyName", "$myname", "$me13", "$3.141"];
    accepts(constant, constants);
}

#[test]
fn lib_templates_are_accepted() {
    let templates = vec![
        "{key}$Constant${Option}",
        "Sehr ${Anrede} {name}\n{nachricht}\n$Mfg\n$Sender",
        "Sehr geehrte Frau {name}\n{nachricht}\nMit freundlichen Grüßen\nBar",
        "Hallo Herr {name:${Kontake:Müller}}, ich wollte ...",
    ];
    accepts(template, templates);
}

#[test]
fn lib_texts_are_accepted() {
    let texts = vec![
        "Sehr geehrter Herr Foo \n\t iblbl",
        "\nHallo",
        "h",
        "\nllsf\n",
        ")_!_&_)*@#*^+_[]0=082q5-=8';,m;,.<''\"",
        "\n \t ",
    ];
    accepts(text, texts);
}

#[test]
fn lib_keys_are_rejected() {
    let cases = vec![
        ("name", "is missing braces"),
        ("{name", "is missing right brace"),
        ("name}", "is missing left brace"),
        ("{&*(^)}", "contains invalid characters"),
        ("{ /t\n}", "only contains whitespace charactes"),
        ("{ /tsf\n}", "contains whitespace charactes"),
    ];
    rejects(key, cases);
}

#[test]
fn lib_idents_are_rejected() {
    let cases = vec![
        (" \n \t", "only contains whitespace characters"),
        ("*)&%%_)+|", "only contains invalid characters"),
        ("&*!abc", "starts out with invalid characters"),
    ];
    rejects(ident, cases);
}

#[test]
fn lib_options_are_rejected() {
    let cases = vec![
        ("$name", "is missing the braces"),
        ("{name}", "is missing the dollar sign"),
        ("${}", "is missing an identifier"),
        ("$ {name}", "has a whitespace between the dollar sign and the first brace"),
    ];
    rejects(option, cases);
}

#[test]
fn lib_constants_are_rejected() {
    let cases = vec![
        ("$ name", "has a whitespace between the dollar sign and the ident"),
        ("${name}", "has braces around it's ident"),
    ];
    rejects(constant, cases);
}

#[test]
fn lib_texts_are_rejected() {
    let cases = vec![
        ("{}\nsf{dsf}$", "contains invalid characters"),
        ("$$}}{}$", "only contains invalid characters"),
    ];
    rejects(text, cases);
}

#[test]
fn items_choose_by_lookahead() {
    let mut scanner = Scanner::new("${a}$b{c}d");
    assert!(matches!(item(&mut scanner), Ok(txtt::ContentToken::Option(_))));
    assert!(matches!(item(&mut scanner), Ok(txtt::ContentToken::Constant(_))));
    assert!(matches!(item(&mut scanner), Ok(txtt::ContentToken::Key(_, None))));
    assert!(matches!(item(&mut scanner), Ok(txtt::ContentToken::Text(_))));
    assert!(scanner.at_end());
    assert!(item(&mut scanner).is_err());
}

#[test]
fn failed_productions_leave_the_scanner_where_it_was() {
    let mut scanner = Scanner::new("{name:{other}");
    assert!(key(&mut scanner).is_err());
    assert_eq!(scanner.current_char(), Some('{'));
    assert!(text(&mut scanner).is_err());
    assert_eq!(scanner.current_char(), Some('{'));
}

#[test]
fn templates_with_trailing_garbage_are_rejected() {
    assert!(parse_template("hello {name").is_err());
    assert!(parse_template("").is_err());
    assert!(parse_template("}").is_err());
}

#[test]
fn malformed_locale_falls_back_to_default() {
    let tokens = parse_template("locale:??\nHi").unwrap();
    let expected: Locale = "en-US".parse().unwrap();
    assert_eq!(tokens.locale, expected);
    assert_eq!(tokens.len(), 1);
}

#[test]
fn user_errors_read_as_messages() {
    let err = key(&mut Scanner::new("{name")).unwrap_err();
    assert_eq!(
        err.message(),
        "Found invalid closing character for key: Unexpected end of input reached at position column 6\nDid you maybe mean '}'?"
    );
    let err = option(&mut Scanner::new("${}")).unwrap_err();
    assert_eq!(
        err.message(),
        "Found invalid character(s) contained in identifier of option: '}' at column 3\nAllowed characters are 'A'-'Z', 'a'-'z' and '0'-'9'"
    );
    let err = parse_template("").unwrap_err();
    assert_eq!(err.message(), "Cannot process an empty input: Unexpected end of input reached at position column 1\n");
}

#[test]
fn invalid_locale_tags_are_reported_with_their_cause() {
    let err = locale(&mut Scanner::new("locale: zz-??\n")).unwrap_err();
    assert_eq!(err.message(), "Found invalid character(s) contained in locale: Invalid subtag\n");
}

#[test]
fn locale_tags_with_extensions_fall_back_to_default() {
    let tokens = parse_template("locale:en-US-u-hc-h12\nHi").unwrap();
    let expected: Locale = "en-US".parse().unwrap();
    assert_eq!(tokens.locale, expected);
    assert!(parse_template("locale:en-ZZZZZZZZZ\n{a}").is_ok());
}
