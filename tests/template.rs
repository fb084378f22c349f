use txtt::meta::Meta;
use txtt::{
    new_choice, CompilationSettings, ContentState, ContentType, FillOutError, IdentMap, Template,
    TemplateError, VolatileContent,
};

fn test_fill_out(
    input: &str,
    expected: &str,
    case: &str,
    volatile_content: VolatileContent,
    content_state: ContentState,
) {
    let result = Template::parse(input)
        .unwrap()
        .fill_out(volatile_content, content_state)
        .unwrap();
    assert_eq!(&result, expected, "Test case: {}", case);
}

#[test]
fn template_api_works() {
    let input = "Hallo {name:A default literal}, ich bin $name.\n${SeeOff}";
    let volatile_content = {
        let mut content = VolatileContent { keys: IdentMap::new(), choices: IdentMap::new() };
        content.keys.insert("name".to_owned(), "Leto".to_owned());
        content.choices.insert("SeeOff".to_owned(), "CU".to_owned());
        content
    };
    let content_state = {
        let mut content = ContentState { constants: IdentMap::new(), options: IdentMap::new() };
        content.constants.insert("name".to_owned(), "Paul".to_owned());
        let mut choices = IdentMap::new();
        choices.insert("CU".to_owned(), "See You".to_owned());
        content.options.insert("SeeOff".to_owned(), choices);
        content
    };

    let output = Template::parse(input).unwrap().fill_out(volatile_content, content_state).unwrap();
    assert_eq!(&output, "Hallo Leto, ich bin Paul.\nSee You");
}

#[test]
fn recursive_template_is_processed_correctly() {
    let input = "a {name:{another:default literal}}";
    let expected = "a default literal";
    let volatile_content = VolatileContent { keys: IdentMap::new(), choices: IdentMap::new() };
    let content_state = ContentState { constants: IdentMap::new(), options: IdentMap::new() };
    let output = Template::parse(input).unwrap().fill_out(volatile_content, content_state).unwrap();
    assert_eq!(&output, expected);
}

#[test]
fn template_template_examples() {
    {
        let mut cs = ContentState::new();
        cs.map_constant("name", "Paul");
        cs.map_option("SeeOff", new_choice("CU", "See You"));
        let mut vc = VolatileContent::new();
        vc.map_key("other", "Leto");
        vc.map_choice("SeeOff", "CU");
        test_fill_out(
            "Hello {other:Atreides}, I am $name.\n${SeeOff}",
            "Hello Leto, I am Paul.\nSee You",
            "Atreides example greeting",
            vc,
            cs,
        );
    }
    {
        let mut cs = ContentState::new();
        cs.map_constant("Ich", "Paul");
        cs.map_option("Anrede", new_choice("m", "Sehr geehrter Herr"));
        cs.map_option("Anrede", new_choice("w", "Sehr geehrte Frau"));
        cs.map_constant("Mfg", "Mit freundlichen Grüßen");
        let mut vc = VolatileContent::new();
        vc.map_key("Adressat", "Jessica");
        vc.map_key("nachricht", "ich bin tatsächlich der Kwisatz Haderach");
        vc.map_choice("Anrede", "w");
        test_fill_out(
            "${Anrede} {Adressat}, {nachricht}\n$Mfg\n$Ich",
            "Sehr geehrte Frau Jessica, ich bin tatsächlich der Kwisatz Haderach\nMit freundlichen Grüßen\nPaul",
            "Atreides example message",
            vc,
            cs,
        );
    }
    {
        // Meta constants substitute the current date.
        let month = Meta::MonthName.to_content().unwrap();
        let day = Meta::DayNum.to_content().unwrap();
        let day_name = Meta::DayName.to_content().unwrap();
        test_fill_out(
            "This template was compiled on $Month $DayNum which is a $Day",
            &format!("This template was compiled on {month} {day} which is a {day_name}"),
            "Dynamic meta content example",
            VolatileContent::new(),
            ContentState::new(),
        );
    }
}

#[test]
fn template_idents_do_not_collide_outside_of_types() {
    let ident = "name";
    {
        let mut cs = ContentState::new();
        cs.map_constant(ident, "constant-literal");
        cs.map_option(ident, new_choice("only", "choice-literal"));
        let mut vc = VolatileContent::new();
        vc.map_key(ident, "key-literal");
        vc.map_choice(ident, "only");
        test_fill_out(
            "{name} ${name} $name",
            "key-literal choice-literal constant-literal",
            "Identifiers of diffenent types do not collide",
            vc,
            cs,
        );
    }
    {
        let mut vc = VolatileContent::new();
        vc.map_key(ident, "initial key literal");
        vc.map_key(ident, "last key literal");
        test_fill_out(
            "{name}",
            "last key literal",
            "Identifiers of same type overwrite each other",
            vc,
            ContentState::new(),
        );
    }
}

#[test]
fn template_template_examples_are_filled_out_correctly() {
    {
        let mut vc = VolatileContent::new();
        vc.map_key("name", "Paul");
        test_fill_out(
            "Hello, my name is {name}!",
            "Hello, my name is Paul!",
            "Simple key",
            vc,
            ContentState::new(),
        );
    }
    {
        let mut cs = ContentState::new();
        cs.map_constant("me", "Paul");
        test_fill_out("{from:$me}", "Paul", "Constant is resolved as a default", VolatileContent::new(), cs);
    }
    {
        let mut vc = VolatileContent::new();
        vc.map_key("another", "another-literal");
        test_fill_out(
            "{key:{another:default-literal}}",
            "another-literal",
            "Value of nested default correctly overwritten",
            vc,
            ContentState::new(),
        );
    }
    {
        let mut cs = ContentState::new();
        cs.map_option("opt", new_choice("only", "choice-literal"));
        test_fill_out(
            "${opt:default-literal}",
            "default-literal",
            "Value of default used for option without choice",
            VolatileContent::new(),
            cs,
        );
    }
    {
        let mut vc = VolatileContent::new();
        vc.map_key("key", "literal-content");
        test_fill_out(
            "{key:default-literal}",
            "literal-content",
            "Key value overwrites default",
            vc,
            ContentState::new(),
        );
    }
    {
        let mut cs = ContentState::new();
        cs.map_constant("workemail", "im@work.com");
        cs.map_option("email", new_choice("private", "im@home.com"));
        test_fill_out(
            "${email:$workemail}",
            "im@work.com",
            "Default constant used for option without choice",
            VolatileContent::new(),
            cs,
        );
    }
}

#[test]
fn template_defaults_are_used_if_value_is_not_specified() {
    {
        let mut cs = ContentState::new();
        cs.map_option("opt", new_choice("only", "choice-literal"));
        test_fill_out(
            "${opt:default-literal}",
            "default-literal",
            "Defaults are used for unspecified options; option becomes optional",
            VolatileContent::new(),
            cs,
        );
    }
    {
        test_fill_out(
            "{key:default-literal}",
            "default-literal",
            "Defaults are used for unspecified keys; key becomes optional",
            VolatileContent::new(),
            ContentState::new(),
        );
    }
}

#[test]
fn template_defaults_are_ignored_if_value_is_specified() {
    {
        let mut cs = ContentState::new();
        cs.map_option("opt", new_choice("only", "choice-literal"));
        let mut vc = VolatileContent::new();
        vc.map_choice("opt", "only");
        test_fill_out(
            "${opt:default-literal}",
            "choice-literal",
            "Defaults are NOT used for specified options; choice overwrites default",
            vc,
            cs,
        );
    }
    {
        let mut vc = VolatileContent::new();
        vc.map_key("key", "key-literal");
        test_fill_out(
            "{key:default-literal}",
            "key-literal",
            "Defaults are NOT used for specified keys; key overwrites default",
            vc,
            ContentState::new(),
        );
    }
}

#[test]
fn template_elements_of_any_type_can_be_used_as_defaults() {
    {
        test_fill_out(
            "{key:text-literal}",
            "text-literal",
            "Text literal elements can be used as defaults",
            VolatileContent::new(),
            ContentState::new(),
        );
    }
    {
        let mut cs = ContentState::new();
        cs.map_constant("constant", "constant-literal");
        test_fill_out(
            "{key:$constant}",
            "constant-literal",
            "Constant elements can be used as defaults",
            VolatileContent::new(),
            cs,
        );
    }
    {
        let mut cs = ContentState::new();
        cs.map_option("opt", new_choice("only", "choice-literal"));
        let mut vc = VolatileContent::new();
        vc.map_choice("opt", "only");
        test_fill_out("{key:${opt}}", "choice-literal", "Option elements can be used as defaults", vc, cs);
    }
    {
        let mut vc = VolatileContent::new();
        vc.map_key("defaultKey", "default-key-literal");
        test_fill_out(
            "{key:{defaultKey}}",
            "default-key-literal",
            "Key elements can be used as defaults",
            vc,
            ContentState::new(),
        );
    }
}

#[test]
fn template_defaults_may_be_nested() {
    {
        let mut cs = ContentState::new();
        cs.map_option("option", new_choice("only", "choice-literal"));
        test_fill_out(
            "{key:${option:default-literal}}",
            "default-literal",
            "Simple nesting",
            VolatileContent::new(),
            cs,
        );
    }
    {
        let mut cs = ContentState::new();
        cs.map_option("opt1", new_choice("only", "choice-literal"));
        cs.map_option("opt2", new_choice("only", "choice-literal"));
        let mut vc = VolatileContent::new();
        vc.map_choice("opt2", "only");
        test_fill_out(
            "{key:${opt1:${opt2:{key:default-literal}}}}",
            "choice-literal",
            "Default chain stopped by value",
            vc,
            cs,
        );
    }
}

#[test]
fn namespaces_resolve_independently() {
    let mut cs = ContentState::new();
    cs.map_constant("I", "c");
    cs.map_option("I", new_choice("pick", "o"));
    let mut vc = VolatileContent::new();
    vc.map_key("I", "k");
    vc.map_choice("I", "pick");
    test_fill_out("{I} ${I} $I", "k o c", "namespace independence", vc, cs);
}

#[test]
fn default_precedence_example() {
    test_fill_out(
        "{key:default-literal}",
        "default-literal",
        "no value",
        VolatileContent::new(),
        ContentState::new(),
    );
    let mut vc = VolatileContent::new();
    vc.map_key("key", "v");
    test_fill_out("{key:default-literal}", "v", "supplied value", vc, ContentState::new());
}

#[test]
fn constant_default_is_followed() {
    let mut cs = ContentState::new();
    cs.map_constant("constant", "C");
    test_fill_out("{key:$constant}", "C", "constant default", VolatileContent::new(), cs);
}

#[test]
fn chain_is_interrupted_by_a_choice() {
    let mut cs = ContentState::new();
    cs.map_option("opt2", new_choice("x", "X content"));
    let mut vc = VolatileContent::new();
    vc.map_choice("opt2", "x");
    test_fill_out("{key:${opt1:${opt2:{key:default-literal}}}}", "X content", "chain", vc, cs);
}

#[test]
fn repeated_key_takes_last_value_everywhere() {
    let mut vc = VolatileContent::new();
    vc.map_key("name", "first");
    vc.map_key("name", "second");
    test_fill_out("{name} and {name}", "second and second", "last write wins", vc, ContentState::new());
}

#[test]
fn missing_and_empty_values_are_reported() {
    let missing = Template::parse("{key}").unwrap().fill_out(VolatileContent::new(), ContentState::new());
    assert!(matches!(
        missing,
        Err(TemplateError::FillOutError(FillOutError::MissingElement(ref idx)))
            if idx.0 == ContentType::Key && idx.1 == "key"
    ));
    let mut vc = VolatileContent::new();
    vc.map_key("key", "");
    let empty = Template::parse("{key}").unwrap().fill_out(vc, ContentState::new());
    assert!(matches!(
        empty,
        Err(TemplateError::FillOutError(FillOutError::EmptyContent(ref idx)))
            if idx.0 == ContentType::Key && idx.1 == "key"
    ));
}

#[test]
fn end_to_end_example() {
    let mut cs = ContentState::new();
    cs.map_constant("name", "Paul");
    cs.map_option("SeeOff", new_choice("CU", "See You"));
    let mut vc = VolatileContent::new();
    vc.map_key("other", "Leto");
    vc.map_choice("SeeOff", "CU");
    let out = Template::parse("Hello {other:Atreides}, I am $name.\n${SeeOff}")
        .unwrap()
        .fill_out(vc, cs)
        .unwrap();
    assert_eq!(out, "Hello Leto, I am Paul.\nSee You");
}

#[test]
fn cyclic_defaults_fail_instead_of_recursing() {
    let result = Template::parse("{key:${opt1:${opt2:{key:default-literal}}}}")
        .unwrap()
        .fill_out(VolatileContent::new(), ContentState::new());
    assert!(matches!(result, Err(TemplateError::FillOutError(FillOutError::CyclicDefault(_)))));
}

#[test]
fn ignoring_dynamics_treats_meta_names_as_constants() {
    let mut cs = ContentState::new();
    cs.map_constant("Year", "the year");
    let out = Template::parse("$Year")
        .unwrap()
        .with_settings(CompilationSettings { ignore_dynamics: true })
        .fill_out(VolatileContent::new(), cs)
        .unwrap();
    assert_eq!(out, "the year");
}

#[test]
fn parse_errors_are_template_errors() {
    assert!(matches!(Template::parse("{unclosed"), Err(TemplateError::UserError(_))));
}

#[test]
fn required_lists_the_declared_slots() {
    let template = Template::parse("{a} $b ${c:{d:x}}").unwrap();
    let vc = template.required().draft_volatile_content();
    let mut expected = VolatileContent::new();
    expected.map_key("a", "");
    expected.map_key("d", "x");
    expected.map_choice("c", "x");
    assert_eq!(vc, expected);
}
