use chrono::Utc;
use txtt::meta::{meta_idents, Meta, MetaExt};
use txtt::{
    ContentIndex, ContentRequirement, ContentState, ContentType, RequiredContent, Template,
    VolatileContent,
};

#[test]
fn idents_can_become_meta() {
    for ident in meta_idents().iter() {
        assert!(String::from(*ident).as_meta().is_some());
    }
}

#[test]
fn date_time_meta_is_correct() {
    let now = Utc::now();

    // Check that the given meta value becomes a time/date string with the given formatting.
    let check_meta_to_dt = |meta: Meta, fmt| {
        let meta_str = meta.to_content().unwrap();
        let dt_str = now.format(fmt).to_string();

        assert_eq!(meta_str, dt_str);
    };

    check_meta_to_dt(Meta::Second, "%S");
    check_meta_to_dt(Meta::Minute, "%M");
    check_meta_to_dt(Meta::Hour, "%H");
    check_meta_to_dt(Meta::DayNum, "%d");
    check_meta_to_dt(Meta::DayName, "%A");
    check_meta_to_dt(Meta::DayAbbr, "%a");
    check_meta_to_dt(Meta::Week, "%U");
    check_meta_to_dt(Meta::MonthNum, "%m");
    check_meta_to_dt(Meta::MonthName, "%B");
    check_meta_to_dt(Meta::MonthAbbr, "%b");
    check_meta_to_dt(Meta::Year, "%Y");
}

#[test]
fn meta_constants_are_recognised_and_evaluated() {
    for meta_ident in meta_idents().iter() {
        let meta_constant = &format!("${}", *meta_ident);
        let result = Template::parse(meta_constant)
            .unwrap()
            .fill_out(VolatileContent::new(), ContentState::new())
            .unwrap();
        let expected = meta_ident.as_meta().unwrap().to_content().unwrap();
        assert_eq!(result, expected, "Meta constant {meta_constant} evaluation");
    }
}

#[test]
fn other_identifiers_are_not_meta() {
    assert!("Name".as_meta().is_none());
    assert!("year".as_meta().is_none());
    assert_eq!("MonthShort".as_meta(), Some(Meta::MonthAbbr));
    assert_eq!("Day".as_meta(), Some(Meta::DayName));
}

#[test]
fn meta_formats() {
    assert_eq!(Meta::Year.format(), "%Y");
    assert_eq!(Meta::Week.format(), "%U");
    assert_eq!(Meta::Second.format(), "%S");
}

#[test]
fn meta_values_at_a_fixed_time() {
    // 2009-02-13 23:31:30 UTC, a Friday
    let secs = 1_234_567_890;
    assert_eq!(Meta::Year.content_at(secs, 0).unwrap(), "2009");
    assert_eq!(Meta::MonthNum.content_at(secs, 0).unwrap(), "02");
    assert_eq!(Meta::MonthName.content_at(secs, 0).unwrap(), "February");
    assert_eq!(Meta::MonthAbbr.content_at(secs, 0).unwrap(), "Feb");
    assert_eq!(Meta::DayNum.content_at(secs, 0).unwrap(), "13");
    assert_eq!(Meta::DayName.content_at(secs, 0).unwrap(), "Friday");
    assert_eq!(Meta::DayAbbr.content_at(secs, 0).unwrap(), "Fri");
    assert_eq!(Meta::Hour.content_at(secs, 0).unwrap(), "23");
    assert_eq!(Meta::Minute.content_at(secs, 0).unwrap(), "31");
    assert_eq!(Meta::Second.content_at(secs, 0).unwrap(), "30");
    assert_eq!(Meta::Week.content_at(secs, 0).unwrap(), "06");
    assert!(Meta::Year.content_at(u64::MAX, 0).is_none());
}

#[test]
fn meta_constants_are_filled_at_a_given_time() {
    let mut required = RequiredContent::new();
    required.insert(&ContentIndex::new(ContentType::Constant, "Year"), ContentRequirement::Unset);
    required.insert(&ContentIndex::new(ContentType::Key, "Year"), ContentRequirement::Unset);
    required.insert(&ContentIndex::new(ContentType::Constant, "name"), ContentRequirement::Unset);
    required.eval_dyn_at(0, 0);
    let mut expected = RequiredContent::new();
    expected.insert(
        &ContentIndex::new(ContentType::Constant, "Year"),
        ContentRequirement::Literal("1970".to_owned()),
    );
    expected.insert(&ContentIndex::new(ContentType::Key, "Year"), ContentRequirement::Unset);
    expected.insert(&ContentIndex::new(ContentType::Constant, "name"), ContentRequirement::Unset);
    assert_eq!(required, expected);
}
