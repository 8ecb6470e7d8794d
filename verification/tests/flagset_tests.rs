use flagbind::{FlagSet, FlagValue, ParseError, Preset};

fn toks(v: Vec<&str>) -> Vec<String> {
    v.into_iter().map(String::from).collect()
}

#[test]
fn test_basic() {
    let mut fs: FlagSet<FlagValue> = FlagSet::new();
    fs.add(
        "opt".to_string(),
        "test bool option".to_string(),
        FlagValue::OptBool(None),
    );
    fs.add(
        "num".to_string(),
        "test num option".to_string(),
        FlagValue::OptInt(None),
    );
    fs.add(
        "num_pre".to_string(),
        "test_num_preset".to_string(),
        FlagValue::PresetInt(Preset(5)),
    );
    assert!(fs
        .parse(toks(vec!["-opt", "true", "--num", "3", "-num_pre", "4"]))
        .is_ok());
    assert_eq!(fs.get("opt"), Some(&FlagValue::OptBool(Some(true))));
    assert_eq!(fs.get("num"), Some(&FlagValue::OptInt(Some(3))));
    match fs.get("num_pre") {
        Some(&FlagValue::PresetInt(p)) => assert_eq!(p.into_inner(), 4),
        _ => panic!("num_pre binding missing"),
    }
}

#[test]
fn needs_help() {
    let mut fs: FlagSet<FlagValue> = FlagSet::new();
    assert_eq!(
        fs.parse(toks(vec!["-h"])),
        Err(ParseError::HelpRequested)
    );
    assert_eq!(
        fs.parse(toks(vec!["-help"])),
        Err(ParseError::HelpRequested)
    );
}

#[test]
fn cannot_parse() {
    let mut fs: FlagSet<FlagValue> = FlagSet::new();
    fs.add(
        "bool".to_string(),
        "test bool option".to_string(),
        FlagValue::OptBool(None),
    );
    assert!(fs.parse(toks(vec!["--bool", "34"])).is_err());
}

#[test]
fn optional_destinations_fill_and_nothing_is_left_over() {
    let mut fs: FlagSet<FlagValue> = FlagSet::new();
    fs.add(
        "opt".to_string(),
        "an optional boolean".to_string(),
        FlagValue::OptBool(None),
    );
    fs.add(
        "num".to_string(),
        "an optional integer".to_string(),
        FlagValue::OptInt(None),
    );
    let r = fs.parse(toks(vec!["-opt", "true", "--num", "3"]));
    assert_eq!(r, Ok(Vec::new()));
    assert_eq!(fs.get("opt"), Some(&FlagValue::OptBool(Some(true))));
    assert_eq!(fs.get("num"), Some(&FlagValue::OptInt(Some(3))));
}

#[test]
fn conversion_failure_keeps_prior_value_and_reports_flag() {
    let mut fs: FlagSet<FlagValue> = FlagSet::new();
    fs.add(
        "bool".to_string(),
        "a boolean".to_string(),
        FlagValue::OptBool(None),
    );
    let r = fs.parse(toks(vec!["--bool", "34"]));
    assert_eq!(
        r,
        Err(ParseError::ParseFromFailure(
            "bool".to_string(),
            "34".to_string()
        ))
    );
    assert_eq!(fs.get("bool"), Some(&FlagValue::OptBool(None)));
}

#[test]
fn missing_value_reports_flag() {
    let mut fs: FlagSet<FlagValue> = FlagSet::new();
    fs.add(
        "name".to_string(),
        "expects a value".to_string(),
        FlagValue::OptInt(None),
    );
    assert_eq!(
        fs.parse(toks(vec!["-name"])),
        Err(ParseError::MissingValue("name".to_string()))
    );
}

#[test]
fn unknown_flag_reports_bare_name() {
    let mut fs: FlagSet<FlagValue> = FlagSet::new();
    assert_eq!(
        fs.parse(toks(vec!["-xyz"])),
        Err(ParseError::UnknownFlag("xyz".to_string()))
    );
}

#[test]
fn untargeted_optional_stays_empty() {
    let mut fs: FlagSet<FlagValue> = FlagSet::new();
    fs.add(
        "used".to_string(),
        "targeted".to_string(),
        FlagValue::OptInt(None),
    );
    fs.add(
        "unused".to_string(),
        "never targeted".to_string(),
        FlagValue::OptBool(None),
    );
    assert!(fs.parse(toks(vec!["-used", "7", "stray"])).is_ok());
    assert_eq!(fs.get("unused"), Some(&FlagValue::OptBool(None)));
    assert_eq!(fs.get("used"), Some(&FlagValue::OptInt(Some(7))));
}

#[test]
fn toggle_flips_once_per_occurrence() {
    let mut fs: FlagSet<FlagValue> = FlagSet::new();
    fs.add(
        "verbose".to_string(),
        "a toggle".to_string(),
        FlagValue::Toggle(false),
    );
    assert!(fs.parse(toks(vec!["-verbose"])).is_ok());
    assert_eq!(fs.get("verbose"), Some(&FlagValue::Toggle(true)));
    assert!(fs.parse(toks(vec!["-verbose", "-verbose"])).is_ok());
    assert_eq!(fs.get("verbose"), Some(&FlagValue::Toggle(true)));
}

#[test]
fn toggle_consumes_no_token() {
    let mut fs: FlagSet<FlagValue> = FlagSet::new();
    fs.add(
        "quick".to_string(),
        "a toggle".to_string(),
        FlagValue::Toggle(false),
    );
    let r = fs.parse(toks(vec!["-quick", "after"]));
    assert_eq!(r, Ok(toks(vec!["after"])));
    assert_eq!(fs.get("quick"), Some(&FlagValue::Toggle(true)));
}

#[test]
fn preset_holds_default_until_overwritten() {
    let mut fs: FlagSet<FlagValue> = FlagSet::new();
    fs.add(
        "level".to_string(),
        "a preset".to_string(),
        FlagValue::PresetInt(Preset(9)),
    );
    assert!(fs.parse(toks(vec!["free"])).is_ok());
    assert_eq!(fs.get("level"), Some(&FlagValue::PresetInt(Preset(9))));
    assert!(fs.parse(toks(vec!["-level", "2", "-level", "6"])).is_ok());
    assert_eq!(fs.get("level"), Some(&FlagValue::PresetInt(Preset(6))));
    assert_eq!(Preset::from(41).into_inner(), 41);
}

#[test]
fn unmatched_tokens_keep_input_order() {
    let mut fs: FlagSet<FlagValue> = FlagSet::new();
    fs.add(
        "t".to_string(),
        "a toggle".to_string(),
        FlagValue::Toggle(false),
    );
    fs.add(
        "n".to_string(),
        "a number".to_string(),
        FlagValue::OptInt(None),
    );
    let r = fs.parse(toks(vec!["one", "-t", "two", "-n", "5", "three"]));
    assert_eq!(r, Ok(toks(vec!["one", "two", "three"])));
}

#[test]
fn many_dashes_still_request_help() {
    let mut fs: FlagSet<FlagValue> = FlagSet::new();
    fs.add(
        "other".to_string(),
        "unrelated".to_string(),
        FlagValue::Toggle(false),
    );
    assert_eq!(
        fs.parse(toks(vec!["---help"])),
        Err(ParseError::HelpRequested)
    );
    assert_eq!(fs.get("other"), Some(&FlagValue::Toggle(false)));
}

#[test]
fn registered_help_name_takes_precedence() {
    let mut fs: FlagSet<FlagValue> = FlagSet::new();
    fs.add(
        "h".to_string(),
        "a registered toggle named h".to_string(),
        FlagValue::Toggle(false),
    );
    assert!(fs.parse(toks(vec!["-h"])).is_ok());
    assert_eq!(fs.get("h"), Some(&FlagValue::Toggle(true)));
}

#[test]
fn later_registration_replaces_earlier() {
    let mut fs: FlagSet<FlagValue> = FlagSet::new();
    fs.add(
        "x".to_string(),
        "first".to_string(),
        FlagValue::OptInt(None),
    );
    fs.add(
        "x".to_string(),
        "second".to_string(),
        FlagValue::Toggle(false),
    );
    assert!(fs.parse(toks(vec!["-x"])).is_ok());
    assert_eq!(fs.get("x"), Some(&FlagValue::Toggle(true)));
}

#[test]
fn error_aborts_but_earlier_mutations_remain() {
    let mut fs: FlagSet<FlagValue> = FlagSet::new();
    fs.add(
        "a".to_string(),
        "a number".to_string(),
        FlagValue::OptInt(None),
    );
    fs.add(
        "b".to_string(),
        "a number".to_string(),
        FlagValue::OptInt(None),
    );
    let r = fs.parse(toks(vec!["-a", "1", "-zzz", "-b", "2"]));
    assert_eq!(r, Err(ParseError::UnknownFlag("zzz".to_string())));
    assert_eq!(fs.get("a"), Some(&FlagValue::OptInt(Some(1))));
    assert_eq!(fs.get("b"), Some(&FlagValue::OptInt(None)));
}

#[test]
fn lone_dash_is_an_unknown_empty_name() {
    let mut fs: FlagSet<FlagValue> = FlagSet::new();
    assert_eq!(
        fs.parse(toks(vec!["-"])),
        Err(ParseError::UnknownFlag("".to_string()))
    );
}

#[test]
fn homogeneous_optional_registry() {
    let mut fs: FlagSet<Option<i64>> = FlagSet::new();
    fs.add("first".to_string(), "a number".to_string(), None);
    fs.add("second".to_string(), "a number".to_string(), None);
    assert!(fs.parse(toks(vec!["-second", "-12"])).is_ok());
    assert_eq!(fs.get("first"), Some(&None));
    assert_eq!(fs.get("second"), Some(&Some(-12)));
}

#[test]
fn help_entries_are_kept() {
    let mut fs: FlagSet<FlagValue> = FlagSet::new();
    fs.add(
        "one".to_string(),
        "first help".to_string(),
        FlagValue::Toggle(false),
    );
    fs.add(
        "two".to_string(),
        "second help".to_string(),
        FlagValue::OptInt(None),
    );
    assert_eq!(fs.len(), 2);
    let mut seen = Vec::new();
    for i in 0..fs.len() {
        let (name, help) = fs.entry_at(i);
        seen.push((name.clone(), help.clone()));
    }
    assert!(seen.contains(&("one".to_string(), "first help".to_string())));
    assert!(seen.contains(&("two".to_string(), "second help".to_string())));
}
