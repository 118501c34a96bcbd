use kissat::options::{
    format_value, option_table, options_get, options_parse_arg, options_set, parse_option_name,
    parse_option_value, Options, OPTIONS_MAX_NAME_BUFFER_SIZE,
};

#[test]
fn table_has_all_158_options() {
    assert_eq!(option_table().len(), 158);
}

#[test]
fn table_sorted_and_ranges_valid() {
    let mut prev: Option<&str> = None;
    for o in option_table().iter() {
        if let Some(p) = prev {
            assert!(p < o.name, "option '{}' before option '{}'", p, o.name);
        }
        prev = Some(o.name);
        assert!(o.low <= o.high, "{}", o.name);
        assert!(o.low <= o.value && o.value <= o.high, "{}", o.name);
        assert!(o.name.len() + 1 <= OPTIONS_MAX_NAME_BUFFER_SIZE);
    }
}

#[test]
fn defaults_match_table() {
    let options = Options::default();
    for o in option_table().iter() {
        assert_eq!(options_get(&options, o.name), o.value, "{}", o.name);
    }
    assert_eq!(options.target, 1);
    assert_eq!(options.stable, 1);
    assert_eq!(options.restartint, 1);
    assert_eq!(options.reluctantint, 1024);
    assert_eq!(options.reluctantlim, 1_048_576);
    assert_eq!(options.defragsize, 262_144);
}

#[test]
fn parse_value_forms() {
    assert_eq!(parse_option_value("true"), Some(1));
    assert_eq!(parse_option_value("false"), Some(0));
    assert_eq!(parse_option_value("0"), Some(0));
    assert_eq!(parse_option_value("-17"), Some(-17));
    assert_eq!(parse_option_value("13e5"), Some(1_300_000));
    assert_eq!(parse_option_value("0e123123123"), Some(0));
    assert_eq!(parse_option_value("2^11"), Some(2048));
    assert_eq!(parse_option_value("2^30"), Some(1 << 30));
    assert_eq!(parse_option_value("3^0"), Some(1));
    assert_eq!(parse_option_value("0^123123123"), Some(0));
    assert_eq!(parse_option_value("1^23"), Some(1));
    assert_eq!(parse_option_value("2147483647"), Some(i32::MAX));
    assert_eq!(parse_option_value("-2147483648"), Some(i32::MIN));
    assert_eq!(parse_option_value("2147483648"), None);
    assert_eq!(parse_option_value("00"), None);
    assert_eq!(parse_option_value("2^00"), None);
    assert_eq!(parse_option_value("0^0"), None);
    assert_eq!(parse_option_value("13e55"), None);
    assert_eq!(parse_option_value("2^100"), None);
    assert_eq!(parse_option_value(""), None);
    assert_eq!(parse_option_value("-"), None);
    assert_eq!(parse_option_value("x"), None);
    assert_eq!(parse_option_value("1x"), None);
}

#[test]
fn parse_arg_forms() {
    assert_eq!(options_parse_arg("--chrono"), Some(("chrono", 1)));
    assert_eq!(options_parse_arg("--no-chrono"), Some(("chrono", 0)));
    assert_eq!(options_parse_arg("--chrono=true"), Some(("chrono", 1)));
    assert_eq!(options_parse_arg("--decay=200"), Some(("decay", 200)));
    assert_eq!(options_parse_arg("--decay=201"), None);
    assert_eq!(options_parse_arg("--no-decay"), None);
    assert_eq!(options_parse_arg("--unknown"), None);
    assert_eq!(options_parse_arg("-chrono"), None);
}

#[test]
fn parse_name_forms() {
    assert_eq!(parse_option_name("--chrono=1", "chrono"), Some("1"));
    assert_eq!(parse_option_name("--no-chrono", "chrono"), Some("0"));
    assert_eq!(parse_option_name("--chrono", "chrono"), None);
    assert_eq!(parse_option_name("--chronolevels=5", "chrono"), None);
}

#[test]
fn set_clamps_and_returns_previous() {
    let mut options = Options::default();
    assert_eq!(options_set(&mut options, "decay", 1000), 50);
    assert_eq!(options.decay, 200);
    assert_eq!(options_set(&mut options, "decay", -7), 200);
    assert_eq!(options.decay, 1);
    assert_eq!(options_set(&mut options, "bogus", 3), 0);
}

#[test]
fn format_matches_kissat() {
    assert_eq!(format_value(false, 1000), "1e3");
    assert_eq!(format_value(false, 100_000), "1e5");
    assert_eq!(format_value(false, 1024), "2^10");
    assert_eq!(format_value(false, 50_000_000), "5e7");
    assert_eq!(format_value(false, 990), "990");
    assert_eq!(format_value(false, i32::MAX), "INT_MAX");
    assert_eq!(format_value(true, 1), "true");
    assert_eq!(format_value(true, 0), "false");
}

#[test]
fn set_then_get_leaves_others_alone() {
    let mut options = Options::default();
    let before = options;
    options_set(&mut options, "chrono", 0);
    assert_eq!(options_get(&options, "chrono"), 0);
    for o in option_table() {
        if o.name != "chrono" {
            assert_eq!(options_get(&options, o.name), options_get(&before, o.name), "{}", o.name);
        }
    }
    options_set(&mut options, "seed", i32::MAX);
    let seed = option_table().into_iter().find(|o| o.name == "seed").unwrap();
    assert_eq!(options_get(&options, "seed"), seed.high);
}
