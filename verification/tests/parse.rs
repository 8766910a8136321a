use uniq::config::Config;
use uniq::constant::{RepeatedOpt, RepeatedTypeOpt, SepKind};

fn args(tokens: &[&str]) -> Vec<String> {
    tokens.iter().map(|t| t.to_string()).collect()
}

fn inactive_sep() -> RepeatedTypeOpt {
    RepeatedTypeOpt::Value(RepeatedOpt { condition: false, value: SepKind::SepNone })
}

#[test]
fn empty_argument_list_gives_defaults() {
    let c = Config::build_config(Vec::new());
    assert!(!c.count && !c.repeated && !c.num && !c.ignore_case && !c.skip_chars && !c.unique);
    assert_eq!(c.all_repeated, inactive_sep());
    assert_eq!(c.input_file, None);
    assert_eq!(c.output_file, None);
    assert!(!c.get_flag_status());
}

#[test]
fn program_name_alone_gives_defaults() {
    let c = Config::build_config(args(&["prog"]));
    assert!(!c.get_flag_status());
    assert_eq!(c.input_file, None);
    assert_eq!(c.output_file, None);
}

#[test]
fn flags_are_recognised() {
    let c = Config::build_config(args(&["prog", "-c", "-d", "-f", "-i", "-s", "-u"]));
    assert!(c.count && c.repeated && c.num && c.ignore_case && c.skip_chars && c.unique);
    assert!(c.get_flag_status());
    assert_eq!(c.input_file, None);
    assert_eq!(c.output_file, None);
}

#[test]
fn unrecognised_flags_are_ignored() {
    let c = Config::build_config(args(&["prog", "-z", "-c"]));
    assert!(c.count);
    assert!(!c.repeated && !c.num && !c.ignore_case && !c.skip_chars && !c.unique);
    assert_eq!(c.input_file, None);
}

#[test]
fn lone_token_is_input_path() {
    let c = Config::build_config(args(&["prog", "file.txt"]));
    assert_eq!(c.input_file, Some("file.txt".to_string()));
    assert_eq!(c.output_file, None);
}

#[test]
fn lone_dash_token_is_no_path() {
    let c = Config::build_config(args(&["prog", "-"]));
    assert_eq!(c.input_file, None);
}

#[test]
fn lone_empty_token_is_captured() {
    let c = Config::build_config(args(&["prog", ""]));
    assert_eq!(c.input_file, Some(String::new()));
    assert_eq!(c.output_file, None);
}

#[test]
fn input_and_output_paths_are_captured_in_order() {
    let c = Config::build_config(args(&["prog", "in.txt", "out.txt"]));
    assert_eq!(c.input_file, Some("in.txt".to_string()));
    assert_eq!(c.output_file, Some("out.txt".to_string()));
}

#[test]
fn flag_then_file_gives_input_only() {
    let c = Config::build_config(args(&["prog", "-c", "in.txt"]));
    assert!(c.count);
    assert_eq!(c.input_file, Some("in.txt".to_string()));
    assert_eq!(c.output_file, None);
}

#[test]
fn sep_value_none_is_parsed() {
    let c = Config::build_config(args(&["prog", "-D", "none", "in.txt"]));
    assert_eq!(
        c.all_repeated,
        RepeatedTypeOpt::Value(RepeatedOpt { condition: true, value: SepKind::SepNone }),
    );
    assert!(c.get_flag_status());
}

#[test]
fn sep_value_prepend_is_parsed() {
    let c = Config::build_config(args(&["prog", "-D", "prepend"]));
    assert_eq!(
        c.all_repeated,
        RepeatedTypeOpt::Value(RepeatedOpt { condition: true, value: SepKind::SepPrepend }),
    );
    // the value token sits in one of the last two positions, so it is also
    // captured as the input path
    assert_eq!(c.input_file, Some("prepend".to_string()));
}

#[test]
fn sep_value_separate_is_parsed() {
    let c = Config::build_config(args(&["prog", "-D", "separate"]));
    assert_eq!(
        c.all_repeated,
        RepeatedTypeOpt::Value(RepeatedOpt { condition: true, value: SepKind::SepSeparate }),
    );
}

#[test]
fn sep_misspelled_value_falls_back_to_none() {
    let c = Config::build_config(args(&["prog", "-D", "seperate"]));
    assert_eq!(
        c.all_repeated,
        RepeatedTypeOpt::Value(RepeatedOpt { condition: true, value: SepKind::SepNone }),
    );
}

#[test]
fn sep_unknown_value_falls_back_to_none() {
    let c = Config::build_config(args(&["prog", "-D", "bogus", "x"]));
    assert_eq!(
        c.all_repeated,
        RepeatedTypeOpt::Value(RepeatedOpt { condition: true, value: SepKind::SepNone }),
    );
    assert_eq!(c.input_file, Some("bogus".to_string()));
    assert_eq!(c.output_file, Some("x".to_string()));
}

#[test]
fn trailing_sep_flag_activates_none() {
    let c = Config::build_config(args(&["prog", "-c", "-D"]));
    assert_eq!(
        c.all_repeated,
        RepeatedTypeOpt::Value(RepeatedOpt { condition: true, value: SepKind::SepNone }),
    );
    assert!(c.count);
    assert!(c.get_flag_status());
}

#[test]
fn sep_value_may_be_a_flag_token() {
    let c = Config::build_config(args(&["prog", "-D", "-c"]));
    assert_eq!(
        c.all_repeated,
        RepeatedTypeOpt::Value(RepeatedOpt { condition: true, value: SepKind::SepNone }),
    );
    assert!(c.count);
    assert_eq!(c.input_file, None);
}

#[test]
fn last_sep_flag_wins() {
    let c = Config::build_config(args(&["prog", "-D", "prepend", "-D", "separate", "in"]));
    assert_eq!(
        c.all_repeated,
        RepeatedTypeOpt::Value(RepeatedOpt { condition: true, value: SepKind::SepSeparate }),
    );
}

#[test]
fn trailing_sep_overrides_earlier_value() {
    let c = Config::build_config(args(&["prog", "-D", "prepend", "-D"]));
    assert_eq!(
        c.all_repeated,
        RepeatedTypeOpt::Value(RepeatedOpt { condition: true, value: SepKind::SepNone }),
    );
}

#[test]
fn sep_flag_alone_activates_flag_status() {
    let c = Config::build_config(args(&["prog", "-D", "none", "in.txt"]));
    assert!(!c.count && !c.repeated && !c.unique);
    assert!(c.get_flag_status());
}
