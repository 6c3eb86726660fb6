use cat::config::{Config, Options, ParseError};

fn args(list: &[&str]) -> Vec<String> {
    list.iter().map(|s| s.to_string()).collect()
}

#[test]
fn no_arguments_gives_empty_config() {
    let c = Config::new(&args(&["cat"])).unwrap();
    assert!(c.filepaths.is_empty());
    assert_eq!(c.options, Options::none());
}

#[test]
fn plain_arguments_are_filepaths_in_order() {
    let c = Config::new(&args(&["cat", "f1", "f2"])).unwrap();
    assert_eq!(c.filepaths, vec!["f1".to_string(), "f2".to_string()]);
    assert_eq!(c.options, Options::none());
}

#[test]
fn lone_dash_is_kept_as_filepath() {
    let c = Config::new(&args(&["cat", "f", "-", "g"])).unwrap();
    assert_eq!(
        c.filepaths,
        vec!["f".to_string(), "-".to_string(), "g".to_string()]
    );
}

#[test]
fn short_number_flag() {
    let c = Config::new(&args(&["cat", "-n", "f"])).unwrap();
    assert!(c.options.number);
    assert!(!c.options.number_nonblank);
    assert_eq!(c.filepaths, vec!["f".to_string()]);
}

#[test]
fn short_number_nonblank_implies_number() {
    let c = Config::new(&args(&["cat", "-b"])).unwrap();
    assert!(c.options.number);
    assert!(c.options.number_nonblank);
}

#[test]
fn short_cluster_combines_flags() {
    let c = Config::new(&args(&["cat", "-sET"])).unwrap();
    assert!(c.options.squeeze_blank);
    assert!(c.options.show_ends);
    assert!(c.options.show_tabs);
    assert!(!c.options.number);
    assert!(!c.options.show_nonprinting);
}

#[test]
fn short_show_all_cluster() {
    let c = Config::new(&args(&["cat", "-A"])).unwrap();
    assert!(c.options.show_nonprinting);
    assert!(c.options.show_ends);
    assert!(c.options.show_tabs);
}

#[test]
fn short_e_and_t_imply_nonprinting() {
    let c = Config::new(&args(&["cat", "-e"])).unwrap();
    assert!(c.options.show_nonprinting);
    assert!(c.options.show_ends);
    let c = Config::new(&args(&["cat", "-t"])).unwrap();
    assert!(c.options.show_nonprinting);
    assert!(c.options.show_tabs);
}

#[test]
fn long_options() {
    let c = Config::new(&args(&[
        "cat",
        "--number",
        "--show-ends",
        "--squeeze-blank",
        "f",
    ]))
    .unwrap();
    assert!(c.options.number);
    assert!(c.options.show_ends);
    assert!(c.options.squeeze_blank);
    assert_eq!(c.filepaths, vec!["f".to_string()]);
}

#[test]
fn long_show_all_and_number_nonblank() {
    let c = Config::new(&args(&["cat", "--show-all", "--number-nonblank"])).unwrap();
    assert!(c.options.show_nonprinting);
    assert!(c.options.show_ends);
    assert!(c.options.show_tabs);
    assert!(c.options.number);
    assert!(c.options.number_nonblank);
}

#[test]
fn long_show_tabs_and_nonprinting() {
    let c = Config::new(&args(&["cat", "--show-tabs", "--show-nonprinting"])).unwrap();
    assert!(c.options.show_tabs);
    assert!(c.options.show_nonprinting);
    assert!(!c.options.show_ends);
}

#[test]
fn flags_are_additive_across_arguments() {
    let c = Config::new(&args(&["cat", "-n", "-s", "--show-ends"])).unwrap();
    assert!(c.options.number);
    assert!(c.options.squeeze_blank);
    assert!(c.options.show_ends);
}

#[test]
fn help_request_wins_in_order() {
    let r = Config::new(&args(&["cat", "-n", "--help", "-x"]));
    assert_eq!(r.unwrap_err(), ParseError::Help);
}

#[test]
fn version_request() {
    let r = Config::new(&args(&["cat", "--version"]));
    assert_eq!(r.unwrap_err(), ParseError::Version);
}

#[test]
fn unknown_option_character_is_reported() {
    let r = Config::new(&args(&["cat", "-x"]));
    assert_eq!(r.unwrap_err(), ParseError::InvalidOption('x'));
}

#[test]
fn first_terminating_outcome_wins() {
    let r = Config::new(&args(&["cat", "-x", "--help"]));
    assert_eq!(r.unwrap_err(), ParseError::InvalidOption('x'));
}

#[test]
fn single_dash_long_name_is_read_as_cluster() {
    let r = Config::new(&args(&["cat", "-show-all"]));
    assert_eq!(r.unwrap_err(), ParseError::InvalidOption('h'));
}

#[test]
fn unknown_long_option_fails_on_first_bad_character() {
    let r = Config::new(&args(&["cat", "--frobnicate"]));
    assert_eq!(r.unwrap_err(), ParseError::InvalidOption('-'));
}

#[test]
fn ignored_u_flag_is_rejected() {
    let r = Config::new(&args(&["cat", "-u"]));
    assert_eq!(r.unwrap_err(), ParseError::InvalidOption('u'));
}

#[test]
fn empty_argument_is_a_filepath() {
    let c = Config::new(&args(&["cat", ""])).unwrap();
    assert_eq!(c.filepaths, vec!["".to_string()]);
}
