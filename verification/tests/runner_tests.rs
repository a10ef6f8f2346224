use onyx::errors::ProjectError;
use onyx::runner::{Runner, RunnerEntry};

fn entry(long: &str, short: &str) -> RunnerEntry {
    RunnerEntry {
        long: String::from(long),
        short: String::from(short),
    }
}

fn runner(valid: Vec<RunnerEntry>, default: Vec<RunnerEntry>) -> Runner {
    Runner { valid, default }
}

#[test]
fn bare_short_alias_resolves_to_long_name() {
    let r = runner(vec![entry("test", "t")], vec![]);
    let out = r.entries_to_run(&vec![String::from("t")]).unwrap();
    assert_eq!(out, vec![String::from("test")]);
}

#[test]
fn add_then_remove_cancels_out() {
    let r = runner(vec![entry("test", "t")], vec![]);
    let out = r
        .entries_to_run(&vec![String::from("+t"), String::from("-test")])
        .unwrap();
    assert_eq!(out, Vec::<String>::new());
}

#[test]
fn removal_filters_the_defaults_too() {
    let r = runner(
        vec![entry("build", "b"), entry("test", "t")],
        vec![entry("build", "b"), entry("test", "t")],
    );
    let out = r.entries_to_run(&vec![String::from("-b")]).unwrap();
    assert_eq!(out, vec![String::from("test")]);
}

#[test]
fn defaults_come_first_then_additions_in_token_order() {
    let r = runner(
        vec![entry("build", "b"), entry("test", "t"), entry("lint", "l")],
        vec![entry("build", "b")],
    );
    let out = r
        .entries_to_run(&vec![String::from("+l"), String::from("t")])
        .unwrap();
    assert_eq!(
        out,
        vec![String::from("build"), String::from("lint"), String::from("test")]
    );
}

#[test]
fn duplicates_are_not_deduplicated() {
    // an entry both in the defaults and added explicitly appears twice
    let r = runner(vec![entry("test", "t")], vec![entry("test", "t")]);
    let out = r.entries_to_run(&vec![String::from("+t")]).unwrap();
    assert_eq!(out, vec![String::from("test"), String::from("test")]);
}

#[test]
fn unmatched_token_fails_with_no_partial_output() {
    let r = runner(vec![entry("test", "t")], vec![entry("test", "t")]);
    let err = r
        .entries_to_run(&vec![String::from("t"), String::from("bogus")])
        .unwrap_err();
    match err {
        ProjectError::InvalidRunnerEntry { name } => assert_eq!(name, "bogus"),
        other => panic!("wrong error: {:?}", other),
    }
}

#[test]
fn matching_ignores_case() {
    // the alias table is capitalised, the token is not: if lowercasing
    // handed its argument back unchanged this would fail
    let r = runner(vec![entry("TEST", "T")], vec![]);
    let out = r.entries_to_run(&vec![String::from("test")]).unwrap();
    assert_eq!(out, vec![String::from("TEST")]);
}

#[test]
fn matching_is_per_field() {
    // a short alias does not match against the long field
    let r = runner(vec![entry("build", "b")], vec![]);
    let err = r.entries_to_run(&vec![String::from("+x")]).unwrap_err();
    match err {
        ProjectError::InvalidRunnerEntry { name } => assert_eq!(name, "x"),
        other => panic!("wrong error: {:?}", other),
    }
}

#[test]
fn normalize_replaces_defaults_with_canonical_entries() {
    let mut r = runner(
        vec![entry("test", "t")],
        vec![RunnerEntry {
            long: String::from("T"),
            short: String::from("T"),
        }],
    );
    r.validate_and_normalize().unwrap();
    assert_eq!(r.default, vec![entry("test", "t")]);
    assert_eq!(r.valid, vec![entry("test", "t")]);
}

#[test]
fn normalize_rejects_unknown_default() {
    let mut r = runner(vec![entry("test", "t")], vec![entry("deploy", "d")]);
    let err = r.validate_and_normalize().unwrap_err();
    match err {
        ProjectError::InvalidRunnerEntry { name } => assert_eq!(name, "deploy"),
        other => panic!("wrong error: {:?}", other),
    }
    // the runner is untouched on failure
    assert_eq!(r.default, vec![entry("deploy", "d")]);
}

#[test]
fn empty_tokens_keep_the_defaults() {
    let r = runner(vec![entry("test", "t")], vec![entry("test", "t")]);
    let out = r.entries_to_run(&Vec::new()).unwrap();
    assert_eq!(out, vec![String::from("test")]);
}

#[test]
fn first_matching_table_entry_wins() {
    // both table entries share the short alias; the earlier one is the
    // canonical match
    let r = runner(vec![entry("test", "t"), entry("tester", "t")], vec![]);
    let out = r.entries_to_run(&vec![String::from("t")]).unwrap();
    assert_eq!(out, vec![String::from("test")]);
}
