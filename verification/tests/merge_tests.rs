use onyx::config::{Application, Config};
use onyx::errors::ProjectError;
use onyx::scalar::ConfigValue;

fn cv(s: &str) -> ConfigValue {
    ConfigValue::new(s)
}

fn table(pairs: &[(&str, &str)]) -> Config {
    let mut v: Vec<(String, ConfigValue)> = Vec::new();
    for (k, val) in pairs {
        v.push((String::from(*k), cv(val)));
    }
    Config::new_map(v)
}

fn app(sections: Vec<(String, Config)>) -> Application {
    Application::from_sections(sections)
}

#[test]
fn disjoint_maps_union_without_loss() {
    let mut left = table(&[("a", "1"), ("b", "2")]);
    let right = table(&[("c", "3"), ("d", "4")]);
    let key = String::from("section");
    left.merge(&right, &key).unwrap();
    assert_eq!(left, table(&[("a", "1"), ("b", "2"), ("c", "3"), ("d", "4")]));
}

#[test]
fn overlapping_key_takes_the_override() {
    let mut left = table(&[("a", "1"), ("b", "2")]);
    let right = table(&[("b", "20"), ("c", "30")]);
    let key = String::from("section");
    left.merge(&right, &key).unwrap();
    assert_eq!(left, table(&[("a", "1"), ("b", "20"), ("c", "30")]));
}

#[test]
fn single_with_single_takes_the_override() {
    let mut left = Config::single(cv("old"));
    let right = Config::single(cv("new"));
    let key = String::from("k");
    left.merge(&right, &key).unwrap();
    assert_eq!(left, Config::single(cv("new")));
}

#[test]
fn map_with_single_fails_naming_the_key() {
    let mut left = table(&[("a", "1")]);
    let right = Config::single(cv("x"));
    let key = String::from("offender");
    let err = left.merge(&right, &key).unwrap_err();
    match err {
        ProjectError::IncompatibleConfigType { key } => assert_eq!(key, "offender"),
        other => panic!("wrong error: {:?}", other),
    }
    // the receiver is untouched
    assert_eq!(left, table(&[("a", "1")]));
}

#[test]
fn single_with_map_fails_naming_the_key() {
    let mut left = Config::single(cv("x"));
    let right = table(&[("a", "1")]);
    let key = String::from("offender");
    let err = left.merge(&right, &key).unwrap_err();
    match err {
        ProjectError::IncompatibleConfigType { key } => assert_eq!(key, "offender"),
        other => panic!("wrong error: {:?}", other),
    }
    assert_eq!(left, Config::single(cv("x")));
}

#[test]
fn application_merge_is_two_level() {
    // top level keys union; the shared "db" section unions one level
    // deeper with the override winning
    let mut base = app(vec![
        (String::from("key"), Config::single(cv("XXXX"))),
        (String::from("db"), table(&[("host", "localhost"), ("port", "80")])),
    ]);
    let over = app(vec![
        (String::from("db"), table(&[("port", "8080")])),
        (String::from("extra"), Config::single(cv("yes"))),
    ]);
    base.merge(&over).unwrap();
    let sections = base.sections().as_ref().unwrap();
    let lookup = |name: &str| -> &Config {
        &sections.iter().find(|(k, _)| k == name).unwrap().1
    };
    assert_eq!(
        lookup("db"),
        &table(&[("host", "localhost"), ("port", "8080")])
    );
    assert_eq!(lookup("key"), &Config::single(cv("XXXX")));
    assert_eq!(lookup("extra"), &Config::single(cv("yes")));
    assert_eq!(sections.len(), 3);
}

#[test]
fn absent_override_changes_nothing() {
    let mut base = app(vec![(String::from("key"), Config::single(cv("v")))]);
    let over = Application::empty();
    base.merge(&over).unwrap();
    assert_eq!(base, app(vec![(String::from("key"), Config::single(cv("v")))]));
}

#[test]
fn absent_base_adopts_the_override() {
    let mut base = Application::empty();
    let over = app(vec![(String::from("key"), Config::single(cv("v")))]);
    base.merge(&over).unwrap();
    assert_eq!(base, app(vec![(String::from("key"), Config::single(cv("v")))]));
}

#[test]
fn incompatible_section_fails_the_application_merge() {
    let mut base = app(vec![(String::from("db"), table(&[("port", "80")]))]);
    let over = app(vec![(String::from("db"), Config::single(cv("sqlite")))]);
    let err = base.merge(&over).unwrap_err();
    match err {
        ProjectError::IncompatibleConfigType { key } => assert_eq!(key, "db"),
        other => panic!("wrong error: {:?}", other),
    }
}
