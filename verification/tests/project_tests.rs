use onyx::config::{Application, Config};
use onyx::errors::ProjectError;
use onyx::init::{init_project, sample_app, sample_include};
use onyx::paths::check_extension;
use onyx::project::{ConfigSearch, ContainerMode, Project, ProjectInclude};
use onyx::runner::{Runner, RunnerEntry, RunnerInclude};
use onyx::scalar::{ConfigScalar, ConfigValue};

fn cv(s: &str) -> ConfigValue {
    ConfigValue::new(s)
}

fn table(pairs: &[(&str, &str)]) -> Config {
    let mut v: Vec<(String, ConfigValue)> = Vec::new();
    for (k, val) in pairs {
        v.push((String::from(*k), cv(val)));
    }
    Config::new_map(v)
}

fn app(sections: Vec<(String, Config)>) -> Application {
    Application::from_sections(sections)
}

fn entry(long: &str, short: &str) -> RunnerEntry {
    RunnerEntry {
        long: String::from(long),
        short: String::from(short),
    }
}

fn bare_project(name: &str) -> Project {
    Project::new(name)
}

fn over(app: Application, runner: Option<RunnerInclude>) -> ProjectInclude {
    ProjectInclude {
        app,
        apps: None,
        runner,
    }
}

#[test]
fn new_project_has_the_stock_shape() {
    let p = Project::new("demo");
    assert_eq!(p.name, "demo");
    assert_eq!(p.description, Some(String::from("An Onyx project")));
    assert_eq!(p.language, None);
    assert_eq!(p.container, ContainerMode::NoContainer);
    assert!(!p.umbrella);
    assert!(p.includes.is_empty());
    assert!(p.included.is_none());
    assert!(p.apps.is_none());
    assert!(p.runner.valid.is_empty());
    assert!(p.runner.default.is_empty());
}

#[test]
fn merge_unions_app_config_in_file_order() {
    let mut p = bare_project("demo");
    p.app = app(vec![(
        String::from("db"),
        table(&[("host", "localhost"), ("port", "80")]),
    )]);
    p.included = Some(vec![
        over(
            app(vec![(String::from("db"), table(&[("port", "8080")]))]),
            None,
        ),
        over(
            app(vec![(String::from("db"), table(&[("user", "root")]))]),
            None,
        ),
    ]);
    let merged = p.merge().unwrap();
    assert!(merged.includes.is_empty());
    assert!(merged.included.is_none());
    let sections = merged.app.sections().as_ref().unwrap();
    assert_eq!(sections.len(), 1);
    assert_eq!(
        sections[0].1,
        table(&[("host", "localhost"), ("port", "8080"), ("user", "root")])
    );
    // the source project is untouched
    assert_eq!(
        p.app.sections().as_ref().unwrap()[0].1,
        table(&[("host", "localhost"), ("port", "80")])
    );
}

#[test]
fn merge_takes_the_last_declared_runner_default() {
    let mut p = bare_project("demo");
    p.runner = Runner {
        valid: vec![entry("build", "b"), entry("test", "t")],
        default: vec![entry("build", "b")],
    };
    p.included = Some(vec![
        over(
            Application::empty(),
            Some(RunnerInclude {
                default: vec![entry("build", "b")],
            }),
        ),
        over(
            Application::empty(),
            Some(RunnerInclude {
                default: vec![RunnerEntry {
                    long: String::from("t"),
                    short: String::from("t"),
                }],
            }),
        ),
    ]);
    let merged = p.merge().unwrap();
    // the second include wins outright, and its entry is normalised to
    // the canonical pair from the alias table
    assert_eq!(merged.runner.default, vec![entry("test", "t")]);
    assert_eq!(merged.runner.valid, p.runner.valid);
}

#[test]
fn merge_keeps_the_roots_default_without_declaring_includes() {
    let mut p = bare_project("demo");
    p.runner = Runner {
        valid: vec![entry("build", "b")],
        default: vec![entry("build", "b")],
    };
    p.included = Some(vec![over(Application::empty(), None)]);
    let merged = p.merge().unwrap();
    assert_eq!(merged.runner.default, vec![entry("build", "b")]);
}

#[test]
fn merge_apps_unions_per_name() {
    let mut p = bare_project("demo");
    p.umbrella = true;
    p.apps = Some(vec![(
        String::from("a"),
        app(vec![(String::from("cfg"), table(&[("x", "1")]))]),
    )]);
    p.included = Some(vec![ProjectInclude {
        app: Application::empty(),
        apps: Some(vec![
            (
                String::from("a"),
                app(vec![(String::from("cfg"), table(&[("y", "2")]))]),
            ),
            (
                String::from("b"),
                app(vec![(String::from("cfg"), table(&[("z", "3")]))]),
            ),
        ]),
        runner: None,
    }]);
    let merged = p.merge().unwrap();
    let apps = merged.apps.as_ref().unwrap();
    assert_eq!(apps.len(), 2);
    let lookup = |name: &str| -> &Application {
        &apps.iter().find(|(k, _)| k == name).unwrap().1
    };
    assert_eq!(
        lookup("a"),
        &app(vec![(String::from("cfg"), table(&[("x", "1"), ("y", "2")]))])
    );
    assert_eq!(
        lookup("b"),
        &app(vec![(String::from("cfg"), table(&[("z", "3")]))])
    );
}

#[test]
fn merge_adopts_an_includes_apps_wholesale_when_root_has_none() {
    let mut p = bare_project("demo");
    p.included = Some(vec![ProjectInclude {
        app: Application::empty(),
        apps: Some(vec![(String::from("a"), Application::empty())]),
        runner: None,
    }]);
    let merged = p.merge().unwrap();
    let apps = merged.apps.as_ref().unwrap();
    assert_eq!(apps.len(), 1);
    assert_eq!(apps[0].0, "a");
}

#[test]
fn merge_fails_on_incompatible_config_across_documents() {
    let mut p = bare_project("demo");
    p.app = app(vec![(String::from("db"), table(&[("port", "80")]))]);
    p.included = Some(vec![over(
        app(vec![(String::from("db"), Config::single(cv("sqlite")))]),
        None,
    )]);
    let err = p.merge().unwrap_err();
    match err {
        ProjectError::IncompatibleConfigType { key } => assert_eq!(key, "db"),
        other => panic!("wrong error: {:?}", other),
    }
}

#[test]
fn merge_fails_on_a_default_outside_the_alias_table() {
    let mut p = bare_project("demo");
    p.runner = Runner {
        valid: vec![entry("build", "b")],
        default: vec![],
    };
    p.included = Some(vec![over(
        Application::empty(),
        Some(RunnerInclude {
            default: vec![entry("deploy", "d")],
        }),
    )]);
    let err = p.merge().unwrap_err();
    match err {
        ProjectError::InvalidRunnerEntry { name } => assert_eq!(name, "deploy"),
        other => panic!("wrong error: {:?}", other),
    }
}

#[test]
fn yml_extension_passes() {
    assert!(check_extension("onyx.yml", "yml").is_ok());
    assert!(check_extension("some/dir/onyx.priv.yml", "yml").is_ok());
}

#[test]
fn yaml_extension_is_unsupported() {
    let err = check_extension("project.yaml", "yml").unwrap_err();
    match err {
        ProjectError::UnsupportedFileFormat { ext } => assert_eq!(ext, "yaml"),
        other => panic!("wrong error: {:?}", other),
    }
}

#[test]
fn missing_extension_reports_the_file_name() {
    let err = check_extension("dir/Makefile", "yml").unwrap_err();
    match err {
        ProjectError::UnsupportedFileFormat { ext } => assert_eq!(ext, "Makefile"),
        other => panic!("wrong error: {:?}", other),
    }
}

#[test]
fn leading_dot_is_not_an_extension() {
    let err = check_extension("conf/.gitignore", "yml").unwrap_err();
    match err {
        ProjectError::UnsupportedFileFormat { ext } => assert_eq!(ext, ".gitignore"),
        other => panic!("wrong error: {:?}", other),
    }
}

#[test]
fn get_config_yields_one_empty_scalar() {
    let p = Project::new("demo");
    let r = p.get_config(&None, &String::from("key"), &None).unwrap();
    match r {
        ConfigSearch::Single(c) => assert_eq!(c, Config::single(cv(""))),
        other => panic!("wrong search result: {:?}", other),
    }
}

#[test]
fn init_project_honours_the_answers() {
    let p = init_project(
        String::from("demo"),
        String::from("a demo"),
        true,
        true,
    );
    assert_eq!(p.name, "demo");
    assert_eq!(p.description, Some(String::from("a demo")));
    assert!(p.umbrella);
    assert_eq!(p.includes, vec![String::from("onyx.priv.yml")]);
    assert_eq!(p.apps, Some(Vec::new()));
    let sections = p.app.sections().as_ref().unwrap();
    assert_eq!(sections.len(), 1);
    assert_eq!(sections[0].0, "key");
    assert_eq!(sections[0].1, Config::single(cv("XXXX")));

    let q = init_project(
        String::from("demo"),
        String::from(""),
        false,
        false,
    );
    assert!(q.includes.is_empty());
    assert!(q.apps.is_none());
}

#[test]
fn sample_documents_compose() {
    // the generated root and include documents merge into the overridden
    // port, exactly what initialisation promises
    let mut p = Project::new("demo");
    p.app = sample_app();
    p.included = Some(vec![sample_include()]);
    let merged = p.merge().unwrap();
    let sections = merged.app.sections().as_ref().unwrap();
    let lookup = |name: &str| -> &Config {
        &sections.iter().find(|(k, _)| k == name).unwrap().1
    };
    assert_eq!(
        lookup("db"),
        &table(&[
            ("host", "localhost"),
            ("port", "8080"),
            ("user", "user"),
            ("pass", "secret"),
            ("db", "db"),
        ])
    );
    assert_eq!(lookup("key"), &Config::single(cv("XXXX")));
    // the sample port override really is a number on output
    match lookup("db") {
        Config::Table(pairs) => {
            let port = &pairs.iter().find(|(k, _)| k == "port").unwrap().1;
            assert_eq!(port.to_output(), ConfigScalar::Uint(8080));
        }
        other => panic!("wrong config kind: {:?}", other),
    }
}
