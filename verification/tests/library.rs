use dotm::{ActionError, Config, ConfigError, Identifier, RawRule};

fn id(s: &str) -> Identifier {
    Identifier::new(s.to_string()).unwrap()
}

fn raw(name: &str, deps: &[&str], actions: &[&str]) -> RawRule {
    RawRule {
        name: name.to_string(),
        deps: deps.iter().map(|s| s.to_string()).collect(),
        actions: actions.iter().map(|s| s.to_string()).collect(),
    }
}

fn store(entries: Vec<RawRule>) -> Config {
    Config::init(entries).unwrap()
}

fn plan_names(c: &Config, root: &str) -> Vec<String> {
    c.resolve_plan(&id(root))
        .unwrap()
        .iter()
        .map(|i| i.as_str().to_string())
        .collect()
}

#[test]
fn identifier_rejects_any_whitespace() {
    for bad in ["a b", "a\tb", "a\nb", " a", "b ", "a\u{00A0}b", "a\u{2028}b", "\r"] {
        assert_eq!(Identifier::new(bad.to_string()), Err(bad.to_string()));
    }
}

#[test]
fn identifier_round_trips_whitespace_free_text() {
    for good in ["base", "dev-env", "", "a.b/c_d", "unicode-é"] {
        let ident = Identifier::new(good.to_string()).unwrap();
        assert_eq!(ident.as_str(), good);
    }
}

#[test]
fn init_rejects_whitespace_rule_name() {
    let r = Config::init(vec![raw("bad name", &[], &[])]);
    assert_eq!(r.unwrap_err(), ConfigError::InvalidIdentifier("bad name".to_string()));
}

#[test]
fn init_rejects_whitespace_dep_and_action_names() {
    let r = Config::init(vec![raw("a", &["b c"], &[])]);
    assert_eq!(r.unwrap_err(), ConfigError::InvalidIdentifier("b c".to_string()));
    let r = Config::init(vec![raw("a", &[], &["do it"])]);
    assert_eq!(r.unwrap_err(), ConfigError::InvalidIdentifier("do it".to_string()));
}

#[test]
fn init_rejects_duplicate_rule_names() {
    let r = Config::init(vec![raw("a", &[], &[]), raw("a", &[], &[])]);
    assert!(matches!(r.unwrap_err(), ConfigError::ParseError(_)));
}

#[test]
fn init_accepts_empty_store() {
    assert!(Config::init(Vec::new()).is_ok());
}

#[test]
fn deps_conf_lookup_returns_declared_deps() {
    let c = store(vec![raw("a", &["b", "c"], &["x"]), raw("b", &[], &[]), raw("c", &[], &[])]);
    let deps = c.try_get_rule_deps_conf(&id("a")).unwrap();
    let names: Vec<&str> = deps.iter().map(|d| d.as_str()).collect();
    assert_eq!(names, vec!["b", "c"]);
}

#[test]
fn deps_conf_lookup_unknown_rule() {
    let c = store(vec![raw("a", &[], &[])]);
    assert_eq!(c.try_get_rule_deps_conf(&id("zzz")).unwrap_err(), ConfigError::UnknownRule(id("zzz")));
}

#[test]
fn linear_plan_orders_dependency_first() {
    let c = store(vec![raw("base", &[], &["a1"]), raw("dev", &["base"], &["a2"])]);
    assert_eq!(plan_names(&c, "dev"), vec!["base", "dev"]);
}

#[test]
fn perform_rule_runs_dependency_actions_first() {
    let c = store(vec![raw("base", &[], &["a1"]), raw("dev", &["base"], &["a2"])]);
    let mut ex = c.perform_rule(&id("dev")).unwrap();
    let scheduled: Vec<(String, String)> = ex
        .steps()
        .iter()
        .map(|s| (s.rule.as_str().to_string(), s.action.as_str().to_string()))
        .collect();
    assert_eq!(
        scheduled,
        vec![("base".to_string(), "a1".to_string()), ("dev".to_string(), "a2".to_string())]
    );
    let first = ex.next_action().unwrap();
    assert_eq!(first.action.as_str(), "a1");
    ex.advance();
    let second = ex.next_action().unwrap();
    assert_eq!(second.action.as_str(), "a2");
    ex.advance();
    assert!(ex.next_action().is_none());
    assert!(ex.is_complete());
}

#[test]
fn diamond_plan_is_deterministic_and_deduplicated() {
    let c = store(vec![
        raw("a", &["b", "c"], &[]),
        raw("b", &["d"], &[]),
        raw("c", &["d"], &[]),
        raw("d", &[], &[]),
    ]);
    assert_eq!(plan_names(&c, "a"), vec!["d", "b", "c", "a"]);
    assert_eq!(plan_names(&c, "a"), plan_names(&c, "a"));
}

#[test]
fn duplicate_dep_is_scheduled_once() {
    let c = store(vec![raw("base", &[], &["a1"]), raw("dev", &["base", "base"], &["a2"])]);
    assert_eq!(plan_names(&c, "dev"), vec!["base", "dev"]);
    let ex = c.perform_rule(&id("dev")).unwrap();
    let base_runs = ex.steps().iter().filter(|s| s.action.as_str() == "a1").count();
    assert_eq!(base_runs, 1);
}

#[test]
fn two_rule_cycle_is_reported_with_both_names() {
    let c = store(vec![raw("A", &["B"], &[]), raw("B", &["A"], &[])]);
    for root in ["A", "B"] {
        match c.perform_rule(&id(root)).unwrap_err() {
            ConfigError::DependencyCycle(path) => {
                let names: Vec<&str> = path.iter().map(|p| p.as_str()).collect();
                assert!(names.contains(&"A"));
                assert!(names.contains(&"B"));
                assert_eq!(names.first(), names.last());
                assert!(names.len() >= 3);
            },
            other => panic!("expected a dependency cycle, got {:?}", other),
        }
    }
}

#[test]
fn self_cycle_is_reported() {
    let c = store(vec![raw("solo", &["solo"], &[])]);
    match c.resolve_plan(&id("solo")).unwrap_err() {
        ConfigError::DependencyCycle(path) => {
            let names: Vec<&str> = path.iter().map(|p| p.as_str()).collect();
            assert_eq!(names, vec!["solo", "solo"]);
        },
        other => panic!("expected a dependency cycle, got {:?}", other),
    }
}

#[test]
fn unknown_root_performs_no_actions() {
    let c = store(vec![raw("a", &[], &["x"])]);
    assert_eq!(c.perform_rule(&id("missing")).unwrap_err(), ConfigError::UnknownRule(id("missing")));
}

#[test]
fn unknown_dependency_is_reported() {
    let c = store(vec![raw("a", &["ghost"], &[])]);
    assert_eq!(c.perform_rule(&id("a")).unwrap_err(), ConfigError::UnknownRule(id("ghost")));
}

#[test]
fn failure_is_fail_fast_and_attributed() {
    let c = store(vec![raw("r", &[], &["a1", "a2", "a3"])]);
    let mut ex = c.perform_rule(&id("r")).unwrap();
    // a1 runs and succeeds
    assert_eq!(ex.next_action().unwrap().action.as_str(), "a1");
    ex.advance();
    // a2 runs and fails
    let failing = ex.next_action().unwrap();
    assert_eq!(failing.action.as_str(), "a2");
    let err = ActionError { message: "disk full".to_string(), cause: None };
    let reported = ex.report_failure(err);
    match reported {
        ConfigError::FailedToPerform { rule, err } => {
            assert_eq!(rule.as_str(), "r");
            assert_eq!(err.message, "disk full");
        },
        other => panic!("expected an attributed failure, got {:?}", other),
    }
    // the run did not move on: a3 is never handed out
    assert_eq!(ex.next_action().unwrap().action.as_str(), "a2");
}

#[test]
fn subset_run_skips_dependencies_and_keeps_caller_order() {
    let c = store(vec![raw("base", &[], &["a1"]), raw("dev", &["base"], &["a2", "a3"])]);
    let actions = vec![id("a3"), id("a2")];
    let ex = c.perform_rule_actions(&id("dev"), &actions).unwrap();
    let scheduled: Vec<(String, String)> = ex
        .steps()
        .iter()
        .map(|s| (s.rule.as_str().to_string(), s.action.as_str().to_string()))
        .collect();
    assert_eq!(
        scheduled,
        vec![("dev".to_string(), "a3".to_string()), ("dev".to_string(), "a2".to_string())]
    );
}

#[test]
fn subset_run_unknown_rule() {
    let c = store(vec![raw("a", &[], &[])]);
    let r = c.perform_rule_actions(&id("nope"), &vec![id("x")]);
    assert_eq!(r.unwrap_err(), ConfigError::UnknownRule(id("nope")));
}

#[test]
fn chained_action_error_compares_by_contents() {
    let inner = ActionError { message: "io".to_string(), cause: None };
    let outer = ActionError { message: "move failed".to_string(), cause: Some(Box::new(inner)) };
    assert_eq!(outer.cause.as_ref().unwrap().message, "io");
}

#[test]
fn config_file_name_embeds_distro_id() {
    assert_eq!(Config::config_file_name("arch"), "dotm-arch.yaml");
    assert_eq!(Config::config_file_name(""), "dotm-.yaml");
}
