use logger_rs::filter::{admits, FilterRule};
use logger_rs::level::{Level, LevelFilter};

fn rule(target: Option<&str>, level: LevelFilter) -> FilterRule {
    FilterRule { target: target.map(|t| t.to_string()), level }
}

#[test]
fn scoped_rule_overrides_global_default() {
    let rules = vec![rule(None, LevelFilter::Trace), rule(Some("noisy_module"), LevelFilter::Warn)];
    assert!(!admits(&rules, "noisy_module", Level::Debug));
    assert!(admits(&rules, "noisy_module", Level::Warn));
    assert!(admits(&rules, "noisy_module::inner", Level::Error));
    assert!(admits(&rules, "app", Level::Info));
    assert!(admits(&rules, "app", Level::Trace));
}

#[test]
fn no_rules_admit_everything() {
    let rules: Vec<FilterRule> = Vec::new();
    assert!(admits(&rules, "any", Level::Trace));
    assert!(admits(&rules, "", Level::Error));
}

#[test]
fn later_rule_for_same_scope_replaces_earlier() {
    let rules = vec![rule(None, LevelFilter::Trace), rule(None, LevelFilter::Error)];
    assert!(!admits(&rules, "x", Level::Warn));
    assert!(admits(&rules, "x", Level::Error));
}

#[test]
fn off_admits_nothing() {
    let rules = vec![rule(None, LevelFilter::Off)];
    assert!(!admits(&rules, "x", Level::Error));
}

#[test]
fn uncovered_target_is_rejected() {
    let rules = vec![rule(Some("only_this"), LevelFilter::Trace)];
    assert!(admits(&rules, "only_this", Level::Trace));
    assert!(!admits(&rules, "other", Level::Error));
}

#[test]
fn longest_scope_decides() {
    let rules = vec![
        rule(Some("a::b"), LevelFilter::Error),
        rule(Some("a"), LevelFilter::Trace),
    ];
    assert!(!admits(&rules, "a::b::c", Level::Info));
    assert!(admits(&rules, "a::c", Level::Info));
}
