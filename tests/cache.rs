use ceport::{
    error, get_caching, set_caching, warn, Caching, Diagnostic, InMemoryCached,
    Label, Level, Registry, Stage,
};

#[test]
fn test_diagnostic() {
    let stage = Stage::Parsing("SVG");
    let mut registry = Registry::new();
    set_caching(&mut registry, InMemoryCached::new(100));
    error(&mut registry, stage, || {
        Diagnostic::new("hello world")
            .with_code(10)
            .with_note("")
            .with_label(Label::primary(1, 0..100, "hello world"))
            .with_label(Label::primary(1, 0..100, "hello world"))
            .with_label(Label::primary(1, 0..100, "hello world"))
    });
}

fn numbered(n: usize) -> Diagnostic {
    Diagnostic::new("numbered").with_code(n)
}

#[test]
fn fifo_keeps_first_k_in_order() {
    let stage = Stage::Parsing("svg");
    let mut cache = InMemoryCached::new(2).enable_stage(stage);
    assert!(cache.cache(stage, Level::Error, numbered(1)));
    assert!(cache.cache(stage, Level::Error, numbered(2)));
    assert!(!cache.cache(stage, Level::Error, numbered(3)));
    let first = cache.pop().unwrap();
    assert_eq!(first.2.code, Some(1));
    assert_eq!(first.1, Level::Error);
    assert_eq!(first.0, stage);
    assert_eq!(cache.pop().unwrap().2.code, Some(2));
    assert!(cache.pop().is_none());
}

#[test]
fn fifo_keeps_order_across_levels() {
    let stage = Stage::Semantic("types");
    let mut cache = InMemoryCached::new(10).enable_stage(stage);
    assert!(cache.cache(stage, Level::Note, numbered(1)));
    assert!(cache.cache(stage, Level::Bug, numbered(2)));
    assert_eq!(cache.pop().unwrap().2.code, Some(1));
    assert_eq!(cache.pop().unwrap().2.code, Some(2));
}

#[test]
fn disabled_stage_is_not_cached() {
    let mut cache = InMemoryCached::new(10).enable_stage(Stage::Parsing("svg"));
    assert!(!cache.enabled(Stage::Parsing("css"), Level::Error));
    assert!(!cache.enabled(Stage::Codegen("svg"), Level::Error));
    assert!(cache.enabled(Stage::Parsing("svg"), Level::Error));
    assert!(!cache.cache(Stage::Parsing("css"), Level::Error, numbered(1)));
    assert!(cache.pop().is_none());
}

#[test]
fn level_filter_drops_less_severe() {
    let stage = Stage::Custom("lint");
    let cache = InMemoryCached::new(10).enable_stage(stage).enable_level(Level::Warning);
    assert!(cache.enabled(stage, Level::Bug));
    assert!(cache.enabled(stage, Level::Error));
    assert!(cache.enabled(stage, Level::Warning));
    assert!(!cache.enabled(stage, Level::Note));
    assert!(!cache.enabled(stage, Level::Help));
}

#[test]
fn second_install_fails() {
    let mut registry = Registry::new();
    assert!(!registry.is_installed());
    set_caching(&mut registry, InMemoryCached::new(1));
    assert!(registry.is_installed());
    let stage = Stage::Parsing("x");
    let mut other = Registry::default();
    set_caching(&mut other, InMemoryCached::new(1).enable_stage(stage));
    warn(&mut other, stage, || numbered(7));
    warn(&mut other, stage, || numbered(8));
    assert!(other.is_installed());
    assert!(get_caching(&other).enabled(stage, Level::Warning));
}

#[test]
fn enabling_a_stage_twice_keeps_one_entry() {
    let stage = Stage::Parsing("svg");
    let cache = InMemoryCached::new(1).enable_stage(stage).enable_stage(Stage::Parsing("svg"));
    assert!(cache.enabled(stage, Level::Error));
}

#[test]
fn builder_runs_only_when_enabled() {
    let stage = Stage::Parsing("svg");
    let mut registry = Registry::new();
    set_caching(&mut registry, InMemoryCached::new(4));
    let mut called = false;
    error(&mut registry, stage, || {
        called = true;
        numbered(1)
    });
    assert!(!called);
}
