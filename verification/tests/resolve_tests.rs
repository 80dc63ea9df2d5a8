use sabpak::resolve::Resolver;
use std::collections::HashMap;

/// Runs a resolution against a fixed table of dependencies; returns the order, the
/// packages whose dependencies were asked for, and the cycles reported.
fn run(target: &str, deps: &[(&str, &[&str])]) -> (Vec<String>, Vec<String>, Vec<String>) {
    let table: HashMap<&str, Vec<String>> =
        deps.iter().map(|(n, ds)| (*n, ds.iter().map(|d| d.to_string()).collect())).collect();
    let mut r = Resolver::new(target);
    let mut asked = Vec::new();
    let mut cycles = Vec::new();
    while let Some(p) = r.pending() {
        asked.push(p.clone());
        let ds = table.get(p.as_str()).cloned().unwrap_or_default();
        cycles.extend(r.provide(ds));
    }
    (r.order(), asked, cycles)
}

#[test]
fn dependencies_come_first() {
    let (order, asked, cycles) =
        run("app", &[("app", &["lib", "util"]), ("lib", &["util"]), ("util", &[])]);
    assert_eq!(order, vec!["util", "lib", "app"]);
    assert_eq!(asked, vec!["app", "lib", "util"]);
    assert!(cycles.is_empty());
}

#[test]
fn lone_package() {
    let (order, asked, _) = run("x", &[]);
    assert_eq!(order, vec!["x"]);
    assert_eq!(asked, vec!["x"]);
}

#[test]
fn diamond_lists_each_once() {
    let (order, _, _) =
        run("a", &[("a", &["b", "c"]), ("b", &["d"]), ("c", &["d"]), ("d", &[])]);
    assert_eq!(order, vec!["d", "b", "c", "a"]);
}

#[test]
fn cycles_are_reported_and_skipped() {
    let (order, asked, cycles) = run("a", &[("a", &["b"]), ("b", &["a"])]);
    assert_eq!(order, vec!["b", "a"]);
    assert_eq!(asked, vec!["a", "b"]);
    assert_eq!(cycles, vec!["a"]);
    let (order, _, cycles) = run("s", &[("s", &["s", "t"]), ("t", &[])]);
    assert_eq!(order, vec!["t", "s"]);
    assert_eq!(cycles, vec!["s"]);
}
