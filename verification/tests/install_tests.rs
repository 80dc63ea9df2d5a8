use sabpak::config::remember;
use sabpak::install::{InstallStep, Installs};

fn names(ns: &[&str]) -> Vec<String> {
    ns.iter().map(|s| s.to_string()).collect()
}

#[test]
fn installs_skip_recorded_packages_and_count_failures() {
    let mut state = remember("", "b", "bb", "1");
    let mut run = Installs::new(names(&["a", "b", "c", "d"]));
    assert_eq!(run.step(&state), InstallStep::Install("a".to_string()));
    run.report(false);
    assert_eq!(run.step(&state), InstallStep::AlreadyInstalled("b".to_string()));
    // an outcome with nothing awaiting it changes nothing
    run.report(false);
    assert_eq!(run.step(&state), InstallStep::Install("c".to_string()));
    state = remember(&state, "c", "cc", "2");
    run.report(true);
    assert_eq!(run.step(&state), InstallStep::Install("d".to_string()));
    run.report(false);
    assert_eq!(run.step(&state), InstallStep::Done);
    assert_eq!(run.step(&state), InstallStep::Done);
    assert_eq!(run.failures(), 2);
}

#[test]
fn installs_of_nothing() {
    let mut run = Installs::new(Vec::new());
    assert_eq!(run.step(""), InstallStep::Done);
    assert_eq!(run.failures(), 0);
}
