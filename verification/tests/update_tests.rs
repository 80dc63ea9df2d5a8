use sabpak::install::{dist, release_url, reuse_cached};
use sabpak::recipe::{Build, Package, Recipe, Source};
use sabpak::update::{check_status, latest_version, tag_list, update_decision, CheckStatus, UpdateAction};

fn tags(ts: &[&str]) -> Vec<String> {
    ts.iter().map(|s| s.to_string()).collect()
}

#[test]
fn tag_listing() {
    assert_eq!(tag_list("rg-v1\n rg-v2 \n\n"), vec!["rg-v1", "rg-v2"]);
}

#[test]
fn newest_published_version() {
    let ts = tags(&["rg-v1.9", "fd-v9.0", "rg-v1.10", "rg-v1.2", "rgx-v5.0"]);
    assert_eq!(latest_version("rg", &ts), Some("1.10".to_string()));
    assert_eq!(latest_version("fd", &ts), Some("9.0".to_string()));
    assert_eq!(latest_version("bat", &ts), None);
    // the last of equal versions wins
    assert_eq!(latest_version("a", &tags(&["a-v1.0", "a-v1"])), Some("1".to_string()));
    assert_eq!(latest_version("a", &tags(&["a-v1", "a-v1.0"])), Some("1.0".to_string()));
}

#[test]
fn update_decisions() {
    assert_eq!(update_decision("1.0", None, None), UpdateAction::NoReleases);
    assert_eq!(
        update_decision("1.0", Some("2.0".to_string()), Some("2.0".to_string())),
        UpdateAction::UpToDate("2.0".to_string())
    );
    assert_eq!(
        update_decision("1.0", None, Some("2.0".to_string())),
        UpdateAction::Update { from: "1.0".to_string(), to: "2.0".to_string() }
    );
    // versions are compared as text here
    assert_eq!(
        update_decision("1.0", Some("1.0".to_string()), Some("1.0.0".to_string())),
        UpdateAction::Update { from: "1.0".to_string(), to: "1.0.0".to_string() }
    );
}

#[test]
fn check_statuses() {
    assert_eq!(check_status(false, Some(0o755)), CheckStatus::NotInstalled);
    assert_eq!(check_status(true, Some(0o755)), CheckStatus::Executable);
    assert_eq!(check_status(true, Some(0o644)), CheckStatus::NotExecutable);
    assert_eq!(check_status(true, None), CheckStatus::Missing);
}

#[test]
fn download_locations() {
    let r = Recipe {
        package: Package { name: "rg".to_string(), version: "2.0".to_string(), deps: Vec::new() },
        source: Source { kind: "git".to_string(), url: String::new(), tag: String::new() },
        build: Build { kind: "make".to_string(), args: Vec::new(), output: String::new() },
    };
    assert_eq!(dist("me/pkgs"), "https://github.com/me/pkgs/releases/download");
    assert_eq!(
        release_url("me/pkgs", &r),
        "https://github.com/me/pkgs/releases/download/rg-v2.0/rg-2.0.tar.gz"
    );
    assert!(reuse_cached(true, 10));
    assert!(!reuse_cached(true, 0));
    assert!(!reuse_cached(false, 10));
}
