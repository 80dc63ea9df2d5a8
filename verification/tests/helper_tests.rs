use sabpak::helper::{
    best_repo, detect_build, latest_tag_url, recipe_from_repo, root_files_url, search_url, Repo,
};

fn repo(name: &str, stars: i64) -> Repo {
    Repo {
        full_name: name.to_string(),
        stargazers_count: stars,
        html_url: format!("https://github.com/{name}"),
        default_branch: "main".to_string(),
    }
}

fn files(names: &[&str]) -> Vec<String> {
    names.iter().map(|s| s.to_string()).collect()
}

#[test]
fn urls() {
    assert_eq!(
        search_url("ripgrep"),
        "https://api.github.com/search/repositories?q=ripgrep&sort=stars&order=desc"
    );
    assert_eq!(latest_tag_url("a/b"), "https://api.github.com/repos/a/b/releases/latest");
    assert_eq!(root_files_url("a/b", "main"), "https://api.github.com/repos/a/b/contents?ref=main");
}

#[test]
fn most_starred_wins_last_of_equals() {
    assert!(best_repo(Vec::new()).is_none());
    let r = best_repo(vec![repo("a", 5), repo("b", 9), repo("c", 2)]).unwrap();
    assert_eq!(r.full_name, "b");
    let r = best_repo(vec![repo("a", 9), repo("b", 9), repo("c", 2)]).unwrap();
    assert_eq!(r.full_name, "b");
}

#[test]
fn build_detection_from_repo_files() {
    let (k, a, o) = detect_build("rg", &files(&["README.md", "cargo.TOML"]));
    assert_eq!((k.as_str(), a, o.as_str()), ("cargo", vec!["--release".to_string()], "target/release/rg"));
    let (k, a, o) = detect_build("x", &files(&["CMakeLists.txt", "Makefile"]));
    assert_eq!((k.as_str(), a.len(), o.as_str()), ("cmake", 0, "build/x"));
    let (k, a, o) = detect_build("x", &files(&["GNUmakefile"]));
    assert_eq!((k.as_str(), a.len(), o.as_str()), ("make", 0, "x"));
    let (k, _, o) = detect_build("x", &files(&["MAKEFILE"]));
    assert_eq!((k.as_str(), o.as_str()), ("make", "x"));
    let (k, a, o) = detect_build("x", &files(&[]));
    assert_eq!((k.as_str(), a, o.as_str()), ("cargo", vec!["--release".to_string()], "target/release/x"));
}

#[test]
fn recipe_for_a_repo() {
    let rp = repo("BurntSushi/ripgrep", 40000);
    let r = recipe_from_repo("ripgrep", &rp, Some("v14.1.1".to_string()), &files(&["Cargo.toml"]));
    assert_eq!(r.package.name, "ripgrep");
    assert_eq!(r.package.version, "14.1.1");
    assert!(r.package.deps.is_empty());
    assert_eq!(r.source.kind, "git");
    assert_eq!(r.source.url, "https://github.com/BurntSushi/ripgrep.git");
    assert_eq!(r.source.tag, "v14.1.1");
    assert_eq!(r.build.kind, "cargo");
    assert_eq!(r.build.output, "target/release/ripgrep");
    let r = recipe_from_repo("x", &repo("o/x", 1), None, &files(&["Makefile"]));
    assert_eq!(r.source.tag, "main");
    assert_eq!(r.package.version, "main");
    assert_eq!(r.build.kind, "make");
}
