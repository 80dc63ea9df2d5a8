use sabpak::recipe::{
    binary_dir, default_kind, firecipes_dir, is_exec_file, join_path, pick_binary, recipe_file,
    recipes_dir, release_tag, tarball_name, Build, Package, Recipe, Source,
};

fn r(name: &str, version: &str) -> Recipe {
    Recipe {
        package: Package { name: name.to_string(), version: version.to_string(), deps: Vec::new() },
        source: Source { kind: "git".to_string(), url: String::new(), tag: String::new() },
        build: Build { kind: "make".to_string(), args: Vec::new(), output: String::new() },
    }
}

#[test]
fn tarball_names() {
    assert_eq!(tarball_name(&r("rg", "2.0")), "rg-2.0.tar.gz");
    assert_eq!(tarball_name(&r("ripgrep", "14.1.1")), "ripgrep-14.1.1.tar.gz");
    assert_eq!(tarball_name(&r("tool", "1.0.0-beta1")), "tool-1.0.0-beta1.tar.gz");
}

#[test]
fn release_tags() {
    assert_eq!(release_tag(&r("rg", "2.0")), "rg-v2.0");
    assert_eq!(release_tag(&r("my-tool", "0.3.2")), "my-tool-v0.3.2");
}

#[test]
fn default_source_kind_is_git() {
    assert_eq!(default_kind(), "git");
}

#[test]
fn paths_join_like_path_join() {
    assert_eq!(join_path("/usr/local", "bin"), "/usr/local/bin");
    assert_eq!(join_path("/usr/local/", "bin"), "/usr/local/bin");
    assert_eq!(join_path("", "bin"), "bin");
    assert_eq!(join_path("/usr/local", "/x.toml"), "/x.toml");
    assert_eq!(recipe_file("/srv/sabpak/recipes", "/x"), "/x.toml");
    assert_eq!(recipes_dir("/srv/sabpak"), "/srv/sabpak/recipes");
    assert_eq!(firecipes_dir("/srv/sabpak"), "/srv/sabpak/firecipes");
    assert_eq!(recipe_file("/srv/sabpak/recipes", "rg"), "/srv/sabpak/recipes/rg.toml");
}

#[test]
fn exec_bits() {
    assert!(is_exec_file(true, 0o755));
    assert!(is_exec_file(true, 0o100));
    assert!(is_exec_file(true, 0o001));
    assert!(!is_exec_file(true, 0o644));
    assert!(!is_exec_file(false, 0o755));
}

#[test]
fn output_directory() {
    assert_eq!(binary_dir("target/release/rg"), "target/release");
    assert_eq!(binary_dir("rg"), "");
    assert_eq!(binary_dir("/rg"), "");
}

#[test]
fn picking_the_binary() {
    let exes = vec![
        "target/release/build/x/build-script".to_string(),
        "target/release/deps/rg-123".to_string(),
        "target/release/rg".to_string(),
    ];
    assert_eq!(pick_binary(true, "target/release/rg", "rg", &exes), Some("target/release/rg".to_string()));
    assert_eq!(pick_binary(false, "target/release/rg", "rg", &exes), Some("target/release/rg".to_string()));
    let nested = vec!["a/b".to_string(), "a/sub/rg".to_string(), "a/rg2/rg".to_string()];
    assert_eq!(pick_binary(false, "target/release/rg", "rg", &nested), Some("a/sub/rg".to_string()));
    let other = vec!["a/b".to_string(), "a/c".to_string()];
    assert_eq!(pick_binary(false, "out/rg", "rg", &other), Some("a/b".to_string()));
    assert_eq!(pick_binary(false, "out/rg", "rg", &Vec::new()), None);
    // an output without a directory: the executable named like the package is preferred
    let top = vec!["aaa".to_string(), "foo".to_string()];
    assert_eq!(pick_binary(false, "bar", "foo", &top), Some("foo".to_string()));
    let deep = vec!["aaa".to_string(), "sub/foo".to_string()];
    assert_eq!(pick_binary(false, "bar", "foo", &deep), Some("sub/foo".to_string()));
    // a directory ending in `/` is joined with one more `/`, as written
    let doubled = vec!["a/b/foo".to_string(), "a/foo".to_string()];
    assert_eq!(pick_binary(false, "a//x", "foo", &doubled), Some("a/b/foo".to_string()));
    let lookalike = vec!["xfoo".to_string(), "y".to_string()];
    assert_eq!(pick_binary(false, "bar", "foo", &lookalike), Some("xfoo".to_string()));
}
