use sabpak::import::{extract_urls, parse_pkgfile, recipe_from_pkgfile, ImportError, Pkgfile};

const PKGFILE: &str = r#"# Description: A fast line-oriented search tool
# URL: https://github.com/BurntSushi/ripgrep
# Maintainer: someone
# Depends on: pcre2 zlib

name=ripgrep
version=14.1.1
release=1
description="line search"
source=(https://github.com/BurntSushi/$name/archive/$version/$name-${version}.tar.gz
        extra.patch
        'https://example.org/r${release}.tgz')

build() {
    cargo build --release
}
"#;

#[test]
fn parses_a_port() {
    let pf = parse_pkgfile(PKGFILE);
    assert_eq!(pf.name, "ripgrep");
    assert_eq!(pf.version, "14.1.1");
    assert_eq!(pf.description, "line search");
    assert_eq!(
        pf.sources,
        vec![
            "https://github.com/BurntSushi/ripgrep/archive/14.1.1/ripgrep-14.1.1.tar.gz",
            "https://example.org/r1.tgz",
        ]
    );
    assert_eq!(pf.deps, vec!["pcre2", "zlib"]);
}

#[test]
fn first_assignment_wins_and_single_line_sources() {
    let pf = parse_pkgfile("name=a\nname=b\nversion='1.0'\nsource=(http://x/$name.tgz) ftp://y/z\n");
    assert_eq!(pf.name, "a");
    assert_eq!(pf.version, "1.0");
    assert_eq!(pf.sources, vec!["http://x/a.tgz"]);
    assert!(pf.deps.is_empty());
}

#[test]
fn no_name_means_no_lists() {
    let pf = parse_pkgfile("# Depends on: x\nversion=2\nsource=(http://a/b)\n");
    assert_eq!(pf.name, "");
    assert_eq!(pf.version, "2");
    assert!(pf.sources.is_empty());
    assert!(pf.deps.is_empty());
}

#[test]
fn urls_from_a_chunk() {
    let vars = vec![
        ("name".to_string(), "foo".to_string()),
        ("version".to_string(), "1.2".to_string()),
        ("release".to_string(), "3".to_string()),
    ];
    assert_eq!(
        extract_urls("  \"https://h/$name-$version.tar.xz\" local.patch 'git://g/${name}'", &vars),
        vec!["https://h/foo-1.2.tar.xz", "git://g/foo"]
    );
    assert!(extract_urls("", &vars).is_empty());
}

fn pkgfile(name: &str, version: &str, sources: Vec<&str>) -> Pkgfile {
    Pkgfile {
        name: name.to_string(),
        version: version.to_string(),
        description: String::new(),
        sources: sources.into_iter().map(String::from).collect(),
        deps: vec!["zlib".to_string()],
    }
}

#[test]
fn recipe_from_a_port() {
    let r = recipe_from_pkgfile("rg-port", &pkgfile("ripgrep", "14.1.1", vec!["https://a/b.tgz", "https://c"]))
        .unwrap();
    assert_eq!(r.package.name, "ripgrep");
    assert_eq!(r.package.version, "14.1.1");
    assert_eq!(r.package.deps, vec!["zlib"]);
    assert_eq!(r.source.kind, "archive");
    assert_eq!(r.source.url, "https://a/b.tgz");
    assert_eq!(r.source.tag, "");
    assert_eq!(r.build.kind, "auto");
    assert!(r.build.args.is_empty());
    assert_eq!(r.build.output, "ripgrep");
    let unnamed = recipe_from_pkgfile("port", &pkgfile("", "1", vec!["https://a"])).unwrap();
    assert_eq!(unnamed.package.name, "port");
    assert_eq!(unnamed.build.output, "port");
}

#[test]
fn import_errors() {
    assert_eq!(
        recipe_from_pkgfile("p", &pkgfile("p", "", vec!["https://a"])).err(),
        Some(ImportError::NoVersion)
    );
    assert_eq!(
        recipe_from_pkgfile("p", &pkgfile("p", "", vec![])).err(),
        Some(ImportError::NoVersion)
    );
    assert_eq!(
        recipe_from_pkgfile("p", &pkgfile("p", "1", vec![])).err(),
        Some(ImportError::NoSource)
    );
}
