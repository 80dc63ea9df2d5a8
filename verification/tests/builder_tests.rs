use sabpak::builder::{
    archive_root, build_commands, build_settings, detect_build, fetch_plan, git_clone_args,
    last_segment, stale_releases, work_dir, FetchPlan,
};
use sabpak::recipe::{Build, Package, Recipe, Source};

fn recipe(kind: &str, url: &str, build: &str) -> Recipe {
    Recipe {
        package: Package { name: "tool".to_string(), version: "1.2".to_string(), deps: Vec::new() },
        source: Source { kind: kind.to_string(), url: url.to_string(), tag: "v1.2".to_string() },
        build: Build { kind: build.to_string(), args: vec!["--x".to_string()], output: "tool".to_string() },
    }
}

#[test]
fn detect_build_cases() {
    assert_eq!(detect_build(true, true), ("cargo".to_string(), vec!["--release".to_string()]));
    assert_eq!(
        detect_build(false, true),
        ("cmake".to_string(), vec!["-DCMAKE_BUILD_TYPE=Release".to_string()])
    );
    assert_eq!(detect_build(false, false), ("make".to_string(), vec!["-j".to_string()]));
}

#[test]
fn archive_roots() {
    assert_eq!(archive_root("/w", &vec!["/w/tool-1.2".to_string()]), "/w/tool-1.2");
    assert_eq!(archive_root("/w", &vec![]), "/w");
    assert_eq!(archive_root("/w", &vec!["/w/a".to_string(), "/w/b".to_string()]), "/w");
}

#[test]
fn commands_per_build_system() {
    let args = vec!["--release".to_string()];
    assert_eq!(
        build_commands("cargo", &args),
        Some(vec![("cargo".to_string(), vec!["build".to_string(), "--release".to_string()])])
    );
    assert_eq!(build_commands("make", &args), Some(vec![("make".to_string(), args.clone())]));
    let cm = build_commands("cmake", &args).unwrap();
    assert_eq!(cm.len(), 2);
    assert_eq!(cm[0].1, vec!["-S", ".", "-B", "build", "-DCMAKE_BUILD_TYPE=Release"]);
    assert_eq!(cm[1].1, vec!["--build", "build", "-j"]);
    assert_eq!(build_commands("meson", &args), None);
}

#[test]
fn settings_auto_or_recipe() {
    let detected = ("make".to_string(), vec!["-j".to_string()]);
    assert_eq!(build_settings(&recipe("git", "u", "auto"), detected.clone()), detected);
    assert_eq!(
        build_settings(&recipe("git", "u", "cargo"), detected),
        ("cargo".to_string(), vec!["--x".to_string()])
    );
}

#[test]
fn segments_and_clone_args() {
    assert_eq!(last_segment("https://x.org/a/tool-1.2.tar.gz"), "tool-1.2.tar.gz");
    assert_eq!(last_segment("https://x.org/a/"), "");
    assert_eq!(last_segment("plain"), "plain");
    assert_eq!(
        git_clone_args("v1", "https://g/x.git", "/w"),
        vec!["clone", "--depth", "1", "--branch", "v1", "https://g/x.git", "/w"]
    );
}

#[test]
fn fetch_plans() {
    match fetch_plan(&recipe("git", "https://g/x.git", "make"), "/fc", "/fc/tmp/tool-1.2") {
        FetchPlan::Git(a) => assert_eq!(
            a,
            vec!["clone", "--depth", "1", "--branch", "v1.2", "https://g/x.git", "/fc/tmp/tool-1.2"]
        ),
        _ => panic!("expected a git plan"),
    }
    match fetch_plan(&recipe("archive", "https://h/p/tool-1.2.tgz", "auto"), "/fc", "/w") {
        FetchPlan::Archive { url, archive } => {
            assert_eq!(url, "https://h/p/tool-1.2.tgz");
            assert_eq!(archive, "/fc/tool-1.2.tgz");
        }
        _ => panic!("expected an archive plan"),
    }
    match fetch_plan(&recipe("svn", "u", "make"), "/fc", "/w") {
        FetchPlan::Unsupported(k) => assert_eq!(k, "svn"),
        _ => panic!("expected an unsupported plan"),
    }
    assert_eq!(work_dir("/fc", &recipe("git", "u", "make")), "/fc/tmp/tool-1.2");
}

#[test]
fn stale_release_tags() {
    let out = "tool-v1.0\n  tool-v1.2 \n\nother-v3\ntool-v1.1\ntoolbox-v2\n";
    assert_eq!(stale_releases(out, "tool", "tool-v1.2"), vec!["tool-v1.0", "tool-v1.1"]);
    assert!(stale_releases("", "tool", "tool-v1.2").is_empty());
}
