use sabpak::config::{
    base_dir, bin_dir, bin_name, elevated_command, entries, entry_binary, forget, installed,
    installed_packages, installed_version, is_stale_cache_file, prefix, prune_state,
    releases_repo, remember, state_file, user_cache,
};

const STATE: &str = "rg ripgrep 14.1.1\n  fd fdfind 9.0  \n\n\r\nbat bat 0.24\nlonely\n";

#[test]
fn entries_are_trimmed_non_blank_lines() {
    assert_eq!(
        entries(STATE),
        vec!["rg ripgrep 14.1.1", "fd fdfind 9.0", "bat bat 0.24", "lonely"]
    );
    assert_eq!(entries(""), Vec::<String>::new());
    assert_eq!(entries("a b c"), vec!["a b c"]);
    assert_eq!(entries("x\r\ny\t\n"), vec!["x", "y"]);
}

#[test]
fn lookups() {
    assert_eq!(bin_name(STATE, "rg"), Some("ripgrep".to_string()));
    assert_eq!(installed_version(STATE, "fd"), Some("9.0".to_string()));
    assert_eq!(bin_name(STATE, "lonely"), Some(String::new()));
    assert_eq!(installed_version(STATE, "lonely"), Some(String::new()));
    assert_eq!(bin_name(STATE, "nope"), None);
    assert_eq!(bin_name(STATE, "r"), None);
    assert_eq!(installed_version("", "rg"), None);
}

#[test]
fn installed_lists_complete_entries() {
    assert_eq!(
        installed(STATE),
        vec![
            ("rg".to_string(), "ripgrep".to_string(), "14.1.1".to_string()),
            ("fd".to_string(), "fdfind".to_string(), "9.0".to_string()),
            ("bat".to_string(), "bat".to_string(), "0.24".to_string()),
        ]
    );
    assert_eq!(installed_packages(STATE), vec!["rg", "fd", "bat", "lonely"]);
}

#[test]
fn remember_replaces_and_appends() {
    let t = remember(STATE, "rg", "rg", "15.0");
    assert_eq!(t, "fd fdfind 9.0\nbat bat 0.24\nlonely\nrg rg 15.0\n");
    assert_eq!(remember("", "a", "b", "1"), "a b 1\n");
    // only entries that begin with the name and a space go
    assert_eq!(remember("rgx x 1\n", "rg", "rg", "2"), "rgx x 1\nrg rg 2\n");
}

#[test]
fn law_remember_then_lookup_example() {
    let t = remember(STATE, "exa", "eza", "0.18");
    assert_eq!(bin_name(&t, "exa"), Some("eza".to_string()));
    assert_eq!(installed_version(&t, "exa"), Some("0.18".to_string()));
    assert_eq!(bin_name(&t, "fd"), bin_name(STATE, "fd"));
    assert_eq!(installed_version(&t, "bat"), installed_version(STATE, "bat"));
    // an empty version reads back as empty
    let u = remember("", "z", "zz", "");
    assert_eq!(installed_version(&u, "z"), Some(String::new()));
    assert_eq!(bin_name(&u, "z"), Some("zz".to_string()));
}

#[test]
fn remember_lists_the_record_and_keeps_inner_tabs() {
    let t = remember(STATE, "my\ttool", "b\tin", "1\t0");
    assert_eq!(bin_name(&t, "my\ttool"), Some("b\tin".to_string()));
    assert_eq!(installed_version(&t, "my\ttool"), Some("1\t0".to_string()));
    assert!(installed(&t).contains(&("my\ttool".to_string(), "b\tin".to_string(), "1\t0".to_string())));
    let u = remember(STATE, "exa", "eza", "0.18");
    assert!(installed(&u).contains(&("exa".to_string(), "eza".to_string(), "0.18".to_string())));
}

#[test]
fn remember_reads_back_with_whitespace_inside_the_fields() {
    let t = remember("", "n", "\tb", "v");
    assert_eq!(bin_name(&t, "n"), Some("\tb".to_string()));
    let u = remember(STATE, "n\t", "", "\tv");
    assert_eq!(bin_name(&u, "n\t"), Some(String::new()));
    assert_eq!(installed_version(&u, "n\t"), Some("\tv".to_string()));
    assert!(installed(&u).contains(&("n\t".to_string(), String::new(), "\tv".to_string())));
    // a name ending in whitespace with nothing after it is cut down to another name
    let w = remember("", "a\t", "", "");
    assert_eq!(bin_name(&w, "a"), Some(String::new()));
}

#[test]
fn pruned_state_reads_back() {
    let es = entries(STATE);
    let alive = vec![true, false, true, false];
    let (text, dropped) = prune_state(&es, &alive);
    assert_eq!(dropped, 2);
    assert_eq!(entries(&text), vec!["rg ripgrep 14.1.1".to_string(), "bat bat 0.24".to_string()]);
}

#[test]
fn forget_undoes_remember() {
    let before = entries(STATE);
    let t = forget(&remember(STATE, "exa", "eza", "0.18"), "exa");
    assert_eq!(entries(&t), before);
    assert_eq!(bin_name(&t, "exa"), None);
    assert_eq!(installed_version(&t, "exa"), None);
}

#[test]
fn remember_after_a_bare_name_entry() {
    // the law's excluded case: an entry holding only the bare name stays first
    let t = remember("foo\n", "foo", "b", "1");
    assert_eq!(bin_name(&t, "foo"), Some(String::new()));
}

#[test]
fn forget_drops_the_package() {
    let t = forget(STATE, "fd");
    assert_eq!(t, "rg ripgrep 14.1.1\nbat bat 0.24\nlonely\n");
    assert_eq!(bin_name(&t, "fd"), None);
    assert_eq!(bin_name(&t, "rg"), bin_name(STATE, "rg"));
    assert_eq!(forget("a b c\n", "a"), "");
    assert_eq!(forget("", "a"), "");
}

#[test]
fn forget_a_name_with_a_space() {
    let t = forget("a b c\nd e f\n", "a b");
    assert_eq!(t, "d e f\n");
    assert_eq!(bin_name(&t, "a b"), None);
    assert_eq!(bin_name("a b\n", "a b"), None);
}

#[test]
fn path_settings() {
    assert_eq!(prefix(None), "/usr/local");
    assert_eq!(prefix(Some("")), "/usr/local");
    assert_eq!(prefix(Some("/opt/x")), "/opt/x");
    assert_eq!(base_dir(None, "/usr/local"), "/usr/local/share/sabpak");
    assert_eq!(base_dir(Some("/src/sabpak"), "/usr/local"), "/src/sabpak");
    assert_eq!(base_dir(Some(""), "/p/"), "/p/share/sabpak");
    assert_eq!(user_cache(Some("/home/u")), "/home/u/.cache/sabpak");
    assert_eq!(user_cache(None), "./.cache/sabpak");
    assert_eq!(bin_dir("/usr/local"), "/usr/local/bin");
    assert_eq!(state_file("/usr/local"), "/usr/local/share/sabpak/installed.txt");
    assert_eq!(releases_repo(None, None), "pansususu/packages");
    assert_eq!(releases_repo(Some("me/pkgs"), None), "me/pkgs");
    assert_eq!(releases_repo(Some("me/pkgs"), Some("elun/pkgs")), "me/pkgs");
    assert_eq!(releases_repo(None, Some("elun/pkgs")), "elun/pkgs");
    assert_eq!(releases_repo(Some(""), Some("elun/pkgs")), "elun/pkgs");
    assert_eq!(releases_repo(Some(""), Some("")), "pansususu/packages");
}

#[test]
fn elevation() {
    let args = vec!["-f".to_string(), "/usr/local/bin/rg".to_string()];
    assert_eq!(
        elevated_command(true, "rm", &args),
        ("sudo".to_string(), vec!["rm".to_string(), "-f".to_string(), "/usr/local/bin/rg".to_string()])
    );
    assert_eq!(elevated_command(false, "rm", &args), ("rm".to_string(), args.clone()));
}

#[test]
fn cleanup_decisions() {
    let inst = vec!["rg".to_string(), "fd".to_string()];
    assert!(is_stale_cache_file("rg-14.1.1.tar.gz.part.77", &inst));
    assert!(is_stale_cache_file("fd-1.0.tar.gz.part.4242", &inst));
    assert!(!is_stale_cache_file("rg-14.1.1.tar.gz.part.", &inst));
    assert!(!is_stale_cache_file("rg-14.1.1.tar.gz.part.x1", &inst));
    assert!(!is_stale_cache_file("rg-14.1.1.tar.gz.partial.1", &inst));
    assert!(is_stale_cache_file("rg-14.1.1.tar.gz.part", &inst));
    assert!(!is_stale_cache_file("rg-14.1.1.tar.gz", &inst));
    assert!(is_stale_cache_file("bat-0.24.tar.gz", &inst));
    assert!(is_stale_cache_file("rg", &inst));
    assert_eq!(entry_binary("rg ripgrep 1"), Some("ripgrep".to_string()));
    assert_eq!(entry_binary("lonely"), None);
    let es = vec!["rg ripgrep 1".to_string(), "fd fd 2".to_string()];
    assert_eq!(prune_state(&es, &vec![true, false]), ("rg ripgrep 1\n".to_string(), 1));
    assert_eq!(prune_state(&es, &vec![false, false]), (String::new(), 2));
    assert_eq!(prune_state(&es, &vec![true, true]), ("rg ripgrep 1\nfd fd 2\n".to_string(), 0));
}
