//! Making a recipe for a project found on GitHub.
use crate::recipe::{append_str, owned, Build, Package, Recipe, Source};
use crate::text::{chars_of, string_of};
use vstd::prelude::*;

verus! {

/// A repository as the GitHub search reports it.
#[derive(Clone, Debug)]
pub struct Repo {
    pub full_name: String,
    pub stargazers_count: i64,
    pub html_url: String,
    pub default_branch: String,
}

/// The star counts of the repositories, in order.
pub open spec fn stars(items: Seq<Repo>) -> Seq<i64> {
    items.map_values(|r: Repo| r.stargazers_count)
}

/// Position that `Iterator::max_by_key` picks: the last of the largest.
pub open spec fn last_max(s: Seq<i64>) -> int
    decreases s.len(),
{
    if s.len() <= 1 {
        0
    } else {
        let k = last_max(s.drop_last());
        if s.last() >= s[k] {
            s.len() - 1
        } else {
            k
        }
    }
}

/// The position [`last_max`] picks holds the largest value, and no later one equals it.
pub proof fn law_last_max(s: Seq<i64>)
    requires
        s.len() > 0,
    ensures
        0 <= last_max(s) < s.len(),
        forall|j: int| 0 <= j < s.len() ==> #[trigger] s[j] <= s[last_max(s)],
        forall|j: int| last_max(s) < j < s.len() ==> #[trigger] s[j] < s[last_max(s)],
    decreases s.len(),
{
    if s.len() > 1 {
        let init = s.drop_last();
        law_last_max(init);
        let k = last_max(init);
        assert forall|j: int| 0 <= j < init.len() implies #[trigger] s[j] == init[j] by {}
    }
}

/// The search URL for repositories named like `name`, most starred first.
pub fn search_url(name: &str) -> (res: String)
    ensures
        res@ == "https://api.github.com/search/repositories?q="@ + name@
            + "&sort=stars&order=desc"@,
{
    let mut s = String::new();
    append_str(&mut s, "https://api.github.com/search/repositories?q=");
    append_str(&mut s, name);
    append_str(&mut s, "&sort=stars&order=desc");
    s
}

/// The URL of the latest release of `repo`.
pub fn latest_tag_url(repo: &str) -> (res: String)
    ensures
        res@ == "https://api.github.com/repos/"@ + repo@ + "/releases/latest"@,
{
    let mut s = String::new();
    append_str(&mut s, "https://api.github.com/repos/");
    append_str(&mut s, repo);
    append_str(&mut s, "/releases/latest");
    s
}

/// The URL listing the files at the root of `branch` of `repo`.
pub fn root_files_url(repo: &str, branch: &str) -> (res: String)
    ensures
        res@ == "https://api.github.com/repos/"@ + repo@ + "/contents?ref="@ + branch@,
{
    let mut s = String::new();
    append_str(&mut s, "https://api.github.com/repos/");
    append_str(&mut s, repo);
    append_str(&mut s, "/contents?ref=");
    append_str(&mut s, branch);
    s
}

/// The most starred repository of a search (the last of equals), if any.
pub fn best_repo(items: Vec<Repo>) -> (res: Option<Repo>)
    ensures
        items@.len() == 0 <==> res is None,
        res matches Some(r) ==> r == items@[last_max(stars(items@))],
{
    if items.len() == 0 {
        return None;
    }
    let mut best: usize = 0;
    let mut i: usize = 1;
    assert(stars(items@).take(1).len() == 1);
    while i < items.len()
        invariant
            1 <= i <= items@.len(),
            best == last_max(stars(items@).take(i as int)),
        decreases items@.len() - i,
    {
        let ghost s = stars(items@).take(i + 1);
        assert(s.drop_last() =~= stars(items@).take(i as int));
        assert(s.last() == items@[i as int].stargazers_count);
        proof {
            law_last_max(stars(items@).take(i as int));
        }
        assert(s[best as int] == items@[best as int].stargazers_count);
        if items[i].stargazers_count >= items[best].stargazers_count {
            best = i;
        }
        i += 1;
    }
    assert(stars(items@).take(i as int) =~= stars(items@));
    proof {
        law_last_max(stars(items@));
    }
    let mut items = items;
    Some(items.remove(best))
}

/// ASCII case folding of a character, as a code.
pub open spec fn fold_case(c: char) -> int {
    if 'A' <= c && c <= 'Z' {
        c as int + 32
    } else {
        c as int
    }
}

/// `a` and `b` are equal ignoring ASCII case (`str::eq_ignore_ascii_case`).
pub open spec fn eq_ignore_case(a: Seq<char>, b: Seq<char>) -> bool {
    a.len() == b.len() && forall|i: int|
        0 <= i < a.len() ==> #[trigger] fold_case(a[i]) == fold_case(b[i])
}

/// ASCII case folding of a character, as a code (executable).
fn fold_case_code(c: char) -> (res: u32)
    ensures
        res == fold_case(c),
{
    if 'A' <= c && c <= 'Z' {
        c as u32 + 32
    } else {
        c as u32
    }
}

/// Executable form of [`eq_ignore_case`].
fn eq_ignore_case_chars(a: &Vec<char>, b: &Vec<char>) -> (res: bool)
    ensures
        res == eq_ignore_case(a@, b@),
{
    if a.len() != b.len() {
        return false;
    }
    let mut i: usize = 0;
    while i < a.len()
        invariant
            i <= a@.len(),
            a@.len() == b@.len(),
            forall|j: int| 0 <= j < i ==> #[trigger] fold_case(a@[j]) == fold_case(b@[j]),
        decreases a@.len() - i,
    {
        if fold_case_code(a[i]) != fold_case_code(b[i]) {
            return false;
        }
        i += 1;
    }
    true
}

/// Some file of `files` is named `pat`, ignoring ASCII case.
pub open spec fn has_file(files: Seq<Seq<char>>, pat: Seq<char>) -> bool {
    exists|i: int| 0 <= i < files.len() && eq_ignore_case(#[trigger] files[i], pat)
}

/// Executable form of [`has_file`].
fn has_file_in(files: &Vec<String>, pat: &str) -> (res: bool)
    ensures
        res == has_file(files.deep_view(), pat@),
{
    let p = chars_of(pat);
    let mut i: usize = 0;
    while i < files.len()
        invariant
            i <= files@.len(),
            p@ == pat@,
            forall|j: int| 0 <= j < i ==> !eq_ignore_case(#[trigger] files.deep_view()[j], pat@),
        decreases files@.len() - i,
    {
        if eq_ignore_case_chars(&chars_of(files[i].as_str()), &p) {
            assert(eq_ignore_case(files.deep_view()[i as int], pat@));
            return true;
        }
        i += 1;
    }
    false
}

/// The build system of a project, from the files at the root of its repository
/// (names compared ignoring ASCII case): `(kind, arguments, expected output)`.
pub open spec fn detected_build(name: Seq<char>, files: Seq<Seq<char>>) -> (
    Seq<char>,
    Seq<Seq<char>>,
    Seq<char>,
) {
    if has_file(files, "Cargo.toml"@) {
        ("cargo"@, seq!["--release"@], "target/release/"@ + name)
    } else if has_file(files, "CMakeLists.txt"@) {
        ("cmake"@, Seq::empty(), "build/"@ + name)
    } else if has_file(files, "Makefile"@) || has_file(files, "makefile"@) || has_file(
        files,
        "GNUmakefile"@,
    ) {
        ("make"@, Seq::empty(), name)
    } else {
        ("cargo"@, seq!["--release"@], "target/release/"@ + name)
    }
}

/// Whether a root file is named `pat` depends on the whole list, wherever the file
/// stands in it: a file equal to `pat` ignoring ASCII case at any position counts, and
/// lists with the same files (in any order) give the same detection.
pub proof fn law_detection_sees_every_file(name: Seq<char>, files: Seq<Seq<char>>, other: Seq<Seq<char>>, pat: Seq<char>)
    requires
        forall|x: Seq<char>| files.contains(x) <==> other.contains(x),
    ensures
        forall|i: int| 0 <= i < files.len() && eq_ignore_case(#[trigger] files[i], pat) ==> has_file(files, pat),
        has_file(files, pat) ==> exists|i: int| 0 <= i < files.len() && eq_ignore_case(#[trigger] files[i], pat),
        (exists|i: int| 0 <= i < files.len() && eq_ignore_case(#[trigger] files[i], "Cargo.toml"@))
            ==> detected_build(name, files).0 == "cargo"@,
        (exists|i: int| 0 <= i < files.len() && eq_ignore_case(#[trigger] files[i], "CMakeLists.txt"@))
            && !(exists|i: int| 0 <= i < files.len() && eq_ignore_case(#[trigger] files[i], "Cargo.toml"@))
            ==> detected_build(name, files) == ("cmake"@, Seq::<Seq<char>>::empty(), "build/"@ + name),
        detected_build(name, files) == detected_build(name, other),
{
    assert forall|p: Seq<char>| has_file(files, p) == has_file(other, p) by {
        if has_file(files, p) {
            let i = choose|i: int| 0 <= i < files.len() && eq_ignore_case(#[trigger] files[i], p);
            assert(files.contains(files[i]));
            let j = choose|j: int| 0 <= j < other.len() && other[j] == files[i];
            assert(eq_ignore_case(other[j], p));
        }
        if has_file(other, p) {
            let i = choose|i: int| 0 <= i < other.len() && eq_ignore_case(#[trigger] other[i], p);
            assert(other.contains(other[i]));
            let j = choose|j: int| 0 <= j < files.len() && files[j] == other[i];
            assert(eq_ignore_case(files[j], p));
        }
    }
}

/// Detects the build system of the project `name` from the files at the root of its
/// repository: `Cargo.toml` means cargo, `CMakeLists.txt` cmake, a makefile make, and
/// cargo when there is no clue.
pub fn detect_build(name: &str, files: &Vec<String>) -> (res: (String, Vec<String>, String))
    ensures
        (res.0@, res.1.deep_view(), res.2@) == detected_build(name@, files.deep_view()),
{
    let cargo = (owned("cargo"), vec![owned("--release")], {
        let mut o = owned("target/release/");
        append_str(&mut o, name);
        o
    });
    if has_file_in(files, "Cargo.toml") {
        assert(cargo.1.deep_view() =~= seq!["--release"@]);
        return cargo;
    }
    if has_file_in(files, "CMakeLists.txt") {
        let mut o = owned("build/");
        append_str(&mut o, name);
        let r = (owned("cmake"), Vec::new(), o);
        assert(r.1.deep_view() =~= Seq::<Seq<char>>::empty());
        return r;
    }
    if has_file_in(files, "Makefile") || has_file_in(files, "makefile") || has_file_in(
        files,
        "GNUmakefile",
    ) {
        let r = (owned("make"), Vec::new(), owned(name));
        assert(r.1.deep_view() =~= Seq::<Seq<char>>::empty());
        return r;
    }
    assert(cargo.1.deep_view() =~= seq!["--release"@]);
    cargo
}

/// `s` without one leading `v`, if it starts with one.
pub open spec fn strip_v(s: Seq<char>) -> Seq<char> {
    if s.len() > 0 && s[0] == 'v' {
        s.drop_first()
    } else {
        s
    }
}

/// The recipe for the project `name` found as `repo`: the latest release tag (else the
/// default branch) as the tag, that tag without a leading `v` as the version, the
/// repository's `.git` URL as a `git` source, and the build detected from `files`.
pub fn recipe_from_repo(name: &str, repo: &Repo, latest_tag: Option<String>, files: &Vec<String>) -> (res:
    Recipe)
    ensures
        ({
            let tag = match latest_tag {
                Some(t) => t@,
                None => repo.default_branch@,
            };
            let b = detected_build(name@, files.deep_view());
            &&& res.package.name@ == name@
            &&& res.package.version@ == strip_v(tag)
            &&& res.package.deps@.len() == 0
            &&& res.source.kind@ == "git"@
            &&& res.source.url@ == repo.html_url@ + ".git"@
            &&& res.source.tag@ == tag
            &&& res.build.kind@ == b.0
            &&& res.build.args.deep_view() == b.1
            &&& res.build.output@ == b.2
        }),
{
    let tag = match latest_tag {
        Some(t) => t,
        None => repo.default_branch.clone(),
    };
    let tc = chars_of(tag.as_str());
    let version = if tc.len() > 0 && tc[0] == 'v' {
        let rest = crate::text::slice_chars(&tc, 1, tc.len());
        assert(rest@ =~= tc@.drop_first());
        string_of(&rest)
    } else {
        string_of(&tc)
    };
    let (kind, args, output) = detect_build(name, files);
    let mut url = repo.html_url.clone();
    append_str(&mut url, ".git");
    Recipe {
        package: Package { name: owned(name), version, deps: Vec::new() },
        source: Source { kind: owned("git"), url, tag },
        build: Build { kind, args, output },
    }
}

} // verus!
