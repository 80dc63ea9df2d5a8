//! Decisions of `build`: fetching sources, choosing the build system and the commands
//! to run, and which older releases to replace.
use crate::config::{chars_equal, entry_lines, starts_with, starts_with_chars, state_entries};
use crate::import::strings_of;
use crate::recipe::{append_str, clone_strings, join_path, owned, path_join, Recipe};
use crate::text::{chars_of, seqs_of, split, split_chars, string_of};
use vstd::prelude::*;

verus! {

/// The build system of an unpacked source tree and its default arguments: cargo when
/// it has `Cargo.toml`, else cmake when it has `CMakeLists.txt`, else make.
pub fn detect_build(has_cargo_toml: bool, has_cmake_lists: bool) -> (res: (String, Vec<String>))
    ensures
        has_cargo_toml ==> res.0@ == "cargo"@ && res.1.deep_view() == seq!["--release"@],
        !has_cargo_toml && has_cmake_lists ==> res.0@ == "cmake"@ && res.1.deep_view() == seq![
            "-DCMAKE_BUILD_TYPE=Release"@,
        ],
        !has_cargo_toml && !has_cmake_lists ==> res.0@ == "make"@ && res.1.deep_view() == seq![
            "-j"@,
        ],
{
    if has_cargo_toml {
        let r = (owned("cargo"), vec![owned("--release")]);
        assert(r.1.deep_view() =~= seq!["--release"@]);
        r
    } else if has_cmake_lists {
        let r = (owned("cmake"), vec![owned("-DCMAKE_BUILD_TYPE=Release")]);
        assert(r.1.deep_view() =~= seq!["-DCMAKE_BUILD_TYPE=Release"@]);
        r
    } else {
        let r = (owned("make"), vec![owned("-j")]);
        assert(r.1.deep_view() =~= seq!["-j"@]);
        r
    }
}

/// The directory to build an unpacked archive in: its only subdirectory when it has
/// exactly one (tarballs usually unpack into `name-version/`), else the directory.
pub fn archive_root(dir: &str, subdirs: &Vec<String>) -> (res: String)
    ensures
        res@ == if subdirs@.len() == 1 {
            subdirs@[0]@
        } else {
            dir@
        },
{
    if subdirs.len() == 1 {
        subdirs[0].clone()
    } else {
        owned(dir)
    }
}

/// The build system and arguments to use: those of the recipe, or the detected ones
/// when the recipe says `auto`.
pub fn build_settings(r: &Recipe, detected: (String, Vec<String>)) -> (res: (String, Vec<String>))
    ensures
        r.build.kind@ == "auto"@ ==> res.0@ == detected.0@ && res.1.deep_view()
            == detected.1.deep_view(),
        r.build.kind@ != "auto"@ ==> res.0@ == r.build.kind@ && res.1.deep_view()
            == r.build.args.deep_view(),
{
    let auto = chars_of("auto");
    if chars_equal(&chars_of(r.build.kind.as_str()), &auto) {
        detected
    } else {
        (r.build.kind.clone(), clone_strings(&r.build.args))
    }
}

/// One command: program and arguments.
pub type Command = (String, Vec<String>);

/// The programs and arguments of a list of commands.
pub open spec fn commands_view(cs: Seq<Command>) -> Seq<(Seq<char>, Seq<Seq<char>>)> {
    cs.map_values(|c: Command| (c.0@, c.1.deep_view()))
}

/// The commands that build with `kind` and `args`: cargo runs `cargo build <args>`,
/// make runs `make <args>`, cmake configures a release build in `build/` and builds it;
/// other build systems are not supported.
pub open spec fn planned_commands(kind: Seq<char>, args: Seq<Seq<char>>) -> Option<
    Seq<(Seq<char>, Seq<Seq<char>>)>,
> {
    if kind == "cargo"@ {
        Some(seq![("cargo"@, seq!["build"@] + args)])
    } else if kind == "make"@ {
        Some(seq![("make"@, args)])
    } else if kind == "cmake"@ {
        Some(
            seq![
                ("cmake"@, seq!["-S"@, "."@, "-B"@, "build"@, "-DCMAKE_BUILD_TYPE=Release"@]),
                ("cmake"@, seq!["--build"@, "build"@, "-j"@]),
            ],
        )
    } else {
        None
    }
}

/// What each build system runs: cargo one command, `cargo build` followed by every
/// argument of the recipe in order; make one command, `make` with exactly those
/// arguments; cmake a configure step then a build step; nothing for any other kind.
pub proof fn law_planned_commands(kind: Seq<char>, args: Seq<Seq<char>>)
    ensures
        kind == "cargo"@ ==> (planned_commands(kind, args) matches Some(cs) && cs.len() == 1
            && cs[0].0 == "cargo"@ && cs[0].1.len() == args.len() + 1 && cs[0].1[0] == "build"@
            && forall|i: int| 0 <= i < args.len() ==> cs[0].1[i + 1] == #[trigger] args[i]),
        kind == "make"@ ==> (planned_commands(kind, args) matches Some(cs) && cs.len() == 1
            && cs[0].0 == "make"@ && cs[0].1.len() == args.len() && forall|i: int|
            0 <= i < args.len() ==> cs[0].1[i] == #[trigger] args[i]),
        kind == "cmake"@ ==> (planned_commands(kind, args) matches Some(cs) && cs.len() == 2
            && cs[0].0 == "cmake"@ && cs[1].0 == "cmake"@),
        kind != "cargo"@ && kind != "make"@ && kind != "cmake"@ ==> planned_commands(kind, args)
            is None,
{
    reveal_strlit("cargo");
    reveal_strlit("make");
    reveal_strlit("cmake");
    assert("cargo"@.len() != "make"@.len());
    assert("cmake"@.len() != "make"@.len());
    assert("cargo"@ != "cmake"@) by {
        assert("cargo"@[1] != "cmake"@[1]);
    }
    if kind == "cargo"@ {
        let c = seq!["build"@] + args;
        assert forall|i: int| 0 <= i < args.len() implies c[i + 1] == #[trigger] args[i] by {}
    }
}

/// The commands that build with `kind` and `args`, to run in order until one fails;
/// `None` for an unknown build system.
pub fn build_commands(kind: &str, args: &Vec<String>) -> (res: Option<Vec<Command>>)
    ensures
        match res {
            Some(cs) => planned_commands(kind@, args.deep_view()) == Some(commands_view(cs@)),
            None => planned_commands(kind@, args.deep_view()) is None,
        },
{
    let k = chars_of(kind);
    if chars_equal(&k, &chars_of("cargo")) {
        let mut a = vec![owned("build")];
        let rest = clone_strings(args);
        let mut i: usize = 0;
        while i < rest.len()
            invariant
                i <= rest@.len(),
                a.deep_view() == seq!["build"@] + rest.deep_view().take(i as int),
            decreases rest@.len() - i,
        {
            let ghost before = a.deep_view();
            a.push(rest[i].clone());
            assert(a.deep_view() =~= before.push(rest@[i as int]@));
            assert(seq!["build"@] + rest.deep_view().take(i + 1) =~= seq!["build"@]
                + rest.deep_view().take(i as int) + seq![rest@[i as int]@]);
            i += 1;
        }
        assert(rest.deep_view().take(i as int) =~= rest.deep_view());
        let cs = vec![(owned("cargo"), a)];
        assert(commands_view(cs@) =~= seq![("cargo"@, seq!["build"@] + args.deep_view())]);
        Some(cs)
    } else if chars_equal(&k, &chars_of("make")) {
        let cs = vec![(owned("make"), clone_strings(args))];
        assert(commands_view(cs@) =~= seq![("make"@, args.deep_view())]);
        Some(cs)
    } else if chars_equal(&k, &chars_of("cmake")) {
        let c1 = vec![
            owned("-S"),
            owned("."),
            owned("-B"),
            owned("build"),
            owned("-DCMAKE_BUILD_TYPE=Release"),
        ];
        let c2 = vec![owned("--build"), owned("build"), owned("-j")];
        assert(c1.deep_view() =~= seq![
            "-S"@,
            "."@,
            "-B"@,
            "build"@,
            "-DCMAKE_BUILD_TYPE=Release"@,
        ]);
        assert(c2.deep_view() =~= seq!["--build"@, "build"@, "-j"@]);
        let cs = vec![(owned("cmake"), c1), (owned("cmake"), c2)];
        assert(commands_view(cs@) =~= seq![
            ("cmake"@, seq!["-S"@, "."@, "-B"@, "build"@, "-DCMAKE_BUILD_TYPE=Release"@]),
            ("cmake"@, seq!["--build"@, "build"@, "-j"@]),
        ]);
        Some(cs)
    } else {
        None
    }
}

/// The last `/`-separated segment of `s` (`s.rsplit('/').next()`).
pub open spec fn last_segment_of(s: Seq<char>) -> Seq<char> {
    split(s, '/').last()
}

/// The last `/`-separated segment of `s`: the file name of an archive URL, or the name
/// of an installed binary.
pub fn last_segment(s: &str) -> (res: String)
    ensures
        res@ == last_segment_of(s@),
{
    let pieces = split_chars(&chars_of(s), '/');
    proof {
        crate::text::lemma_split_nonempty(s@, '/');
    }
    let n = pieces.len();
    assert(seqs_of(pieces@)[n - 1] == pieces@[n - 1]@);
    string_of(&pieces[n - 1])
}

/// Arguments of the shallow `git clone` of `url` at `tag` into `dest`.
pub fn git_clone_args(tag: &str, url: &str, dest: &str) -> (res: Vec<String>)
    ensures
        res.deep_view() == seq!["clone"@, "--depth"@, "1"@, "--branch"@, tag@, url@, dest@],
{
    let r = vec![
        owned("clone"),
        owned("--depth"),
        owned("1"),
        owned("--branch"),
        owned(tag),
        owned(url),
        owned(dest),
    ];
    assert(r.deep_view() =~= seq!["clone"@, "--depth"@, "1"@, "--branch"@, tag@, url@, dest@]);
    r
}

/// The tags among `tags` that begin with `prefix` and are not `tag`, in order.
pub open spec fn other_releases(tags: Seq<Seq<char>>, prefix: Seq<char>, tag: Seq<char>) -> Seq<
    Seq<char>,
>
    decreases tags.len(),
{
    if tags.len() == 0 {
        Seq::empty()
    } else {
        let rest = other_releases(tags.drop_last(), prefix, tag);
        if tags.last() != tag && starts_with(tags.last(), prefix) {
            rest.push(tags.last())
        } else {
            rest
        }
    }
}

/// The earlier releases of `name` to delete before publishing `tag`: the tags listed in
/// `list_output` (one per line, trimmed, blank lines dropped) that begin with
/// `<name>-v` and are not `tag`.
pub fn stale_releases(list_output: &str, name: &str, tag: &str) -> (res: Vec<String>)
    ensures
        res.deep_view() == other_releases(state_entries(list_output@), name@ + "-v"@, tag@),
{
    let ls = entry_lines(list_output);
    let mut pre = owned(name);
    append_str(&mut pre, "-v");
    let p = chars_of(pre.as_str());
    let t = chars_of(tag);
    let mut res: Vec<Vec<char>> = Vec::new();
    let mut i: usize = 0;
    while i < ls.len()
        invariant
            i <= ls@.len(),
            seqs_of(ls@) == state_entries(list_output@),
            p@ == name@ + "-v"@,
            t@ == tag@,
            seqs_of(res@) == other_releases(seqs_of(ls@).take(i as int), p@, t@),
        decreases ls@.len() - i,
    {
        assert(seqs_of(ls@).take(i + 1).drop_last() =~= seqs_of(ls@).take(i as int));
        assert(seqs_of(ls@).take(i + 1).last() == ls@[i as int]@);
        if !chars_equal(&ls[i], &t) && starts_with_chars(&ls[i], &p) {
            let ghost before = seqs_of(res@);
            res.push(ls[i].clone());
            assert(seqs_of(res@) =~= before.push(ls@[i as int]@));
        }
        i += 1;
    }
    assert(seqs_of(ls@).take(i as int) =~= seqs_of(ls@));
    strings_of(&res)
}

/// How the sources of a recipe are fetched.
pub enum FetchPlan {
    /// Run `git` with these arguments.
    Git(Vec<String>),
    /// Download `url` to the file `archive`, then unpack it.
    Archive { url: String, archive: String },
    /// The recipe names a source kind that is not supported.
    Unsupported(String),
}

/// The work directory of a build: `<fc>/tmp/<name>-<version>`.
pub fn work_dir(fc: &str, r: &Recipe) -> (res: String)
    ensures
        res@ == path_join(path_join(fc@, "tmp"@), r.package.name@ + "-"@ + r.package.version@),
{
    let tmp = join_path(fc, "tmp");
    let mut leaf = r.package.name.clone();
    append_str(&mut leaf, "-");
    append_str(&mut leaf, r.package.version.as_str());
    join_path(tmp.as_str(), leaf.as_str())
}

/// How to fetch the sources of `r` into `workdir`: a shallow clone of the tag for a
/// `git` source; for an `archive` source, a download of the URL to `<fc>/<file name of
/// the URL>`; anything else is not supported.
pub fn fetch_plan(r: &Recipe, fc: &str, workdir: &str) -> (res: FetchPlan)
    ensures
        r.source.kind@ == "git"@ ==> (res matches FetchPlan::Git(args) && args.deep_view()
            == seq![
            "clone"@,
            "--depth"@,
            "1"@,
            "--branch"@,
            r.source.tag@,
            r.source.url@,
            workdir@,
        ]),
        r.source.kind@ == "archive"@ ==> (res matches FetchPlan::Archive { url, archive } && url@
            == r.source.url@ && archive@ == path_join(fc@, last_segment_of(r.source.url@))),
        r.source.kind@ != "git"@ && r.source.kind@ != "archive"@ ==> (res matches FetchPlan::Unsupported(
            k,
        ) && k@ == r.source.kind@),
{
    proof {
        reveal_strlit("git");
        reveal_strlit("archive");
        assert("git"@.len() != "archive"@.len());
    }
    let k = chars_of(r.source.kind.as_str());
    if chars_equal(&k, &chars_of("git")) {
        FetchPlan::Git(git_clone_args(r.source.tag.as_str(), r.source.url.as_str(), workdir))
    } else if chars_equal(&k, &chars_of("archive")) {
        let file = last_segment(r.source.url.as_str());
        let archive = join_path(fc, file.as_str());
        FetchPlan::Archive { url: r.source.url.clone(), archive }
    } else {
        FetchPlan::Unsupported(r.source.kind.clone())
    }
}

} // verus!
