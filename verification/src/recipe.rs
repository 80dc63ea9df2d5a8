//! Recipes: what a package is, where its source comes from and how it is built.
use crate::config::{chars_equal, ends_with, ends_with_chars};
use crate::text::{chars_of, lacks, seqs_of, slice_chars, string_of};
use vstd::prelude::*;

verus! {

/// A recipe, as stored in `recipes/<name>.toml`.
#[derive(Clone, Debug)]
pub struct Recipe {
    pub package: Package,
    pub source: Source,
    pub build: Build,
}

/// The package a recipe produces.
#[derive(Clone, Debug)]
pub struct Package {
    pub name: String,
    pub version: String,
    /// Names of the packages it depends on (none when the recipe lists none).
    pub deps: Vec<String>,
}

/// Where the source of a package comes from.
#[derive(Clone, Debug)]
pub struct Source {
    /// `git` (a repository and a tag) or `archive` (a tarball URL); `git` when the
    /// recipe does not say.
    pub kind: String,
    pub url: String,
    pub tag: String,
}

/// How a package is built.
#[derive(Clone, Debug)]
pub struct Build {
    /// `cargo`, `cmake`, `make` or `auto` (detected from the source tree).
    pub kind: String,
    /// Extra arguments for the build tool (none when the recipe lists none).
    pub args: Vec<String>,
    /// Path of the built binary, relative to the source tree.
    pub output: String,
}

/// Appends the characters of `t` to `s`.
pub fn append_str(s: &mut String, t: &str)
    ensures
        final(s)@ == old(s)@ + t@,
{
    let cs = chars_of(t);
    let mut i: usize = 0;
    while i < cs.len()
        invariant
            i <= cs@.len(),
            cs@ == t@,
            s@ == old(s)@ + t@.take(i as int),
        decreases cs@.len() - i,
    {
        s.push(cs[i]);
        assert(old(s)@ + t@.take(i + 1) =~= old(s)@ + t@.take(i as int) + seq![t@[i as int]]);
        i += 1;
    }
    assert(t@.take(i as int) =~= t@);
}

/// A `String` holding `s`.
pub fn owned(s: &str) -> (res: String)
    ensures
        res@ == s@,
{
    let mut r = String::new();
    append_str(&mut r, s);
    r
}

/// The source kind assumed when a recipe names none: `git`.
pub fn default_kind() -> (res: String)
    ensures
        res@ == "git"@,
{
    owned("git")
}

/// Name of the tarball of a built package: `<name>-<version>.tar.gz`.
pub fn tarball_name(r: &Recipe) -> (res: String)
    ensures
        res@ == r.package.name@ + "-"@ + r.package.version@ + ".tar.gz"@,
{
    let mut s = String::new();
    append_str(&mut s, r.package.name.as_str());
    append_str(&mut s, "-");
    append_str(&mut s, r.package.version.as_str());
    append_str(&mut s, ".tar.gz");
    assert(s@ =~= r.package.name@ + "-"@ + r.package.version@ + ".tar.gz"@);
    s
}

/// Tag of the release that publishes a package: `<name>-v<version>`.
pub fn release_tag(r: &Recipe) -> (res: String)
    ensures
        res@ == r.package.name@ + "-v"@ + r.package.version@,
{
    let mut s = String::new();
    append_str(&mut s, r.package.name.as_str());
    append_str(&mut s, "-v");
    append_str(&mut s, r.package.version.as_str());
    assert(s@ =~= r.package.name@ + "-v"@ + r.package.version@);
    s
}

/// `base` with the path `rel` pushed on it (`Path::join` on Unix): an absolute `rel`
/// (one that begins with `/`) replaces `base`; otherwise a `/` goes between them unless
/// `base` is empty or already ends with one.
pub open spec fn path_join(base: Seq<char>, rel: Seq<char>) -> Seq<char> {
    if rel.len() > 0 && rel[0] == '/' {
        rel
    } else if base.len() == 0 || base.last() == '/' {
        base + rel
    } else {
        base + seq!['/'] + rel
    }
}

/// Executable form of [`path_join`].
pub fn join_path(base: &str, rel: &str) -> (res: String)
    ensures
        res@ == path_join(base@, rel@),
{
    let r = chars_of(rel);
    if r.len() > 0 && r[0] == '/' {
        return string_of(&r);
    }
    let b = chars_of(base);
    let mut s = string_of(&b);
    if b.len() > 0 && b[b.len() - 1] != '/' {
        s.push('/');
    }
    append_str(&mut s, rel);
    s
}

/// Directory of the recipes under the base directory `base`.
pub fn recipes_dir(base: &str) -> (res: String)
    ensures
        res@ == path_join(base@, "recipes"@),
{
    join_path(base, "recipes")
}

/// Directory where built packages are staged, under the base directory `base`.
pub fn firecipes_dir(base: &str) -> (res: String)
    ensures
        res@ == path_join(base@, "firecipes"@),
{
    join_path(base, "firecipes")
}

/// A file with these mode bits is a regular file that someone may execute.
pub open spec fn exec_mode(is_file: bool, mode: u32) -> bool {
    is_file && mode & 0o111 != 0
}

/// `true` for a regular file with some execute bit set.
pub fn is_exec_file(is_file: bool, mode: u32) -> (res: bool)
    ensures
        res == exec_mode(is_file, mode),
{
    is_file && mode & 0o111 != 0
}

/// A copy of a vector of strings.
pub fn clone_strings(v: &Vec<String>) -> (res: Vec<String>)
    ensures
        res.deep_view() == v.deep_view(),
{
    let mut res: Vec<String> = Vec::new();
    let mut i: usize = 0;
    while i < v.len()
        invariant
            i <= v@.len(),
            res.deep_view() == v.deep_view().take(i as int),
        decreases v@.len() - i,
    {
        let ghost before = res.deep_view();
        res.push(v[i].clone());
        assert(res.deep_view() =~= before.push(v@[i as int]@));
        assert(v.deep_view().take(i + 1) =~= v.deep_view().take(i as int).push(v@[i as int]@));
        i += 1;
    }
    assert(v.deep_view().take(i as int) =~= v.deep_view());
    res
}

/// Path of the recipe of `name` in the recipes directory `dir`: `<dir>/<name>.toml`.
pub fn recipe_file(dir: &str, name: &str) -> (res: String)
    ensures
        res@ == path_join(dir@, name@ + ".toml"@),
{
    let mut file = String::new();
    append_str(&mut file, name);
    append_str(&mut file, ".toml");
    join_path(dir, file.as_str())
}

/// Position of the last `c` in `s`.
pub open spec fn last_index(s: Seq<char>, c: char) -> Option<int>
    decreases s.len(),
{
    if s.len() == 0 {
        None
    } else if s.last() == c {
        Some(s.len() - 1)
    } else {
        last_index(s.drop_last(), c)
    }
}

/// The directory part of the output path `out`: what comes before its last `/`, or
/// nothing when it has none (`rsplit_once('/')`).
pub open spec fn output_dir(out: Seq<char>) -> Seq<char> {
    match last_index(out, '/') {
        Some(i) => out.take(i),
        None => Seq::empty(),
    }
}

proof fn lemma_last_index(s: Seq<char>, c: char)
    ensures
        last_index(s, c) matches Some(i) ==> 0 <= i < s.len(),
    decreases s.len(),
{
    if s.len() > 0 {
        lemma_last_index(s.drop_last(), c);
    }
}

/// The directory part of the output path `out` (executable form of [`output_dir`]).
pub fn binary_dir(out: &str) -> (res: String)
    ensures
        res@ == output_dir(out@),
{
    let v = chars_of(out);
    let mut i: usize = v.len();
    assert(v@.take(v@.len() as int) =~= v@);
    while i > 0 && v[i - 1] != '/'
        invariant
            i <= v@.len(),
            last_index(v@, '/') == last_index(v@.take(i as int), '/'),
        decreases i,
    {
        assert(v@.take(i as int).drop_last() =~= v@.take(i - 1));
        i -= 1;
    }
    if i == 0 {
        assert(v@.take(0) =~= Seq::<char>::empty());
        String::new()
    } else {
        assert(v@.take(i as int).last() == '/');
        let d = slice_chars(&v, 0, i - 1);
        assert(d@ =~= v@.take(i - 1));
        string_of(&d)
    }
}

/// The executable path `e` is named `name`: it is `name`, or ends in `/<name>`.
pub open spec fn named(e: Seq<char>, name: Seq<char>) -> bool {
    e == name || ends_with(e, seq!['/'] + name)
}

/// Position of the first executable named `name`.
pub open spec fn first_named(exes: Seq<Seq<char>>, name: Seq<char>) -> Option<int>
    decreases exes.len(),
{
    if exes.len() == 0 {
        None
    } else if named(exes[0], name) {
        Some(0)
    } else {
        match first_named(exes.drop_first(), name) {
            Some(i) => Some(i + 1),
            None => None,
        }
    }
}

/// The path of the binary a build is expected to leave: `<dir>/<name>` for the
/// directory `dir` of the output path `out`, just `<name>` when `out` has no directory.
pub open spec fn wanted_binary(out: Seq<char>, name: Seq<char>) -> Seq<char> {
    if output_dir(out).len() == 0 {
        name
    } else {
        output_dir(out) + seq!['/'] + name
    }
}

/// The binary to take from a build: the declared output `out` when it is an executable
/// file; else the expected binary (see [`wanted_binary`]) when it is among the
/// executables found under the output's directory; else the first of them named
/// `name`; else the first of them; `None` when there is none.
pub open spec fn chosen_binary(exact_ok: bool, out: Seq<char>, name: Seq<char>, exes: Seq<Seq<char>>) -> Option<
    Seq<char>,
> {
    let wanted = wanted_binary(out, name);
    if exact_ok {
        Some(out)
    } else if exes.contains(wanted) {
        Some(wanted)
    } else {
        match first_named(exes, name) {
            Some(i) => Some(exes[i]),
            None => if exes.len() > 0 {
                Some(exes[0])
            } else {
                None
            },
        }
    }
}

/// Picks the binary of a build (see [`chosen_binary`]): `exact_ok` tells whether
/// `<root>/<out>` is an executable file, `executables` lists the executable files found
/// under `<root>/<dir of out>`, as paths relative to the root, in the order found.
pub fn pick_binary(exact_ok: bool, out: &str, name: &str, executables: &Vec<String>) -> (res:
    Option<String>)
    ensures
        res.deep_view() == chosen_binary(exact_ok, out@, name@, executables.deep_view()),
{
    if exact_ok {
        return Some(owned(out));
    }
    let mut wanted = binary_dir(out);
    if wanted.as_str().is_empty() {
        wanted = owned(name);
    } else {
        wanted.push('/');
        append_str(&mut wanted, name);
    }
    let w = chars_of(wanted.as_str());
    let ghost exes = executables.deep_view();
    let mut i: usize = 0;
    while i < executables.len()
        invariant
            i <= executables@.len(),
            exes == executables.deep_view(),
            w@ == wanted_binary(out@, name@),
            wanted@ == w@,
            !exact_ok,
            forall|j: int| 0 <= j < i ==> exes[j] != w@,
        decreases executables@.len() - i,
    {
        if chars_equal(&chars_of(executables[i].as_str()), &w) {
            assert(exes[i as int] == w@);
            assert(exes.contains(w@));
            return Some(wanted);
        }
        i += 1;
    }
    assert(!exes.contains(w@));
    let mut suffix = vec!['/'];
    let nc = chars_of(name);
    crate::config::push_all(&mut suffix, &nc);
    assert(suffix@ =~= seq!['/'] + name@);
    let mut k: usize = 0;
    assert(exes.skip(0) =~= exes);
    while k < executables.len()
        invariant
            k <= executables@.len(),
            exes == executables.deep_view(),
            suffix@ == seq!['/'] + name@,
            nc@ == name@,
            !exact_ok,
            !exes.contains(wanted_binary(out@, name@)),
            first_named(exes, name@) == match first_named(exes.skip(k as int), name@) {
                Some(j) => Some(j + k),
                None => None,
            },
        decreases executables@.len() - k,
    {
        assert(exes.skip(k as int)[0] == exes[k as int]);
        assert(exes.skip(k as int).drop_first() =~= exes.skip(k + 1));
        let e = chars_of(executables[k].as_str());
        if chars_equal(&e, &nc) || ends_with_chars(&e, &suffix) {
            return Some(executables[k].clone());
        }
        k += 1;
    }
    assert(exes.skip(k as int) =~= Seq::<Seq<char>>::empty());
    if executables.len() > 0 {
        Some(executables[0].clone())
    } else {
        None
    }
}

/// The position of the last `c` in `d`, `c`, then something without `c`, is that of
/// the `c` written there; a string without `c` has none.
proof fn lemma_last_index_split(d: Seq<char>, f: Seq<char>, c: char)
    requires
        lacks(f, c),
    ensures
        last_index(d + seq![c] + f, c) == Some(d.len() as int),
        last_index(f, c) is None,
    decreases f.len(),
{
    if f.len() > 0 {
        let fi = f.drop_last();
        assert(lacks(fi, c));
        lemma_last_index_split(d, fi, c);
        assert((d + seq![c] + f).drop_last() =~= d + seq![c] + fi);
        assert((d + seq![c] + f).last() == f.last());
    } else {
        assert(d + seq![c] + f =~= d.push(c));
    }
}

/// The binary a build is expected to leave, in terms of the output path: for an output
/// `<dir>/<file>` it is `<dir>/<name>` (`<name>` when `dir` is empty); for an output
/// without `/` it is `<name>`.
pub proof fn law_wanted_binary(d: Seq<char>, f: Seq<char>, name: Seq<char>)
    requires
        lacks(f, '/'),
    ensures
        wanted_binary(f, name) == name,
        wanted_binary(d + seq!['/'] + f, name) == if d.len() == 0 {
            name
        } else {
            d + seq!['/'] + name
        },
{
    lemma_last_index_split(d, f, '/');
    assert((d + seq!['/'] + f).take(d.len() as int) =~= d);
}

/// What [`first_named`] finds: the first executable whose path is `name` or ends in
/// `/<name>`, or none when no path is.
proof fn lemma_first_named(exes: Seq<Seq<char>>, name: Seq<char>)
    ensures
        first_named(exes, name) matches Some(i) ==> {
            &&& 0 <= i < exes.len()
            &&& (exes[i] == name || ends_with(exes[i], seq!['/'] + name))
            &&& forall|j: int| 0 <= j < i ==> !(#[trigger] exes[j] == name || ends_with(exes[j], seq!['/'] + name))
        },
        first_named(exes, name) is None ==> forall|j: int|
            0 <= j < exes.len() ==> !(#[trigger] exes[j] == name || ends_with(exes[j], seq!['/'] + name)),
    decreases exes.len(),
{
    if exes.len() > 0 {
        let rest = exes.drop_first();
        lemma_first_named(rest, name);
        assert forall|j: int| 1 <= j < exes.len() implies #[trigger] exes[j] == rest[j - 1] by {}
    }
}

/// How the binary is chosen, in terms of the paths found: the declared output when it
/// is an executable file; otherwise always one of the executables found, `None` only
/// when there is none; the expected binary when it was found; else the first path that
/// is `name` or ends in `/<name>`, wherever it stands; else the first path found.
pub proof fn law_chosen_binary(exact_ok: bool, out: Seq<char>, name: Seq<char>, exes: Seq<Seq<char>>)
    ensures
        exact_ok ==> chosen_binary(exact_ok, out, name, exes) == Some(out),
        !exact_ok ==> (chosen_binary(exact_ok, out, name, exes) is None <==> exes.len() == 0),
        !exact_ok && chosen_binary(exact_ok, out, name, exes) is Some ==> exes.contains(
            chosen_binary(exact_ok, out, name, exes)->0,
        ),
        !exact_ok && exes.contains(wanted_binary(out, name)) ==> chosen_binary(exact_ok, out, name, exes)
            == Some(wanted_binary(out, name)),
        forall|k: int|
            #![trigger exes[k]]
            !exact_ok && !exes.contains(wanted_binary(out, name)) && 0 <= k < exes.len() && (exes[k]
                == name || ends_with(exes[k], seq!['/'] + name)) && (forall|j: int|
                0 <= j < k ==> !(#[trigger] exes[j] == name || ends_with(exes[j], seq!['/'] + name)))
                ==> chosen_binary(exact_ok, out, name, exes) == Some(exes[k]),
        !exact_ok && !exes.contains(wanted_binary(out, name)) && exes.len() > 0 && (forall|j: int|
            0 <= j < exes.len() ==> !(#[trigger] exes[j] == name || ends_with(exes[j], seq!['/'] + name)))
            ==> chosen_binary(exact_ok, out, name, exes) == Some(exes[0]),
{
    lemma_first_named(exes, name);
    if !exact_ok && !exes.contains(wanted_binary(out, name)) {
        match first_named(exes, name) {
            Some(i) => {
                assert(exes.contains(exes[i]));
                assert forall|k: int|
                    #![trigger exes[k]]
                    0 <= k < exes.len() && (exes[k] == name || ends_with(exes[k], seq!['/'] + name))
                        && (forall|j: int|
                        0 <= j < k ==> !(#[trigger] exes[j] == name || ends_with(
                            exes[j],
                            seq!['/'] + name,
                        ))) implies i == k by {
                    if i < k {
                        assert(!(exes[i] == name || ends_with(exes[i], seq!['/'] + name)));
                    }
                    if k < i {
                        assert(!(exes[k] == name || ends_with(exes[k], seq!['/'] + name)));
                    }
                }
            },
            None => {
                if exes.len() > 0 {
                    assert(exes.contains(exes[0]));
                }
            },
        }
    }
}

} // verus!
