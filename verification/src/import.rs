//! Reading a CRUX `Pkgfile` (a shell script) without running it.
use crate::recipe::{clone_strings, owned, Build, Package, Recipe, Source};
use crate::config::{push_all, starts_with, starts_with_chars};
use crate::text::{
    chars_of, find_char, find_char_in, find_sub, find_sub_in, lemma_find_char, lemma_find_sub,
    occurs_at, replace, replace_chars, seqs_of,
    slice_chars, split, split_chars, string_of, trim, trim_chars, trim_matches,
    trim_matches_chars, words, words_of,
};
use vstd::prelude::*;

verus! {

/// What a `Pkgfile` declares.
pub struct Pkgfile {
    pub name: String,
    pub version: String,
    pub description: String,
    /// URLs of the `source=(...)` array, with `$name`, `$version`, `$release` (and
    /// their `${...}` forms) substituted.
    pub sources: Vec<String>,
    /// Words after `# Depends on:`.
    pub deps: Vec<String>,
}

/// The lines of a `Pkgfile`, trimmed.
pub open spec fn pkg_lines(content: Seq<char>) -> Seq<Seq<char>> {
    split(content, '\n').map_values(|l: Seq<char>| trim(l))
}

/// `source=(`, the start of the sources array.
pub open spec fn source_open() -> Seq<char> {
    seq!['s', 'o', 'u', 'r', 'c', 'e', '=', '(']
}

/// `Depends on:`, the marker of the dependency comment.
pub open spec fn depends_on() -> Seq<char> {
    seq!['D', 'e', 'p', 'e', 'n', 'd', 's', ' ', 'o', 'n', ':']
}

/// `://`, what every source URL holds.
pub open spec fn url_marker() -> Seq<char> {
    seq![':', '/', '/']
}

/// The key and value of a scalar assignment `key=value` on a line: the key trimmed,
/// the value trimmed and stripped of double, then single quotes. Lines that open the
/// sources array or are comments assign nothing.
pub open spec fn assignment(line: Seq<char>) -> Option<(Seq<char>, Seq<char>)> {
    if starts_with(line, source_open()) || starts_with(line, seq!['#']) {
        None
    } else {
        match find_char(line, '=') {
            Some(i) => Some(
                (
                    trim(line.take(i)),
                    trim_matches(trim_matches(trim(line.skip(i + 1)), '"'), '\''),
                ),
            ),
            None => None,
        }
    }
}

/// The value first assigned to `key`, if any.
pub open spec fn scalar(lines: Seq<Seq<char>>, key: Seq<char>) -> Option<Seq<char>>
    decreases lines.len(),
{
    if lines.len() == 0 {
        None
    } else {
        match assignment(lines[0]) {
            Some(kv) => if kv.0 == key {
                Some(kv.1)
            } else {
                scalar(lines.drop_first(), key)
            },
            None => scalar(lines.drop_first(), key),
        }
    }
}

/// The value first assigned to `key`, or the empty string.
pub open spec fn scalar_or_empty(lines: Seq<Seq<char>>, key: Seq<char>) -> Seq<char> {
    match scalar(lines, key) {
        Some(v) => v,
        None => Seq::empty(),
    }
}

/// `s` with, for each `(k, v)` of `vars` in turn, `$k` and then `${k}` replaced by `v`.
pub open spec fn substitute(s: Seq<char>, vars: Seq<(Seq<char>, Seq<char>)>) -> Seq<char>
    decreases vars.len(),
{
    if vars.len() == 0 {
        s
    } else {
        let k = vars[0].0;
        let v = vars[0].1;
        substitute(
            replace(replace(s, seq!['$'] + k, v), seq!['$', '{'] + k + seq!['}'], v),
            vars.drop_first(),
        )
    }
}

/// A word of the sources array, trimmed and stripped of double, then single quotes.
pub open spec fn url_token(t: Seq<char>) -> Seq<char> {
    trim_matches(trim_matches(trim(t), '"'), '\'')
}

/// The tokens that are URLs (hold `://`), with the variables substituted.
pub open spec fn urls_of(tokens: Seq<Seq<char>>, vars: Seq<(Seq<char>, Seq<char>)>) -> Seq<
    Seq<char>,
>
    decreases tokens.len(),
{
    if tokens.len() == 0 {
        Seq::empty()
    } else {
        let rest = urls_of(tokens.drop_last(), vars);
        let u = url_token(tokens.last());
        if find_sub(u, url_marker()) is Some {
            rest.push(substitute(u, vars))
        } else {
            rest
        }
    }
}

/// The URLs in a piece of the sources array.
pub open spec fn chunk_urls(chunk: Seq<char>, vars: Seq<(Seq<char>, Seq<char>)>) -> Seq<Seq<char>> {
    urls_of(words(chunk), vars)
}

/// The part of `s` before its first `)`, and whether there was one.
pub open spec fn before_paren(s: Seq<char>) -> (Seq<char>, bool) {
    match find_char(s, ')') {
        Some(i) => (s.take(i), true),
        None => (s, false),
    }
}

/// Sources and dependencies found in `lines`, `in_source` telling whether the sources
/// array is open when they begin.
pub open spec fn scan(lines: Seq<Seq<char>>, in_source: bool, vars: Seq<(Seq<char>, Seq<char>)>) -> (
    Seq<Seq<char>>,
    Seq<Seq<char>>,
)
    decreases lines.len(),
{
    if lines.len() == 0 {
        (Seq::empty(), Seq::empty())
    } else {
        let line = lines[0];
        let rest = lines.drop_first();
        if in_source {
            let cut = before_paren(line);
            let r = scan(rest, !cut.1, vars);
            (chunk_urls(cut.0, vars) + r.0, r.1)
        } else if starts_with(line, source_open()) {
            let cut = before_paren(line.skip(8));
            let r = scan(rest, !cut.1, vars);
            (chunk_urls(cut.0, vars) + r.0, r.1)
        } else if starts_with(line, seq!['#']) && find_sub(line.drop_first(), depends_on()) is Some {
            let i = find_sub(line.drop_first(), depends_on())->0;
            let r = scan(rest, false, vars);
            (r.0, words(line.skip(1 + i + 11)) + r.1)
        } else {
            scan(rest, false, vars)
        }
    }
}

/// The variables substituted in source URLs: `name`, `version` and `release`.
pub open spec fn pkg_vars(lines: Seq<Seq<char>>) -> Seq<(Seq<char>, Seq<char>)> {
    seq![
        (seq!['n', 'a', 'm', 'e'], scalar_or_empty(lines, seq!['n', 'a', 'm', 'e'])),
        (
            seq!['v', 'e', 'r', 's', 'i', 'o', 'n'],
            scalar_or_empty(lines, seq!['v', 'e', 'r', 's', 'i', 'o', 'n']),
        ),
        (
            seq!['r', 'e', 'l', 'e', 'a', 's', 'e'],
            scalar_or_empty(lines, seq!['r', 'e', 'l', 'e', 'a', 's', 'e']),
        ),
    ]
}

/// Sources and dependencies of a `Pkgfile`; none when it declares no name.
pub open spec fn pkg_lists(content: Seq<char>) -> (Seq<Seq<char>>, Seq<Seq<char>>) {
    let lines = pkg_lines(content);
    if scalar_or_empty(lines, seq!['n', 'a', 'm', 'e']).len() == 0 {
        (Seq::empty(), Seq::empty())
    } else {
        scan(lines, false, pkg_vars(lines))
    }
}

/// The `(key, value)` character sequences held by a vector of pairs.
pub open spec fn pairs_of(v: Seq<(Vec<char>, Vec<char>)>) -> Seq<(Seq<char>, Seq<char>)> {
    v.map_values(|p: (Vec<char>, Vec<char>)| (p.0@, p.1@))
}

/// The trimmed lines of `content`.
fn lines_of(content: &str) -> (res: Vec<Vec<char>>)
    ensures
        seqs_of(res@) == pkg_lines(content@),
{
    let cs = chars_of(content);
    let pieces = split_chars(&cs, '\n');
    let mut res: Vec<Vec<char>> = Vec::new();
    let mut i: usize = 0;
    while i < pieces.len()
        invariant
            i <= pieces@.len(),
            seqs_of(pieces@) == split(content@, '\n'),
            seqs_of(res@) == seqs_of(pieces@).take(i as int).map_values(|l: Seq<char>| trim(l)),
        decreases pieces@.len() - i,
    {
        let ghost before = seqs_of(res@);
        res.push(trim_chars(&pieces[i]));
        assert(seqs_of(res@) =~= before.push(trim(pieces@[i as int]@)));
        assert(seqs_of(pieces@).take(i + 1).map_values(|l: Seq<char>| trim(l)) =~= seqs_of(
            pieces@,
        ).take(i as int).map_values(|l: Seq<char>| trim(l)).push(trim(pieces@[i as int]@)));
        i += 1;
    }
    assert(seqs_of(pieces@).take(i as int) =~= seqs_of(pieces@));
    res
}

/// The characters of `source=(`.
fn source_open_chars() -> (res: Vec<char>)
    ensures
        res@ == source_open(),
{
    let v = vec!['s', 'o', 'u', 'r', 'c', 'e', '=', '('];
    assert(v@ =~= source_open());
    v
}

/// The characters of `Depends on:`.
fn depends_on_chars() -> (res: Vec<char>)
    ensures
        res@ == depends_on(),
{
    let v = vec!['D', 'e', 'p', 'e', 'n', 'd', 's', ' ', 'o', 'n', ':'];
    assert(v@ =~= depends_on());
    v
}

/// Executable form of [`assignment`].
fn assignment_of(line: &Vec<char>) -> (res: Option<(Vec<char>, Vec<char>)>)
    ensures
        match res {
            Some(kv) => assignment(line@) == Some((kv.0@, kv.1@)),
            None => assignment(line@) is None,
        },
{
    let hash = vec!['#'];
    assert(hash@ =~= seq!['#']);
    if starts_with_chars(line, &source_open_chars()) || starts_with_chars(line, &hash) {
        return None;
    }
    match find_char_in(line, '=') {
        Some(i) => {
            proof {
                crate::text::lemma_find_char(line@, '=');
                assert(find_char(line@, '=') == Some(i as int));
                assert(i < line@.len());
            }
            let n = line.len();
            let key = trim_chars(&slice_chars(line, 0, i));
            let raw = trim_chars(&slice_chars(line, i + 1, n));
            let val = trim_matches_chars(&trim_matches_chars(&raw, '"'), '\'');
            proof {
                assert(line@.take(i as int) =~= line@.subrange(0, i as int));
                assert(line@.skip(i + 1) =~= line@.subrange(i + 1, line@.len() as int));
            }
            Some((key, val))
        },
        None => None,
    }
}

/// Executable form of [`scalar`].
fn scalar_in(lines: &Vec<Vec<char>>, key: &Vec<char>) -> (res: Option<Vec<char>>)
    ensures
        match res {
            Some(v) => scalar(seqs_of(lines@), key@) == Some(v@),
            None => scalar(seqs_of(lines@), key@) is None,
        },
{
    let mut i: usize = 0;
    assert(seqs_of(lines@).skip(0) =~= seqs_of(lines@));
    while i < lines.len()
        invariant
            i <= lines@.len(),
            scalar(seqs_of(lines@), key@) == scalar(seqs_of(lines@).skip(i as int), key@),
        decreases lines@.len() - i,
    {
        assert(seqs_of(lines@).skip(i as int)[0] == lines@[i as int]@);
        assert(seqs_of(lines@).skip(i as int).drop_first() =~= seqs_of(lines@).skip(i + 1));
        match assignment_of(&lines[i]) {
            Some(kv) => {
                if crate::config::chars_equal(&kv.0, key) {
                    return Some(kv.1);
                }
            },
            None => {},
        }
        i += 1;
    }
    assert(seqs_of(lines@).skip(i as int) =~= Seq::<Seq<char>>::empty());
    None
}

/// The value first assigned to `key`, or nothing.
fn scalar_or_empty_in(lines: &Vec<Vec<char>>, key: &Vec<char>) -> (res: Vec<char>)
    ensures
        res@ == scalar_or_empty(seqs_of(lines@), key@),
{
    match scalar_in(lines, key) {
        Some(v) => v,
        None => Vec::new(),
    }
}

/// Executable form of [`substitute`].
fn substitute_chars(s: &Vec<char>, vars: &Vec<(Vec<char>, Vec<char>)>) -> (res: Vec<char>)
    ensures
        res@ == substitute(s@, pairs_of(vars@)),
{
    let mut cur = s.clone();
    let mut i: usize = 0;
    assert(pairs_of(vars@).skip(0) =~= pairs_of(vars@));
    while i < vars.len()
        invariant
            i <= vars@.len(),
            substitute(s@, pairs_of(vars@)) == substitute(cur@, pairs_of(vars@).skip(i as int)),
        decreases vars@.len() - i,
    {
        let k = &vars[i].0;
        let v = &vars[i].1;
        let mut short = vec!['$'];
        push_all(&mut short, k);
        let mut long = vec!['$', '{'];
        push_all(&mut long, k);
        long.push('}');
        let once = replace_chars(&cur, &short, v);
        let twice = replace_chars(&once, &long, v);
        proof {
            let rest = pairs_of(vars@).skip(i as int);
            assert(rest[0] == (k@, v@));
            assert(rest.drop_first() =~= pairs_of(vars@).skip(i + 1));
            assert(short@ =~= seq!['$'] + k@);
            assert(long@ =~= seq!['$', '{'] + k@ + seq!['}']);
        }
        cur = twice;
        i += 1;
    }
    assert(pairs_of(vars@).skip(i as int) =~= Seq::<(Seq<char>, Seq<char>)>::empty());
    cur
}

/// Executable form of [`chunk_urls`].
fn chunk_urls_in(chunk: &Vec<char>, vars: &Vec<(Vec<char>, Vec<char>)>) -> (res: Vec<Vec<char>>)
    ensures
        seqs_of(res@) == chunk_urls(chunk@, pairs_of(vars@)),
{
    let tokens = words_of(chunk);
    let marker = vec![':', '/', '/'];
    assert(marker@ =~= url_marker());
    let mut res: Vec<Vec<char>> = Vec::new();
    let mut i: usize = 0;
    while i < tokens.len()
        invariant
            i <= tokens@.len(),
            marker@ == url_marker(),
            seqs_of(tokens@) == words(chunk@),
            seqs_of(res@) == urls_of(seqs_of(tokens@).take(i as int), pairs_of(vars@)),
        decreases tokens@.len() - i,
    {
        assert(seqs_of(tokens@).take(i + 1).drop_last() =~= seqs_of(tokens@).take(i as int));
        assert(seqs_of(tokens@).take(i + 1).last() == tokens@[i as int]@);
        let u = trim_matches_chars(
            &trim_matches_chars(&trim_chars(&tokens[i]), '"'),
            '\'',
        );
        if find_sub_in(&u, &marker).is_some() {
            let ghost before = seqs_of(res@);
            res.push(substitute_chars(&u, vars));
            assert(seqs_of(res@) =~= before.push(substitute(u@, pairs_of(vars@))));
        }
        i += 1;
    }
    assert(seqs_of(tokens@).take(i as int) =~= seqs_of(tokens@));
    res
}

/// The `(key, value)` character pairs of a vector of string pairs.
pub open spec fn string_pairs(v: Seq<(String, String)>) -> Seq<(Seq<char>, Seq<char>)> {
    v.map_values(|p: (String, String)| (p.0@, p.1@))
}

/// The URLs (words holding `://`) of a piece of a `source=(...)` array, each trimmed,
/// stripped of quotes, and with `$k`/`${k}` replaced by `v` for each `(k, v)` of `vars`.
pub fn extract_urls(chunk: &str, vars: &Vec<(String, String)>) -> (res: Vec<String>)
    ensures
        res.deep_view() == chunk_urls(chunk@, string_pairs(vars@)),
{
    let mut vs: Vec<(Vec<char>, Vec<char>)> = Vec::new();
    let mut i: usize = 0;
    while i < vars.len()
        invariant
            i <= vars@.len(),
            pairs_of(vs@) == string_pairs(vars@).take(i as int),
        decreases vars@.len() - i,
    {
        let ghost before = pairs_of(vs@);
        vs.push((chars_of(vars[i].0.as_str()), chars_of(vars[i].1.as_str())));
        assert(pairs_of(vs@) =~= before.push((vars@[i as int].0@, vars@[i as int].1@)));
        assert(string_pairs(vars@).take(i + 1) =~= string_pairs(vars@).take(i as int).push(
            (vars@[i as int].0@, vars@[i as int].1@),
        ));
        i += 1;
    }
    assert(string_pairs(vars@).take(i as int) =~= string_pairs(vars@));
    let urls = chunk_urls_in(&chars_of(chunk), &vs);
    strings_of(&urls)
}

/// Strings holding the character vectors, in order.
pub fn strings_of(v: &Vec<Vec<char>>) -> (res: Vec<String>)
    ensures
        res.deep_view() == seqs_of(v@),
{
    let mut res: Vec<String> = Vec::new();
    let mut i: usize = 0;
    while i < v.len()
        invariant
            i <= v@.len(),
            res.deep_view() == seqs_of(v@).take(i as int),
        decreases v@.len() - i,
    {
        let ghost before = res.deep_view();
        res.push(string_of(&v[i]));
        assert(res.deep_view() =~= before.push(v@[i as int]@));
        assert(seqs_of(v@).take(i + 1) =~= seqs_of(v@).take(i as int).push(v@[i as int]@));
        i += 1;
    }
    assert(seqs_of(v@).take(i as int) =~= seqs_of(v@));
    res
}

/// Executable form of [`before_paren`].
fn cut_paren(s: &Vec<char>) -> (res: (Vec<char>, bool))
    ensures
        (res.0@, res.1) == before_paren(s@),
{
    match find_char_in(s, ')') {
        Some(i) => {
            proof {
                lemma_find_char(s@, ')');
            }
            let c = slice_chars(s, 0, i);
            assert(c@ =~= s@.take(i as int));
            (c, true)
        },
        None => (s.clone(), false),
    }
}

/// Appends the character vectors of `src` to `dst`.
fn extend_seqs(dst: &mut Vec<Vec<char>>, src: Vec<Vec<char>>)
    ensures
        seqs_of(final(dst)@) == seqs_of(old(dst)@) + seqs_of(src@),
{
    let mut i: usize = 0;
    while i < src.len()
        invariant
            i <= src@.len(),
            seqs_of(dst@) == seqs_of(old(dst)@) + seqs_of(src@).take(i as int),
        decreases src@.len() - i,
    {
        let ghost before = seqs_of(dst@);
        dst.push(src[i].clone());
        assert(seqs_of(dst@) =~= before.push(src@[i as int]@));
        assert(seqs_of(old(dst)@) + seqs_of(src@).take(i + 1) =~= seqs_of(old(dst)@) + seqs_of(
            src@,
        ).take(i as int) + seq![src@[i as int]@]);
        i += 1;
    }
    assert(seqs_of(src@).take(i as int) =~= seqs_of(src@));
}

/// Reads a `Pkgfile` without running it. A first pass takes the scalar assignments
/// (`name`, `version`, `description`, `release`; the first assignment of a key wins);
/// when a name is declared, a second pass collects the URLs of the `source=(...)`
/// array, which may span lines, and the words after `# Depends on:`.
pub fn parse_pkgfile(content: &str) -> (res: Pkgfile)
    ensures
        res.name@ == scalar_or_empty(pkg_lines(content@), seq!['n', 'a', 'm', 'e']),
        res.version@ == scalar_or_empty(
            pkg_lines(content@),
            seq!['v', 'e', 'r', 's', 'i', 'o', 'n'],
        ),
        res.description@ == scalar_or_empty(
            pkg_lines(content@),
            seq!['d', 'e', 's', 'c', 'r', 'i', 'p', 't', 'i', 'o', 'n'],
        ),
        res.sources.deep_view() == pkg_lists(content@).0,
        res.deps.deep_view() == pkg_lists(content@).1,
{
    let lines = lines_of(content);
    let ghost ls = seqs_of(lines@);
    let name_key = vec!['n', 'a', 'm', 'e'];
    let version_key = vec!['v', 'e', 'r', 's', 'i', 'o', 'n'];
    let description_key = vec!['d', 'e', 's', 'c', 'r', 'i', 'p', 't', 'i', 'o', 'n'];
    let release_key = vec!['r', 'e', 'l', 'e', 'a', 's', 'e'];
    assert(name_key@ =~= seq!['n', 'a', 'm', 'e']);
    assert(version_key@ =~= seq!['v', 'e', 'r', 's', 'i', 'o', 'n']);
    assert(description_key@ =~= seq!['d', 'e', 's', 'c', 'r', 'i', 'p', 't', 'i', 'o', 'n']);
    assert(release_key@ =~= seq!['r', 'e', 'l', 'e', 'a', 's', 'e']);
    let name = scalar_or_empty_in(&lines, &name_key);
    let version = scalar_or_empty_in(&lines, &version_key);
    let description = scalar_or_empty_in(&lines, &description_key);
    let mut sources: Vec<Vec<char>> = Vec::new();
    let mut deps: Vec<Vec<char>> = Vec::new();
    if name.len() == 0 {
        let res = Pkgfile {
            name: string_of(&name),
            version: string_of(&version),
            description: string_of(&description),
            sources: strings_of(&sources),
            deps: strings_of(&deps),
        };
        assert(seqs_of(sources@) =~= Seq::<Seq<char>>::empty());
        return res;
    }
    let release = scalar_or_empty_in(&lines, &release_key);
    let vars = vec![
        (name_key, name.clone()),
        (version_key, version.clone()),
        (release_key, release),
    ];
    let ghost vs = pairs_of(vars@);
    assert(vs =~= pkg_vars(ls));
    let open = source_open_chars();
    let marker = depends_on_chars();
    let mut in_source = false;
    let mut i: usize = 0;
    assert(ls.skip(0) =~= ls);
    assert(seqs_of(sources@) + scan(ls, false, vs).0 =~= scan(ls, false, vs).0);
    assert(seqs_of(deps@) + scan(ls, false, vs).1 =~= scan(ls, false, vs).1);
    while i < lines.len()
        invariant
            i <= lines@.len(),
            ls == seqs_of(lines@),
            vs == pairs_of(vars@),
            open@ == source_open(),
            marker@ == depends_on(),
            scan(ls, false, vs).0 == seqs_of(sources@) + scan(ls.skip(i as int), in_source, vs).0,
            scan(ls, false, vs).1 == seqs_of(deps@) + scan(ls.skip(i as int), in_source, vs).1,
        decreases lines@.len() - i,
    {
        let line = &lines[i];
        let ghost rest = ls.skip(i as int);
        assert(rest[0] == line@);
        assert(rest.drop_first() =~= ls.skip(i + 1));
        let ghost s0 = seqs_of(sources@);
        let ghost d0 = seqs_of(deps@);
        if in_source {
            let (chunk, ends) = cut_paren(line);
            let urls = chunk_urls_in(&chunk, &vars);
            extend_seqs(&mut sources, urls);
            in_source = !ends;
            assert(s0 + (chunk_urls(chunk@, vs) + scan(ls.skip(i + 1), in_source, vs).0) =~= seqs_of(
                sources@,
            ) + scan(ls.skip(i + 1), in_source, vs).0);
        } else if starts_with_chars(line, &open) {
            let tail = slice_chars(line, 8, line.len());
            assert(tail@ =~= line@.skip(8));
            let (chunk, ends) = cut_paren(&tail);
            let urls = chunk_urls_in(&chunk, &vars);
            extend_seqs(&mut sources, urls);
            in_source = !ends;
            assert(s0 + (chunk_urls(chunk@, vs) + scan(ls.skip(i + 1), in_source, vs).0) =~= seqs_of(
                sources@,
            ) + scan(ls.skip(i + 1), in_source, vs).0);
        } else if line.len() > 0 && line[0] == '#' {
            let n = line.len();
            let tail = slice_chars(line, 1, n);
            assert(tail@ =~= line@.drop_first());
            assert(starts_with(line@, seq!['#'])) by {
                assert(line@.take(1) =~= seq!['#']);
            }
            match find_sub_in(&tail, &marker) {
                Some(j) => {
                    proof {
                        lemma_find_sub(tail@, marker@);
                        assert(occurs_at(tail@, depends_on(), j as int));
                    }
                    let after = slice_chars(line, 1 + j + 11, n);
                    assert(after@ =~= line@.skip(1 + j + 11));
                    let ws = words_of(&after);
                    extend_seqs(&mut deps, ws);
                    assert(d0 + (words(after@) + scan(ls.skip(i + 1), false, vs).1) =~= seqs_of(
                        deps@,
                    ) + scan(ls.skip(i + 1), false, vs).1);
                },
                None => {},
            }
        } else {
            proof {
                if starts_with(line@, seq!['#']) {
                    assert(line@.take(1)[0] == line@[0]);
                }
            }
        }
        i += 1;
    }
    assert(ls.skip(i as int) =~= Seq::<Seq<char>>::empty());
    assert(seqs_of(sources@) + Seq::<Seq<char>>::empty() =~= seqs_of(sources@));
    assert(seqs_of(deps@) + Seq::<Seq<char>>::empty() =~= seqs_of(deps@));
    Pkgfile {
        name: string_of(&name),
        version: string_of(&version),
        description: string_of(&description),
        sources: strings_of(&sources),
        deps: strings_of(&deps),
    }
}

/// Why a port cannot become a recipe.
#[derive(PartialEq, Eq, Structural, Clone, Copy, Debug)]
pub enum ImportError {
    /// The `Pkgfile` declares no version.
    NoVersion,
    /// The `Pkgfile` declares no source URL.
    NoSource,
}

/// The name a port is imported under: the one its `Pkgfile` declares, else the port's.
pub open spec fn import_name(port: Seq<char>, declared: Seq<char>) -> Seq<char> {
    if declared.len() == 0 {
        port
    } else {
        declared
    }
}

/// The recipe made from the `Pkgfile` of the port `port`: the package under its
/// declared name (else the port's), version and dependencies; the first source URL as
/// an `archive` source without tag; an `auto` build whose output is named like the
/// package. Fails when the `Pkgfile` declares no version, then when it has no source.
pub fn recipe_from_pkgfile(port: &str, pf: &Pkgfile) -> (res: Result<Recipe, ImportError>)
    ensures
        pf.version@.len() == 0 <==> res == Err::<Recipe, ImportError>(ImportError::NoVersion),
        pf.version@.len() > 0 && pf.sources@.len() == 0 <==> res == Err::<Recipe, ImportError>(
            ImportError::NoSource,
        ),
        res matches Ok(r) ==> {
            let pname = import_name(port@, pf.name@);
            &&& r.package.name@ == pname
            &&& r.package.version@ == pf.version@
            &&& r.package.deps.deep_view() == pf.deps.deep_view()
            &&& r.source.kind@ == "archive"@
            &&& r.source.url@ == pf.sources@[0]@
            &&& r.source.tag@ == Seq::<char>::empty()
            &&& r.build.kind@ == "auto"@
            &&& r.build.args@.len() == 0
            &&& r.build.output@ == pname
        },
{
    let pname = if pf.name.as_str().is_empty() {
        owned(port)
    } else {
        pf.name.clone()
    };
    if pf.version.as_str().is_empty() {
        return Err(ImportError::NoVersion);
    }
    if pf.sources.len() == 0 {
        return Err(ImportError::NoSource);
    }
    let kind = owned("archive");
    let auto = owned("auto");
    Ok(
        Recipe {
            package: Package {
                name: pname.clone(),
                version: pf.version.clone(),
                deps: clone_strings(&pf.deps),
            },
            source: Source { kind, url: pf.sources[0].clone(), tag: String::new() },
            build: Build { kind: auto, args: Vec::new(), output: pname },
        },
    )
}

} // verus!
