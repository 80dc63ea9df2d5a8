//! The record of installed packages: a text with one entry per line,
//! `package binary version`, fields separated by single spaces.
use crate::text::{
    chars_of, is_trimmed, is_ws, lacks, lemma_split_first, lemma_split_join, lemma_split_nonempty,
    lemma_split_pieces_lack, lemma_split_single, lemma_trim_is_trimmed, lemma_trim_keeps_lack,
    lemma_trim_of_trimmed, seqs_of, split, split_chars, string_of, trim, trim_chars, trim_end,
    trim_start, has_text, lemma_trim_end_concat, lemma_trim_end_ws_suffix, lemma_trim_end_front,
};
use crate::recipe::{append_str, join_path, owned, path_join};
use crate::ver::{all_digits, is_digit};
use vstd::prelude::*;

verus! {

/// The trimmed, non-blank lines among `pieces`, in order.
pub open spec fn nonblank(pieces: Seq<Seq<char>>) -> Seq<Seq<char>>
    decreases pieces.len(),
{
    if pieces.len() == 0 {
        Seq::empty()
    } else {
        let rest = nonblank(pieces.drop_last());
        let l = trim(pieces.last());
        if l.len() > 0 {
            rest.push(l)
        } else {
            rest
        }
    }
}

/// The entries of a state text: its lines, trimmed, blank ones dropped.
pub open spec fn state_entries(t: Seq<char>) -> Seq<Seq<char>> {
    nonblank(split(t, '\n'))
}

/// The space-separated fields of an entry.
pub open spec fn fields(l: Seq<char>) -> Seq<Seq<char>> {
    split(l, ' ')
}

/// Field `k` of an entry, or the empty string when it has fewer fields.
pub open spec fn field(l: Seq<char>, k: int) -> Seq<char> {
    if 0 <= k < fields(l).len() {
        fields(l)[k]
    } else {
        Seq::empty()
    }
}

/// Field `k` of the first entry whose first field is `name`.
pub open spec fn lookup(es: Seq<Seq<char>>, name: Seq<char>, k: int) -> Option<Seq<char>>
    decreases es.len(),
{
    if es.len() == 0 {
        None
    } else if field(es[0], 0) == name {
        Some(field(es[0], k))
    } else {
        lookup(es.drop_first(), name, k)
    }
}

/// `(package, binary, version)` of every entry with at least three fields.
pub open spec fn records(es: Seq<Seq<char>>) -> Seq<(Seq<char>, Seq<char>, Seq<char>)>
    decreases es.len(),
{
    if es.len() == 0 {
        Seq::empty()
    } else {
        let rest = records(es.drop_last());
        let f = fields(es.last());
        if f.len() >= 3 {
            rest.push((f[0], f[1], f[2]))
        } else {
            rest
        }
    }
}

/// The non-empty first fields of the entries.
pub open spec fn package_names(es: Seq<Seq<char>>) -> Seq<Seq<char>>
    decreases es.len(),
{
    if es.len() == 0 {
        Seq::empty()
    } else {
        let rest = package_names(es.drop_last());
        let f = field(es.last(), 0);
        if f.len() > 0 {
            rest.push(f)
        } else {
            rest
        }
    }
}

/// `s` begins with `p`.
pub open spec fn starts_with(s: Seq<char>, p: Seq<char>) -> bool {
    p.len() <= s.len() && s.take(p.len() as int) == p
}

/// The entries that do not begin with `name` followed by a space.
pub open spec fn keep_others(es: Seq<Seq<char>>, name: Seq<char>) -> Seq<Seq<char>>
    decreases es.len(),
{
    if es.len() == 0 {
        Seq::empty()
    } else {
        let rest = keep_others(es.drop_last(), name);
        if starts_with(es.last(), name + seq![' ']) {
            rest
        } else {
            rest.push(es.last())
        }
    }
}

/// The lines joined with `\n` between them.
pub open spec fn join_lines(ls: Seq<Seq<char>>) -> Seq<char>
    decreases ls.len(),
{
    if ls.len() == 0 {
        Seq::empty()
    } else if ls.len() == 1 {
        ls[0]
    } else {
        join_lines(ls.drop_last()) + seq!['\n'] + ls.last()
    }
}

/// The entry recorded for a package.
pub open spec fn record_line(name: Seq<char>, bin: Seq<char>, version: Seq<char>) -> Seq<char> {
    name + seq![' '] + bin + seq![' '] + version
}

/// The state text after recording that `name` installed `bin` at `version`: the other
/// entries in order, then the new one, each line ended by `\n`.
pub open spec fn remembered(t: Seq<char>, name: Seq<char>, bin: Seq<char>, version: Seq<char>) -> Seq<
    char,
> {
    join_lines(keep_others(state_entries(t), name).push(record_line(name, bin, version))) + seq![
        '\n',
    ]
}

/// The state text without the entries of `name`.
pub open spec fn forgotten(t: Seq<char>, name: Seq<char>) -> Seq<char> {
    let k = keep_others(state_entries(t), name);
    if k.len() == 0 {
        Seq::empty()
    } else {
        join_lines(k) + seq!['\n']
    }
}

/// Appends the characters of `src` to `dst`.
pub fn push_all(dst: &mut Vec<char>, src: &Vec<char>)
    ensures
        final(dst)@ == old(dst)@ + src@,
{
    let mut i: usize = 0;
    while i < src.len()
        invariant
            i <= src@.len(),
            dst@ == old(dst)@ + src@.take(i as int),
        decreases src@.len() - i,
    {
        dst.push(src[i]);
        assert(old(dst)@ + src@.take(i + 1) =~= old(dst)@ + src@.take(i as int) + seq![src@[i as int]]);
        i += 1;
    }
    assert(src@.take(i as int) =~= src@);
}

/// `s` begins with `p` (executable form of [`starts_with`]).
pub fn starts_with_chars(s: &Vec<char>, p: &Vec<char>) -> (res: bool)
    ensures
        res == starts_with(s@, p@),
{
    if p.len() > s.len() {
        return false;
    }
    let mut i: usize = 0;
    while i < p.len()
        invariant
            i <= p@.len() <= s@.len(),
            forall|j: int| 0 <= j < i ==> s@[j] == p@[j],
        decreases p@.len() - i,
    {
        if s[i] != p[i] {
            assert(s@.take(p@.len() as int)[i as int] != p@[i as int]);
            return false;
        }
        i += 1;
    }
    assert(s@.take(p@.len() as int) =~= p@);
    true
}

/// Two character vectors are equal.
pub fn chars_equal(a: &Vec<char>, b: &Vec<char>) -> (res: bool)
    ensures
        res == (a@ == b@),
{
    if a.len() != b.len() {
        return false;
    }
    let r = starts_with_chars(a, b);
    assert(a@.take(b@.len() as int) =~= a@);
    r
}

/// The entries of a state text, as character vectors.
pub fn entry_lines(state: &str) -> (res: Vec<Vec<char>>)
    ensures
        seqs_of(res@) == state_entries(state@),
{
    let cs = chars_of(state);
    let pieces = split_chars(&cs, '\n');
    let mut res: Vec<Vec<char>> = Vec::new();
    let mut i: usize = 0;
    while i < pieces.len()
        invariant
            i <= pieces@.len(),
            seqs_of(pieces@) == split(state@, '\n'),
            seqs_of(res@) == nonblank(seqs_of(pieces@).take(i as int)),
        decreases pieces@.len() - i,
    {
        assert(seqs_of(pieces@).take(i + 1).drop_last() =~= seqs_of(pieces@).take(i as int));
        assert(seqs_of(pieces@).take(i + 1).last() == pieces@[i as int]@);
        let l = trim_chars(&pieces[i]);
        if l.len() > 0 {
            let ghost before = seqs_of(res@);
            res.push(l);
            assert(seqs_of(res@) =~= before.push(l@));
        }
        i += 1;
    }
    assert(seqs_of(pieces@).take(i as int) =~= seqs_of(pieces@));
    res
}

/// Field `k` of the entry `l` (executable form of [`field`]).
pub fn field_of(l: &Vec<char>, k: usize) -> (res: Vec<char>)
    ensures
        res@ == field(l@, k as int),
{
    let fs = split_chars(l, ' ');
    if k < fs.len() {
        let r = fs[k].clone();
        assert(seqs_of(fs@)[k as int] == fs@[k as int]@);
        r
    } else {
        Vec::new()
    }
}

/// The entries of the state text `state`, in order: its lines, trimmed, without
/// blank ones.
pub fn entries(state: &str) -> (res: Vec<String>)
    ensures
        res.deep_view() == state_entries(state@),
{
    let ls = entry_lines(state);
    let mut res: Vec<String> = Vec::new();
    let mut i: usize = 0;
    while i < ls.len()
        invariant
            i <= ls@.len(),
            res.deep_view() == seqs_of(ls@).take(i as int),
        decreases ls@.len() - i,
    {
        let s = string_of(&ls[i]);
        let ghost before = res.deep_view();
        res.push(s);
        assert(res.deep_view() =~= before.push(ls@[i as int]@));
        assert(seqs_of(ls@).take(i + 1) =~= seqs_of(ls@).take(i as int).push(ls@[i as int]@));
        i += 1;
    }
    assert(seqs_of(ls@).take(i as int) =~= seqs_of(ls@));
    res
}

/// Field `k` of the first entry of `ls` from position `from` on whose first field is `name`.
fn lookup_lines(ls: &Vec<Vec<char>>, name: &Vec<char>, k: usize) -> (res: Option<Vec<char>>)
    ensures
        match res {
            Some(v) => lookup(seqs_of(ls@), name@, k as int) == Some(v@),
            None => lookup(seqs_of(ls@), name@, k as int) is None,
        },
{
    let mut i: usize = 0;
    assert(seqs_of(ls@).skip(0) =~= seqs_of(ls@));
    while i < ls.len()
        invariant
            i <= ls@.len(),
            lookup(seqs_of(ls@), name@, k as int) == lookup(
                seqs_of(ls@).skip(i as int),
                name@,
                k as int,
            ),
        decreases ls@.len() - i,
    {
        assert(seqs_of(ls@).skip(i as int)[0] == ls@[i as int]@);
        assert(seqs_of(ls@).skip(i as int).drop_first() =~= seqs_of(ls@).skip(i + 1));
        let first = field_of(&ls[i], 0);
        if chars_equal(&first, name) {
            return Some(field_of(&ls[i], k));
        }
        i += 1;
    }
    assert(seqs_of(ls@).skip(i as int) =~= Seq::<Seq<char>>::empty());
    None
}

/// Field `k` of the entry of `name` in `state`, as a string.
fn lookup_field(state: &str, name: &str, k: usize) -> (res: Option<String>)
    ensures
        res.deep_view() == lookup(state_entries(state@), name@, k as int),
{
    let ls = entry_lines(state);
    let n = chars_of(name);
    match lookup_lines(&ls, &n, k) {
        Some(v) => Some(string_of(&v)),
        None => None,
    }
}

/// The binary recorded for `name` in `state` (its second field, or empty), if the
/// package has an entry.
pub fn bin_name(state: &str, name: &str) -> (res: Option<String>)
    ensures
        res.deep_view() == lookup(state_entries(state@), name@, 1),
{
    lookup_field(state, name, 1)
}

/// The version recorded for `name` in `state` (its third field, or empty), if the
/// package has an entry.
pub fn installed_version(state: &str, name: &str) -> (res: Option<String>)
    ensures
        res.deep_view() == lookup(state_entries(state@), name@, 2),
{
    lookup_field(state, name, 2)
}

/// Installed packages as `(package, binary, version)`, from every entry that has
/// at least three fields.
pub fn installed(state: &str) -> (res: Vec<(String, String, String)>)
    ensures
        res.deep_view() == records(state_entries(state@)),
{
    let ls = entry_lines(state);
    let mut res: Vec<(String, String, String)> = Vec::new();
    let mut i: usize = 0;
    while i < ls.len()
        invariant
            i <= ls@.len(),
            res.deep_view() == records(seqs_of(ls@).take(i as int)),
        decreases ls@.len() - i,
    {
        assert(seqs_of(ls@).take(i + 1).drop_last() =~= seqs_of(ls@).take(i as int));
        assert(seqs_of(ls@).take(i + 1).last() == ls@[i as int]@);
        let fs = split_chars(&ls[i], ' ');
        if fs.len() >= 3 {
            let ghost before = res.deep_view();
            let t = (string_of(&fs[0]), string_of(&fs[1]), string_of(&fs[2]));
            res.push(t);
            assert(res.deep_view() =~= before.push((fs@[0]@, fs@[1]@, fs@[2]@)));
        }
        i += 1;
    }
    assert(seqs_of(ls@).take(i as int) =~= seqs_of(ls@));
    res
}

/// Names of the installed packages: the non-empty first field of every entry.
pub fn installed_packages(state: &str) -> (res: Vec<String>)
    ensures
        res.deep_view() == package_names(state_entries(state@)),
{
    let ls = entry_lines(state);
    let mut res: Vec<String> = Vec::new();
    let mut i: usize = 0;
    while i < ls.len()
        invariant
            i <= ls@.len(),
            res.deep_view() == package_names(seqs_of(ls@).take(i as int)),
        decreases ls@.len() - i,
    {
        assert(seqs_of(ls@).take(i + 1).drop_last() =~= seqs_of(ls@).take(i as int));
        assert(seqs_of(ls@).take(i + 1).last() == ls@[i as int]@);
        let f = field_of(&ls[i], 0);
        if f.len() > 0 {
            let ghost before = res.deep_view();
            res.push(string_of(&f));
            assert(res.deep_view() =~= before.push(f@));
        }
        i += 1;
    }
    assert(seqs_of(ls@).take(i as int) =~= seqs_of(ls@));
    res
}

/// The entries of `ls` that do not begin with `name` and a space.
fn keep_other_lines(ls: &Vec<Vec<char>>, name: &Vec<char>) -> (res: Vec<Vec<char>>)
    ensures
        seqs_of(res@) == keep_others(seqs_of(ls@), name@),
{
    let mut prefix = name.clone();
    prefix.push(' ');
    let mut res: Vec<Vec<char>> = Vec::new();
    let mut i: usize = 0;
    while i < ls.len()
        invariant
            i <= ls@.len(),
            prefix@ == name@ + seq![' '],
            seqs_of(res@) == keep_others(seqs_of(ls@).take(i as int), name@),
        decreases ls@.len() - i,
    {
        assert(seqs_of(ls@).take(i + 1).drop_last() =~= seqs_of(ls@).take(i as int));
        assert(seqs_of(ls@).take(i + 1).last() == ls@[i as int]@);
        if !starts_with_chars(&ls[i], &prefix) {
            let ghost before = seqs_of(res@);
            res.push(ls[i].clone());
            assert(seqs_of(res@) =~= before.push(ls@[i as int]@));
        }
        i += 1;
    }
    assert(seqs_of(ls@).take(i as int) =~= seqs_of(ls@));
    res
}

/// The lines joined with `\n` (executable form of [`join_lines`]).
fn join_line_chars(ls: &Vec<Vec<char>>) -> (res: Vec<char>)
    ensures
        res@ == join_lines(seqs_of(ls@)),
{
    let mut res: Vec<char> = Vec::new();
    let mut i: usize = 0;
    assert(seqs_of(ls@).take(0) =~= Seq::<Seq<char>>::empty());
    while i < ls.len()
        invariant
            i <= ls@.len(),
            res@ == join_lines(seqs_of(ls@).take(i as int)),
        decreases ls@.len() - i,
    {
        let ghost t = seqs_of(ls@).take(i + 1);
        assert(t.drop_last() =~= seqs_of(ls@).take(i as int));
        assert(t.last() == ls@[i as int]@);
        if i > 0 {
            res.push('\n');
        } else {
            assert(t =~= seq![ls@[0]@]);
        }
        push_all(&mut res, &ls[i]);
        i += 1;
    }
    assert(seqs_of(ls@).take(i as int) =~= seqs_of(ls@));
    res
}

/// The state text after recording that `name` installed the binary `bin` at
/// `version`: earlier entries of `name` are dropped and the new entry goes last.
pub fn remember(state: &str, name: &str, bin: &str, version: &str) -> (res: String)
    ensures
        res@ == remembered(state@, name@, bin@, version@),
{
    let ls = entry_lines(state);
    let n = chars_of(name);
    let mut keep = keep_other_lines(&ls, &n);
    let mut line = n.clone();
    line.push(' ');
    push_all(&mut line, &chars_of(bin));
    line.push(' ');
    push_all(&mut line, &chars_of(version));
    let ghost kept = seqs_of(keep@);
    assert(line@ =~= record_line(name@, bin@, version@));
    keep.push(line);
    assert(seqs_of(keep@) =~= kept.push(record_line(name@, bin@, version@)));
    let mut text = join_line_chars(&keep);
    text.push('\n');
    string_of(&text)
}

/// The state text without the entries of `name`.
pub fn forget(state: &str, name: &str) -> (res: String)
    ensures
        res@ == forgotten(state@, name@),
{
    let ls = entry_lines(state);
    let n = chars_of(name);
    let keep = keep_other_lines(&ls, &n);
    if keep.len() == 0 {
        return String::new();
    }
    let mut text = join_line_chars(&keep);
    text.push('\n');
    string_of(&text)
}

/// A non-empty, trimmed line without line breaks: what an entry looks like.
pub open spec fn clean(l: Seq<char>) -> bool {
    l.len() > 0 && is_trimmed(l) && lacks(l, '\n')
}

/// Every line of `ls` is clean.
pub open spec fn all_clean(ls: Seq<Seq<char>>) -> bool {
    forall|i: int| 0 <= i < ls.len() ==> clean(#[trigger] ls[i])
}

/// Joined lines without line breaks split back into the same lines.
proof fn lemma_split_join_lines(ls: Seq<Seq<char>>)
    requires
        ls.len() >= 1,
        forall|i: int| 0 <= i < ls.len() ==> lacks(#[trigger] ls[i], '\n'),
    ensures
        split(join_lines(ls), '\n') == ls,
    decreases ls.len(),
{
    if ls.len() == 1 {
        lemma_split_single(ls[0], '\n');
        assert(seq![ls[0]] =~= ls);
    } else {
        let init = ls.drop_last();
        assert forall|i: int| 0 <= i < init.len() implies lacks(#[trigger] init[i], '\n') by {
            assert(init[i] == ls[i]);
        }
        lemma_split_join_lines(init);
        lemma_split_join(join_lines(init), ls.last(), '\n');
        assert(lacks(ls[ls.len() - 1], '\n'));
        lemma_split_single(ls.last(), '\n');
        assert(init + seq![ls.last()] =~= ls);
    }
}

/// `nonblank` of lines that are already clean is those lines.
proof fn lemma_nonblank_clean(ls: Seq<Seq<char>>)
    requires
        all_clean(ls),
    ensures
        nonblank(ls) == ls,
    decreases ls.len(),
{
    if ls.len() > 0 {
        let init = ls.drop_last();
        assert forall|i: int| 0 <= i < init.len() implies clean(#[trigger] init[i]) by {
            assert(init[i] == ls[i]);
        }
        lemma_nonblank_clean(init);
        assert(clean(ls[ls.len() - 1]));
        lemma_trim_of_trimmed(ls.last());
        assert(init.push(ls.last()) =~= ls);
    }
}

/// Lines made by `nonblank` are clean when the pieces hold no line break.
proof fn lemma_nonblank_is_clean(pieces: Seq<Seq<char>>)
    requires
        forall|i: int| 0 <= i < pieces.len() ==> lacks(#[trigger] pieces[i], '\n'),
    ensures
        all_clean(nonblank(pieces)),
    decreases pieces.len(),
{
    if pieces.len() > 0 {
        let init = pieces.drop_last();
        assert forall|i: int| 0 <= i < init.len() implies lacks(#[trigger] init[i], '\n') by {
            assert(init[i] == pieces[i]);
        }
        lemma_nonblank_is_clean(init);
        assert(lacks(pieces[pieces.len() - 1], '\n'));
        lemma_trim_keeps_lack(pieces.last(), '\n');
        lemma_trim_is_trimmed(pieces.last());
    }
}

/// The entries of any state text are clean.
pub proof fn lemma_entries_clean(t: Seq<char>)
    ensures
        all_clean(state_entries(t)),
{
    lemma_split_pieces_lack(t, '\n');
    lemma_nonblank_is_clean(split(t, '\n'));
}

/// The entries of joined lines ended by a line break.
proof fn lemma_entries_of_joined(ls: Seq<Seq<char>>)
    requires
        forall|i: int| 0 <= i < ls.len() ==> lacks(#[trigger] ls[i], '\n'),
    ensures
        state_entries(join_lines(ls) + seq!['\n']) == nonblank(ls),
{
    let e = Seq::<char>::empty();
    let text = join_lines(ls) + seq!['\n'];
    assert(text =~= join_lines(ls) + seq!['\n'] + e);
    lemma_split_join(join_lines(ls), e, '\n');
    assert(split(e, '\n') == seq![e]);
    assert(trim(e) =~= e) by {
        assert(trim_start(e) == e);
        assert(trim_end(e) == e);
    }
    if ls.len() == 0 {
        assert(join_lines(ls) == e);
        let two = seq![e] + seq![e];
        assert(two.drop_last() =~= seq![e]);
        assert(seq![e].drop_last() =~= Seq::<Seq<char>>::empty());
        assert(nonblank(Seq::<Seq<char>>::empty()) == Seq::<Seq<char>>::empty());
        assert(nonblank(seq![e]) == Seq::<Seq<char>>::empty());
        assert(nonblank(two) == Seq::<Seq<char>>::empty());
    } else {
        lemma_split_join_lines(ls);
        assert((ls + seq![e]).drop_last() =~= ls);
    }
}

/// Field 0 of `l` is `n` exactly when `l` is `n` or begins with `n` and a space.
proof fn lemma_field0(l: Seq<char>, n: Seq<char>)
    requires
        lacks(n, ' '),
    ensures
        (field(l, 0) == n) <==> (l == n || starts_with(l, n + seq![' '])),
{
    lemma_split_first(l, ' ');
    let f = split(l, ' ')[0];
    assert(field(l, 0) == f);
    let np = n + seq![' '];
    if split(l, ' ').len() == 1 {
        assert(l == f);
        if starts_with(l, np) {
            assert(l[n.len() as int] == np[n.len() as int]);
            assert(false);
        }
    } else {
        assert(starts_with(l, f + seq![' '])) by {
            assert(l.take(f.len() + 1int) =~= f + seq![' ']);
        }
        if l == n {
            assert(l[f.len() as int] == ' ');
            assert(false);
        }
        if starts_with(l, np) {
            if f.len() < n.len() {
                assert(l.take(np.len() as int)[f.len() as int] == l[f.len() as int]);
                assert(np[f.len() as int] == n[f.len() as int]);
                assert(n[f.len() as int] != ' ');
            } else if f.len() > n.len() {
                assert(l.take(np.len() as int)[n.len() as int] == l[n.len() as int]);
                assert(np[n.len() as int] == ' ');
                assert(l.take(f.len() as int)[n.len() as int] == l[n.len() as int]);
                assert(f[n.len() as int] != ' ');
            } else {
                assert forall|i: int| 0 <= i < n.len() implies f[i] == n[i] by {
                    assert(l.take(f.len() as int)[i] == l[i]);
                    assert(l.take(np.len() as int)[i] == l[i]);
                    assert(np[i] == n[i]);
                }
                assert(f =~= n);
            }
        }
        if f == n {
            assert(l.take(np.len() as int) =~= np) by {
                assert forall|i: int| 0 <= i < np.len() implies l.take(np.len() as int)[i]
                    == np[i] by {
                    if i < n.len() {
                        assert(l.take(f.len() as int)[i] == l[i]);
                    }
                }
            }
        }
    }
}

/// Looking up in a concatenation looks in the first part, then in the second.
proof fn lemma_lookup_append(a: Seq<Seq<char>>, b: Seq<Seq<char>>, name: Seq<char>, k: int)
    ensures
        lookup(a + b, name, k) == match lookup(a, name, k) {
            Some(x) => Some(x),
            None => lookup(b, name, k),
        },
    decreases a.len(),
{
    if a.len() == 0 {
        assert(a + b =~= b);
    } else {
        assert((a + b)[0] == a[0]);
        assert((a + b).drop_first() =~= a.drop_first() + b);
        lemma_lookup_append(a.drop_first(), b, name, k);
    }
}

/// Dropping the entries of `n` does not change what is found for another name.
proof fn lemma_lookup_keep_others(es: Seq<Seq<char>>, n: Seq<char>, m: Seq<char>, k: int)
    requires
        lacks(n, ' '),
        m != n,
    ensures
        lookup(keep_others(es, n), m, k) == lookup(es, m, k),
    decreases es.len(),
{
    if es.len() == 0 {
    } else {
        let init = es.drop_last();
        let x = es.last();
        lemma_lookup_keep_others(init, n, m, k);
        assert(init + seq![x] =~= es);
        lemma_lookup_append(init, seq![x], m, k);
        assert(seq![x].drop_first() =~= Seq::<Seq<char>>::empty());
        assert(lookup(Seq::<Seq<char>>::empty(), m, k) is None);
        if starts_with(x, n + seq![' ']) {
            lemma_field0(x, n);
            assert(field(x, 0) != m);
            assert(seq![x][0] == x);
            assert(lookup(seq![x], m, k) is None);
            assert(keep_others(es, n) == keep_others(init, n));
        } else {
            let kept = keep_others(init, n);
            lemma_lookup_append(kept, seq![x], m, k);
            assert(kept.push(x) =~= kept + seq![x]);
        }
    }
}

/// The kept entries are entries that do not belong to `n`.
proof fn lemma_keep_others_members(es: Seq<Seq<char>>, n: Seq<char>)
    ensures
        forall|i: int|
            0 <= i < keep_others(es, n).len() ==> es.contains(#[trigger] keep_others(es, n)[i])
                && !starts_with(keep_others(es, n)[i], n + seq![' ']),
    decreases es.len(),
{
    if es.len() > 0 {
        let init = es.drop_last();
        lemma_keep_others_members(init, n);
        let kept = keep_others(es, n);
        assert forall|i: int| 0 <= i < kept.len() implies es.contains(#[trigger] kept[i])
            && !starts_with(kept[i], n + seq![' ']) by {
            if i < keep_others(init, n).len() {
                assert(kept[i] == keep_others(init, n)[i]);
                let j = choose|j: int| 0 <= j < init.len() && init[j] == kept[i];
                assert(es[j] == init[j]);
            } else {
                assert(kept[i] == es[es.len() - 1]);
            }
        }
    }
}

/// No entry is found for `n` among lines that are neither `n` nor begin with `n` and a space.
proof fn lemma_lookup_absent(ls: Seq<Seq<char>>, n: Seq<char>, k: int)
    requires
        lacks(n, ' '),
        forall|i: int|
            0 <= i < ls.len() ==> #[trigger] ls[i] != n && !starts_with(ls[i], n + seq![' ']),
    ensures
        lookup(ls, n, k) is None,
    decreases ls.len(),
{
    if ls.len() > 0 {
        lemma_field0(ls[0], n);
        let rest = ls.drop_first();
        assert forall|i: int| 0 <= i < rest.len() implies #[trigger] rest[i] != n
            && !starts_with(rest[i], n + seq![' ']) by {
            assert(rest[i] == ls[i + 1]);
        }
        lemma_lookup_absent(rest, n, k);
    }
}

/// No entry has a first field holding a space, so a name with a space is never found.
proof fn lemma_lookup_spaced(ls: Seq<Seq<char>>, n: Seq<char>, k: int)
    requires
        !lacks(n, ' '),
    ensures
        lookup(ls, n, k) is None,
    decreases ls.len(),
{
    if ls.len() > 0 {
        lemma_split_pieces_lack(ls[0], ' ');
        lemma_split_nonempty(ls[0], ' ');
        assert(lacks(field(ls[0], 0), ' '));
        lemma_lookup_spaced(ls.drop_first(), n, k);
    }
}

/// A package name an entry can hold: not empty, not beginning with whitespace, and
/// holding no space or line break.
pub open spec fn record_name(n: Seq<char>) -> bool {
    n.len() > 0 && !is_ws(n[0]) && lacks(n, ' ') && lacks(n, '\n')
}

/// A concatenation lacks what both parts lack.
proof fn lemma_concat_lacks(x: Seq<char>, y: Seq<char>, c: char)
    requires
        lacks(x, c),
        lacks(y, c),
    ensures
        lacks(x + y, c),
{
    assert forall|i: int| 0 <= i < (x + y).len() implies (x + y)[i] != c by {
        if i >= x.len() {
            assert((x + y)[i] == y[i - x.len()]);
        }
    }
}

/// What the line written by `remember` becomes once trimmed: the name, a space and the
/// rest trimmed at its end when the binary or the version holds some text; else the
/// name trimmed at its end; the line itself when the version ends in text.
proof fn lemma_record_entry(n: Seq<char>, b: Seq<char>, v: Seq<char>)
    requires
        n.len() > 0,
        !is_ws(n[0]),
        lacks(n, '\n'),
        lacks(b, '\n'),
        lacks(v, '\n'),
    ensures
        clean(trim(record_line(n, b, v))),
        has_text(b) || has_text(v) ==> trim(record_line(n, b, v)) == n + seq![' '] + trim_end(
            b + seq![' '] + v,
        ),
        !has_text(b) && !has_text(v) ==> trim(record_line(n, b, v)) == trim_end(n),
        v.len() > 0 && !is_ws(v.last()) ==> trim(record_line(n, b, v)) == record_line(n, b, v),
{
    let line = record_line(n, b, v);
    let sp = seq![' '];
    let r = b + sp + v;
    let tail = sp + r;
    assert(line =~= n + tail);
    assert(lacks(sp, '\n'));
    lemma_concat_lacks(n, sp, '\n');
    lemma_concat_lacks(n + sp, b, '\n');
    lemma_concat_lacks(n + sp + b, sp, '\n');
    lemma_concat_lacks(n + sp + b + sp, v, '\n');
    assert(line[0] == n[0]);
    assert(trim_start(line) == line);
    lemma_trim_end_front(line);
    lemma_trim_keeps_lack(line, '\n');
    lemma_trim_is_trimmed(line);
    if has_text(b) || has_text(v) {
        assert(has_text(r)) by {
            if has_text(b) {
                let i = choose|i: int| 0 <= i < b.len() && !is_ws(#[trigger] b[i]);
                assert(r[i] == b[i]);
            } else {
                let i = choose|i: int| 0 <= i < v.len() && !is_ws(#[trigger] v[i]);
                assert(r[b.len() + 1 + i] == v[i]);
            }
        }
        assert(has_text(tail)) by {
            let i = choose|i: int| 0 <= i < r.len() && !is_ws(#[trigger] r[i]);
            assert(tail[i + 1] == r[i]);
        }
        lemma_trim_end_concat(n, tail);
        lemma_trim_end_concat(sp, r);
        assert(n + (sp + trim_end(r)) =~= n + sp + trim_end(r));
    } else {
        assert(!has_text(tail)) by {
            if has_text(tail) {
                let i = choose|i: int| 0 <= i < tail.len() && !is_ws(#[trigger] tail[i]);
                if i == 0 {
                } else if i - 1 < b.len() {
                    assert(tail[i] == b[i - 1]);
                    assert(!is_ws(b[i - 1]));
                } else if i - 1 == b.len() {
                } else {
                    assert(tail[i] == v[i - 2 - b.len()]);
                    assert(!is_ws(v[i - 2 - b.len()]));
                }
            }
        }
        lemma_trim_end_ws_suffix(n, tail);
    }
    if v.len() > 0 && !is_ws(v.last()) {
        assert(line.last() == v.last());
        lemma_trim_of_trimmed(line);
    }
}

/// The entries after `remember`: the other packages' entries, in order, then the new
/// line trimmed.
proof fn lemma_remembered_entries(t: Seq<char>, n: Seq<char>, b: Seq<char>, v: Seq<char>)
    requires
        n.len() > 0,
        !is_ws(n[0]),
        lacks(n, '\n'),
        lacks(b, '\n'),
        lacks(v, '\n'),
    ensures
        state_entries(remembered(t, n, b, v)) == keep_others(state_entries(t), n).push(
            trim(record_line(n, b, v)),
        ),
{
    let es = state_entries(t);
    let kept = keep_others(es, n);
    let line = record_line(n, b, v);
    lemma_entries_clean(t);
    lemma_keep_others_members(es, n);
    assert(all_clean(kept)) by {
        assert forall|i: int| 0 <= i < kept.len() implies clean(#[trigger] kept[i]) by {
            let j = choose|j: int| 0 <= j < es.len() && es[j] == kept[i];
            assert(clean(es[j]));
        }
    }
    lemma_record_entry(n, b, v);
    lemma_concat_lacks(n, seq![' '], '\n');
    lemma_concat_lacks(n + seq![' '], b, '\n');
    lemma_concat_lacks(n + seq![' '] + b, seq![' '], '\n');
    lemma_concat_lacks(n + seq![' '] + b + seq![' '], v, '\n');
    let ls = kept.push(line);
    assert forall|i: int| 0 <= i < ls.len() implies lacks(#[trigger] ls[i], '\n') by {
        if i < kept.len() {
            assert(ls[i] == kept[i]);
            assert(clean(kept[i]));
        }
    }
    lemma_entries_of_joined(ls);
    lemma_nonblank_clean(kept);
    assert(ls.drop_last() =~= kept);
}

/// The entries after `remember`: the entries that do not belong to the package, in
/// order, then the new entry `name bin version`. Holds when the name is not empty and
/// does not begin with whitespace, the version is not empty and does not end with
/// whitespace, and none of the three holds a line break.
pub proof fn law_remember_entries(t: Seq<char>, n: Seq<char>, b: Seq<char>, v: Seq<char>)
    requires
        n.len() > 0,
        !is_ws(n[0]),
        v.len() > 0,
        !is_ws(v.last()),
        lacks(n, '\n'),
        lacks(b, '\n'),
        lacks(v, '\n'),
    ensures
        state_entries(remembered(t, n, b, v)) == keep_others(state_entries(t), n).push(
            record_line(n, b, v),
        ),
{
    lemma_remembered_entries(t, n, b, v);
    lemma_record_entry(n, b, v);
}

/// What a read gives back of a write: after `remember`, the package's entry yields
/// the binary and the version given, and the installed list holds
/// `(name, bin, version)`. Holds for a name as [`record_name`] says, a binary and a
/// version without spaces or line breaks, the version not empty and not ending with
/// whitespace, when the state held no entry consisting of the bare package name.
pub proof fn law_remember_then_lookup(t: Seq<char>, n: Seq<char>, b: Seq<char>, v: Seq<char>)
    requires
        record_name(n),
        lacks(b, ' '),
        lacks(b, '\n'),
        v.len() > 0,
        !is_ws(v.last()),
        lacks(v, ' '),
        lacks(v, '\n'),
        !state_entries(t).contains(n),
    ensures
        lookup(state_entries(remembered(t, n, b, v)), n, 1) == Some(b),
        lookup(state_entries(remembered(t, n, b, v)), n, 2) == Some(v),
        records(state_entries(remembered(t, n, b, v))).contains((n, b, v)),
{
    let es = state_entries(t);
    let kept = keep_others(es, n);
    let tl = record_line(n, b, v);
    law_remember_entries(t, n, b, v);
    let sp = seq![' '];
    lemma_split_single(n, ' ');
    lemma_split_single(b, ' ');
    lemma_split_single(v, ' ');
    let nb = n + sp + b;
    lemma_split_join(n, b, ' ');
    assert(split(nb, ' ') =~= seq![n, b]);
    lemma_split_join(nb, v, ' ');
    assert(tl =~= nb + sp + v);
    assert(fields(tl) =~= seq![n, b, v]);
    lemma_keep_others_members(es, n);
    assert forall|i: int| 0 <= i < kept.len() implies #[trigger] kept[i] != n && !starts_with(
        kept[i],
        n + seq![' '],
    ) by {
        assert(es.contains(kept[i]));
    }
    lemma_lookup_absent(kept, n, 1);
    lemma_lookup_absent(kept, n, 2);
    lemma_lookup_append(kept, seq![tl], n, 1);
    lemma_lookup_append(kept, seq![tl], n, 2);
    assert(kept.push(tl) =~= kept + seq![tl]);
    let rs = records(kept.push(tl));
    assert(kept.push(tl).drop_last() =~= kept);
    assert(rs == records(kept).push((n, b, v)));
    assert(rs[rs.len() - 1] == (n, b, v));
}

/// The trimmed line written by `remember` has the name as first field; when the binary
/// or the version holds some text, it begins with the name and a space.
proof fn lemma_record_entry_name(n: Seq<char>, b: Seq<char>, v: Seq<char>)
    requires
        record_name(n),
        lacks(b, '\n'),
        lacks(v, '\n'),
        !is_ws(n.last()) || has_text(b) || has_text(v),
    ensures
        field(trim(record_line(n, b, v)), 0) == n,
        has_text(b) || has_text(v) ==> starts_with(trim(record_line(n, b, v)), n + seq![' ']),
{
    lemma_record_entry(n, b, v);
    let e = trim(record_line(n, b, v));
    lemma_split_single(n, ' ');
    if has_text(b) || has_text(v) {
        let w = trim_end(b + seq![' '] + v);
        lemma_split_join(n, w, ' ');
        lemma_split_nonempty(w, ' ');
        assert(fields(e) == seq![n] + split(w, ' '));
        assert(fields(e)[0] == n);
        assert(e.take(n.len() + 1int) =~= n + seq![' ']);
    } else {
        assert(trim_end(n) == n);
    }
}

/// `remember` leaves every other package as it was: for any other name, looking it up
/// after `remember` gives what it gave before. Holds for a name as [`record_name`] says,
/// a binary and a version without line breaks, unless the name ends with whitespace
/// while the binary and the version hold nothing but whitespace.
pub proof fn law_remember_keeps_others(
    t: Seq<char>,
    n: Seq<char>,
    b: Seq<char>,
    v: Seq<char>,
    m: Seq<char>,
    k: int,
)
    requires
        record_name(n),
        lacks(b, '\n'),
        lacks(v, '\n'),
        !is_ws(n.last()) || has_text(b) || has_text(v),
        m != n,
    ensures
        lookup(state_entries(remembered(t, n, b, v)), m, k) == lookup(state_entries(t), m, k),
{
    let es = state_entries(t);
    let kept = keep_others(es, n);
    let tl = trim(record_line(n, b, v));
    lemma_remembered_entries(t, n, b, v);
    lemma_record_entry_name(n, b, v);
    lemma_lookup_keep_others(es, n, m, k);
    lemma_lookup_append(kept, seq![tl], m, k);
    assert(kept.push(tl) =~= kept + seq![tl]);
    assert(seq![tl].drop_first() =~= Seq::<Seq<char>>::empty());
    assert(lookup(Seq::<Seq<char>>::empty(), m, k) is None);
    assert(seq![tl][0] == tl);
    assert(lookup(seq![tl], m, k) is None);
}

/// Entries none of which begins with `n` and a space are all kept.
proof fn lemma_keep_others_all(es: Seq<Seq<char>>, n: Seq<char>)
    requires
        forall|i: int| 0 <= i < es.len() ==> !starts_with(#[trigger] es[i], n + seq![' ']),
    ensures
        keep_others(es, n) == es,
    decreases es.len(),
{
    if es.len() > 0 {
        let init = es.drop_last();
        assert forall|i: int| 0 <= i < init.len() implies !starts_with(#[trigger] init[i], n + seq![' ']) by {
            assert(init[i] == es[i]);
        }
        lemma_keep_others_all(init, n);
        assert(!starts_with(es[es.len() - 1], n + seq![' ']));
        assert(init.push(es.last()) =~= es);
    }
}

/// The entries after `forget` are the kept ones.
proof fn lemma_forgotten_entries(t: Seq<char>, n: Seq<char>)
    ensures
        state_entries(forgotten(t, n)) == keep_others(state_entries(t), n),
{
    let es = state_entries(t);
    let kept = keep_others(es, n);
    lemma_entries_clean(t);
    lemma_keep_others_members(es, n);
    assert(all_clean(kept)) by {
        assert forall|i: int| 0 <= i < kept.len() implies clean(#[trigger] kept[i]) by {
            let j = choose|j: int| 0 <= j < es.len() && es[j] == kept[i];
            assert(clean(es[j]));
        }
    }
    if kept.len() == 0 {
        let e = Seq::<char>::empty();
        assert(split(e, '\n') == seq![e]);
        assert(trim(e) =~= e) by {
            assert(trim_start(e) == e);
            assert(trim_end(e) == e);
        }
        assert(seq![e].drop_last() =~= Seq::<Seq<char>>::empty());
        assert(nonblank(Seq::<Seq<char>>::empty()) == Seq::<Seq<char>>::empty());
        assert(nonblank(seq![e]) == Seq::<Seq<char>>::empty());
        assert(forgotten(t, n) == e);
        assert(state_entries(e) =~= kept);
    } else {
        assert forall|i: int| 0 <= i < kept.len() implies lacks(#[trigger] kept[i], '\n') by {
            assert(clean(kept[i]));
        }
        lemma_entries_of_joined(kept);
        lemma_nonblank_clean(kept);
    }
}

/// After `forget`, the package is no longer found (unless the state held an entry
/// consisting of the bare name, which `forget` keeps).
pub proof fn law_forget_then_lookup(t: Seq<char>, n: Seq<char>, k: int)
    requires
        lacks(n, ' ') ==> !state_entries(t).contains(n),
    ensures
        lookup(state_entries(forgotten(t, n)), n, k) is None,
{
    if !lacks(n, ' ') {
        lemma_lookup_spaced(state_entries(forgotten(t, n)), n, k);
    } else {
        let es = state_entries(t);
        let kept = keep_others(es, n);
        lemma_forgotten_entries(t, n);
        lemma_keep_others_members(es, n);
        assert forall|i: int| 0 <= i < kept.len() implies #[trigger] kept[i] != n
            && !starts_with(kept[i], n + seq![' ']) by {
            assert(es.contains(kept[i]));
        }
        lemma_lookup_absent(kept, n, k);
    }
}

/// `forget` leaves every other package as it was.
pub proof fn law_forget_keeps_others(t: Seq<char>, n: Seq<char>, m: Seq<char>, k: int)
    requires
        lacks(n, ' '),
        m != n,
    ensures
        lookup(state_entries(forgotten(t, n)), m, k) == lookup(state_entries(t), m, k),
{
    lemma_forgotten_entries(t, n);
    lemma_lookup_keep_others(state_entries(t), n, m, k);
}

/// `forget` undoes `remember`: for a package that had no entry, recording it and then
/// forgetting it gives back the entries there were, and the package is not found.
/// Holds for a name as [`record_name`] says, a binary and a version without line
/// breaks of which at least one holds some text.
pub proof fn law_forget_undoes_remember(t: Seq<char>, n: Seq<char>, b: Seq<char>, v: Seq<char>, k: int)
    requires
        record_name(n),
        lacks(b, '\n'),
        lacks(v, '\n'),
        has_text(b) || has_text(v),
        forall|i: int|
            0 <= i < state_entries(t).len() ==> field(#[trigger] state_entries(t)[i], 0) != n,
    ensures
        state_entries(forgotten(remembered(t, n, b, v), n)) == state_entries(t),
        lookup(state_entries(forgotten(remembered(t, n, b, v), n)), n, k) is None,
{
    let es = state_entries(t);
    let e = trim(record_line(n, b, v));
    assert forall|i: int| 0 <= i < es.len() implies #[trigger] es[i] != n && !starts_with(
        es[i],
        n + seq![' '],
    ) by {
        lemma_field0(es[i], n);
    }
    lemma_keep_others_all(es, n);
    lemma_remembered_entries(t, n, b, v);
    lemma_forgotten_entries(remembered(t, n, b, v), n);
    lemma_record_entry_name(n, b, v);
    assert(es.push(e).drop_last() =~= es);
    assert(keep_others(es.push(e), n) == keep_others(es, n));
    lemma_lookup_absent(es, n, k);
}

/// A value taken from the environment when it is set and not empty, else `default`.
pub open spec fn env_or(value: Option<&str>, default: Seq<char>) -> Seq<char> {
    if value is Some && value->0@.len() > 0 {
        value->0@
    } else {
        default
    }
}

/// The installation prefix: `SABPAK_PREFIX` (its value `env_prefix`) when set and not
/// empty, else `/usr/local`.
pub fn prefix(env_prefix: Option<&str>) -> (res: String)
    ensures
        res@ == env_or(env_prefix, "/usr/local"@),
{
    match env_prefix {
        Some(p) => if !p.is_empty() {
            owned(p)
        } else {
            owned("/usr/local")
        },
        None => owned("/usr/local"),
    }
}

/// The base directory of recipes and built packages: `SABPAK_DIR` (its value `env_dir`)
/// when set and not empty, else `<prefix>/share/sabpak`.
pub fn base_dir(env_dir: Option<&str>, prefix: &str) -> (res: String)
    ensures
        res@ == env_or(env_dir, path_join(prefix@, "share/sabpak"@)),
{
    match env_dir {
        Some(d) => if !d.is_empty() {
            owned(d)
        } else {
            join_path(prefix, "share/sabpak")
        },
        None => join_path(prefix, "share/sabpak"),
    }
}

/// The per-user cache: `<HOME>/.cache/sabpak`, with `.` when `HOME` is unset.
pub fn user_cache(home: Option<&str>) -> (res: String)
    ensures
        res@ == path_join(
            match home {
                Some(h) => h@,
                None => "."@,
            },
            ".cache/sabpak"@,
        ),
{
    match home {
        Some(h) => join_path(h, ".cache/sabpak"),
        None => join_path(".", ".cache/sabpak"),
    }
}

/// Where binaries are installed: `<prefix>/bin`.
pub fn bin_dir(prefix: &str) -> (res: String)
    ensures
        res@ == path_join(prefix@, "bin"@),
{
    join_path(prefix, "bin")
}

/// The file that records installed packages: `<prefix>/share/sabpak/installed.txt`.
pub fn state_file(prefix: &str) -> (res: String)
    ensures
        res@ == path_join(path_join(prefix@, "share/sabpak"@), "installed.txt"@),
{
    let dir = join_path(prefix, "share/sabpak");
    join_path(dir.as_str(), "installed.txt")
}

/// The repository where packages are published: `SABPAK_RELEASES` (its value
/// `sabpak_env`) when set and not empty, else `ELUN_RELEASES` (its value `elun_env`)
/// when set and not empty, else `pansususu/packages`.
pub fn releases_repo(sabpak_env: Option<&str>, elun_env: Option<&str>) -> (res: String)
    ensures
        res@ == env_or(sabpak_env, env_or(elun_env, "pansususu/packages"@)),
{
    match sabpak_env {
        Some(r) if !r.is_empty() => owned(r),
        _ => match elun_env {
            Some(r) if !r.is_empty() => owned(r),
            _ => owned("pansususu/packages"),
        },
    }
}

/// The command that runs `cmd` with `args`, through `sudo` when the prefix needs it.
pub fn elevated_command(needs_sudo: bool, cmd: &str, args: &Vec<String>) -> (res: (
    String,
    Vec<String>,
))
    ensures
        needs_sudo ==> res.0@ == "sudo"@ && res.1.deep_view() == seq![cmd@] + args.deep_view(),
        !needs_sudo ==> res.0@ == cmd@ && res.1.deep_view() == args.deep_view(),
{
    let copy = crate::recipe::clone_strings(args);
    if needs_sudo {
        let mut all: Vec<String> = Vec::new();
        all.push(owned(cmd));
        let mut i: usize = 0;
        while i < copy.len()
            invariant
                i <= copy@.len(),
                all.deep_view() == seq![cmd@] + copy.deep_view().take(i as int),
            decreases copy@.len() - i,
        {
            let ghost before = all.deep_view();
            all.push(copy[i].clone());
            assert(all.deep_view() =~= before.push(copy@[i as int]@));
            assert(seq![cmd@] + copy.deep_view().take(i + 1) =~= seq![cmd@] + copy.deep_view().take(
                i as int,
            ) + seq![copy@[i as int]@]);
            i += 1;
        }
        assert(copy.deep_view().take(i as int) =~= copy.deep_view());
        (owned("sudo"), all)
    } else {
        (owned(cmd), copy)
    }
}

/// `s` ends with `p`.
pub open spec fn ends_with(s: Seq<char>, p: Seq<char>) -> bool {
    p.len() <= s.len() && s.skip(s.len() - p.len()) == p
}

/// `s` ends with `p` (executable form of [`ends_with`]).
pub fn ends_with_chars(s: &Vec<char>, p: &Vec<char>) -> (res: bool)
    ensures
        res == ends_with(s@, p@),
{
    if p.len() > s.len() {
        return false;
    }
    let tail = crate::text::slice_chars(s, s.len() - p.len(), s.len());
    assert(tail@ =~= s@.skip(s@.len() - p@.len()));
    chars_equal(&tail, p)
}

/// How many decimal digits `s` ends with.
pub open spec fn trailing_digits(s: Seq<char>) -> nat
    decreases s.len(),
{
    if s.len() > 0 && is_digit(s.last()) {
        1 + trailing_digits(s.drop_last())
    } else {
        0
    }
}

/// A file that a download left unfinished: its name ends in `.part`, or in `.part.`
/// followed by the number of the process that wrote it.
pub open spec fn partial_download(file: Seq<char>) -> bool {
    let d = trailing_digits(file);
    ends_with(file, ".part"@) || (d > 0 && ends_with(file.take(file.len() - d), ".part."@))
}

/// A cached file that belongs to no installed package, or that a download left
/// unfinished.
pub open spec fn stale_cache_file(file: Seq<char>, installed: Seq<Seq<char>>) -> bool {
    partial_download(file) || !(exists|i: int|
        0 <= i < installed.len() && starts_with(file, #[trigger] installed[i] + "-"@))
}

/// Digits at the end of a string add to the count of its trailing digits.
proof fn lemma_trailing_digits_append(x: Seq<char>, d: Seq<char>)
    requires
        all_digits(d),
    ensures
        trailing_digits(x + d) == trailing_digits(x) + d.len(),
    decreases d.len(),
{
    if d.len() == 0 {
        assert(x + d =~= x);
    } else {
        let di = d.drop_last();
        assert(all_digits(di)) by {
            assert forall|i: int| 0 <= i < di.len() implies #[trigger] is_digit(di[i]) by {
                assert(is_digit(d[i]));
            }
        }
        assert(is_digit(d[d.len() - 1]));
        assert((x + d).last() == d.last());
        assert((x + d).drop_last() =~= x + di);
        lemma_trailing_digits_append(x, di);
    }
}

/// What counts as an unfinished download: a file named `<base>.part`, and a file named
/// `<base>.part.<pid>` for any number `pid`, whatever `base` is.
pub proof fn law_partial_download(base: Seq<char>, pid: Seq<char>)
    requires
        pid.len() > 0,
        all_digits(pid),
    ensures
        partial_download(base + ".part"@),
        partial_download(base + ".part."@ + pid),
{
    reveal_strlit(".part");
    reveal_strlit(".part.");
    let f = base + ".part"@;
    assert(f.skip(f.len() - ".part"@.len()) =~= ".part"@);
    let head = base + ".part."@;
    let g = head + pid;
    assert(!is_digit(head.last()));
    assert(trailing_digits(head) == 0);
    lemma_trailing_digits_append(head, pid);
    assert(g.take(g.len() - trailing_digits(g)) =~= head);
    assert(head.skip(head.len() - ".part."@.len()) =~= ".part."@);
}

/// Which cached files are removed: every unfinished download; a file of an installed
/// package (its name begins with the package's name and `-`), wherever the package
/// stands in the list, is kept unless unfinished; every other file is removed. The
/// order of the installed list does not matter.
pub proof fn law_stale_cache_file(file: Seq<char>, installed: Seq<Seq<char>>, other: Seq<Seq<char>>)
    requires
        forall|x: Seq<char>| installed.contains(x) <==> other.contains(x),
    ensures
        partial_download(file) ==> stale_cache_file(file, installed),
        forall|i: int|
            0 <= i < installed.len() && starts_with(file, #[trigger] installed[i] + "-"@)
                && !partial_download(file) ==> !stale_cache_file(file, installed),
        (forall|i: int| 0 <= i < installed.len() ==> !starts_with(file, #[trigger] installed[i] + "-"@))
            ==> stale_cache_file(file, installed),
        stale_cache_file(file, installed) == stale_cache_file(file, other),
{
    if exists|i: int| 0 <= i < installed.len() && starts_with(file, #[trigger] installed[i] + "-"@) {
        let i = choose|i: int| 0 <= i < installed.len() && starts_with(file, #[trigger] installed[i] + "-"@);
        assert(installed.contains(installed[i]));
        let j = choose|j: int| 0 <= j < other.len() && other[j] == installed[i];
        assert(starts_with(file, other[j] + "-"@));
    }
    if exists|i: int| 0 <= i < other.len() && starts_with(file, #[trigger] other[i] + "-"@) {
        let i = choose|i: int| 0 <= i < other.len() && starts_with(file, #[trigger] other[i] + "-"@);
        assert(other.contains(other[i]));
        let j = choose|j: int| 0 <= j < installed.len() && installed[j] == other[i];
        assert(starts_with(file, installed[j] + "-"@));
    }
}

/// Whether the name `f` is that of an unfinished download (see [`partial_download`]).
fn is_partial_download(f: &Vec<char>) -> (res: bool)
    ensures
        res == partial_download(f@),
{
    if ends_with_chars(f, &chars_of(".part")) {
        return true;
    }
    let mut i: usize = f.len();
    proof {
        assert(f@.take(i as int) =~= f@);
    }
    while i > 0 && '0' <= f[i - 1] && f[i - 1] <= '9'
        invariant
            i <= f@.len(),
            trailing_digits(f@) == (f@.len() - i) + trailing_digits(f@.take(i as int)),
        decreases i,
    {
        assert(f@.take(i as int).drop_last() =~= f@.take(i - 1));
        i -= 1;
    }
    assert(trailing_digits(f@.take(i as int)) == 0);
    if i == f.len() {
        return false;
    }
    let head = crate::text::slice_chars(f, 0, i);
    assert(head@ =~= f@.take(f@.len() - trailing_digits(f@)));
    ends_with_chars(&head, &chars_of(".part."))
}

/// Whether the cached file `file` is to be removed, given the installed packages.
pub fn is_stale_cache_file(file: &str, installed: &Vec<String>) -> (res: bool)
    ensures
        res == stale_cache_file(file@, installed.deep_view()),
{
    let f = chars_of(file);
    if is_partial_download(&f) {
        return true;
    }
    let mut i: usize = 0;
    while i < installed.len()
        invariant
            i <= installed@.len(),
            f@ == file@,
            !partial_download(file@),
            forall|j: int|
                0 <= j < i ==> !starts_with(file@, #[trigger] installed.deep_view()[j] + "-"@),
        decreases installed@.len() - i,
    {
        let mut pre = installed[i].clone();
        pre.push('-');
        let pc = chars_of(pre.as_str());
        assert(pc@ =~= installed.deep_view()[i as int] + "-"@) by {
            reveal_strlit("-");
        }
        if starts_with_chars(&f, &pc) {
            assert(starts_with(file@, installed.deep_view()[i as int] + "-"@));
            assert(0 <= i < installed.deep_view().len());
            assert(!stale_cache_file(file@, installed.deep_view()));
            return false;
        }
        i += 1;
    }
    true
}

/// The binary named by an entry: its second field, when it has one.
pub open spec fn entry_binary_of(entry: Seq<char>) -> Option<Seq<char>> {
    if fields(entry).len() >= 2 {
        Some(fields(entry)[1])
    } else {
        None
    }
}

/// The binary named by the state entry `entry`, if it names one.
pub fn entry_binary(entry: &str) -> (res: Option<String>)
    ensures
        res.deep_view() == entry_binary_of(entry@),
{
    let fs = split_chars(&chars_of(entry), ' ');
    if fs.len() >= 2 {
        Some(string_of(&fs[1]))
    } else {
        None
    }
}

/// The entries whose flag in `alive` is set, in order.
pub open spec fn alive_entries(es: Seq<Seq<char>>, alive: Seq<bool>) -> Seq<Seq<char>>
    decreases es.len(),
{
    if es.len() == 0 || alive.len() != es.len() {
        Seq::empty()
    } else {
        let rest = alive_entries(es.drop_last(), alive.drop_last());
        if alive.last() {
            rest.push(es.last())
        } else {
            rest
        }
    }
}

/// The state text holding `ls`, one per line, or nothing when there is none.
pub open spec fn state_text(ls: Seq<Seq<char>>) -> Seq<char> {
    if ls.len() == 0 {
        Seq::empty()
    } else {
        join_lines(ls) + seq!['\n']
    }
}

/// The entries kept are entries of `es`.
proof fn lemma_alive_members(es: Seq<Seq<char>>, alive: Seq<bool>)
    ensures
        forall|i: int|
            0 <= i < alive_entries(es, alive).len() ==> es.contains(
                #[trigger] alive_entries(es, alive)[i],
            ),
    decreases es.len(),
{
    if es.len() > 0 && alive.len() == es.len() {
        let init = es.drop_last();
        lemma_alive_members(init, alive.drop_last());
        let r = alive_entries(init, alive.drop_last());
        let a = alive_entries(es, alive);
        assert forall|i: int| 0 <= i < a.len() implies es.contains(#[trigger] a[i]) by {
            if i < r.len() {
                assert(a[i] == r[i]);
                let j = choose|j: int| 0 <= j < init.len() && init[j] == r[i];
                assert(es[j] == init[j]);
            } else {
                assert(a[i] == es[es.len() - 1]);
            }
        }
    }
}

/// Reading back the state text that [`prune_state`] makes gives exactly the entries it
/// kept.
pub proof fn law_prune_reads_back(t: Seq<char>, alive: Seq<bool>)
    requires
        alive.len() == state_entries(t).len(),
    ensures
        state_entries(state_text(alive_entries(state_entries(t), alive))) == alive_entries(
            state_entries(t),
            alive,
        ),
{
    let es = state_entries(t);
    let kept = alive_entries(es, alive);
    lemma_entries_clean(t);
    lemma_alive_members(es, alive);
    assert(all_clean(kept)) by {
        assert forall|i: int| 0 <= i < kept.len() implies clean(#[trigger] kept[i]) by {
            let j = choose|j: int| 0 <= j < es.len() && es[j] == kept[i];
            assert(clean(es[j]));
        }
    }
    if kept.len() == 0 {
        let e = Seq::<char>::empty();
        assert(split(e, '\n') == seq![e]);
        assert(trim(e) =~= e) by {
            assert(trim_start(e) == e);
            assert(trim_end(e) == e);
        }
        assert(seq![e].drop_last() =~= Seq::<Seq<char>>::empty());
        assert(nonblank(Seq::<Seq<char>>::empty()) == Seq::<Seq<char>>::empty());
        assert(nonblank(seq![e]) == Seq::<Seq<char>>::empty());
        assert(state_entries(e) =~= kept);
    } else {
        assert forall|i: int| 0 <= i < kept.len() implies lacks(#[trigger] kept[i], '\n') by {
            assert(clean(kept[i]));
        }
        lemma_entries_of_joined(kept);
        lemma_nonblank_clean(kept);
    }
}

/// The state after dropping the entries whose binary is gone: the new state text, and
/// how many entries were dropped. `alive[i]` tells whether the binary of `entries[i]`
/// exists.
pub fn prune_state(entries: &Vec<String>, alive: &Vec<bool>) -> (res: (String, usize))
    requires
        alive@.len() == entries@.len(),
    ensures
        res.0@ == state_text(alive_entries(entries.deep_view(), alive@)),
        res.1 == entries@.len() - alive_entries(entries.deep_view(), alive@).len(),
{
    let mut keep: Vec<Vec<char>> = Vec::new();
    let mut i: usize = 0;
    while i < entries.len()
        invariant
            i <= entries@.len(),
            alive@.len() == entries@.len(),
            keep@.len() <= i,
            seqs_of(keep@) == alive_entries(
                entries.deep_view().take(i as int),
                alive@.take(i as int),
            ),
        decreases entries@.len() - i,
    {
        assert(entries.deep_view().take(i + 1).drop_last() =~= entries.deep_view().take(i as int));
        assert(alive@.take(i + 1).drop_last() =~= alive@.take(i as int));
        assert(entries.deep_view().take(i + 1).last() == entries@[i as int]@);
        if alive[i] {
            let ghost before = seqs_of(keep@);
            keep.push(chars_of(entries[i].as_str()));
            assert(seqs_of(keep@) =~= before.push(entries@[i as int]@));
        }
        i += 1;
    }
    assert(entries.deep_view().take(i as int) =~= entries.deep_view());
    assert(alive@.take(i as int) =~= alive@);
    let stale = entries.len() - keep.len();
    if keep.len() == 0 {
        return (String::new(), stale);
    }
    let mut text = join_line_chars(&keep);
    text.push('\n');
    (string_of(&text), stale)
}

} // verus!
