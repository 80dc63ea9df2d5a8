//! Character-level text model shared by every parser of the library.
use vstd::prelude::*;
use vstd::std_specs::iter::IteratorSpec;

verus! {

broadcast use vstd::string::group_string_axioms;

/// Appends a character to a `String` (std `String::push`).
pub assume_specification[ String::push ](s: &mut String, ch: char)
    ensures
        final(s)@ == old(s)@.push(ch),
;

/// The characters of `s`, in order.
pub fn chars_of(s: &str) -> (res: Vec<char>)
    ensures
        res@ == s@,
{
    let mut res: Vec<char> = Vec::new();
    let mut it = s.chars();
    loop
        invariant
            it.remaining() == s@.skip(res@.len() as int),
            res@ == s@.take(res@.len() as int),
            res@.len() <= s@.len(),
        ensures
            res@ == s@,
        decreases s@.len() - res@.len(),
    {
        match it.next() {
            Some(c) => {
                res.push(c);
            },
            None => {
                assert(s@.skip(res@.len() as int).len() == 0);
                assert(s@.take(res@.len() as int) =~= s@);
                break;
            },
        }
    }
    res
}


/// A `String` holding exactly the characters of `v`.
pub fn string_of(v: &Vec<char>) -> (res: String)
    ensures
        res@ == v@,
{
    let mut res = String::new();
    let mut i: usize = 0;
    while i < v.len()
        invariant
            i <= v@.len(),
            res@ == v@.take(i as int),
        decreases v@.len() - i,
    {
        res.push(v[i]);
        assert(v@.take(i as int).push(v@[i as int]) =~= v@.take(i + 1));
        i += 1;
    }
    assert(v@.take(i as int) =~= v@);
    res
}

/// Unicode `White_Space`, the property behind `char::is_whitespace`.
pub open spec fn is_ws(c: char) -> bool {
    ||| c == '\t'
    ||| c == '\n'
    ||| c == '\u{0B}'
    ||| c == '\u{0C}'
    ||| c == '\r'
    ||| c == ' '
    ||| c == '\u{85}'
    ||| c == '\u{A0}'
    ||| c == '\u{1680}'
    ||| ('\u{2000}' <= c && c <= '\u{200A}')
    ||| c == '\u{2028}'
    ||| c == '\u{2029}'
    ||| c == '\u{202F}'
    ||| c == '\u{205F}'
    ||| c == '\u{3000}'
}

/// Executable form of [`is_ws`].
pub fn is_whitespace(c: char) -> (res: bool)
    ensures
        res == is_ws(c),
{
    c == '\t' || c == '\n' || c == '\u{0B}' || c == '\u{0C}' || c == '\r' || c == ' '
        || c == '\u{85}' || c == '\u{A0}' || c == '\u{1680}' || ('\u{2000}' <= c && c
        <= '\u{200A}') || c == '\u{2028}' || c == '\u{2029}' || c == '\u{202F}' || c
        == '\u{205F}' || c == '\u{3000}'
}

/// `s` without its leading whitespace.
pub open spec fn trim_start(s: Seq<char>) -> Seq<char>
    decreases s.len(),
{
    if s.len() > 0 && is_ws(s[0]) {
        trim_start(s.drop_first())
    } else {
        s
    }
}

/// `s` without its trailing whitespace.
pub open spec fn trim_end(s: Seq<char>) -> Seq<char>
    decreases s.len(),
{
    if s.len() > 0 && is_ws(s.last()) {
        trim_end(s.drop_last())
    } else {
        s
    }
}

/// `s` without leading and trailing whitespace (`str::trim`).
pub open spec fn trim(s: Seq<char>) -> Seq<char> {
    trim_end(trim_start(s))
}

/// Executable form of [`trim`].
pub fn trim_chars(v: &Vec<char>) -> (res: Vec<char>)
    ensures
        res@ == trim(v@),
{
    let n = v.len();
    let mut a: usize = 0;
    assert(v@.subrange(0, n as int) =~= v@);
    while a < n && is_whitespace(v[a])
        invariant
            a <= n,
            n == v@.len(),
            trim_start(v@) == trim_start(v@.subrange(a as int, n as int)),
        decreases n - a,
    {
        assert(v@.subrange(a as int, n as int).drop_first() =~= v@.subrange(a + 1, n as int));
        a += 1;
    }
    let mut b: usize = n;
    while b > a && is_whitespace(v[b - 1])
        invariant
            a <= b <= n,
            n == v@.len(),
            trim(v@) == trim_end(v@.subrange(a as int, b as int)),
        decreases b,
    {
        assert(v@.subrange(a as int, b as int).drop_last() =~= v@.subrange(a as int, b - 1));
        b -= 1;
    }
    slice_chars(v, a, b)
}

/// The characters `v[lo..hi]` as a new vector.
pub fn slice_chars(v: &Vec<char>, lo: usize, hi: usize) -> (res: Vec<char>)
    requires
        lo <= hi <= v@.len(),
    ensures
        res@ == v@.subrange(lo as int, hi as int),
{
    let mut res: Vec<char> = Vec::new();
    let mut i = lo;
    while i < hi
        invariant
            lo <= i <= hi,
            hi <= v@.len(),
            res@ == v@.subrange(lo as int, i as int),
        decreases hi - i,
    {
        res.push(v[i]);
        assert(v@.subrange(lo as int, i as int).push(v@[i as int]) =~= v@.subrange(
            lo as int,
            i + 1,
        ));
        i += 1;
    }
    res
}

/// The pieces of `s` between occurrences of `sep` (`str::split` with a `char`).
pub open spec fn split(s: Seq<char>, sep: char) -> Seq<Seq<char>>
    decreases s.len(),
{
    if s.len() == 0 {
        seq![Seq::<char>::empty()]
    } else if s[0] == sep {
        seq![Seq::<char>::empty()] + split(s.drop_first(), sep)
    } else {
        let r = split(s.drop_first(), sep);
        r.update(0, seq![s[0]] + r[0])
    }
}

/// There is always at least one piece.
pub proof fn lemma_split_nonempty(s: Seq<char>, sep: char)
    ensures
        split(s, sep).len() >= 1,
    decreases s.len(),
{
    if s.len() > 0 {
        lemma_split_nonempty(s.drop_first(), sep);
    }
}

/// The character sequences held by a vector of character vectors.
pub open spec fn seqs_of(v: Seq<Vec<char>>) -> Seq<Seq<char>> {
    v.map_values(|x: Vec<char>| x@)
}

/// `r` with `p` put in front of its first piece.
pub open spec fn prepend_first(p: Seq<char>, r: Seq<Seq<char>>) -> Seq<Seq<char>> {
    r.update(0, p + r[0])
}

/// Executable form of [`split`].
pub fn split_chars(v: &Vec<char>, sep: char) -> (res: Vec<Vec<char>>)
    ensures
        seqs_of(res@) == split(v@, sep),
{
    let n = v.len();
    let mut done: Vec<Vec<char>> = Vec::new();
    let mut start: usize = 0;
    let mut i: usize = 0;
    proof {
        lemma_split_nonempty(v@, sep);
        let r = split(v@, sep);
        assert(v@.skip(0) =~= v@);
        assert(v@.subrange(0, 0) + r[0] =~= r[0]);
        assert(prepend_first(v@.subrange(0, 0), r) =~= r);
        assert(seqs_of(done@) + r =~= r);
    }
    while i < n
        invariant
            start <= i <= n,
            n == v@.len(),
            split(v@, sep) == seqs_of(done@) + prepend_first(
                v@.subrange(start as int, i as int),
                split(v@.skip(i as int), sep),
            ),
        decreases n - i,
    {
        let ghost cur = v@.subrange(start as int, i as int);
        let ghost r = split(v@.skip(i + 1), sep);
        let ghost old_done = seqs_of(done@);
        proof {
            assert(v@.skip(i as int).drop_first() =~= v@.skip(i + 1));
            lemma_split_nonempty(v@.skip(i + 1), sep);
        }
        if v[i] == sep {
            let piece = slice_chars(v, start, i);
            done.push(piece);
            proof {
                let e = Seq::<char>::empty();
                assert(split(v@.skip(i as int), sep) == seq![e] + r);
                assert(prepend_first(cur, seq![e] + r) =~= seq![cur] + r);
                assert(v@.subrange(i + 1, i + 1) + r[0] =~= r[0]);
                assert(prepend_first(v@.subrange(i + 1, i + 1), r) =~= r);
                assert(seqs_of(done@) =~= old_done.push(cur));
                assert(old_done + (seq![cur] + r) =~= old_done.push(cur) + r);
            }
            start = i + 1;
        } else {
            proof {
                let c = v@[i as int];
                assert(split(v@.skip(i as int), sep) == prepend_first(seq![c], r));
                assert(cur + (seq![c] + r[0]) =~= v@.subrange(start as int, i + 1) + r[0]);
                assert(prepend_first(cur, prepend_first(seq![c], r)) =~= prepend_first(
                    v@.subrange(start as int, i + 1),
                    r,
                ));
            }
        }
        i += 1;
    }
    let last = slice_chars(v, start, n);
    let ghost old_done = seqs_of(done@);
    done.push(last);
    proof {
        let e = Seq::<char>::empty();
        assert(v@.skip(n as int) =~= e);
        assert(split(e, sep) == seq![e]);
        let cur = v@.subrange(start as int, n as int);
        assert(cur + e =~= cur);
        assert(prepend_first(cur, seq![e]) =~= seq![cur]);
        assert(seqs_of(done@) =~= old_done.push(cur));
        assert(old_done + seq![cur] =~= old_done.push(cur));
    }
    done
}

/// Splitting at a separator that joins two strings splits each of them.
pub proof fn lemma_split_join(x: Seq<char>, y: Seq<char>, sep: char)
    ensures
        split(x + seq![sep] + y, sep) == split(x, sep) + split(y, sep),
    decreases x.len(),
{
    let whole = x + seq![sep] + y;
    if x.len() == 0 {
        assert(whole.drop_first() =~= y);
        assert(split(x, sep) == seq![Seq::<char>::empty()]);
    } else {
        lemma_split_join(x.drop_first(), y, sep);
        assert(whole.drop_first() =~= x.drop_first() + seq![sep] + y);
        assert(whole[0] == x[0]);
        lemma_split_nonempty(x.drop_first(), sep);
        if x[0] == sep {
            assert(split(whole, sep) =~= split(x, sep) + split(y, sep));
        } else {
            let r1 = split(x.drop_first(), sep);
            let r2 = split(y, sep);
            assert((r1 + r2)[0] == r1[0]);
            assert((r1 + r2).update(0, seq![x[0]] + r1[0]) =~= r1.update(0, seq![x[0]] + r1[0])
                + r2);
        }
    }
}

/// A string without the separator splits into itself alone.
pub proof fn lemma_split_single(t: Seq<char>, sep: char)
    requires
        forall|i: int| 0 <= i < t.len() ==> t[i] != sep,
    ensures
        split(t, sep) == seq![t],
    decreases t.len(),
{
    if t.len() > 0 {
        lemma_split_single(t.drop_first(), sep);
        assert(t[0] != sep);
        assert(seq![t[0]] + t.drop_first() =~= t);
        assert(seq![t.drop_first()].update(0, seq![t[0]] + t.drop_first()) =~= seq![t]);
    } else {
        assert(t =~= Seq::<char>::empty());
    }
}

/// No character of `s` is `c`.
pub open spec fn lacks(s: Seq<char>, c: char) -> bool {
    forall|i: int| 0 <= i < s.len() ==> s[i] != c
}

/// `s` neither begins nor ends with whitespace.
pub open spec fn is_trimmed(s: Seq<char>) -> bool {
    s.len() > 0 ==> !is_ws(s[0]) && !is_ws(s.last())
}

/// No piece of a split holds the separator.
pub proof fn lemma_split_pieces_lack(s: Seq<char>, sep: char)
    ensures
        forall|k: int| 0 <= k < split(s, sep).len() ==> lacks(#[trigger] split(s, sep)[k], sep),
    decreases s.len(),
{
    if s.len() > 0 {
        lemma_split_pieces_lack(s.drop_first(), sep);
        lemma_split_nonempty(s.drop_first(), sep);
        let r = split(s.drop_first(), sep);
        if s[0] == sep {
            assert forall|k: int| 0 <= k < split(s, sep).len() implies lacks(
                #[trigger] split(s, sep)[k],
                sep,
            ) by {
                if k > 0 {
                    assert(split(s, sep)[k] == r[k - 1]);
                }
            }
        } else {
            assert forall|k: int| 0 <= k < split(s, sep).len() implies lacks(
                #[trigger] split(s, sep)[k],
                sep,
            ) by {
                if k == 0 {
                    let p = seq![s[0]] + r[0];
                    assert(lacks(r[0], sep));
                    assert forall|i: int| 0 <= i < p.len() implies p[i] != sep by {
                        if i > 0 {
                            assert(p[i] == r[0][i - 1]);
                        }
                    }
                } else {
                    assert(split(s, sep)[k] == r[k]);
                }
            }
        }
    }
}

/// The first piece of a split, and what follows it.
pub proof fn lemma_split_first(s: Seq<char>, sep: char)
    ensures
        split(s, sep).len() >= 1,
        lacks(split(s, sep)[0], sep),
        split(s, sep).len() == 1 ==> s == split(s, sep)[0],
        split(s, sep).len() > 1 ==> split(s, sep)[0].len() < s.len() && s.take(
            split(s, sep)[0].len() as int,
        ) == split(s, sep)[0] && s[split(s, sep)[0].len() as int] == sep,
    decreases s.len(),
{
    lemma_split_pieces_lack(s, sep);
    lemma_split_nonempty(s, sep);
    if s.len() == 0 {
    } else {
        lemma_split_first(s.drop_first(), sep);
        lemma_split_nonempty(s.drop_first(), sep);
        let r = split(s.drop_first(), sep);
        if s[0] == sep {
            assert(split(s, sep)[0] =~= Seq::<char>::empty());
            assert(s.take(0) =~= Seq::<char>::empty());
        } else {
            let f = seq![s[0]] + r[0];
            assert(split(s, sep)[0] == f);
            if r.len() == 1 {
                assert(s =~= f);
            } else {
                assert(s.take(f.len() as int) =~= f);
                assert(s[f.len() as int] == s.drop_first()[r[0].len() as int]);
            }
        }
    }
}

/// Dropping whitespace at the ends never adds a character.
pub proof fn lemma_trim_keeps_lack(s: Seq<char>, c: char)
    requires
        lacks(s, c),
    ensures
        lacks(trim_start(s), c),
        lacks(trim_end(s), c),
        lacks(trim(s), c),
    decreases s.len(),
{
    if s.len() > 0 {
        assert(lacks(s.drop_first(), c));
        assert(lacks(s.drop_last(), c));
        lemma_trim_keeps_lack(s.drop_first(), c);
        lemma_trim_keeps_lack(s.drop_last(), c);
    }
    lemma_trim_end_lack(trim_start(s), c);
}

/// Dropping trailing whitespace never adds a character.
proof fn lemma_trim_end_lack(s: Seq<char>, c: char)
    requires
        lacks(s, c),
    ensures
        lacks(trim_end(s), c),
    decreases s.len(),
{
    if s.len() > 0 {
        assert(lacks(s.drop_last(), c));
        lemma_trim_end_lack(s.drop_last(), c);
    }
}

/// Dropping trailing whitespace keeps a non-whitespace first character.
pub proof fn lemma_trim_end_front(s: Seq<char>)
    requires
        s.len() > 0,
        !is_ws(s[0]),
    ensures
        trim_end(s).len() > 0,
        trim_end(s)[0] == s[0],
        !is_ws(trim_end(s).last()),
    decreases s.len(),
{
    if is_ws(s.last()) {
        assert(s.len() > 1);
        lemma_trim_end_front(s.drop_last());
    }
}

/// Leading whitespace is gone after `trim_start`.
proof fn lemma_trim_start_front(s: Seq<char>)
    ensures
        trim_start(s).len() > 0 ==> !is_ws(trim_start(s)[0]),
    decreases s.len(),
{
    if s.len() > 0 && is_ws(s[0]) {
        lemma_trim_start_front(s.drop_first());
    }
}

/// The result of `trim` is trimmed.
pub proof fn lemma_trim_is_trimmed(s: Seq<char>)
    ensures
        is_trimmed(trim(s)),
{
    lemma_trim_start_front(trim_start(s));
    lemma_trim_start_front(s);
    if trim_start(s).len() > 0 {
        lemma_trim_end_front(trim_start(s));
    } else {
        assert(trim_start(s) =~= Seq::<char>::empty());
    }
}

/// `s` holds a character that is not whitespace.
pub open spec fn has_text(s: Seq<char>) -> bool {
    exists|i: int| 0 <= i < s.len() && !is_ws(#[trigger] s[i])
}

/// Trailing whitespace is dropped from `y` only, when `y` holds some other character.
pub proof fn lemma_trim_end_concat(x: Seq<char>, y: Seq<char>)
    requires
        has_text(y),
    ensures
        trim_end(x + y) == x + trim_end(y),
    decreases y.len(),
{
    let i = choose|i: int| 0 <= i < y.len() && !is_ws(#[trigger] y[i]);
    assert((x + y).last() == y.last());
    if is_ws(y.last()) {
        let yi = y.drop_last();
        assert(i < y.len() - 1);
        assert(yi[i] == y[i]);
        assert(has_text(yi));
        assert((x + y).drop_last() =~= x + yi);
        lemma_trim_end_concat(x, yi);
    }
}

/// A suffix made only of whitespace is dropped whole.
pub proof fn lemma_trim_end_ws_suffix(x: Seq<char>, y: Seq<char>)
    requires
        !has_text(y),
    ensures
        trim_end(x + y) == trim_end(x),
    decreases y.len(),
{
    if y.len() == 0 {
        assert(x + y =~= x);
    } else {
        let yi = y.drop_last();
        assert(is_ws(y[y.len() - 1]));
        assert((x + y).last() == y.last());
        assert((x + y).drop_last() =~= x + yi);
        assert(!has_text(yi)) by {
            if has_text(yi) {
                let j = choose|j: int| 0 <= j < yi.len() && !is_ws(#[trigger] yi[j]);
                assert(yi[j] == y[j]);
            }
        }
        lemma_trim_end_ws_suffix(x, yi);
    }
}

/// A trimmed string is its own trim.
pub proof fn lemma_trim_of_trimmed(s: Seq<char>)
    requires
        is_trimmed(s),
    ensures
        trim(s) == s,
{
}

/// Position of the first `c` in `s` (`str::find` with a `char`).
pub open spec fn find_char(s: Seq<char>, c: char) -> Option<int>
    decreases s.len(),
{
    if s.len() == 0 {
        None
    } else if s[0] == c {
        Some(0)
    } else {
        match find_char(s.drop_first(), c) {
            Some(i) => Some(i + 1),
            None => None,
        }
    }
}

/// What [`find_char`] finds: the first position of `c`, or none when `s` lacks it.
pub proof fn lemma_find_char(s: Seq<char>, c: char)
    ensures
        match find_char(s, c) {
            Some(i) => 0 <= i < s.len() && s[i] == c && lacks(s.take(i), c),
            None => lacks(s, c),
        },
    decreases s.len(),
{
    if s.len() > 0 {
        lemma_find_char(s.drop_first(), c);
        match find_char(s.drop_first(), c) {
            Some(i) => {
                if s[0] != c {
                    assert forall|j: int| 0 <= j < i + 1 implies #[trigger] s.take(i + 1)[j] != c by {
                        if j > 0 {
                            assert(s.take(i + 1)[j] == s.drop_first().take(i)[j - 1]);
                        }
                    }
                }
            },
            None => {
                if s[0] != c {
                    assert forall|j: int| 0 <= j < s.len() implies #[trigger] s[j] != c by {
                        if j > 0 {
                            assert(s[j] == s.drop_first()[j - 1]);
                        }
                    }
                }
            },
        }
    }
}

/// Executable form of [`find_char`].
pub fn find_char_in(v: &Vec<char>, c: char) -> (res: Option<usize>)
    ensures
        match res {
            Some(i) => find_char(v@, c) == Some(i as int),
            None => find_char(v@, c) is None,
        },
{
    let mut i: usize = 0;
    assert(v@.skip(0) =~= v@);
    while i < v.len()
        invariant
            i <= v@.len(),
            find_char(v@, c) == match find_char(v@.skip(i as int), c) {
                Some(j) => Some(j + i),
                None => None,
            },
        decreases v@.len() - i,
    {
        assert(v@.skip(i as int)[0] == v@[i as int]);
        assert(v@.skip(i as int).drop_first() =~= v@.skip(i + 1));
        if v[i] == c {
            return Some(i);
        }
        i += 1;
    }
    assert(v@.skip(i as int).len() == 0);
    None
}

/// Position of the first occurrence of `p` in `s` (`str::find` with a `&str`).
pub open spec fn find_sub(s: Seq<char>, p: Seq<char>) -> Option<int>
    decreases s.len(),
{
    if p.len() > s.len() {
        None
    } else if s.take(p.len() as int) == p {
        Some(0)
    } else if s.len() == 0 {
        None
    } else {
        match find_sub(s.drop_first(), p) {
            Some(i) => Some(i + 1),
            None => None,
        }
    }
}

/// `p` occurs in `s` at position `i`.
pub open spec fn occurs_at(s: Seq<char>, p: Seq<char>, i: int) -> bool {
    0 <= i && i + p.len() <= s.len() && s.subrange(i, i + p.len()) == p
}

/// `p` occurs in `v` at position `i` (executable form of [`occurs_at`]).
pub fn occurs_at_in(v: &Vec<char>, p: &Vec<char>, i: usize) -> (res: bool)
    ensures
        res == occurs_at(v@, p@, i as int),
{
    if i > v.len() || p.len() > v.len() - i {
        return false;
    }
    let mut j: usize = 0;
    while j < p.len()
        invariant
            j <= p@.len(),
            i + p@.len() <= v.len(),
            forall|k: int| 0 <= k < j ==> v@[i + k] == p@[k],
        decreases p@.len() - j,
    {
        if v[i + j] != p[j] {
            assert(v@.subrange(i as int, i + p@.len())[j as int] != p@[j as int]);
            return false;
        }
        j += 1;
    }
    assert(v@.subrange(i as int, i + p@.len()) =~= p@);
    true
}

/// Executable form of [`find_sub`].
pub fn find_sub_in(v: &Vec<char>, p: &Vec<char>) -> (res: Option<usize>)
    ensures
        match res {
            Some(i) => find_sub(v@, p@) == Some(i as int),
            None => find_sub(v@, p@) is None,
        },
{
    let mut i: usize = 0;
    assert(v@.skip(0) =~= v@);
    while i <= v.len()
        invariant
            i <= v@.len() + 1,
            i <= v@.len() ==> find_sub(v@, p@) == match find_sub(v@.skip(i as int), p@) {
                Some(j) => Some(j + i),
                None => None,
            },
            i > v@.len() ==> find_sub(v@, p@) is None,
        decreases v@.len() + 1 - i,
    {
        let ghost rest = v@.skip(i as int);
        if occurs_at_in(v, p, i) {
            assert(rest.take(p@.len() as int) =~= v@.subrange(i as int, i + p@.len()));
            return Some(i);
        }
        proof {
            if p@.len() <= rest.len() {
                assert(rest.take(p@.len() as int) =~= v@.subrange(i as int, i + p@.len()));
            }
            if i < v@.len() {
                assert(rest.drop_first() =~= v@.skip(i + 1));
            }
        }
        if i == v.len() {
            return None;
        }
        i += 1;
    }
    None
}

/// `s` with every occurrence of `p` replaced by `r`, scanning from the left
/// (`str::replace`).
pub open spec fn replace(s: Seq<char>, p: Seq<char>, r: Seq<char>) -> Seq<char>
    recommends
        p.len() > 0,
    decreases s.len(),
{
    if p.len() == 0 || s.len() < p.len() {
        s
    } else if s.take(p.len() as int) == p {
        r + replace(s.skip(p.len() as int), p, r)
    } else {
        seq![s[0]] + replace(s.drop_first(), p, r)
    }
}

/// Executable form of [`replace`].
pub fn replace_chars(v: &Vec<char>, p: &Vec<char>, r: &Vec<char>) -> (res: Vec<char>)
    requires
        p@.len() > 0,
    ensures
        res@ == replace(v@, p@, r@),
{
    let mut out: Vec<char> = Vec::new();
    let mut i: usize = 0;
    assert(v@.skip(0) =~= v@);
    while i < v.len()
        invariant
            i <= v@.len(),
            p@.len() > 0,
            replace(v@, p@, r@) == out@ + replace(v@.skip(i as int), p@, r@),
        decreases v@.len() - i,
    {
        let ghost rest = v@.skip(i as int);
        if occurs_at_in(v, p, i) {
            assert(rest.take(p@.len() as int) =~= v@.subrange(i as int, i + p@.len()));
            assert(rest.skip(p@.len() as int) =~= v@.skip(i + p@.len()));
            let ghost before = out@;
            let mut k: usize = 0;
            while k < r.len()
                invariant
                    k <= r@.len(),
                    out@ == before + r@.take(k as int),
                decreases r@.len() - k,
            {
                out.push(r[k]);
                assert(before + r@.take(k + 1) =~= before + r@.take(k as int) + seq![r@[k as int]]);
                k += 1;
            }
            assert(r@.take(k as int) =~= r@);
            assert(before + (r@ + replace(v@.skip(i + p@.len()), p@, r@)) =~= out@ + replace(
                v@.skip(i + p@.len()),
                p@,
                r@,
            ));
            i += p.len();
        } else {
            proof {
                if p@.len() <= rest.len() {
                    assert(rest.take(p@.len() as int) =~= v@.subrange(i as int, i + p@.len()));
                }
                assert(rest.drop_first() =~= v@.skip(i + 1));
                assert(rest[0] == v@[i as int]);
                if rest.len() < p@.len() {
                    assert(replace(rest, p@, r@) == rest);
                    assert(replace(rest.drop_first(), p@, r@) == rest.drop_first());
                    assert(rest =~= seq![rest[0]] + rest.drop_first());
                }
            }
            let ghost before = out@;
            out.push(v[i]);
            assert(before + (seq![v@[i as int]] + replace(v@.skip(i + 1), p@, r@)) =~= out@
                + replace(v@.skip(i + 1), p@, r@));
            i += 1;
        }
    }
    assert(v@.skip(i as int) =~= Seq::<char>::empty());
    assert(out@ + Seq::<char>::empty() =~= out@);
    out
}

/// `s` without leading copies of `c`.
pub open spec fn strip_start_char(s: Seq<char>, c: char) -> Seq<char>
    decreases s.len(),
{
    if s.len() > 0 && s[0] == c {
        strip_start_char(s.drop_first(), c)
    } else {
        s
    }
}

/// `s` without trailing copies of `c`.
pub open spec fn strip_end_char(s: Seq<char>, c: char) -> Seq<char>
    decreases s.len(),
{
    if s.len() > 0 && s.last() == c {
        strip_end_char(s.drop_last(), c)
    } else {
        s
    }
}

/// `s` without leading and trailing copies of `c` (`str::trim_matches` with a `char`).
pub open spec fn trim_matches(s: Seq<char>, c: char) -> Seq<char> {
    strip_end_char(strip_start_char(s, c), c)
}

/// Executable form of [`trim_matches`].
pub fn trim_matches_chars(v: &Vec<char>, c: char) -> (res: Vec<char>)
    ensures
        res@ == trim_matches(v@, c),
{
    let n = v.len();
    let mut a: usize = 0;
    assert(v@.subrange(0, n as int) =~= v@);
    while a < n && v[a] == c
        invariant
            a <= n,
            n == v@.len(),
            strip_start_char(v@, c) == strip_start_char(v@.subrange(a as int, n as int), c),
        decreases n - a,
    {
        assert(v@.subrange(a as int, n as int).drop_first() =~= v@.subrange(a + 1, n as int));
        a += 1;
    }
    let mut b: usize = n;
    while b > a && v[b - 1] == c
        invariant
            a <= b <= n,
            n == v@.len(),
            trim_matches(v@, c) == strip_end_char(v@.subrange(a as int, b as int), c),
        decreases b,
    {
        assert(v@.subrange(a as int, b as int).drop_last() =~= v@.subrange(a as int, b - 1));
        b -= 1;
    }
    slice_chars(v, a, b)
}

/// The pieces of `s` between whitespace characters.
pub open spec fn ws_split(s: Seq<char>) -> Seq<Seq<char>>
    decreases s.len(),
{
    if s.len() == 0 {
        seq![Seq::<char>::empty()]
    } else if is_ws(s[0]) {
        seq![Seq::<char>::empty()] + ws_split(s.drop_first())
    } else {
        let r = ws_split(s.drop_first());
        r.update(0, seq![s[0]] + r[0])
    }
}

proof fn lemma_ws_split_nonempty(s: Seq<char>)
    ensures
        ws_split(s).len() >= 1,
    decreases s.len(),
{
    if s.len() > 0 {
        lemma_ws_split_nonempty(s.drop_first());
    }
}

/// The non-empty pieces among `p`, in order.
pub open spec fn nonempty_pieces(p: Seq<Seq<char>>) -> Seq<Seq<char>>
    decreases p.len(),
{
    if p.len() == 0 {
        Seq::empty()
    } else if p.last().len() > 0 {
        nonempty_pieces(p.drop_last()).push(p.last())
    } else {
        nonempty_pieces(p.drop_last())
    }
}

/// The whitespace-separated words of `s` (`str::split_whitespace`).
pub open spec fn words(s: Seq<char>) -> Seq<Seq<char>> {
    nonempty_pieces(ws_split(s))
}

/// Executable form of [`ws_split`].
fn ws_split_chars(v: &Vec<char>) -> (res: Vec<Vec<char>>)
    ensures
        seqs_of(res@) == ws_split(v@),
{
    let n = v.len();
    let mut done: Vec<Vec<char>> = Vec::new();
    let mut start: usize = 0;
    let mut i: usize = 0;
    proof {
        lemma_ws_split_nonempty(v@);
        let r = ws_split(v@);
        assert(v@.skip(0) =~= v@);
        assert(v@.subrange(0, 0) + r[0] =~= r[0]);
        assert(prepend_first(v@.subrange(0, 0), r) =~= r);
        assert(seqs_of(done@) + r =~= r);
    }
    while i < n
        invariant
            start <= i <= n,
            n == v@.len(),
            ws_split(v@) == seqs_of(done@) + prepend_first(
                v@.subrange(start as int, i as int),
                ws_split(v@.skip(i as int)),
            ),
        decreases n - i,
    {
        let ghost cur = v@.subrange(start as int, i as int);
        let ghost r = ws_split(v@.skip(i + 1));
        let ghost old_done = seqs_of(done@);
        proof {
            assert(v@.skip(i as int).drop_first() =~= v@.skip(i + 1));
            lemma_ws_split_nonempty(v@.skip(i + 1));
        }
        if is_whitespace(v[i]) {
            let piece = slice_chars(v, start, i);
            done.push(piece);
            proof {
                let e = Seq::<char>::empty();
                assert(ws_split(v@.skip(i as int)) == seq![e] + r);
                assert(prepend_first(cur, seq![e] + r) =~= seq![cur] + r);
                assert(v@.subrange(i + 1, i + 1) + r[0] =~= r[0]);
                assert(prepend_first(v@.subrange(i + 1, i + 1), r) =~= r);
                assert(seqs_of(done@) =~= old_done.push(cur));
                assert(old_done + (seq![cur] + r) =~= old_done.push(cur) + r);
            }
            start = i + 1;
        } else {
            proof {
                let c = v@[i as int];
                assert(ws_split(v@.skip(i as int)) == prepend_first(seq![c], r));
                assert(cur + (seq![c] + r[0]) =~= v@.subrange(start as int, i + 1) + r[0]);
                assert(prepend_first(cur, prepend_first(seq![c], r)) =~= prepend_first(
                    v@.subrange(start as int, i + 1),
                    r,
                ));
            }
        }
        i += 1;
    }
    let last = slice_chars(v, start, n);
    let ghost old_done = seqs_of(done@);
    done.push(last);
    proof {
        let e = Seq::<char>::empty();
        assert(v@.skip(n as int) =~= e);
        assert(ws_split(e) == seq![e]);
        let cur = v@.subrange(start as int, n as int);
        assert(cur + e =~= cur);
        assert(prepend_first(cur, seq![e]) =~= seq![cur]);
        assert(seqs_of(done@) =~= old_done.push(cur));
        assert(old_done + seq![cur] =~= old_done.push(cur));
    }
    done
}

/// Executable form of [`words`].
pub fn words_of(v: &Vec<char>) -> (res: Vec<Vec<char>>)
    ensures
        seqs_of(res@) == words(v@),
{
    let pieces = ws_split_chars(v);
    let mut res: Vec<Vec<char>> = Vec::new();
    let mut i: usize = 0;
    while i < pieces.len()
        invariant
            i <= pieces@.len(),
            seqs_of(pieces@) == ws_split(v@),
            seqs_of(res@) == nonempty_pieces(seqs_of(pieces@).take(i as int)),
        decreases pieces@.len() - i,
    {
        assert(seqs_of(pieces@).take(i + 1).drop_last() =~= seqs_of(pieces@).take(i as int));
        assert(seqs_of(pieces@).take(i + 1).last() == pieces@[i as int]@);
        if pieces[i].len() > 0 {
            let ghost before = seqs_of(res@);
            res.push(pieces[i].clone());
            assert(seqs_of(res@) =~= before.push(pieces@[i as int]@));
        }
        i += 1;
    }
    assert(seqs_of(pieces@).take(i as int) =~= seqs_of(pieces@));
    res
}

/// Where [`find_sub`] finds `p`, it occurs, inside `s`.
pub proof fn lemma_find_sub(s: Seq<char>, p: Seq<char>)
    ensures
        find_sub(s, p) matches Some(i) ==> occurs_at(s, p, i),
    decreases s.len(),
{
    if p.len() <= s.len() && s.take(p.len() as int) != p && s.len() > 0 {
        lemma_find_sub(s.drop_first(), p);
        if let Some(i) = find_sub(s.drop_first(), p) {
            assert(s.subrange(i + 1, i + 1 + p.len()) =~= s.drop_first().subrange(i, i + p.len()));
        }
    } else if p.len() <= s.len() && s.take(p.len() as int) == p {
        assert(s.subrange(0, p.len() as int) =~= s.take(p.len() as int));
    }
}

} // verus!
