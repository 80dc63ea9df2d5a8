//! Numeric version comparison (`1.2.10` > `1.2.9`).
use crate::text::{chars_of, lemma_split_join, lemma_split_single, seqs_of, split, split_chars};
use std::cmp::Ordering;
use vstd::prelude::*;

verus! {

/// `c` is an ASCII decimal digit.
pub open spec fn is_digit(c: char) -> bool {
    '0' <= c && c <= '9'
}

/// The value of the decimal digit `c`.
pub open spec fn digit_value(c: char) -> int {
    c as int - '0' as int
}

/// The value of a string of decimal digits, most significant first.
pub open spec fn digits_value(s: Seq<char>) -> int
    decreases s.len(),
{
    if s.len() == 0 {
        0
    } else {
        digits_value(s.drop_last()) * 10 + digit_value(s.last())
    }
}

/// Every character of `s` is a decimal digit.
pub open spec fn all_digits(s: Seq<char>) -> bool {
    forall|i: int| 0 <= i < s.len() ==> #[trigger] is_digit(s[i])
}

/// What `str::parse::<i64>` gives: an optional `+` or `-`, then one or more
/// decimal digits, with the value in the range of `i64`.
pub open spec fn parse_i64(s: Seq<char>) -> Option<int> {
    let neg = s.len() > 0 && s[0] == '-';
    let signed = s.len() > 0 && (s[0] == '-' || s[0] == '+');
    let body = if signed {
        s.drop_first()
    } else {
        s
    };
    let v = if neg {
        -digits_value(body)
    } else {
        digits_value(body)
    };
    if body.len() == 0 || !all_digits(body) || v < i64::MIN || v > i64::MAX {
        None
    } else {
        Some(v)
    }
}

/// The value of one segment of a version: its number, or 0 when it is not a number.
pub open spec fn segment_value(piece: Seq<char>) -> int {
    match parse_i64(piece) {
        Some(v) => v,
        None => 0,
    }
}

/// The parts of a version string: the value of each of its `.`-separated segments, in
/// order; a segment that is not a number counts as 0.
pub open spec fn version_parts(s: Seq<char>) -> Seq<int> {
    split(s, '.').map_values(|p: Seq<char>| segment_value(p))
}

/// Outcome of a comparison.
#[derive(PartialEq, Eq, Structural, Clone, Copy, Debug)]
pub enum Order {
    Less,
    Equal,
    Greater,
}

/// Part `i` of `p`, or 0 past its end.
pub open spec fn part(p: Seq<int>, i: int) -> int {
    if 0 <= i < p.len() {
        p[i]
    } else {
        0
    }
}

/// The larger of the two lengths.
pub open spec fn max_len(a: Seq<int>, b: Seq<int>) -> int {
    if a.len() > b.len() {
        a.len() as int
    } else {
        b.len() as int
    }
}

/// Lexicographic comparison of `a` and `b` from position `i` on, the shorter one
/// padded with zeros.
pub open spec fn compare_parts(a: Seq<int>, b: Seq<int>, i: int) -> Order
    decreases max_len(a, b) - i,
{
    if i < 0 || i >= max_len(a, b) {
        Order::Equal
    } else if part(a, i) < part(b, i) {
        Order::Less
    } else if part(a, i) > part(b, i) {
        Order::Greater
    } else {
        compare_parts(a, b, i + 1)
    }
}

/// The order of two version strings.
pub open spec fn compare_versions(a: Seq<char>, b: Seq<char>) -> Order {
    compare_parts(version_parts(a), version_parts(b), 0)
}

/// The integers held by a vector of `i64`.
pub open spec fn ints(v: Seq<i64>) -> Seq<int> {
    v.map_values(|x: i64| x as int)
}

/// Value of one decimal digit.
fn digit_of(c: char) -> (res: u64)
    requires
        is_digit(c),
    ensures
        res == digit_value(c),
{
    (c as u32 - '0' as u32) as u64
}

/// Extending a digit string never lowers its value.
proof fn lemma_digits_value_prefix(s: Seq<char>, k: int)
    requires
        0 <= k <= s.len(),
        all_digits(s),
    ensures
        0 <= digits_value(s.take(k)) <= digits_value(s),
    decreases s.len(),
{
    if s.len() == 0 {
        assert(s.take(k) =~= s);
    } else {
        let t = s.drop_last();
        assert(all_digits(t)) by {
            assert forall|i: int| 0 <= i < t.len() implies #[trigger] is_digit(t[i]) by {
                assert(is_digit(s[i]));
            }
        }
        assert(is_digit(s[s.len() - 1]));
        if k == s.len() {
            assert(s.take(k) =~= s);
            lemma_digits_value_prefix(t, k - 1);
            assert(t.take(k - 1) =~= t);
        } else {
            lemma_digits_value_prefix(t, k);
            assert(t.take(k) =~= s.take(k));
            lemma_digits_value_prefix(t, t.len() as int);
            assert(t.take(t.len() as int) =~= t);
        }
    }
}

/// Executable form of [`parse_i64`].
pub fn parse_i64_chars(s: &Vec<char>) -> (res: Option<i64>)
    ensures
        match res {
            Some(x) => parse_i64(s@) == Some(x as int),
            None => parse_i64(s@) is None,
        },
{
    let n = s.len();
    let neg = n > 0 && s[0] == '-';
    let signed = n > 0 && (s[0] == '-' || s[0] == '+');
    let start: usize = if signed {
        1
    } else {
        0
    };
    let ghost body = if signed {
        s@.drop_first()
    } else {
        s@
    };
    assert(body =~= s@.subrange(start as int, n as int));
    if start == n {
        return None;
    }
    let limit: u64 = if neg {
        0x8000_0000_0000_0000
    } else {
        0x7fff_ffff_ffff_ffff
    };
    let mut acc: u64 = 0;
    let mut i = start;
    while i < n
        invariant
            start <= i <= n,
            n == s@.len(),
            body == s@.subrange(start as int, n as int),
            acc <= limit,
            0x7fff_ffff_ffff_ffff <= limit <= 0x8000_0000_0000_0000,
            neg ==> limit == 0x8000_0000_0000_0000,
            !neg ==> limit == 0x7fff_ffff_ffff_ffff,
            neg == (s@.len() > 0 && s@[0] == '-'),
            signed == (s@.len() > 0 && (s@[0] == '-' || s@[0] == '+')),
            body == (if signed { s@.drop_first() } else { s@ }),
            all_digits(body.take(i - start)),
            acc == digits_value(body.take(i - start)),
        decreases n - i,
    {
        let c = s[i];
        if !('0' <= c && c <= '9') {
            assert(body[i - start] == c);
            assert(!is_digit(body[i - start]));
            return None;
        }
        let d = digit_of(c);
        assert(body.take(i + 1 - start).drop_last() =~= body.take(i - start));
        assert(body.take(i + 1 - start).last() == c);
        if acc > (limit - d) / 10 {
            proof {
                assert(acc * 10 + d > limit) by (nonlinear_arith)
                    requires
                        acc > (limit - d) / 10,
                        d <= limit,
                ;
                if all_digits(body) {
                    lemma_digits_value_prefix(body, i + 1 - start);
                }
            }
            return None;
        }
        assert(acc * 10 + d <= limit) by (nonlinear_arith)
            requires
                acc <= (limit - d) / 10,
                d <= 9,
                limit >= 9,
        ;
        assert(all_digits(body.take(i + 1 - start))) by {
            assert forall|j: int| 0 <= j < body.take(i + 1 - start).len() implies #[trigger] is_digit(
                body.take(i + 1 - start)[j],
            ) by {
                if j < i - start {
                    assert(body.take(i + 1 - start)[j] == body.take(i - start)[j]);
                }
            }
        }
        acc = acc * 10 + d;
        i += 1;
    }
    assert(body.take(n - start) =~= body);
    if neg {
        if acc == 0x8000_0000_0000_0000 {
            Some(-0x8000_0000_0000_0000i64)
        } else {
            Some(-(acc as i64))
        }
    } else {
        Some(acc as i64)
    }
}

/// The parts of the version `s` (executable form of [`version_parts`]).
pub fn version_parts_of(s: &str) -> (res: Vec<i64>)
    ensures
        ints(res@) == version_parts(s@),
{
    let cs = chars_of(s);
    let pieces = split_chars(&cs, '.');
    let mut res: Vec<i64> = Vec::new();
    let mut i: usize = 0;
    while i < pieces.len()
        invariant
            i <= pieces@.len(),
            res@.len() == i,
            seqs_of(pieces@) == split(s@, '.'),
            forall|j: int| 0 <= j < i ==> res@[j] as int == segment_value(#[trigger] seqs_of(pieces@)[j]),
        decreases pieces@.len() - i,
    {
        let x: i64 = match parse_i64_chars(&pieces[i]) {
            Some(x) => x,
            None => 0,
        };
        assert(seqs_of(pieces@)[i as int] == pieces@[i as int]@);
        res.push(x);
        i += 1;
    }
    assert(ints(res@) =~= version_parts(s@));
    res
}

/// Compares two vectors of parts from position 0, the shorter one padded with zeros.
fn compare_part_vecs(pa: &Vec<i64>, pb: &Vec<i64>) -> (res: Order)
    ensures
        res == compare_parts(ints(pa@), ints(pb@), 0),
{
    let n = if pa.len() > pb.len() {
        pa.len()
    } else {
        pb.len()
    };
    let ghost a = ints(pa@);
    let ghost b = ints(pb@);
    let mut i: usize = 0;
    while i < n
        invariant
            i <= n,
            n == max_len(a, b),
            a == ints(pa@),
            b == ints(pb@),
            compare_parts(a, b, 0) == compare_parts(a, b, i as int),
        decreases n - i,
    {
        let x: i64 = if i < pa.len() {
            pa[i]
        } else {
            0
        };
        let y: i64 = if i < pb.len() {
            pb[i]
        } else {
            0
        };
        assert(x == part(a, i as int) && y == part(b, i as int));
        if x < y {
            return Order::Less;
        }
        if x > y {
            return Order::Greater;
        }
        i += 1;
    }
    Order::Equal
}

/// `a` is a strictly newer version than `b`.
pub fn version_greater(a: &str, b: &str) -> (res: bool)
    ensures
        res == (compare_versions(a@, b@) == Order::Greater),
{
    let pa = version_parts_of(a);
    let pb = version_parts_of(b);
    compare_part_vecs(&pa, &pb) == Order::Greater
}

/// The standard ordering that an [`Order`] stands for.
pub open spec fn std_ordering(o: Order) -> Ordering {
    match o {
        Order::Less => Ordering::Less,
        Order::Equal => Ordering::Equal,
        Order::Greater => Ordering::Greater,
    }
}

/// Compares two version strings numerically, segment by segment (`1.2.10` > `1.2.9`).
/// A segment that is not a number counts as 0; the shorter list is padded with zeros.
pub fn cmp(a: &str, b: &str) -> (res: Ordering)
    ensures
        res == std_ordering(compare_versions(a@, b@)),
{
    let pa = version_parts_of(a);
    let pb = version_parts_of(b);
    match compare_part_vecs(&pa, &pb) {
        Order::Less => Ordering::Less,
        Order::Equal => Ordering::Equal,
        Order::Greater => Ordering::Greater,
    }
}

/// The reverse of an order.
pub open spec fn flip(o: Order) -> Order {
    match o {
        Order::Less => Order::Greater,
        Order::Equal => Order::Equal,
        Order::Greater => Order::Less,
    }
}

/// From position `i` on, `a` and `b` have the same parts.
pub open spec fn agree_from(a: Seq<int>, b: Seq<int>, i: int) -> bool {
    forall|j: int| j >= i ==> #[trigger] part(a, j) == part(b, j)
}

/// `k` is the first position from `i` on where `a` and `b` differ, and `a` is smaller there.
pub open spec fn first_less(a: Seq<int>, b: Seq<int>, i: int, k: int) -> bool {
    &&& i <= k
    &&& part(a, k) < part(b, k)
    &&& forall|j: int| i <= j < k ==> #[trigger] part(a, j) == part(b, j)
}

/// What `compare_parts` decides, stated through the first differing position.
proof fn lemma_compare_parts_meaning(a: Seq<int>, b: Seq<int>, i: int)
    requires
        i >= 0,
    ensures
        (compare_parts(a, b, i) == Order::Equal) <==> agree_from(a, b, i),
        (compare_parts(a, b, i) == Order::Less) <==> exists|k: int| #[trigger] first_less(a, b, i, k),
        (compare_parts(a, b, i) == Order::Greater) <==> exists|k: int| #[trigger] first_less(b, a, i, k),
    decreases max_len(a, b) - i,
{
    if i >= max_len(a, b) {
        assert(agree_from(a, b, i));
        assert forall|k: int| !first_less(a, b, i, k) by {
            if first_less(a, b, i, k) {
                assert(part(a, k) == part(b, k));
            }
        }
        assert forall|k: int| !first_less(b, a, i, k) by {
            if first_less(b, a, i, k) {
                assert(part(a, k) == part(b, k));
            }
        }
    } else if part(a, i) < part(b, i) {
        assert(first_less(a, b, i, i));
        assert forall|k: int| !first_less(b, a, i, k) by {
            if first_less(b, a, i, k) {
                if k > i {
                    assert(part(b, i) == part(a, i));
                }
            }
        }
    } else if part(a, i) > part(b, i) {
        assert(first_less(b, a, i, i));
        assert forall|k: int| !first_less(a, b, i, k) by {
            if first_less(a, b, i, k) {
                if k > i {
                    assert(part(b, i) == part(a, i));
                }
            }
        }
    } else {
        lemma_compare_parts_meaning(a, b, i + 1);
        if agree_from(a, b, i + 1) {
            assert forall|j: int| j >= i implies #[trigger] part(a, j) == part(b, j) by {
                if j > i {
                    assert(part(a, j) == part(b, j));
                }
            }
        }
        if exists|k: int| #[trigger] first_less(a, b, i + 1, k) {
            let k = choose|k: int| #[trigger] first_less(a, b, i + 1, k);
            assert(first_less(a, b, i, k));
        }
        if exists|k: int| #[trigger] first_less(a, b, i, k) {
            let k = choose|k: int| #[trigger] first_less(a, b, i, k);
            assert(k != i);
            assert(first_less(a, b, i + 1, k));
        }
        if exists|k: int| #[trigger] first_less(b, a, i + 1, k) {
            let k = choose|k: int| #[trigger] first_less(b, a, i + 1, k);
            assert(first_less(b, a, i, k));
        }
        if exists|k: int| #[trigger] first_less(b, a, i, k) {
            let k = choose|k: int| #[trigger] first_less(b, a, i, k);
            assert(k != i);
            assert(first_less(b, a, i + 1, k));
        }
    }
}

/// Every version is equal to itself.
pub proof fn law_order_reflexive(a: Seq<char>)
    ensures
        compare_versions(a, a) == Order::Equal,
{
    let p = version_parts(a);
    lemma_compare_parts_meaning(p, p, 0);
}

/// Swapping the arguments reverses the result.
pub proof fn law_order_antisymmetric(a: Seq<char>, b: Seq<char>)
    ensures
        compare_versions(a, b) == flip(compare_versions(b, a)),
{
    let pa = version_parts(a);
    let pb = version_parts(b);
    lemma_compare_parts_meaning(pa, pb, 0);
    lemma_compare_parts_meaning(pb, pa, 0);
    if agree_from(pa, pb, 0) {
        assert(agree_from(pb, pa, 0));
    }
    if agree_from(pb, pa, 0) {
        assert(agree_from(pa, pb, 0));
    }
}

/// `Less` and `Greater` are transitive, and versions that compare `Equal` compare
/// alike with every other version.
pub proof fn law_order_transitive(a: Seq<char>, b: Seq<char>, c: Seq<char>)
    ensures
        compare_versions(a, b) == Order::Less && compare_versions(b, c) == Order::Less
            ==> compare_versions(a, c) == Order::Less,
        compare_versions(a, b) == Order::Greater && compare_versions(b, c) == Order::Greater
            ==> compare_versions(a, c) == Order::Greater,
        compare_versions(a, b) == Order::Equal ==> compare_versions(a, c) == compare_versions(
            b,
            c,
        ),
{
    let pa = version_parts(a);
    let pb = version_parts(b);
    let pc = version_parts(c);
    lemma_compare_parts_meaning(pa, pb, 0);
    lemma_compare_parts_meaning(pb, pc, 0);
    lemma_compare_parts_meaning(pa, pc, 0);
    lemma_compare_parts_meaning(pb, pa, 0);
    lemma_compare_parts_meaning(pc, pb, 0);
    lemma_compare_parts_meaning(pc, pa, 0);
    if compare_parts(pa, pb, 0) == Order::Less && compare_parts(pb, pc, 0) == Order::Less {
        let k1 = choose|k: int| #[trigger] first_less(pa, pb, 0, k);
        let k2 = choose|k: int| #[trigger] first_less(pb, pc, 0, k);
        let k = if k1 < k2 {
            k1
        } else {
            k2
        };
        assert(first_less(pa, pc, 0, k));
    }
    if compare_parts(pa, pb, 0) == Order::Greater && compare_parts(pb, pc, 0) == Order::Greater {
        let k1 = choose|k: int| #[trigger] first_less(pb, pa, 0, k);
        let k2 = choose|k: int| #[trigger] first_less(pc, pb, 0, k);
        let k = if k1 < k2 {
            k1
        } else {
            k2
        };
        assert(first_less(pc, pa, 0, k));
    }
    if compare_parts(pa, pb, 0) == Order::Equal {
        assert(agree_from(pa, pb, 0));
        if agree_from(pa, pc, 0) {
            assert(agree_from(pb, pc, 0));
        }
        if agree_from(pb, pc, 0) {
            assert(agree_from(pa, pc, 0));
        }
        if exists|k: int| #[trigger] first_less(pa, pc, 0, k) {
            let k = choose|k: int| #[trigger] first_less(pa, pc, 0, k);
            assert(first_less(pb, pc, 0, k));
        }
        if exists|k: int| #[trigger] first_less(pb, pc, 0, k) {
            let k = choose|k: int| #[trigger] first_less(pb, pc, 0, k);
            assert(first_less(pa, pc, 0, k));
        }
        if exists|k: int| #[trigger] first_less(pc, pa, 0, k) {
            let k = choose|k: int| #[trigger] first_less(pc, pa, 0, k);
            assert(first_less(pc, pb, 0, k));
        }
        if exists|k: int| #[trigger] first_less(pc, pb, 0, k) {
            let k = choose|k: int| #[trigger] first_less(pc, pb, 0, k);
            assert(first_less(pc, pa, 0, k));
        }
    }
}

/// Parts of `a` followed by `.` and one more segment `t`.
proof fn lemma_parts_append(a: Seq<char>, t: Seq<char>)
    requires
        forall|i: int| 0 <= i < t.len() ==> t[i] != '.',
    ensures
        version_parts(a + seq!['.'] + t) == version_parts(a).push(segment_value(t)),
{
    lemma_split_join(a, t, '.');
    lemma_split_single(t, '.');
    assert(split(a, '.') + split(t, '.') =~= split(a, '.').push(t));
    assert(version_parts(a + seq!['.'] + t) =~= version_parts(a).push(segment_value(t)));
}

/// Appending a segment that is zero, or that is not a number, leaves a version equal
/// to what it was (`1.0.0.0` equals `1.0.0`).
pub proof fn law_order_trailing_segment(a: Seq<char>, t: Seq<char>)
    requires
        forall|i: int| 0 <= i < t.len() ==> t[i] != '.',
        segment_value(t) == 0,
    ensures
        compare_versions(a + seq!['.'] + t, a) == Order::Equal,
{
    lemma_parts_append(a, t);
    let p = version_parts(a);
    let q = version_parts(a + seq!['.'] + t);
    assert forall|j: int| j >= 0 implies #[trigger] part(q, j) == part(p, j) by {
        if j >= p.len() {
            if j == p.len() {
                assert(q[j] == 0);
            }
        } else {
            assert(q[j] == p[j]);
        }
    }
    lemma_compare_parts_meaning(q, p, 0);
}

} // verus!
