//! Picking the newest published release and deciding what `update` and `check` do.
use crate::import::strings_of;
use crate::recipe::{append_str, owned};
use crate::config::{entry_lines, starts_with, starts_with_chars, state_entries};
use crate::text::{chars_of, seqs_of, slice_chars, string_of};
use crate::ver::{
    compare_versions, version_greater, law_order_antisymmetric, law_order_reflexive, law_order_transitive,
    Order,
};
use vstd::prelude::*;

verus! {

/// The release tags listed in the output of `gh release list`: its lines, trimmed,
/// blank ones dropped.
pub fn tag_list(output: &str) -> (res: Vec<String>)
    ensures
        res.deep_view() == state_entries(output@),
{
    let ls = entry_lines(output);
    strings_of(&ls)
}

/// The versions published for a package whose tags begin with `prefix`: each such
/// tag without the prefix, in order.
pub open spec fn published(tags: Seq<Seq<char>>, prefix: Seq<char>) -> Seq<Seq<char>>
    decreases tags.len(),
{
    if tags.len() == 0 {
        Seq::empty()
    } else {
        let rest = published(tags.drop_last(), prefix);
        if starts_with(tags.last(), prefix) {
            rest.push(tags.last().skip(prefix.len() as int))
        } else {
            rest
        }
    }
}

/// `Iterator::max_by` with the version order: the running maximum is replaced by each
/// later version that is not lower, so the last of equal maxima wins.
pub open spec fn newest(vs: Seq<Seq<char>>) -> Seq<char>
    recommends
        vs.len() > 0,
    decreases vs.len(),
{
    if vs.len() <= 1 {
        vs[0]
    } else {
        let best = newest(vs.drop_last());
        if compare_versions(best, vs.last()) == Order::Greater {
            best
        } else {
            vs.last()
        }
    }
}

/// The prefix of the release tags of `name`: `<name>-v`.
pub open spec fn tag_prefix(name: Seq<char>) -> Seq<char> {
    name + "-v"@
}

/// The newest version published for `name` among the release tags `tags`, if any.
pub open spec fn latest_release(tags: Seq<Seq<char>>, name: Seq<char>) -> Option<Seq<char>> {
    if published(tags, tag_prefix(name)).len() == 0 {
        None
    } else {
        Some(newest(published(tags, tag_prefix(name))))
    }
}

/// `v` is the version of a listed tag `<prefix><v>`.
pub open spec fn tagged(tags: Seq<Seq<char>>, prefix: Seq<char>, v: Seq<char>) -> bool {
    exists|k: int| 0 <= k < tags.len() && #[trigger] tags[k] == prefix + v
}

/// Where the published versions come from: each tag that begins with `prefix` gives
/// the rest of the tag, and every published version is the rest of such a tag.
proof fn lemma_published(tags: Seq<Seq<char>>, prefix: Seq<char>)
    ensures
        forall|k: int|
            0 <= k < tags.len() && starts_with(#[trigger] tags[k], prefix) ==> published(
                tags,
                prefix,
            ).contains(tags[k].skip(prefix.len() as int)),
        forall|j: int|
            0 <= j < published(tags, prefix).len() ==> tagged(
                tags,
                prefix,
                #[trigger] published(tags, prefix)[j],
            ),
    decreases tags.len(),
{
    if tags.len() > 0 {
        let init = tags.drop_last();
        lemma_published(init, prefix);
        let rest = published(init, prefix);
        let all = published(tags, prefix);
        assert forall|k: int|
            0 <= k < tags.len() && starts_with(#[trigger] tags[k], prefix) implies all.contains(
            tags[k].skip(prefix.len() as int),
        ) by {
            if k < init.len() {
                assert(init[k] == tags[k]);
                let j = choose|j: int| 0 <= j < rest.len() && rest[j] == init[k].skip(prefix.len() as int);
                assert(all[j] == rest[j]);
            } else {
                assert(all[all.len() - 1] == tags.last().skip(prefix.len() as int));
            }
        }
        assert forall|j: int| 0 <= j < all.len() implies tagged(tags, prefix, #[trigger] all[j]) by {
            if j < rest.len() {
                assert(all[j] == rest[j]);
                assert(tagged(init, prefix, rest[j]));
                let k = choose|k: int| 0 <= k < init.len() && #[trigger] init[k] == prefix + rest[j];
                assert(tags[k] == init[k]);
            } else {
                let k = tags.len() - 1;
                assert(starts_with(tags.last(), prefix));
                assert(all == rest.push(tags.last().skip(prefix.len() as int)));
                assert(tags[k] == tags.last());
                assert(tags[k] =~= prefix + all[j]);
            }
        }
    } else {
        assert(published(tags, prefix) =~= Seq::<Seq<char>>::empty());
    }
}

/// The newest of some versions is one of them.
proof fn lemma_newest_member(vs: Seq<Seq<char>>)
    requires
        vs.len() > 0,
    ensures
        vs.contains(newest(vs)),
    decreases vs.len(),
{
    if vs.len() > 1 {
        lemma_newest_member(vs.drop_last());
        let j = choose|j: int| 0 <= j < vs.len() - 1 && vs.drop_last()[j] == newest(vs.drop_last());
        assert(vs[j] == vs.drop_last()[j]);
        assert(vs[vs.len() - 1] == vs.last());
    } else {
        assert(vs[0] == newest(vs));
    }
}

/// Every release tag `<name>-v<version>` counts: once such a tag is listed, wherever it
/// stands, a version is found, and it is not older than the version of that tag; and
/// the version found is that of a listed tag `<name>-v<version>`.
pub proof fn law_latest_release(tags: Seq<Seq<char>>, name: Seq<char>)
    ensures
        forall|k: int|
            0 <= k < tags.len() && starts_with(#[trigger] tags[k], name + "-v"@) ==> {
                &&& latest_release(tags, name) is Some
                &&& compare_versions(
                    tags[k].skip((name + "-v"@).len() as int),
                    latest_release(tags, name)->0,
                ) != Order::Greater
            },
        latest_release(tags, name) matches Some(r) ==> exists|k: int|
            0 <= k < tags.len() && #[trigger] tags[k] == name + "-v"@ + r,
{
    let p = tag_prefix(name);
    let vs = published(tags, p);
    lemma_published(tags, p);
    assert forall|k: int|
        0 <= k < tags.len() && starts_with(#[trigger] tags[k], name + "-v"@) implies {
            &&& latest_release(tags, name) is Some
            &&& compare_versions(
                tags[k].skip((name + "-v"@).len() as int),
                latest_release(tags, name)->0,
            ) != Order::Greater
        } by {
        assert(vs.contains(tags[k].skip(p.len() as int)));
        let j = choose|j: int| 0 <= j < vs.len() && vs[j] == tags[k].skip(p.len() as int);
        law_latest_is_newest(vs, j);
    }
    if vs.len() > 0 {
        lemma_newest_member(vs);
        let j = choose|j: int| 0 <= j < vs.len() && vs[j] == newest(vs);
        assert(tagged(tags, p, vs[j]));
    }
}

/// The newest version of `name` among the release tags `tags` (tags `<name>-v<version>`),
/// if any is published: every such tag is a candidate, wherever it is listed, and the
/// version found is that of a listed tag and not older than any other.
pub fn latest_version(name: &str, tags: &Vec<String>) -> (res: Option<String>)
    ensures
        res.deep_view() == latest_release(tags.deep_view(), name@),
        forall|k: int|
            0 <= k < tags@.len() && starts_with(#[trigger] tags.deep_view()[k], name@ + "-v"@) ==> {
                &&& res is Some
                &&& compare_versions(
                    tags.deep_view()[k].skip((name@ + "-v"@).len() as int),
                    res->0@,
                ) != Order::Greater
            },
        res matches Some(r) ==> exists|k: int|
            0 <= k < tags@.len() && #[trigger] tags.deep_view()[k] == name@ + "-v"@ + r@,
{
    proof {
        law_latest_release(tags.deep_view(), name@);
    }
    let mut prefix = String::new();
    append_str(&mut prefix, name);
    append_str(&mut prefix, "-v");
    let pre = chars_of(prefix.as_str());
    let ghost pv = tag_prefix(name@);
    assert(pre@ == pv);
    let mut best: Option<String> = None;
    let mut i: usize = 0;
    while i < tags.len()
        invariant
            i <= tags@.len(),
            pre@ == pv,
            best.deep_view() == if published(tags.deep_view().take(i as int), pv).len() == 0 {
                None
            } else {
                Some(newest(published(tags.deep_view().take(i as int), pv)))
            },
        decreases tags@.len() - i,
    {
        let ghost before = published(tags.deep_view().take(i as int), pv);
        assert(tags.deep_view().take(i + 1).drop_last() =~= tags.deep_view().take(i as int));
        assert(tags.deep_view().take(i + 1).last() == tags@[i as int]@);
        let t = chars_of(tags[i].as_str());
        if starts_with_chars(&t, &pre) {
            let v = string_of(&slice_chars(&t, pre.len(), t.len()));
            assert(v@ =~= tags@[i as int]@.skip(pv.len() as int));
            let ghost now = published(tags.deep_view().take(i + 1), pv);
            assert(now == before.push(v@));
            assert(now.drop_last() =~= before);
            best = match best {
                None => {
                    assert(now.len() == 1);
                    Some(v)
                },
                Some(b) => {
                    if version_greater(b.as_str(), v.as_str()) {
                        Some(b)
                    } else {
                        Some(v)
                    }
                },
            };
        }
        i += 1;
    }
    assert(tags.deep_view().take(i as int) =~= tags.deep_view());
    best
}

/// No published version is newer than the one `latest_version` picks.
pub proof fn law_latest_is_newest(vs: Seq<Seq<char>>, k: int)
    requires
        0 <= k < vs.len(),
    ensures
        compare_versions(vs[k], newest(vs)) != Order::Greater,
    decreases vs.len(),
{
    if vs.len() == 1 {
        law_order_reflexive(vs[0]);
    } else {
        let init = vs.drop_last();
        let best = newest(init);
        let last = vs.last();
        law_order_antisymmetric(best, last);
        if k == vs.len() - 1 {
            if compare_versions(best, last) == Order::Greater {
                assert(compare_versions(last, best) == Order::Less);
            } else {
                law_order_reflexive(last);
            }
        } else {
            law_latest_is_newest(init, k);
            assert(vs[k] == init[k]);
            if compare_versions(best, last) != Order::Greater {
                law_order_transitive(vs[k], best, last);
                law_order_transitive(best, last, vs[k]);
                law_order_antisymmetric(vs[k], best);
                law_order_antisymmetric(vs[k], last);
                law_order_antisymmetric(best, vs[k]);
                law_order_antisymmetric(last, vs[k]);
            }
        }
    }
}

/// What `update` does for a package.
#[derive(PartialEq, Eq, Clone, Debug)]
pub enum UpdateAction {
    /// No release of the package is published.
    NoReleases,
    /// The installed version is the newest one published.
    UpToDate(String),
    /// Install the version `to` in place of `from`.
    Update { from: String, to: String },
}

/// Decides `update`: the installed version is the recorded one, else the recipe's; with
/// no published release there is nothing to do, a published version equal to the
/// installed one (as text) is up to date, any other is installed.
pub fn update_decision(recipe_version: &str, installed: Option<String>, latest: Option<String>) -> (res:
    UpdateAction)
    ensures
        ({
            let cur = match installed {
                Some(v) => v@,
                None => recipe_version@,
            };
            match latest {
                None => res == UpdateAction::NoReleases,
                Some(l) => if l@ == cur {
                    res matches UpdateAction::UpToDate(v) && v@ == cur
                } else {
                    res matches UpdateAction::Update { from, to } && from@ == cur && to@ == l@
                },
            }
        }),
{
    let cur = match installed {
        Some(v) => v,
        None => owned(recipe_version),
    };
    match latest {
        None => UpdateAction::NoReleases,
        Some(l) => {
            if crate::config::chars_equal(&chars_of(l.as_str()), &chars_of(cur.as_str())) {
                UpdateAction::UpToDate(cur)
            } else {
                UpdateAction::Update { from: cur, to: l }
            }
        },
    }
}

/// What `check` reports of an installed package.
#[derive(PartialEq, Eq, Structural, Clone, Copy, Debug)]
pub enum CheckStatus {
    /// No binary is recorded for the package.
    NotInstalled,
    /// The binary is there and executable.
    Executable,
    /// The binary is there but nobody may execute it.
    NotExecutable,
    /// The binary is missing.
    Missing,
}

/// Decides `check` from whether a binary is recorded and, when it exists, its mode bits.
pub fn check_status(recorded: bool, mode: Option<u32>) -> (res: CheckStatus)
    ensures
        !recorded ==> res == CheckStatus::NotInstalled,
        recorded ==> res == match mode {
            None => CheckStatus::Missing,
            Some(m) => if m & 0o111 != 0 {
                CheckStatus::Executable
            } else {
                CheckStatus::NotExecutable
            },
        },
{
    if !recorded {
        return CheckStatus::NotInstalled;
    }
    match mode {
        None => CheckStatus::Missing,
        Some(m) => if m & 0o111 != 0 {
            CheckStatus::Executable
        } else {
            CheckStatus::NotExecutable
        },
    }
}

} // verus!
