//! Dependency resolution in topological order (dependencies first, the package
//! last), with cycle detection, driven one recipe at a time.
use crate::config::chars_equal;
use crate::text::{chars_of, seqs_of, string_of};
use vstd::prelude::*;

verus! {

/// Dependencies known so far: package name to the names it depends on.
pub type DepGraph = Map<Seq<char>, Seq<Seq<char>>>;

/// `p` follows dependency edges of `g` from its first name to its last.
pub open spec fn is_path(g: DepGraph, p: Seq<Seq<char>>) -> bool {
    &&& p.len() >= 1
    &&& forall|i: int|
        0 <= i < p.len() - 1 ==> g.dom().contains(#[trigger] p[i]) && g[p[i]].contains(p[i + 1])
}

/// `b` can be reached from `a` by following dependencies (in zero or more steps).
pub open spec fn reaches(g: DepGraph, a: Seq<char>, b: Seq<char>) -> bool {
    exists|p: Seq<Seq<char>>| #[trigger] is_path(g, p) && p[0] == a && p.last() == b
}

/// What a finished resolution of `target` over the dependencies `g` gives:
/// every package once, the target last, every package reachable from the target and
/// loaded, every dependency of a listed package listed too, and listed before it
/// unless the two lie on a cycle.
pub open spec fn is_resolution(g: DepGraph, target: Seq<char>, order: Seq<Seq<char>>) -> bool {
    &&& order.no_duplicates()
    &&& order.len() > 0
    &&& order.last() == target
    &&& forall|k: Seq<char>| g.dom().contains(k) <==> order.contains(k)
    &&& forall|i: int| 0 <= i < order.len() ==> reaches(g, target, #[trigger] order[i])
    &&& forall|i: int, d: Seq<char>|
        0 <= i < order.len() && #[trigger] g[order[i]].contains(d) ==> order.contains(d)
    &&& forall|i: int, d: Seq<char>|
        0 <= i < order.len() && #[trigger] g[order[i]].contains(d) ==> (exists|j: int|
            0 <= j < i && order[j] == d) || reaches(g, d, order[i])
}

proof fn lemma_reaches_refl(g: DepGraph, a: Seq<char>)
    ensures
        reaches(g, a, a),
{
    let p = seq![a];
    assert(is_path(g, p));
}

proof fn lemma_reaches_extend(g: DepGraph, a: Seq<char>, b: Seq<char>, c: Seq<char>)
    requires
        reaches(g, a, b),
        g.dom().contains(b),
        g[b].contains(c),
    ensures
        reaches(g, a, c),
{
    let p = choose|p: Seq<Seq<char>>| #[trigger] is_path(g, p) && p[0] == a && p.last() == b;
    let q = p.push(c);
    assert forall|i: int| 0 <= i < q.len() - 1 implies g.dom().contains(#[trigger] q[i]) && g[q[i]].contains(
        q[i + 1],
    ) by {
        if i < p.len() - 1 {
            assert(q[i] == p[i] && q[i + 1] == p[i + 1]);
        } else {
            assert(q[i] == b);
        }
    }
    assert(is_path(g, q));
}

proof fn lemma_reaches_insert(g: DepGraph, k: Seq<char>, v: Seq<Seq<char>>, a: Seq<char>, b: Seq<char>)
    requires
        reaches(g, a, b),
        !g.dom().contains(k),
    ensures
        reaches(g.insert(k, v), a, b),
{
    let p = choose|p: Seq<Seq<char>>| #[trigger] is_path(g, p) && p[0] == a && p.last() == b;
    let g2 = g.insert(k, v);
    assert forall|i: int| 0 <= i < p.len() - 1 implies g2.dom().contains(#[trigger] p[i]) && g2[p[i]].contains(
        p[i + 1],
    ) by {
        assert(g.dom().contains(p[i]));
    }
    assert(is_path(g2, p));
}

/// A package whose dependencies are being walked: its name, its dependencies, and the
/// position of the next dependency to look at.
pub type FrameView = (Seq<char>, Seq<Seq<char>>, int);

/// The names of the packages being walked.
pub open spec fn names(fs: Seq<FrameView>) -> Seq<Seq<char>> {
    fs.map_values(|f: FrameView| f.0)
}

/// The depth-first walk from the packages resolved so far and the packages being walked,
/// until it needs the dependencies of a package it has not met, or is over. It looks at
/// the next dependency of the innermost package: one already resolved is passed over;
/// one still being walked closes a cycle and is passed over too; any other is wanted.
/// A package with no dependency left to look at is resolved. Gives the packages
/// resolved, the packages still being walked, the wanted package if any, and the
/// dependencies that closed a cycle, in the order met.
pub open spec fn walk(order: Seq<Seq<char>>, frames: Seq<FrameView>) -> (
    Seq<Seq<char>>,
    Seq<FrameView>,
    Option<Seq<char>>,
    Seq<Seq<char>>,
)
    decreases frames.len(), if frames.len() > 0 {
        frames.last().1.len() - frames.last().2
    } else {
        0
    },
{
    if frames.len() == 0 {
        (order, frames, None, Seq::empty())
    } else {
        let top = frames.last();
        if 0 <= top.2 < top.1.len() {
            let d = top.1[top.2];
            if order.contains(d) || names(frames).contains(d) {
                let moved = frames.drop_last().push((top.0, top.1, top.2 + 1));
                proof {
                    assert(moved.len() == frames.len());
                    assert(moved.last() == (top.0, top.1, top.2 + 1));
                }
                let r = walk(order, moved);
                (r.0, r.1, r.2, if order.contains(d) {
                    r.3
                } else {
                    seq![d] + r.3
                })
            } else {
                (order, frames, Some(d), Seq::empty())
            }
        } else {
            walk(order.push(top.0), frames.drop_last())
        }
    }
}

/// A package whose dependencies are being resolved.
pub struct Frame {
    name: Vec<char>,
    deps: Vec<Vec<char>>,
    next: usize,
}

/// Resolution of the dependencies of one package, as a depth-first walk that asks for
/// one recipe at a time: [`Resolver::pending`] names the package whose dependencies
/// are needed next, [`Resolver::provide`] hands them in.
pub struct Resolver {
    target: Ghost<Seq<char>>,
    order: Vec<Vec<char>>,
    stack: Vec<Frame>,
    pending: Option<Vec<char>>,
    graph: Ghost<DepGraph>,
}

/// The names of the frames.
pub closed spec fn frame_names(st: Seq<Frame>) -> Seq<Seq<char>> {
    st.map_values(|f: Frame| f.name@)
}

/// What the frames hold.
pub closed spec fn frame_views(st: Seq<Frame>) -> Seq<FrameView> {
    st.map_values(|f: Frame| (f.name@, seqs_of(f.deps@), f.next as int))
}

proof fn lemma_views_names(st: Seq<Frame>)
    ensures
        names(frame_views(st)) == frame_names(st),
{
    assert(names(frame_views(st)) =~= frame_names(st));
}

impl Resolver {
    /// The package being resolved.
    pub closed spec fn target(&self) -> Seq<char> {
        self.target@
    }

    /// The dependencies handed in so far.
    pub closed spec fn graph(&self) -> DepGraph {
        self.graph@
    }

    /// The packages resolved so far, in order.
    pub closed spec fn resolved(&self) -> Seq<Seq<char>> {
        seqs_of(self.order@)
    }

    /// The package whose dependencies are needed next, if any.
    pub closed spec fn wanted(&self) -> Option<Seq<char>> {
        match self.pending {
            Some(p) => Some(p@),
            None => None,
        }
    }

    /// The resolution is over.
    pub closed spec fn finished(&self) -> bool {
        self.pending is None
    }

    /// The packages whose dependencies are still being walked, outermost first.
    pub closed spec fn chain(&self) -> Seq<Seq<char>> {
        frame_names(self.stack@)
    }

    /// The packages being walked with their dependencies and how far the walk got in
    /// them, outermost first.
    pub closed spec fn frames(&self) -> Seq<FrameView> {
        frame_views(self.stack@)
    }

    /// Dependency `q` of frame `s` has been dealt with: it is resolved, or it is on
    /// the chain at or below frame `s`.
    closed spec fn settled(&self, s: int, q: int) -> bool {
        let d = self.stack@[s].deps@[q]@;
        self.resolved().contains(d) || exists|j: int| 0 <= j <= s && self.chain()[j] == d
    }

    /// The part of the invariant that does not concern the wanted package.
    closed spec fn walk_ok(&self) -> bool {
        let g = self.graph@;
        let ord = self.resolved();
        let ch = self.chain();
        let t = self.target@;
        &&& ord.no_duplicates()
        &&& ch.no_duplicates()
        &&& forall|i: int, j: int| 0 <= i < ord.len() && 0 <= j < ch.len() ==> ord[i] != ch[j]
        &&& forall|k: Seq<char>| g.dom().contains(k) <==> (ord.contains(k) || ch.contains(k))
        &&& forall|s: int|
            0 <= s < self.stack@.len() ==> {
                &&& #[trigger] self.stack@[s].next <= self.stack@[s].deps@.len()
                &&& g[ch[s]] == seqs_of(self.stack@[s].deps@)
            }
        &&& (self.stack@.len() > 0 ==> ch[0] == t)
        &&& forall|i: int| 0 <= i < ord.len() ==> reaches(g, t, #[trigger] ord[i])
        &&& forall|i: int| 0 <= i < ch.len() ==> reaches(g, t, #[trigger] ch[i])
        &&& forall|j: int, l: int|
            0 <= j <= l < ch.len() ==> reaches(g, #[trigger] ch[j], #[trigger] ch[l])
        &&& forall|s: int, q: int|
            0 <= s < self.stack@.len() && 0 <= q < self.stack@[s].next ==> #[trigger] self.settled(
                s,
                q,
            )
        &&& forall|i: int, d: Seq<char>|
            0 <= i < ord.len() && #[trigger] g[ord[i]].contains(d) ==> ord.contains(d)
                || ch.contains(d)
        &&& forall|i: int, d: Seq<char>|
            0 <= i < ord.len() && #[trigger] g[ord[i]].contains(d) ==> (exists|j: int|
                0 <= j < i && ord[j] == d) || reaches(g, d, ord[i])
    }

    /// The wanted package is new, reachable, and the next dependency of the chain's end.
    closed spec fn wanted_ok(&self, p: Seq<char>) -> bool {
        let g = self.graph@;
        let ord = self.resolved();
        let ch = self.chain();
        &&& !g.dom().contains(p)
        &&& !ord.contains(p)
        &&& !ch.contains(p)
        &&& reaches(g, self.target@, p)
        &&& (forall|j: int| 0 <= j < ch.len() ==> reaches(g, #[trigger] ch[j], p))
        &&& (self.stack@.len() > 0 ==> {
            let top = self.stack@[self.stack@.len() - 1];
            &&& top.next < top.deps@.len()
            &&& top.deps@[top.next as int]@ == p
        })
        &&& (self.stack@.len() == 0 ==> p == self.target@ && ord.len() == 0)
    }

    /// The internal invariant.
    pub closed spec fn wf(&self) -> bool {
        &&& self.walk_ok()
        &&& match self.pending {
            Some(p) => self.wanted_ok(p@),
            None => {
                &&& self.stack@.len() == 0
                &&& self.resolved().len() > 0
                &&& self.resolved().last() == self.target@
            },
        }
    }

    /// Starts the resolution of `target`; its dependencies are wanted first.
    pub fn new(target: &str) -> (res: Resolver)
        ensures
            res.wf(),
            res.target() == target@,
            res.wanted() == Some(target@),
            res.resolved() == Seq::<Seq<char>>::empty(),
            res.frames() == Seq::<FrameView>::empty(),
            res.graph() == Map::<Seq<char>, Seq<Seq<char>>>::empty(),
    {
        let t = chars_of(target);
        let r = Resolver {
            target: Ghost(target@),
            order: Vec::new(),
            stack: Vec::new(),
            pending: Some(t),
            graph: Ghost(Map::empty()),
        };
        proof {
            lemma_reaches_refl(r.graph@, target@);
            assert(r.resolved() =~= Seq::<Seq<char>>::empty());
            assert(r.chain() =~= Seq::<Seq<char>>::empty());
            assert(r.frames() =~= Seq::<FrameView>::empty());
        }
        r
    }

    /// The package whose dependencies are needed next, or `None` once resolution is over.
    pub fn pending(&self) -> (res: Option<String>)
        ensures
            res.deep_view() == self.wanted(),
    {
        match &self.pending {
            Some(p) => Some(string_of(p)),
            None => None,
        }
    }

    /// The packages resolved so far, in order.
    pub fn order(&self) -> (res: Vec<String>)
        ensures
            res.deep_view() == self.resolved(),
    {
        let mut res: Vec<String> = Vec::new();
        let mut i: usize = 0;
        while i < self.order.len()
            invariant
                i <= self.order@.len(),
                res.deep_view() == seqs_of(self.order@).take(i as int),
            decreases self.order@.len() - i,
        {
            let ghost before = res.deep_view();
            res.push(string_of(&self.order[i]));
            assert(res.deep_view() =~= before.push(self.order@[i as int]@));
            assert(seqs_of(self.order@).take(i + 1) =~= seqs_of(self.order@).take(i as int).push(
                self.order@[i as int]@,
            ));
            i += 1;
        }
        assert(seqs_of(self.order@).take(i as int) =~= seqs_of(self.order@));
        res
    }

    /// Once nothing is wanted, what has been resolved is a resolution of the target
    /// over the dependencies handed in.
    pub proof fn lemma_finished(&self)
        requires
            self.wf(),
            self.wanted() is None,
        ensures
            is_resolution(self.graph(), self.target(), self.resolved()),
    {
        assert(self.chain() =~= Seq::<Seq<char>>::empty());
    }

    /// `d` is among the resolved packages.
    fn resolved_contains(&self, d: &Vec<char>) -> (res: bool)
        ensures
            res == self.resolved().contains(d@),
    {
        let mut i: usize = 0;
        while i < self.order.len()
            invariant
                i <= self.order@.len(),
                forall|j: int| 0 <= j < i ==> self.resolved()[j] != d@,
            decreases self.order@.len() - i,
        {
            if chars_equal(&self.order[i], d) {
                assert(self.resolved()[i as int] == d@);
                return true;
            }
            i += 1;
        }
        false
    }

    /// `d` is on the chain.
    fn chain_contains(&self, d: &Vec<char>) -> (res: bool)
        ensures
            res == self.chain().contains(d@),
    {
        let mut i: usize = 0;
        while i < self.stack.len()
            invariant
                i <= self.stack@.len(),
                forall|j: int| 0 <= j < i ==> self.chain()[j] != d@,
            decreases self.stack@.len() - i,
        {
            if chars_equal(&self.stack[i].name, d) {
                assert(self.chain()[i as int] == d@);
                return true;
            }
            i += 1;
        }
        false
    }

    /// The chain after pushing a frame.
    proof fn lemma_chain_push(st: Seq<Frame>, f: Frame)
        ensures
            frame_names(st.push(f)) == frame_names(st).push(f.name@),
    {
        assert(frame_names(st.push(f)) =~= frame_names(st).push(f.name@));
    }

    /// The chain after dropping the last frame.
    proof fn lemma_chain_pop(st: Seq<Frame>)
        requires
            st.len() > 0,
        ensures
            frame_names(st.drop_last()) == frame_names(st).drop_last(),
    {
        assert(frame_names(st.drop_last()) =~= frame_names(st).drop_last());
    }

    /// Handing in the dependencies of the wanted package opens a frame for it.
    proof fn lemma_open_frame(a: Resolver, b: Resolver)
        requires
            a.wf(),
            a.pending is Some,
            b.order@ == a.order@,
            b.target@ == a.target@,
            b.pending is None,
            b.stack@.len() == a.stack@.len() + 1,
            b.stack@.drop_last() == a.stack@,
            b.stack@.last().name@ == a.pending->0@,
            b.stack@.last().next == 0,
            b.graph@ == a.graph@.insert(a.pending->0@, seqs_of(b.stack@.last().deps@)),
        ensures
            b.walk_ok(),
            b.stack@.len() > 0,
    {
        let p = a.pending->0@;
        let g = a.graph@;
        let g2 = b.graph@;
        assert(b.stack@ =~= a.stack@.push(b.stack@.last()));
        Self::lemma_chain_push(a.stack@, b.stack@.last());
        let ch = a.chain();
        let ch2 = b.chain();
        let ord = a.resolved();
        assert(ch2 == ch.push(p));
        assert(b.resolved() == ord);
        assert forall|x: Seq<char>, y: Seq<char>| reaches(g, x, y) implies reaches(g2, x, y) by {
            lemma_reaches_insert(g, p, seqs_of(b.stack@.last().deps@), x, y);
        }
        lemma_reaches_refl(g2, p);
        assert(ch2.no_duplicates()) by {
            assert forall|i: int, j: int| 0 <= i < ch2.len() && 0 <= j < ch2.len() && i != j implies ch2[i]
                != ch2[j] by {
                if i < ch.len() && j < ch.len() {
                } else if i < ch.len() {
                    assert(ch.contains(ch[i]));
                } else {
                    assert(ch.contains(ch[j]));
                }
            }
        }
        assert forall|i: int, j: int| 0 <= i < ord.len() && 0 <= j < ch2.len() implies ord[i]
            != ch2[j] by {
            if j == ch.len() {
                assert(ord.contains(ord[i]));
            }
        }
        assert forall|k: Seq<char>| g2.dom().contains(k) <==> (ord.contains(k) || ch2.contains(k)) by {
            if k == p {
                assert(ch2[ch.len() as int] == p);
            }
            if ch2.contains(k) && !ch.contains(k) {
                let j = choose|j: int| 0 <= j < ch2.len() && ch2[j] == k;
                if j < ch.len() {
                    assert(ch.contains(k));
                }
            }
            if ch.contains(k) {
                let j = choose|j: int| 0 <= j < ch.len() && ch[j] == k;
                assert(ch2[j] == k);
            }
        }
        assert forall|s: int| 0 <= s < b.stack@.len() implies {
            &&& #[trigger] b.stack@[s].next <= b.stack@[s].deps@.len()
            &&& g2[ch2[s]] == seqs_of(b.stack@[s].deps@)
        } by {
            if s < a.stack@.len() {
                assert(b.stack@[s] == a.stack@[s]);
                assert(ch.contains(ch[s]));
                assert(ch2[s] == ch[s]);
                assert(a.stack@[s].next <= a.stack@[s].deps@.len());
            }
        }
        assert forall|i: int| 0 <= i < ch2.len() implies reaches(g2, b.target@, #[trigger] ch2[i]) by {
            if i < ch.len() {
                assert(ch2[i] == ch[i]);
            }
        }
        assert forall|j: int, l: int| 0 <= j <= l < ch2.len() implies reaches(
            g2,
            #[trigger] ch2[j],
            #[trigger] ch2[l],
        ) by {
            if l < ch.len() {
                assert(ch2[j] == ch[j] && ch2[l] == ch[l]);
            } else if j < ch.len() {
                assert(ch2[j] == ch[j]);
                assert(reaches(g, ch[j], p));
            }
        }
        assert forall|s: int, q: int|
            0 <= s < b.stack@.len() && 0 <= q < b.stack@[s].next implies #[trigger] b.settled(
            s,
            q,
        ) by {
            assert(s < a.stack@.len());
            assert(b.stack@[s] == a.stack@[s]);
            assert(a.settled(s, q));
            let d = a.stack@[s].deps@[q]@;
            if !ord.contains(d) {
                let j = choose|j: int| 0 <= j <= s && ch[j] == d;
                assert(ch2[j] == d);
            }
        }
        assert forall|i: int, d: Seq<char>| 0 <= i < ord.len() && #[trigger] g2[ord[i]].contains(
            d,
        ) implies ord.contains(d) || ch2.contains(d) by {
            assert(ord.contains(ord[i]));
            assert(g2[ord[i]] == g[ord[i]]);
            if ch.contains(d) {
                let j = choose|j: int| 0 <= j < ch.len() && ch[j] == d;
                assert(ch2[j] == d);
            }
        }
        assert forall|i: int, d: Seq<char>| 0 <= i < ord.len() && #[trigger] g2[ord[i]].contains(
            d,
        ) implies (exists|j: int| 0 <= j < i && ord[j] == d) || reaches(g2, d, ord[i]) by {
            assert(ord.contains(ord[i]));
            assert(g2[ord[i]] == g[ord[i]]);
        }
    }

    /// Passing over a dependency that is resolved or on the chain keeps the invariant.
    proof fn lemma_skip(a: Resolver, b: Resolver)
        requires
            a.walk_ok(),
            a.stack@.len() > 0,
            ({
                let top = a.stack@.last();
                &&& top.next < top.deps@.len()
                &&& (a.resolved().contains(top.deps@[top.next as int]@) || a.chain().contains(
                    top.deps@[top.next as int]@,
                ))
            }),
            b.order@ == a.order@,
            b.target@ == a.target@,
            b.graph@ == a.graph@,
            b.stack@.len() == a.stack@.len(),
            b.stack@.drop_last() == a.stack@.drop_last(),
            b.stack@.last().name == a.stack@.last().name,
            b.stack@.last().deps == a.stack@.last().deps,
            b.stack@.last().next == a.stack@.last().next + 1,
        ensures
            b.walk_ok(),
            b.chain() == a.chain(),
    {
        let n = a.stack@.len();
        assert forall|s: int| 0 <= s < n - 1 implies b.stack@[s] == a.stack@[s] by {
            assert(b.stack@.drop_last()[s] == b.stack@[s]);
            assert(a.stack@.drop_last()[s] == a.stack@[s]);
        }
        assert(b.chain() =~= a.chain()) by {
            assert forall|s: int| 0 <= s < n implies b.chain()[s] == a.chain()[s] by {
                if s < n - 1 {
                    assert(b.stack@[s] == a.stack@[s]);
                }
            }
        }
        let ch = a.chain();
        assert forall|s: int| 0 <= s < n implies {
            &&& #[trigger] b.stack@[s].next <= b.stack@[s].deps@.len()
            &&& b.graph@[ch[s]] == seqs_of(b.stack@[s].deps@)
        } by {
            if s < n - 1 {
                assert(b.stack@[s] == a.stack@[s]);
            }
            assert(a.stack@[s].next <= a.stack@[s].deps@.len());
        }
        assert forall|s: int, q: int|
            0 <= s < n && 0 <= q < b.stack@[s].next implies #[trigger] b.settled(s, q) by {
            if s < n - 1 {
                assert(b.stack@[s] == a.stack@[s]);
                assert(a.settled(s, q));
            } else if q < a.stack@[s].next {
                assert(a.settled(s, q));
            } else {
                let d = a.stack@[s].deps@[q]@;
                if a.chain().contains(d) {
                    let j = choose|j: int| 0 <= j < ch.len() && ch[j] == d;
                    assert(0 <= j <= s && b.chain()[j] == d);
                }
            }
        }
    }

    /// Closing a frame whose dependencies are all dealt with resolves its package.
    proof fn lemma_close_frame(a: Resolver, b: Resolver)
        requires
            a.walk_ok(),
            a.stack@.len() > 0,
            a.stack@.last().next == a.stack@.last().deps@.len(),
            b.target@ == a.target@,
            b.graph@ == a.graph@,
            b.stack@ == a.stack@.drop_last(),
            b.order@ == a.order@.push(a.stack@.last().name),
        ensures
            b.walk_ok(),
            b.stack@.len() == 0 ==> b.resolved().len() > 0 && b.resolved().last() == b.target@,
    {
        let g = a.graph@;
        let t = a.target@;
        let n = a.stack@.len();
        let ch = a.chain();
        let ord = a.resolved();
        let x = ch[n - 1];
        Self::lemma_chain_pop(a.stack@);
        let ch2 = b.chain();
        let ord2 = b.resolved();
        assert(ch2 == ch.drop_last());
        assert(ord2 =~= ord.push(x));
        assert(ch.contains(x));
        assert(!ord.contains(x));
        assert(ord2.no_duplicates()) by {
            assert forall|i: int, j: int| 0 <= i < ord2.len() && 0 <= j < ord2.len() && i != j implies ord2[i]
                != ord2[j] by {
                if i < ord.len() && j < ord.len() {
                } else if i < ord.len() {
                    assert(ord.contains(ord[i]));
                } else {
                    assert(ord.contains(ord[j]));
                }
            }
        }
        assert forall|i: int, j: int| 0 <= i < ord2.len() && 0 <= j < ch2.len() implies ord2[i]
            != ch2[j] by {
            assert(ch2[j] == ch[j]);
            if i == ord.len() {
                assert(ch[j] != ch[n - 1]);
            }
        }
        assert forall|k: Seq<char>| g.dom().contains(k) <==> (ord2.contains(k) || ch2.contains(k)) by {
            if ord.contains(k) {
                let i = choose|i: int| 0 <= i < ord.len() && ord[i] == k;
                assert(ord2[i] == k);
            }
            if ch.contains(k) {
                let j = choose|j: int| 0 <= j < ch.len() && ch[j] == k;
                if j < n - 1 {
                    assert(ch2[j] == k);
                } else {
                    assert(ord2[ord.len() as int] == k);
                }
            }
            if ord2.contains(k) {
                let i = choose|i: int| 0 <= i < ord2.len() && ord2[i] == k;
                if i < ord.len() {
                    assert(ord[i] == k);
                } else {
                    assert(ch[n - 1] == k);
                }
            }
            if ch2.contains(k) {
                let j = choose|j: int| 0 <= j < ch2.len() && ch2[j] == k;
                assert(ch[j] == k);
            }
        }
        assert forall|s: int| 0 <= s < b.stack@.len() implies {
            &&& #[trigger] b.stack@[s].next <= b.stack@[s].deps@.len()
            &&& g[ch2[s]] == seqs_of(b.stack@[s].deps@)
        } by {
            assert(b.stack@[s] == a.stack@[s]);
            assert(a.stack@[s].next <= a.stack@[s].deps@.len());
        }
        assert forall|i: int| 0 <= i < ord2.len() implies reaches(g, t, #[trigger] ord2[i]) by {
            if i < ord.len() {
                assert(ord2[i] == ord[i]);
            }
        }
        assert forall|s: int, q: int|
            0 <= s < b.stack@.len() && 0 <= q < b.stack@[s].next implies #[trigger] b.settled(
            s,
            q,
        ) by {
            assert(b.stack@[s] == a.stack@[s]);
            assert(a.settled(s, q));
            let d = a.stack@[s].deps@[q]@;
            if ord.contains(d) {
                let i = choose|i: int| 0 <= i < ord.len() && ord[i] == d;
                assert(ord2[i] == d);
            } else {
                let j = choose|j: int| 0 <= j <= s && ch[j] == d;
                assert(ch2[j] == d);
            }
        }
        // every dependency of the closed frame is dealt with
        let top = a.stack@[n - 1];
        assert(g[x] == seqs_of(top.deps@));
        assert forall|d: Seq<char>| #[trigger] g[x].contains(d) implies (ord.contains(d) || exists|j: int|
            0 <= j <= n - 1 && ch[j] == d) by {
            let q = choose|q: int| 0 <= q < g[x].len() && g[x][q] == d;
            assert(top.deps@[q]@ == d);
            assert(a.settled(n - 1, q));
        }
        assert forall|i: int, d: Seq<char>| 0 <= i < ord2.len() && #[trigger] g[ord2[i]].contains(
            d,
        ) implies ord2.contains(d) || ch2.contains(d) by {
            if i < ord.len() {
                assert(ord2[i] == ord[i]);
                assert(g[ord[i]].contains(d));
            } else {
                assert(ord2[i] == x);
                assert(g[x].contains(d));
            }
            if ord.contains(d) {
                let k = choose|k: int| 0 <= k < ord.len() && ord[k] == d;
                assert(ord2[k] == d);
            } else {
                assert(ch.contains(d)) by {
                    if i == ord.len() {
                        let j = choose|j: int| 0 <= j <= n - 1 && ch[j] == d;
                        assert(ch[j] == d);
                    }
                }
                let j = choose|j: int| 0 <= j < ch.len() && ch[j] == d;
                if j < n - 1 {
                    assert(ch2[j] == d);
                } else {
                    assert(ord2[ord.len() as int] == d);
                }
            }
        }
        assert forall|i: int, d: Seq<char>| 0 <= i < ord2.len() && #[trigger] g[ord2[i]].contains(
            d,
        ) implies (exists|j: int| 0 <= j < i && ord2[j] == d) || reaches(g, d, ord2[i]) by {
            if i < ord.len() {
                assert(ord2[i] == ord[i]);
                assert(g[ord[i]].contains(d));
                if exists|j: int| 0 <= j < i && ord[j] == d {
                    let j = choose|j: int| 0 <= j < i && ord[j] == d;
                    assert(ord2[j] == d);
                }
            } else {
                assert(ord2[i] == x);
                assert(g[x].contains(d));
                if ord.contains(d) {
                    let k = choose|k: int| 0 <= k < ord.len() && ord[k] == d;
                    assert(ord2[k] == d);
                } else {
                    let j = choose|j: int| 0 <= j <= n - 1 && ch[j] == d;
                    assert(reaches(g, ch[j], ch[n - 1]));
                }
            }
        }
        if b.stack@.len() == 0 {
            assert(x == t);
        }
    }

    /// Asking for a new dependency of the chain's end.
    proof fn lemma_want(a: Resolver, b: Resolver)
        requires
            a.walk_ok(),
            a.stack@.len() > 0,
            ({
                let top = a.stack@.last();
                let d = top.deps@[top.next as int]@;
                &&& top.next < top.deps@.len()
                &&& !a.resolved().contains(d)
                &&& !a.chain().contains(d)
                &&& b.pending is Some
                &&& b.pending->0@ == d
            }),
            b.order@ == a.order@,
            b.target@ == a.target@,
            b.graph@ == a.graph@,
            b.stack@ == a.stack@,
        ensures
            b.wf(),
    {
        let g = a.graph@;
        let n = a.stack@.len();
        let ch = a.chain();
        let top = a.stack@[n - 1];
        let d = top.deps@[top.next as int]@;
        let x = ch[n - 1];
        assert(ch.contains(x));
        assert(g.dom().contains(x));
        assert(top.next <= top.deps@.len());
        assert(g[x] == seqs_of(top.deps@));
        assert(g[x][top.next as int] == d);
        assert(g[x].contains(d));
        lemma_reaches_extend(g, a.target@, x, d);
        assert forall|j: int| 0 <= j < ch.len() implies reaches(g, #[trigger] ch[j], d) by {
            assert(reaches(g, ch[j], x));
            lemma_reaches_extend(g, ch[j], x, d);
        }
        assert(b.chain() == ch);
        assert(b.resolved() == a.resolved());
        assert forall|s: int, q: int|
            0 <= s < b.stack@.len() && 0 <= q < b.stack@[s].next implies #[trigger] b.settled(
            s,
            q,
        ) by {
            assert(a.settled(s, q));
        }
        assert(b.walk_ok());
        assert(!g.dom().contains(d));
        assert(b.stack@[b.stack@.len() - 1] == top);
        assert(b.wanted_ok(d));
    }

    /// Hands in the dependencies of the wanted package. The walk then goes on (see
    /// [`walk`]) until it wants another package or is over. Returns the dependencies
    /// that closed a cycle: packages whose own dependencies were still being walked,
    /// which the walk passes over at that point.
    pub fn provide(&mut self, deps: Vec<String>) -> (cycles: Vec<String>)
        requires
            old(self).wf(),
            old(self).wanted() is Some,
        ensures
            final(self).wf(),
            final(self).target() == old(self).target(),
            final(self).graph() == old(self).graph().insert(
                old(self).wanted()->0,
                deps.deep_view(),
            ),
            final(self).wanted() matches Some(p) ==> !final(self).graph().dom().contains(p),
            final(self).wanted() is None ==> is_resolution(
                final(self).graph(),
                final(self).target(),
                final(self).resolved(),
            ),
            forall|i: int|
                0 <= i < cycles@.len() ==> old(self).chain().push(old(self).wanted()->0).contains(
                    #[trigger] cycles.deep_view()[i],
                ),
            ({
                let r = walk(
                    old(self).resolved(),
                    old(self).frames().push((old(self).wanted()->0, deps.deep_view(), 0)),
                );
                &&& final(self).resolved() == r.0
                &&& final(self).frames() == r.1
                &&& final(self).wanted() == r.2
                &&& cycles.deep_view() == r.3
            }),
    {
        let ghost a0 = *self;
        let p = self.pending.take().unwrap();
        let mut dv: Vec<Vec<char>> = Vec::new();
        let mut i: usize = 0;
        while i < deps.len()
            invariant
                i <= deps@.len(),
                seqs_of(dv@) == deps.deep_view().take(i as int),
            decreases deps@.len() - i,
        {
            let ghost before = seqs_of(dv@);
            dv.push(chars_of(deps[i].as_str()));
            assert(seqs_of(dv@) =~= before.push(deps@[i as int]@));
            assert(deps.deep_view().take(i + 1) =~= deps.deep_view().take(i as int).push(
                deps@[i as int]@,
            ));
            i += 1;
        }
        assert(deps.deep_view().take(i as int) =~= deps.deep_view());
        self.graph = Ghost(self.graph@.insert(p@, seqs_of(dv@)));
        self.stack.push(Frame { name: p, deps: dv, next: 0 });
        proof {
            assert(self.stack@.drop_last() =~= a0.stack@);
            Self::lemma_open_frame(a0, *self);
        }
        let ghost g = self.graph@;
        let ghost ch0 = self.chain();
        proof {
            Self::lemma_chain_push(a0.stack@, self.stack@.last());
            assert(self.stack@ =~= a0.stack@.push(self.stack@.last()));
            assert(ch0 == a0.chain().push(a0.pending->0@));
            assert(ch0.take(ch0.len() as int) =~= ch0);
            assert(self.frames() =~= a0.frames().push((a0.pending->0@, deps.deep_view(), 0)));
        }
        let ghost w0 = walk(self.resolved(), self.frames());
        let mut cycles: Vec<String> = Vec::new();
        proof {
            assert(cycles.deep_view() + w0.3 =~= w0.3);
        }
        loop
            invariant
                self.walk_ok(),
                self.pending is None,
                self.graph@ == g,
                self.target@ == a0.target@,
                g == a0.graph@.insert(a0.pending->0@, deps.deep_view()),
                old(self).wanted() == a0.wanted(),
                old(self).graph() == a0.graph@,
                old(self).target() == a0.target@,
                a0.pending is Some,
                self.stack@.len() == 0 ==> self.resolved().len() > 0 && self.resolved().last()
                    == self.target@,
                ch0 == a0.chain().push(a0.pending->0@),
                old(self).chain() == a0.chain(),
                self.chain().len() <= ch0.len(),
                self.chain() == ch0.take(self.chain().len() as int),
                forall|i: int|
                    0 <= i < cycles@.len() ==> ch0.contains(#[trigger] cycles.deep_view()[i]),
                w0 == walk(
                    a0.resolved(),
                    a0.frames().push((a0.pending->0@, deps.deep_view(), 0)),
                ),
                old(self).resolved() == a0.resolved(),
                old(self).frames() == a0.frames(),
                ({
                    let w = walk(self.resolved(), self.frames());
                    &&& w.0 == w0.0
                    &&& w.1 == w0.1
                    &&& w.2 == w0.2
                    &&& cycles.deep_view() + w.3 == w0.3
                }),
            ensures
                self.wf(),
                self.graph@ == g,
                self.target@ == a0.target@,
                forall|i: int|
                    0 <= i < cycles@.len() ==> ch0.contains(#[trigger] cycles.deep_view()[i]),
                self.resolved() == w0.0,
                self.frames() == w0.1,
                w0.2 is None,
                cycles.deep_view() == w0.3,
            decreases self.stack@.len(), if self.stack@.len() > 0 {
                self.stack@.last().deps@.len() - self.stack@.last().next
            } else {
                0
            },
        {
            let ghost a = *self;
            let n = self.stack.len();
            if n == 0 {
                proof {
                    assert(self.frames() =~= Seq::<FrameView>::empty());
                    assert(cycles.deep_view() + Seq::<Seq<char>>::empty() =~= cycles.deep_view());
                }
                break;
            }
            proof {
                lemma_views_names(self.stack@);
                assert(self.frames().last() == (
                    self.stack@[n - 1].name@,
                    seqs_of(self.stack@[n - 1].deps@),
                    self.stack@[n - 1].next as int,
                ));
            }
            let k = self.stack[n - 1].next;
            let len = self.stack[n - 1].deps.len();
            proof {
                assert(self.stack@[n - 1].next <= self.stack@[n - 1].deps@.len());
            }
            if k < len {
                let d = self.stack[n - 1].deps[k].clone();
                let in_order = self.resolved_contains(&d);
                let in_chain = self.chain_contains(&d);
                let ghost fr = a.frames();
                let ghost moved = fr.drop_last().push((fr.last().0, fr.last().1, fr.last().2 + 1));
                proof {
                    assert(fr.last().1[k as int] == d@);
                }
                if in_order || in_chain {
                    let ghost rest = walk(a.resolved(), moved);
                    proof {
                        assert(walk(a.resolved(), fr) == (rest.0, rest.1, rest.2, if in_order {
                            rest.3
                        } else {
                            seq![d@] + rest.3
                        }));
                    }
                    if !in_order {
                        let ghost before = cycles.deep_view();
                        cycles.push(string_of(&d));
                        proof {
                            assert(cycles.deep_view() =~= before.push(d@));
                            let j = choose|j: int| 0 <= j < a.chain().len() && a.chain()[j] == d@;
                            assert(a.chain().contains(d@));
                            assert(ch0[j] == d@);
                            assert(cycles.deep_view() + rest.3 =~= before + (seq![d@] + rest.3));
                        }
                    }
                    let mut top = self.stack.pop().unwrap();
                    top.next = k + 1;
                    self.stack.push(top);
                    proof {
                        assert(self.frames() =~= moved) by {
                            assert forall|j: int| 0 <= j < n implies self.frames()[j] == moved[j] by {
                                if j < n - 1 {
                                    assert(self.stack@[j] == a.stack@[j]);
                                }
                            }
                        }
                        assert(self.stack@.drop_last() =~= a.stack@.drop_last());
                        Self::lemma_skip(a, *self);
                        assert(self.chain() =~= a.chain()) by {
                            assert forall|j: int| 0 <= j < n implies self.chain()[j]
                                == a.chain()[j] by {
                                if j < n - 1 {
                                    assert(self.stack@[j] == a.stack@[j]);
                                }
                            }
                        }
                    }
                } else {
                    self.pending = Some(d);
                    proof {
                        Self::lemma_want(a, *self);
                        assert(self.graph() == g);
                        assert(walk(a.resolved(), fr) == (a.resolved(), fr, Some(d@), Seq::<Seq<char>>::empty()));
                        assert(self.frames() == fr);
                        assert(cycles.deep_view() + Seq::<Seq<char>>::empty() =~= cycles.deep_view());
                    }
                    return cycles;
                }
            } else {
                let top = self.stack.pop().unwrap();
                self.order.push(top.name);
                proof {
                    assert(self.stack@ =~= a.stack@.drop_last());
                    assert(walk(a.resolved(), a.frames()) == walk(
                        a.resolved().push(a.frames().last().0),
                        a.frames().drop_last(),
                    ));
                    assert(self.frames() =~= a.frames().drop_last());
                    assert(self.resolved() =~= a.resolved().push(a.frames().last().0));
                    Self::lemma_close_frame(a, *self);
                    Self::lemma_chain_pop(a.stack@);
                    assert(self.chain() =~= ch0.take(self.chain().len() as int));
                }
            }
        }
        proof {
            self.lemma_finished();
        }
        cycles
    }

}

} // verus!
