//! Where a package is downloaded from.
use crate::config::{bin_name, lookup, state_entries};
use crate::recipe::{append_str, release_tag, tarball_name, Recipe};
use vstd::prelude::*;

verus! {

/// Base URL of the release downloads of `repo`.
pub fn dist(repo: &str) -> (res: String)
    ensures
        res@ == "https://github.com/"@ + repo@ + "/releases/download"@,
{
    let mut s = String::new();
    append_str(&mut s, "https://github.com/");
    append_str(&mut s, repo);
    append_str(&mut s, "/releases/download");
    s
}

/// URL of the tarball of `r` published in `repo`: `<dist>/<release tag>/<tarball name>`.
pub fn release_url(repo: &str, r: &Recipe) -> (res: String)
    ensures
        res@ == "https://github.com/"@ + repo@ + "/releases/download"@ + "/"@ + r.package.name@
            + "-v"@ + r.package.version@ + "/"@ + r.package.name@ + "-"@ + r.package.version@
            + ".tar.gz"@,
{
    let mut s = dist(repo);
    append_str(&mut s, "/");
    let tag = release_tag(r);
    append_str(&mut s, tag.as_str());
    append_str(&mut s, "/");
    let name = tarball_name(r);
    append_str(&mut s, name.as_str());
    s
}

/// A cached tarball is used only when it exists and is not empty.
pub fn reuse_cached(exists: bool, size: u64) -> (res: bool)
    ensures
        res == (exists && size > 0),
{
    exists && size > 0
}

/// What the installation of a list of packages does next.
#[derive(PartialEq, Eq, Clone, Debug)]
pub enum InstallStep {
    /// The package is already recorded as installed: it is passed over.
    AlreadyInstalled(String),
    /// The package is to be installed; its outcome goes to [`Installs::report`].
    Install(String),
    /// Every package has been dealt with.
    Done,
}

/// The installation of packages in resolution order: a package already recorded is
/// passed over, every other one is installed, and a failure is counted without
/// stopping the others.
pub struct Installs {
    order: Vec<String>,
    next: usize,
    fails: usize,
    awaiting: bool,
}

impl Installs {
    /// The packages to install, in order.
    pub closed spec fn packages(&self) -> Seq<Seq<char>> {
        self.order.deep_view()
    }

    /// How many packages have been dealt with.
    pub closed spec fn position(&self) -> int {
        self.next as int
    }

    /// How many installations failed.
    pub closed spec fn failed(&self) -> int {
        self.fails as int
    }

    /// An installation was asked for and its outcome not yet reported.
    pub closed spec fn awaiting(&self) -> bool {
        self.awaiting
    }

    #[verifier::type_invariant]
    closed spec fn counts_ok(self) -> bool {
        &&& self.next <= self.order.len()
        &&& self.fails + (if self.awaiting { 1int } else { 0 }) <= self.next
    }

    /// Starts the installation of `order`.
    pub fn new(order: Vec<String>) -> (res: Installs)
        ensures
            res.packages() == order.deep_view(),
            res.position() == 0,
            res.failed() == 0,
            !res.awaiting(),
    {
        Installs { order, next: 0, fails: 0, awaiting: false }
    }

    /// The next thing to do, given the record of installed packages `state`: the next
    /// package is passed over when the record names a binary for it, else installed;
    /// `Done` once every package has been dealt with.
    pub fn step(&mut self, state: &str) -> (res: InstallStep)
        ensures
            final(self).packages() == old(self).packages(),
            final(self).failed() == old(self).failed(),
            old(self).position() >= old(self).packages().len() ==> res == InstallStep::Done
                && final(self).position() == old(self).position() && final(self).awaiting()
                == old(self).awaiting(),
            old(self).position() < old(self).packages().len() ==> {
                let p = old(self).packages()[old(self).position()];
                &&& final(self).position() == old(self).position() + 1
                &&& lookup(state_entries(state@), p, 1) is Some ==> (res matches InstallStep::AlreadyInstalled(q)
                    && q@ == p && !final(self).awaiting())
                &&& lookup(state_entries(state@), p, 1) is None ==> (res matches InstallStep::Install(q)
                    && q@ == p && final(self).awaiting())
            },
    {
        proof {
            use_type_invariant(&*self);
        }
        if self.next >= self.order.len() {
            return InstallStep::Done;
        }
        let p = self.order[self.next].clone();
        let recorded = bin_name(state, p.as_str()).is_some();
        self.next = self.next + 1;
        if recorded {
            self.awaiting = false;
            InstallStep::AlreadyInstalled(p)
        } else {
            self.awaiting = true;
            InstallStep::Install(p)
        }
    }

    /// Reports the outcome of the installation last asked for: a failure is counted.
    /// Nothing changes when no installation is awaiting its outcome.
    pub fn report(&mut self, ok: bool)
        ensures
            final(self).packages() == old(self).packages(),
            final(self).position() == old(self).position(),
            !final(self).awaiting(),
            final(self).failed() == old(self).failed() + if old(self).awaiting() && !ok {
                1int
            } else {
                0
            },
    {
        proof {
            use_type_invariant(&*self);
        }
        if self.awaiting {
            self.awaiting = false;
            if !ok {
                self.fails = self.fails + 1;
            }
        }
    }

    /// How many installations failed.
    pub fn failures(&self) -> (res: usize)
        ensures
            res == self.failed(),
    {
        self.fails
    }
}

} // verus!
