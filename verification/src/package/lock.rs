//! The package lock: the authoritative per-repository record of what is
//! actually installed — version, target role, and the files placed on disk.

use vstd::prelude::*;

use crate::build::config::PackageTarget;
use crate::text::str_eq;

verus! {

/// The lock entry for one repository.
pub struct InstalledPackage {
    pub repo: String,
    pub version: String,
    pub target: Option<PackageTarget>,
    pub files: Vec<String>,
}

impl View for InstalledPackage {
    type V = (Seq<char>, Seq<char>, Option<PackageTarget>, Seq<Seq<char>>);

    open spec fn view(&self) -> (Seq<char>, Seq<char>, Option<PackageTarget>, Seq<Seq<char>>) {
        (self.repo@, self.version@, self.target, self.files.deep_view())
    }
}

impl Clone for InstalledPackage {
    fn clone(&self) -> (r: Self)
        ensures
            r@ == self@,
    {
        let mut files: Vec<String> = Vec::new();
        let mut i: usize = 0;
        while i < self.files.len()
            invariant
                i <= self.files@.len(),
                files@.len() == i,
                forall|j: int| 0 <= j < i ==> files@[j]@ == #[trigger] self.files@[j]@,
            decreases self.files@.len() - i,
        {
            files.push(self.files[i].clone());
            i += 1;
        }
        let r = InstalledPackage {
            repo: self.repo.clone(),
            version: self.version.clone(),
            target: self.target,
            files,
        };
        proof {
            assert(r.files.deep_view() =~= self.files.deep_view());
        }
        r
    }
}

/// Each repository holds at most one lock entry.
pub open spec fn lock_wf(
    lv: Seq<(Seq<char>, Seq<char>, Option<PackageTarget>, Seq<Seq<char>>)>,
) -> bool {
    forall|i: int, j: int| 0 <= i < j < lv.len() ==> (#[trigger] lv[i]).0 != (#[trigger] lv[j]).0
}

pub open spec fn lock_has_repo(
    lv: Seq<(Seq<char>, Seq<char>, Option<PackageTarget>, Seq<Seq<char>>)>,
    repo: Seq<char>,
) -> bool {
    exists|i: int| 0 <= i < lv.len() && (#[trigger] lv[i]).0 == repo
}

/// The lock: a mapping from repository to installed package, loaded whole
/// at the start of an operation and written back whole at its end.
pub struct PackageLock {
    pub installed: Vec<InstalledPackage>,
}

impl View for PackageLock {
    type V = Seq<(Seq<char>, Seq<char>, Option<PackageTarget>, Seq<Seq<char>>)>;

    open spec fn view(&self) -> Seq<(Seq<char>, Seq<char>, Option<PackageTarget>, Seq<Seq<char>>)> {
        self.installed@.map_values(|e: InstalledPackage| e@)
    }
}

impl PackageLock {
    pub open spec fn wf(&self) -> bool {
        lock_wf(self@)
    }

    /// An empty lock.
    pub fn new() -> (r: Self)
        ensures
            r@.len() == 0,
            r.wf(),
    {
        let r = PackageLock { installed: Vec::new() };
        proof {
            assert(r@ =~= Seq::<(Seq<char>, Seq<char>, Option<PackageTarget>, Seq<Seq<char>>)>::empty());
        }
        r
    }

    fn find(&self, repo: &str) -> (r: Option<usize>)
        ensures
            match r {
                Option::Some(k) => k < self@.len() && self@[k as int].0 == repo@,
                Option::None => !lock_has_repo(self@, repo@),
            },
    {
        let mut i: usize = 0;
        while i < self.installed.len()
            invariant
                i <= self.installed@.len(),
                forall|j: int| 0 <= j < i ==> (#[trigger] self@[j]).0 != repo@,
            decreases self.installed@.len() - i,
        {
            if str_eq(self.installed[i].repo.as_str(), repo) {
                return Some(i);
            }
            i += 1;
        }
        None
    }

    /// The lock entry recorded for a repository, if any.
    pub fn get(&self, repo: &str) -> (r: Option<&InstalledPackage>)
        ensures
            match r {
                Option::Some(p) => exists|k: int|
                    0 <= k < self@.len() && #[trigger] self@[k] == p@ && self@[k].0 == repo@,
                Option::None => !lock_has_repo(self@, repo@),
            },
    {
        match self.find(repo) {
            Some(k) => Some(&self.installed[k]),
            None => None,
        }
    }

    /// Records an installation: an entry for the same repository is
    /// replaced, any other is kept.
    pub fn upsert(&mut self, pkg: InstalledPackage)
        requires
            old(self).wf(),
        ensures
            final(self).wf(),
            lock_has_repo(old(self)@, pkg@.0) ==> exists|k: int|
                0 <= k < old(self)@.len() && (#[trigger] old(self)@[k]).0 == pkg@.0
                    && final(self)@ == old(self)@.update(k, pkg@),
            !lock_has_repo(old(self)@, pkg@.0) ==> final(self)@ == old(self)@.push(pkg@),
    {
        let ghost pv = pkg@;
        match self.find(pkg.repo.as_str()) {
            Some(k) => {
                self.installed.set(k, pkg);
                proof {
                    assert(self@ =~= old(self)@.update(k as int, pv));
                    assert forall|i: int, j: int|
                        0 <= i < j < self@.len() implies (#[trigger] self@[i]).0 != (
                    #[trigger] self@[j]).0 by {
                        assert(old(self)@[i].0 != old(self)@[j].0);
                    }
                }
            },
            None => {
                self.installed.push(pkg);
                proof {
                    assert(self@ =~= old(self)@.push(pv));
                    assert forall|i: int, j: int|
                        0 <= i < j < self@.len() implies (#[trigger] self@[i]).0 != (
                    #[trigger] self@[j]).0 by {
                        if j < self@.len() - 1 {
                            assert(old(self)@[i].0 != old(self)@[j].0);
                        } else {
                            assert(self@[i].0 == old(self)@[i].0);
                        }
                    }
                }
            },
        }
    }

    /// Drops the entry for a repository; says whether one was there.
    pub fn remove(&mut self, repo: &str) -> (r: bool)
        requires
            old(self).wf(),
        ensures
            final(self).wf(),
            r == lock_has_repo(old(self)@, repo@),
            r ==> exists|k: int|
                0 <= k < old(self)@.len() && (#[trigger] old(self)@[k]).0 == repo@
                    && final(self)@ == old(self)@.remove(k),
            !r ==> final(self)@ == old(self)@,
    {
        match self.find(repo) {
            Some(k) => {
                self.installed.remove(k);
                proof {
                    assert(self@ =~= old(self)@.remove(k as int));
                    assert forall|i: int, j: int|
                        0 <= i < j < self@.len() implies (#[trigger] self@[i]).0 != (
                    #[trigger] self@[j]).0 by {
                        let oi = if i < k {
                            i
                        } else {
                            i + 1
                        };
                        let oj = if j < k {
                            j
                        } else {
                            j + 1
                        };
                        assert(old(self)@[oi].0 != old(self)@[oj].0);
                    }
                }
                true
            },
            None => false,
        }
    }
}

} // verus!
