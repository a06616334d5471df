//! The build configuration document: build settings, the declared `.inc`
//! search paths, and the declarative package spec — the user-facing record
//! of what should be installed.

use vstd::prelude::*;

use crate::result::OpenCliError;
use crate::text::str_eq;

verus! {

/// Where a package's binaries belong in the workspace.
#[derive(PartialEq, Eq, Structural, Clone, Copy, Debug)]
pub enum PackageTarget {
    Components,
    Plugins,
}

/// What should be installed for one repository: a version-constraint text
/// and an optional target role.
pub struct PackageSpec {
    pub version: String,
    pub target: Option<PackageTarget>,
}

impl View for PackageSpec {
    type V = (Seq<char>, Option<PackageTarget>);

    open spec fn view(&self) -> (Seq<char>, Option<PackageTarget>) {
        (self.version@, self.target)
    }
}

impl Clone for PackageSpec {
    fn clone(&self) -> (r: Self)
        ensures
            r@ == self@,
    {
        PackageSpec { version: self.version.clone(), target: self.target }
    }
}

impl PackageSpec {
    /// A bare version-constraint entry.
    pub fn new_simple(version: &str) -> (r: Self)
        ensures
            r@ == (version@, Option::<PackageTarget>::None),
    {
        PackageSpec { version: version.to_owned(), target: None }
    }

    /// An entry that also names the target role.
    pub fn new_detailed(version: &str, target: Option<PackageTarget>) -> (r: Self)
        ensures
            r@ == (version@, target),
    {
        PackageSpec { version: version.to_owned(), target }
    }

    pub fn version(&self) -> (r: &str)
        ensures
            r@ == self@.0,
    {
        self.version.as_str()
    }

    pub fn target(&self) -> (r: Option<PackageTarget>)
        ensures
            r == self@.1,
    {
        self.target
    }
}

/// One declared package: a repository and its spec.
pub struct PackageEntry {
    pub repo: String,
    pub spec: PackageSpec,
}

impl View for PackageEntry {
    type V = (Seq<char>, (Seq<char>, Option<PackageTarget>));

    open spec fn view(&self) -> (Seq<char>, (Seq<char>, Option<PackageTarget>)) {
        (self.repo@, self.spec@)
    }
}

impl Clone for PackageEntry {
    fn clone(&self) -> (r: Self)
        ensures
            r@ == self@,
    {
        PackageEntry { repo: self.repo.clone(), spec: self.spec.clone() }
    }
}

pub struct Build {
    pub entry_file: String,
    pub output_file: String,
    pub compiler_version: String,
    pub includes: Option<BuildIncludes>,
    pub args: Option<BuildArgs>,
}

/// The declared `.inc` search paths.
pub struct BuildIncludes {
    pub paths: Vec<String>,
}

/// Extra compiler arguments.
pub struct BuildArgs {
    pub args: Vec<String>,
}

/// The whole build configuration document.
pub struct BuildConfig {
    pub build: Build,
    pub packages: Vec<PackageEntry>,
}

/// Each repository is declared at most once.
pub open spec fn packages_wf(pv: Seq<(Seq<char>, (Seq<char>, Option<PackageTarget>))>) -> bool {
    forall|i: int, j: int| 0 <= i < j < pv.len() ==> (#[trigger] pv[i]).0 != (#[trigger] pv[j]).0
}

pub open spec fn has_repo(
    pv: Seq<(Seq<char>, (Seq<char>, Option<PackageTarget>))>,
    repo: Seq<char>,
) -> bool {
    exists|i: int| 0 <= i < pv.len() && (#[trigger] pv[i]).0 == repo
}

impl Default for BuildConfig {
    /// The document a fresh project starts from: the conventional entry
    /// script, output file and compiler version, the two standard `.inc`
    /// search paths, and the usual compiler arguments.
    fn default() -> (r: Self)
        ensures
            r.build.entry_file@ == "gamemode.pwn"@,
            r.build.output_file@ == "gamemode.amx"@,
            r.build.compiler_version@ == "v3.10.11"@,
            r.build.includes matches Some(inc) && inc.paths.deep_view() == seq![
                "include"@,
                "qawno/include"@,
            ],
            r.build.args matches Some(a) && a.args.deep_view() == seq![
                "-d3"@,
                "-;+"@,
                "-(+"@,
                "-\\+"@,
                "-Z+"@,
                "-O2"@,
            ],
            r.packages@.len() == 0,
            r.wf(),
    {
        let paths = vec![
            String::from_str("include"),
            String::from_str("qawno/include"),
        ];
        let args = vec![
            String::from_str("-d3"),
            String::from_str("-;+"),
            String::from_str("-(+"),
            String::from_str("-\\+"),
            String::from_str("-Z+"),
            String::from_str("-O2"),
        ];
        let r = BuildConfig {
            build: Build {
                entry_file: String::from_str("gamemode.pwn"),
                output_file: String::from_str("gamemode.amx"),
                compiler_version: String::from_str("v3.10.11"),
                includes: Some(BuildIncludes { paths }),
                args: Some(BuildArgs { args }),
            },
            packages: Vec::new(),
        };
        proof {
            assert(r.build.includes matches Some(inc) && inc.paths.deep_view() =~= seq![
                "include"@,
                "qawno/include"@,
            ]);
            assert(r.build.args matches Some(a) && a.args.deep_view() =~= seq![
                "-d3"@,
                "-;+"@,
                "-(+"@,
                "-\\+"@,
                "-Z+"@,
                "-O2"@,
            ]);
        }
        r
    }
}

impl BuildConfig {
    /// The declared packages, as (repository, spec) pairs.
    pub open spec fn packages_view(&self) -> Seq<(Seq<char>, (Seq<char>, Option<PackageTarget>))> {
        self.packages@.map_values(|e: PackageEntry| e@)
    }

    pub open spec fn wf(&self) -> bool {
        packages_wf(self.packages_view())
    }

    /// A configuration is usable only with a named entry script, output
    /// file and compiler version; the first missing one is reported.
    pub fn validate(&self) -> (r: Result<(), OpenCliError>)
        ensures
            r is Ok <==> (self.build.entry_file@.len() > 0 && self.build.output_file@.len() > 0
                && self.build.compiler_version@.len() > 0),
            r matches Err(e) ==> e matches OpenCliError::Config(_),
    {
        if self.build.entry_file.as_str().unicode_len() == 0 {
            return Err(OpenCliError::Config(String::from_str("entry file cannot be empty")));
        }
        if self.build.output_file.as_str().unicode_len() == 0 {
            return Err(OpenCliError::Config(String::from_str("output file cannot be empty")));
        }
        if self.build.compiler_version.as_str().unicode_len() == 0 {
            return Err(
                OpenCliError::Config(String::from_str("compiler version cannot be empty")),
            );
        }
        Ok(())
    }

    /// The declared `.inc` search paths, or none when the section is absent.
    pub fn get_include_paths(&self) -> (r: Vec<String>)
        ensures
            r.deep_view() == (match self.build.includes {
                Option::Some(inc) => inc.paths.deep_view(),
                Option::None => Seq::<Seq<char>>::empty(),
            }),
    {
        match &self.build.includes {
            Some(inc) => {
                let mut out: Vec<String> = Vec::new();
                let mut i: usize = 0;
                while i < inc.paths.len()
                    invariant
                        i <= inc.paths@.len(),
                        out@.len() == i,
                        forall|j: int| 0 <= j < i ==> out@[j]@ == #[trigger] inc.paths@[j]@,
                    decreases inc.paths@.len() - i,
                {
                    out.push(inc.paths[i].clone());
                    i += 1;
                }
                proof {
                    assert(out.deep_view() =~= inc.paths.deep_view());
                }
                out
            },
            None => {
                let out: Vec<String> = Vec::new();
                proof {
                    assert(out.deep_view() =~= Seq::<Seq<char>>::empty());
                }
                out
            },
        }
    }

    /// The declared packages.
    pub fn get_packages(&self) -> (r: &Vec<PackageEntry>)
        ensures
            r@ == self.packages@,
    {
        &self.packages
    }

    fn find_package(&self, repo: &str) -> (r: Option<usize>)
        ensures
            match r {
                Option::Some(k) => k < self.packages_view().len() && self.packages_view()[
                    k as int
                ].0 == repo@,
                Option::None => !has_repo(self.packages_view(), repo@),
            },
    {
        let mut i: usize = 0;
        while i < self.packages.len()
            invariant
                i <= self.packages@.len(),
                forall|j: int| 0 <= j < i ==> (#[trigger] self.packages_view()[j]).0 != repo@,
            decreases self.packages@.len() - i,
        {
            if str_eq(self.packages[i].repo.as_str(), repo) {
                return Some(i);
            }
            i += 1;
        }
        None
    }

    /// Declares or re-declares a package: an existing entry for the
    /// repository is replaced in place, a new one is appended.
    pub fn add_package(&mut self, repo: &str, spec: PackageSpec)
        requires
            old(self).wf(),
        ensures
            final(self).wf(),
            final(self).build == old(self).build,
            has_repo(old(self).packages_view(), repo@) ==> exists|k: int|
                0 <= k < old(self).packages_view().len() && (#[trigger] old(
                    self,
                ).packages_view()[k]).0 == repo@ && final(self).packages_view() == old(
                    self,
                ).packages_view().update(k, (repo@, spec@)),
            !has_repo(old(self).packages_view(), repo@) ==> final(self).packages_view() == old(
                self,
            ).packages_view().push((repo@, spec@)),
    {
        let entry = PackageEntry { repo: repo.to_owned(), spec };
        match self.find_package(repo) {
            Some(k) => {
                self.packages.set(k, entry);
                proof {
                    assert(self.packages_view() =~= old(self).packages_view().update(
                        k as int,
                        (repo@, entry@.1),
                    ));
                    assert forall|i: int, j: int|
                        0 <= i < j < self.packages_view().len() implies (
                    #[trigger] self.packages_view()[i]).0 != (
                    #[trigger] self.packages_view()[j]).0 by {
                        assert(old(self).packages_view()[i].0 != old(self).packages_view()[j].0);
                    }
                }
            },
            None => {
                self.packages.push(entry);
                proof {
                    assert(self.packages_view() =~= old(self).packages_view().push(
                        (repo@, entry@.1),
                    ));
                    assert forall|i: int, j: int|
                        0 <= i < j < self.packages_view().len() implies (
                    #[trigger] self.packages_view()[i]).0 != (
                    #[trigger] self.packages_view()[j]).0 by {
                        if j < self.packages_view().len() - 1 {
                            assert(old(self).packages_view()[i].0 != old(
                                self,
                            ).packages_view()[j].0);
                        } else {
                            assert(self.packages_view()[i].0 == old(self).packages_view()[i].0);
                        }
                    }
                }
            },
        }
    }

    /// Removes a declared package; says whether anything was removed.
    pub fn remove_package(&mut self, repo: &str) -> (r: bool)
        requires
            old(self).wf(),
        ensures
            final(self).wf(),
            final(self).build == old(self).build,
            r == has_repo(old(self).packages_view(), repo@),
            r ==> exists|k: int|
                0 <= k < old(self).packages_view().len() && (#[trigger] old(
                    self,
                ).packages_view()[k]).0 == repo@ && final(self).packages_view() == old(
                    self,
                ).packages_view().remove(k),
            !r ==> final(self).packages_view() == old(self).packages_view(),
    {
        match self.find_package(repo) {
            Some(k) => {
                self.packages.remove(k);
                proof {
                    assert(self.packages_view() =~= old(self).packages_view().remove(k as int));
                    assert forall|i: int, j: int|
                        0 <= i < j < self.packages_view().len() implies (
                    #[trigger] self.packages_view()[i]).0 != (
                    #[trigger] self.packages_view()[j]).0 by {
                        let oi = if i < k {
                            i
                        } else {
                            i + 1
                        };
                        let oj = if j < k {
                            j
                        } else {
                            j + 1
                        };
                        assert(old(self).packages_view()[oi].0 != old(self).packages_view()[oj].0);
                    }
                }
                true
            },
            None => false,
        }
    }
}

} // verus!
