//! Release data, asset handling decisions, and classification of
//! distributable files into roles. The network and archive I/O around these
//! decisions lives outside the library; everything here is a pure function
//! of names, paths and release lists.

use vstd::prelude::*;

use crate::result::OpenCliError;
use crate::text::{
    dir_part, lower, path_file_name, path_join, seq_contains, seq_ends_with, spec_file_name,
    spec_path_join, str_contains_ci, str_ends_with, chars_of,
};
use crate::package::version::{
    constraint_matches, parse_ok, parsed_parts, version_le, version_lt, Version,
    VersionConstraint, lemma_version_lt_trans, lemma_version_lt_trichotomy,
};

verus! {

/// One tagged release of a repository, with its downloadable assets.
pub struct GitHubRelease {
    pub tag_name: String,
    pub assets: Vec<GitHubAsset>,
}

/// One downloadable asset of a release.
pub struct GitHubAsset {
    pub name: String,
    pub download_url: String,
    pub size: u64,
}

impl View for GitHubAsset {
    type V = (Seq<char>, Seq<char>, u64);

    open spec fn view(&self) -> (Seq<char>, Seq<char>, u64) {
        (self.name@, self.download_url@, self.size)
    }
}

impl View for GitHubRelease {
    type V = (Seq<char>, Seq<(Seq<char>, Seq<char>, u64)>);

    open spec fn view(&self) -> (Seq<char>, Seq<(Seq<char>, Seq<char>, u64)>) {
        (self.tag_name@, self.assets@.map_values(|a: GitHubAsset| a@))
    }
}

impl Clone for GitHubAsset {
    fn clone(&self) -> (r: Self)
        ensures
            r@ == self@,
    {
        GitHubAsset {
            name: self.name.clone(),
            download_url: self.download_url.clone(),
            size: self.size,
        }
    }
}

impl Clone for GitHubRelease {
    fn clone(&self) -> (r: Self)
        ensures
            r@ == self@,
    {
        let mut assets: Vec<GitHubAsset> = Vec::new();
        let mut i: usize = 0;
        while i < self.assets.len()
            invariant
                i <= self.assets@.len(),
                assets@.len() == i,
                forall|j: int| 0 <= j < i ==> assets@[j]@ == #[trigger] self.assets@[j]@,
            decreases self.assets@.len() - i,
        {
            assets.push(self.assets[i].clone());
            i += 1;
        }
        let r = GitHubRelease { tag_name: self.tag_name.clone(), assets };
        proof {
            assert(r@.1 =~= self@.1);
        }
        r
    }
}

/// The role a classified file plays in the workspace.
#[derive(PartialEq, Eq, Structural, Clone, Copy, Debug)]
pub enum BinaryRole {
    Root,
    Component,
    Plugin,
    Generic,
}

pub open spec fn inc_suffix() -> Seq<char> {
    seq!['.', 'i', 'n', 'c']
}

pub open spec fn dll_suffix() -> Seq<char> {
    seq!['.', 'd', 'l', 'l']
}

pub open spec fn so_suffix() -> Seq<char> {
    seq!['.', 's', 'o']
}

pub open spec fn dylib_suffix() -> Seq<char> {
    seq!['.', 'd', 'y', 'l', 'i', 'b']
}

pub open spec fn amx_token() -> Seq<char> {
    seq!['a', 'm', 'x']
}

pub open spec fn lib_token() -> Seq<char> {
    seq!['l', 'i', 'b']
}

pub open spec fn components_token() -> Seq<char> {
    seq!['c', 'o', 'm', 'p', 'o', 'n', 'e', 'n', 't', 's']
}

pub open spec fn plugin_token() -> Seq<char> {
    seq!['p', 'l', 'u', 'g', 'i', 'n']
}

/// A `.inc` header file, by name.
pub open spec fn is_inc_name(name: Seq<char>) -> bool {
    seq_ends_with(name, inc_suffix())
}

/// A shared-library file, by name.
pub open spec fn is_binary_name(name: Seq<char>) -> bool {
    seq_ends_with(name, dll_suffix()) || seq_ends_with(name, so_suffix()) || seq_ends_with(
        name,
        dylib_suffix(),
    )
}

/// A file name that marks a root binary, case-insensitively.
pub open spec fn amx_lib_name(name: Seq<char>) -> bool {
    seq_contains(lower(name), amx_token()) || seq_contains(lower(name), lib_token())
}

/// The classification of a binary by its archive-relative path. The file
/// name decides first: an `amx`/`lib` name is a root binary wherever it
/// lies. Otherwise a directory segment holding `components` makes it a
/// component, one holding `plugin` makes it a plugin, and anything else is
/// an unclassified binary, placed later by the requested target or by a
/// name heuristic.
pub open spec fn classify_spec(rel: Seq<char>) -> BinaryRole {
    if amx_lib_name(spec_file_name(rel)) {
        BinaryRole::Root
    } else if seq_contains(lower(dir_part(rel)), components_token()) {
        BinaryRole::Component
    } else if seq_contains(lower(dir_part(rel)), plugin_token()) {
        BinaryRole::Plugin
    } else {
        BinaryRole::Generic
    }
}

pub fn is_inc_file(name: &str) -> (r: bool)
    ensures
        r == is_inc_name(name@),
{
    proof {
        reveal_strlit(".inc");
        assert((".inc"@) =~= inc_suffix());
    }
    str_ends_with(name, ".inc")
}

pub fn is_binary_file(name: &str) -> (r: bool)
    ensures
        r == is_binary_name(name@),
{
    proof {
        reveal_strlit(".dll");
        reveal_strlit(".so");
        reveal_strlit(".dylib");
        assert((".dll"@) =~= dll_suffix());
        assert((".so"@) =~= so_suffix());
        assert((".dylib"@) =~= dylib_suffix());
    }
    str_ends_with(name, ".dll") || str_ends_with(name, ".so") || str_ends_with(name, ".dylib")
}

fn has_amx_lib_name(name: &str) -> (r: bool)
    ensures
        r == amx_lib_name(name@),
{
    proof {
        reveal_strlit("amx");
        reveal_strlit("lib");
        assert(lower("amx"@) =~= amx_token());
        assert(lower("lib"@) =~= lib_token());
    }
    str_contains_ci(name, "amx") || str_contains_ci(name, "lib")
}

/// Classifies a binary by its archive-relative path, per `classify_spec`.
pub fn classify_path(rel: &str) -> (r: BinaryRole)
    ensures
        r == classify_spec(rel@),
{
    let name = path_file_name(rel);
    if has_amx_lib_name(name.as_str()) {
        return BinaryRole::Root;
    }
    let n = rel.unicode_len();
    let name_len = name.as_str().unicode_len();
    proof {
        crate::text::lemma_tail_after_sep_len(rel@, true);
    }
    let dir = rel.substring_char(0, n - name_len);
    proof {
        assert(dir@ =~= dir_part(rel@));
        reveal_strlit("components");
        reveal_strlit("plugin");
        assert(lower("components"@) =~= components_token());
        assert(lower("plugin"@) =~= plugin_token());
    }
    if str_contains_ci(dir, "components") {
        BinaryRole::Component
    } else if str_contains_ci(dir, "plugin") {
        BinaryRole::Plugin
    } else {
        BinaryRole::Generic
    }
}

/// What to do with a release asset, decided by its name. Archives come
/// first; a `.rar` archive is recognized but unsupported and must fail
/// rather than be skipped; bare `.inc` and binary files are taken as they
/// are; anything else is ignored.
pub enum AssetAction {
    ExtractZip,
    ExtractTarGz,
    UnsupportedArchive,
    TakeInc,
    TakeBinary,
    Skip,
}

pub open spec fn zip_suffix() -> Seq<char> {
    seq!['.', 'z', 'i', 'p']
}

pub open spec fn tar_gz_suffix() -> Seq<char> {
    seq!['.', 't', 'a', 'r', '.', 'g', 'z']
}

pub open spec fn tgz_suffix() -> Seq<char> {
    seq!['.', 't', 'g', 'z']
}

pub open spec fn rar_suffix() -> Seq<char> {
    seq!['.', 'r', 'a', 'r']
}

pub open spec fn is_archive_name(name: Seq<char>) -> bool {
    seq_ends_with(name, zip_suffix()) || seq_ends_with(name, tar_gz_suffix()) || seq_ends_with(
        name,
        tgz_suffix(),
    ) || seq_ends_with(name, rar_suffix())
}

pub open spec fn asset_action_spec(name: Seq<char>) -> AssetAction {
    if seq_ends_with(name, zip_suffix()) {
        AssetAction::ExtractZip
    } else if seq_ends_with(name, tar_gz_suffix()) || seq_ends_with(name, tgz_suffix()) {
        AssetAction::ExtractTarGz
    } else if seq_ends_with(name, rar_suffix()) {
        AssetAction::UnsupportedArchive
    } else if is_inc_name(name) {
        AssetAction::TakeInc
    } else if is_binary_name(name) {
        AssetAction::TakeBinary
    } else {
        AssetAction::Skip
    }
}

/// Decides how an asset is handled, by its name alone.
pub fn asset_action(name: &str) -> (r: AssetAction)
    ensures
        r == asset_action_spec(name@),
{
    proof {
        reveal_strlit(".zip");
        reveal_strlit(".tar.gz");
        reveal_strlit(".tgz");
        reveal_strlit(".rar");
        assert((".zip"@) =~= zip_suffix());
        assert((".tar.gz"@) =~= tar_gz_suffix());
        assert((".tgz"@) =~= tgz_suffix());
        assert((".rar"@) =~= rar_suffix());
    }
    if str_ends_with(name, ".zip") {
        AssetAction::ExtractZip
    } else if str_ends_with(name, ".tar.gz") || str_ends_with(name, ".tgz") {
        AssetAction::ExtractTarGz
    } else if str_ends_with(name, ".rar") {
        AssetAction::UnsupportedArchive
    } else if is_inc_file(name) {
        AssetAction::TakeInc
    } else if is_binary_file(name) {
        AssetAction::TakeBinary
    } else {
        AssetAction::Skip
    }
}

/// The classification buckets produced by downloading one release: `.inc`
/// headers, unclassified binaries, root binaries, component binaries and
/// plugin binaries. Every classified file lands in exactly one bucket.
pub struct PackageFiles {
    pub includes: Vec<String>,
    pub binaries: Vec<String>,
    pub root_binaries: Vec<String>,
    pub component_binaries: Vec<String>,
    pub plugin_binaries: Vec<String>,
}

impl View for PackageFiles {
    type V = (Seq<Seq<char>>, Seq<Seq<char>>, Seq<Seq<char>>, Seq<Seq<char>>, Seq<Seq<char>>);

    open spec fn view(&self) -> (
        Seq<Seq<char>>,
        Seq<Seq<char>>,
        Seq<Seq<char>>,
        Seq<Seq<char>>,
        Seq<Seq<char>>,
    ) {
        (
            self.includes.deep_view(),
            self.binaries.deep_view(),
            self.root_binaries.deep_view(),
            self.component_binaries.deep_view(),
            self.plugin_binaries.deep_view(),
        )
    }
}

impl PackageFiles {
    /// Empty buckets.
    pub fn new() -> (r: Self)
        ensures
            r@.0.len() == 0,
            r@.1.len() == 0,
            r@.2.len() == 0,
            r@.3.len() == 0,
            r@.4.len() == 0,
    {
        PackageFiles {
            includes: Vec::new(),
            binaries: Vec::new(),
            root_binaries: Vec::new(),
            component_binaries: Vec::new(),
            plugin_binaries: Vec::new(),
        }
    }

    /// No bucket holds anything; the fallback to pulling headers straight
    /// from source control fires exactly in this state.
    pub fn is_empty(&self) -> (r: bool)
        ensures
            r == (self@.0.len() == 0 && self@.1.len() == 0 && self@.2.len() == 0 && self@.3.len()
                == 0 && self@.4.len() == 0),
    {
        self.includes.len() == 0 && self.binaries.len() == 0 && self.root_binaries.len() == 0
            && self.component_binaries.len() == 0 && self.plugin_binaries.len() == 0
    }

    /// Appends every bucket of `other` to the same bucket of `self`.
    pub fn merge(&mut self, other: PackageFiles)
        ensures
            final(self)@.0 == old(self)@.0 + other@.0,
            final(self)@.1 == old(self)@.1 + other@.1,
            final(self)@.2 == old(self)@.2 + other@.2,
            final(self)@.3 == old(self)@.3 + other@.3,
            final(self)@.4 == old(self)@.4 + other@.4,
    {
        let PackageFiles { mut includes, mut binaries, mut root_binaries, mut component_binaries, mut plugin_binaries } =
            other;
        let ghost o = (
            includes.deep_view(),
            binaries.deep_view(),
            root_binaries.deep_view(),
            component_binaries.deep_view(),
            plugin_binaries.deep_view(),
        );
        self.includes.append(&mut includes);
        self.binaries.append(&mut binaries);
        self.root_binaries.append(&mut root_binaries);
        self.component_binaries.append(&mut component_binaries);
        self.plugin_binaries.append(&mut plugin_binaries);
        proof {
            assert(self.includes.deep_view() =~= old(self)@.0 + o.0);
            assert(self.binaries.deep_view() =~= old(self)@.1 + o.1);
            assert(self.root_binaries.deep_view() =~= old(self)@.2 + o.2);
            assert(self.component_binaries.deep_view() =~= old(self)@.3 + o.3);
            assert(self.plugin_binaries.deep_view() =~= old(self)@.4 + o.4);
        }
    }
}

/// The buckets that classifying a list of archive entries produces, entry
/// by entry: each extracted file lies under `dir`, headers go to the first
/// bucket, binaries to the bucket their path's role names, everything else
/// is left behind.
pub open spec fn classify_fold(dir: Seq<char>, rels: Seq<Seq<char>>) -> (
    Seq<Seq<char>>,
    Seq<Seq<char>>,
    Seq<Seq<char>>,
    Seq<Seq<char>>,
    Seq<Seq<char>>,
)
    decreases rels.len(),
{
    if rels.len() == 0 {
        (
            Seq::<Seq<char>>::empty(),
            Seq::<Seq<char>>::empty(),
            Seq::<Seq<char>>::empty(),
            Seq::<Seq<char>>::empty(),
            Seq::<Seq<char>>::empty(),
        )
    } else {
        let prev = classify_fold(dir, rels.drop_last());
        let rel = rels.last();
        let name = spec_file_name(rel);
        let dest = spec_path_join(dir, rel);
        if is_inc_name(name) {
            (prev.0.push(dest), prev.1, prev.2, prev.3, prev.4)
        } else if is_binary_name(name) {
            match classify_spec(rel) {
                BinaryRole::Root => (prev.0, prev.1, prev.2.push(dest), prev.3, prev.4),
                BinaryRole::Component => (prev.0, prev.1, prev.2, prev.3.push(dest), prev.4),
                BinaryRole::Plugin => (prev.0, prev.1, prev.2, prev.3, prev.4.push(dest)),
                BinaryRole::Generic => (prev.0, prev.1.push(dest), prev.2, prev.3, prev.4),
            }
        } else {
            prev
        }
    }
}

/// Classifies the files extracted from one archive, given their paths
/// relative to the archive root; each lands under `extract_dir`.
pub fn classify_entries(extract_dir: &str, entries: &Vec<String>) -> (r: PackageFiles)
    ensures
        r@ == classify_fold(extract_dir@, entries.deep_view()),
{
    let mut out = PackageFiles::new();
    let ghost rels = entries.deep_view();
    proof {
        assert(rels.take(0) =~= Seq::<Seq<char>>::empty());
        assert(out@ =~= classify_fold(extract_dir@, rels.take(0)));
    }
    let mut i: usize = 0;
    while i < entries.len()
        invariant
            i <= entries@.len(),
            rels == entries.deep_view(),
            rels.len() == entries@.len(),
            out@ == classify_fold(extract_dir@, rels.take(i as int)),
        decreases entries@.len() - i,
    {
        let rel = &entries[i];
        let name = path_file_name(rel.as_str());
        let dest = path_join(extract_dir, rel.as_str());
        proof {
            assert(rels[i as int] == entries@[i as int]@);
            assert(rels.take(i + 1).drop_last() =~= rels.take(i as int));
            assert(rels.take(i + 1).last() == rels[i as int]);
        }
        if is_inc_file(name.as_str()) {
            out.includes.push(dest);
        } else if is_binary_file(name.as_str()) {
            match classify_path(rel.as_str()) {
                BinaryRole::Root => out.root_binaries.push(dest),
                BinaryRole::Component => out.component_binaries.push(dest),
                BinaryRole::Plugin => out.plugin_binaries.push(dest),
                BinaryRole::Generic => out.binaries.push(dest),
            }
        }
        proof {
            assert(out@.0 =~= classify_fold(extract_dir@, rels.take(i + 1)).0);
            assert(out@.1 =~= classify_fold(extract_dir@, rels.take(i + 1)).1);
            assert(out@.2 =~= classify_fold(extract_dir@, rels.take(i + 1)).2);
            assert(out@.3 =~= classify_fold(extract_dir@, rels.take(i + 1)).3);
            assert(out@.4 =~= classify_fold(extract_dir@, rels.take(i + 1)).4);
        }
        i += 1;
    }
    proof {
        assert(rels.take(rels.len() as int) =~= rels);
    }
    out
}

/// A repository identifier is `owner/name`: exactly one `/`, with a
/// non-empty owner before it and a non-empty name after it.
pub open spec fn repo_valid(s: Seq<char>) -> bool {
    exists|k: int|
        0 < k < s.len() - 1 && #[trigger] s[k] == '/' && (forall|j: int|
            0 <= j < s.len() && j != k ==> s[j] != '/')
}

/// Splits `owner/name`. Fails with a configuration error exactly when the
/// identifier is not of that shape.
pub fn parse_repo(repo: &str) -> (r: Result<(String, String), OpenCliError>)
    ensures
        r is Ok <==> repo_valid(repo@),
        r matches Ok(p) ==> exists|k: int|
            0 < k < repo@.len() - 1 && #[trigger] repo@[k] == '/' && p.0@ == repo@.take(k)
                && p.1@ == repo@.skip(k + 1),
        r matches Err(e) ==> e matches OpenCliError::Config(_),
{
    let cs = chars_of(repo);
    let n = cs.len();
    let mut slash: Option<usize> = None;
    let mut count: usize = 0;
    let mut i: usize = 0;
    while i < n
        invariant
            cs@ == repo@,
            n == repo@.len(),
            i <= n,
            count <= i,
            match slash {
                Option::Some(k) => k < i && repo@[k as int] == '/' && count >= 1,
                Option::None => count == 0,
            },
            count >= 1 ==> slash is Some,
            count == 0 ==> forall|j: int| 0 <= j < i ==> repo@[j] != '/',
            count == 1 ==> (match slash {
                Option::Some(k) => forall|j: int|
                    0 <= j < i && j != k ==> #[trigger] repo@[j] != '/',
                Option::None => false,
            }),
            count >= 2 ==> exists|j1: int, j2: int|
                #![trigger repo@[j1], repo@[j2]]
                0 <= j1 < j2 < i && repo@[j1] == '/' && repo@[j2] == '/',
        decreases n - i,
    {
        if cs[i] == '/' {
            if count == 0 {
                slash = Some(i);
            }
            count = count + 1;
        }
        i += 1;
    }
    match slash {
        Some(k) if count == 1 && k > 0 && k + 1 < n => {
            let owner = repo.substring_char(0, k);
            let name = repo.substring_char(k + 1, n);
            proof {
                assert(owner@ =~= repo@.take(k as int));
                assert(name@ =~= repo@.skip(k + 1));
                assert(repo_valid(repo@));
            }
            Ok((owner.to_owned(), name.to_owned()))
        },
        _ => {
            proof {
                if repo_valid(repo@) {
                    let k = choose|k: int|
                        0 < k < repo@.len() - 1 && #[trigger] repo@[k] == '/' && (forall|j: int|
                            0 <= j < repo@.len() && j != k ==> repo@[j] != '/');
                    match slash {
                        Option::Some(s) => {
                            if count == 1 {
                                assert(repo@[s as int] == '/');
                                assert(s == k);
                            } else {
                                assert(count >= 2);
                                let (j1, j2) = choose|j1: int, j2: int|
                                    #![trigger repo@[j1], repo@[j2]]
                                    0 <= j1 < j2 < repo@.len() && repo@[j1] == '/'
                                        && repo@[j2] == '/';
                                assert(j1 != k || j2 != k);
                                assert(false);
                            }
                        },
                        Option::None => {
                            assert(repo@[k] != '/');
                        },
                    }
                }
            }
            Err(
                OpenCliError::Config(
                    String::from_str("repository must be of the form owner/name"),
                ),
            )
        },
    }
}

/// Whether a release's tag parses as a version that satisfies `c`.
pub open spec fn release_matches(c: VersionConstraint, r: GitHubRelease) -> bool {
    parse_ok(r.tag_name@) && constraint_matches(c, parsed_parts(r.tag_name@))
}

/// The release with the greatest tag version satisfying the constraint.
/// Tags that do not parse as versions are not candidates. Fails with
/// `NotFound` exactly when no release qualifies.
pub fn find_matching_release(releases: &Vec<GitHubRelease>, constraint: &VersionConstraint) -> (r:
    Result<GitHubRelease, OpenCliError>)
    ensures
        r is Ok <==> exists|i: int|
            0 <= i < releases@.len() && release_matches(*constraint, #[trigger] releases@[i]),
        r matches Ok(rel) ==> (exists|i: int|
            0 <= i < releases@.len() && #[trigger] releases@[i]@ == rel@) && release_matches(
            *constraint,
            rel,
        ) && forall|i: int|
            0 <= i < releases@.len() && release_matches(*constraint, #[trigger] releases@[i])
                ==> version_le(
                parsed_parts(releases@[i].tag_name@),
                parsed_parts(rel.tag_name@),
            ),
        r matches Err(e) ==> e matches OpenCliError::NotFound(_),
{
    let mut best: Option<usize> = None;
    let mut i: usize = 0;
    while i < releases.len()
        invariant
            i <= releases@.len(),
            match best {
                Option::None => forall|j: int|
                    0 <= j < i ==> !release_matches(*constraint, #[trigger] releases@[j]),
                Option::Some(b) => b < i && release_matches(*constraint, releases@[b as int])
                    && forall|j: int|
                    0 <= j < i && release_matches(*constraint, #[trigger] releases@[j])
                        ==> version_le(
                        parsed_parts(releases@[j].tag_name@),
                        parsed_parts(releases@[b as int].tag_name@),
                    ),
            },
        decreases releases@.len() - i,
    {
        let tag_version = Version::parse(releases[i].tag_name.as_str());
        match tag_version {
            Ok(v) => {
                if constraint.matches(&v) {
                    match best {
                        None => {
                            best = Some(i);
                        },
                        Some(b) => {
                            let bv = Version::parse(releases[b].tag_name.as_str());
                            match bv {
                                Ok(bvv) => {
                                    if bvv.lt(&v) {
                                        proof {
                                            assert forall|j: int|
                                                0 <= j < i + 1 && release_matches(
                                                    *constraint,
                                                    #[trigger] releases@[j],
                                                ) implies version_le(
                                                parsed_parts(releases@[j].tag_name@),
                                                parsed_parts(releases@[i as int].tag_name@),
                                            ) by {
                                                if j < i {
                                                    if version_lt(
                                                        parsed_parts(releases@[j].tag_name@),
                                                        parsed_parts(releases@[b as int].tag_name@),
                                                    ) {
                                                        lemma_version_lt_trans(
                                                            parsed_parts(releases@[j].tag_name@),
                                                            parsed_parts(
                                                                releases@[b as int].tag_name@,
                                                            ),
                                                            parsed_parts(
                                                                releases@[i as int].tag_name@,
                                                            ),
                                                        );
                                                    }
                                                }
                                            }
                                        }
                                        best = Some(i);
                                    } else {
                                        proof {
                                            lemma_version_lt_trichotomy(
                                                parsed_parts(releases@[b as int].tag_name@),
                                                parsed_parts(releases@[i as int].tag_name@),
                                            );
                                        }
                                    }
                                },
                                Err(_) => {
                                    // the best candidate's tag parsed before,
                                    // so it parses now
                                    proof {
                                        assert(false);
                                    }
                                },
                            }
                        },
                    }
                }
            },
            Err(_) => {},
        }
        i += 1;
    }
    match best {
        Some(b) => {
            let rel = releases[b].clone();
            Ok(rel)
        },
        None => Err(
            OpenCliError::NotFound(String::from_str("no release satisfies the version constraint")),
        ),
    }
}

} // verus!
