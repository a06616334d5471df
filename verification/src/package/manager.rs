//! The placement and removal decisions of the package manager: which
//! classified file is copied where, which files a removal selects, how a
//! binary with no declared target is placed, and the constraint an install
//! request resolves with. The file copies and deletions themselves are the
//! caller's work; each decision here is a pure, specified function.

use vstd::prelude::*;

use crate::build::config::PackageTarget;
use crate::package::downloader::{inc_suffix, PackageFiles};
use crate::package::version::{constraint_parse_post, VersionConstraint};
use crate::package::workspace::WorkspaceInfo;
use crate::result::OpenCliError;
use crate::text::{
    lower, path_file_name, path_join, seq_contains, seq_ends_with, spec_file_name, spec_path_join,
    spec_tail_after_sep, str_contains_ci, str_ends_with, tail_after_sep,
};

verus! {

/// One planned file placement: copy `source` to `dest`.
pub struct CopyOp {
    pub source: String,
    pub dest: String,
}

impl View for CopyOp {
    type V = (Seq<char>, Seq<char>);

    open spec fn view(&self) -> (Seq<char>, Seq<char>) {
        (self.source@, self.dest@)
    }
}

pub open spec fn plan_view(ops: Seq<CopyOp>) -> Seq<(Seq<char>, Seq<char>)> {
    ops.map_values(|c: CopyOp| c@)
}

/// Each file goes into `dir` under its own file name.
pub open spec fn dest_map(files: Seq<Seq<char>>, dir: Seq<char>) -> Seq<(Seq<char>, Seq<char>)>
    decreases files.len(),
{
    if files.len() == 0 {
        Seq::empty()
    } else {
        dest_map(files.drop_last(), dir).push(
            (files.last(), spec_path_join(dir, spec_file_name(files.last()))),
        )
    }
}

/// One header file goes into every directory of `dirs`.
pub open spec fn per_dirs(f: Seq<char>, dirs: Seq<Seq<char>>) -> Seq<(Seq<char>, Seq<char>)>
    decreases dirs.len(),
{
    if dirs.len() == 0 {
        Seq::empty()
    } else {
        per_dirs(f, dirs.drop_last()).push(
            (f, spec_path_join(dirs.last(), spec_file_name(f))),
        )
    }
}

/// Every header file goes into every `.inc` search directory.
pub open spec fn cross_inc(files: Seq<Seq<char>>, dirs: Seq<Seq<char>>) -> Seq<
    (Seq<char>, Seq<char>),
>
    decreases files.len(),
{
    if files.len() == 0 {
        Seq::empty()
    } else {
        cross_inc(files.drop_last(), dirs) + per_dirs(files.last(), dirs)
    }
}

pub open spec fn omp_token() -> Seq<char> {
    seq!['o', 'm', 'p']
}

pub open spec fn component_token() -> Seq<char> {
    seq!['c', 'o', 'm', 'p', 'o', 'n', 'e', 'n', 't']
}

/// The name heuristic for a binary with no declared target: a name holding
/// `omp` or `component` goes to the components directory, anything else to
/// the plugins directory.
pub open spec fn component_like_name(name: Seq<char>) -> bool {
    seq_contains(lower(name), omp_token()) || seq_contains(lower(name), component_token())
}

/// Placement of untargeted binaries, each by its own name.
pub open spec fn auto_map(
    files: Seq<Seq<char>>,
    components: Seq<char>,
    plugins: Seq<char>,
) -> Seq<(Seq<char>, Seq<char>)>
    decreases files.len(),
{
    if files.len() == 0 {
        Seq::empty()
    } else {
        let f = files.last();
        let dir = if component_like_name(spec_file_name(f)) {
            components
        } else {
            plugins
        };
        auto_map(files.drop_last(), components, plugins).push(
            (f, spec_path_join(dir, spec_file_name(f))),
        )
    }
}

/// The binaries a components placement uses: the dedicated bucket when the
/// archive produced one, else the generic bucket.
pub open spec fn component_files(
    v: (Seq<Seq<char>>, Seq<Seq<char>>, Seq<Seq<char>>, Seq<Seq<char>>, Seq<Seq<char>>),
) -> Seq<Seq<char>> {
    if v.3.len() > 0 {
        v.3
    } else {
        v.1
    }
}

/// Likewise for a plugins placement.
pub open spec fn plugin_files(
    v: (Seq<Seq<char>>, Seq<Seq<char>>, Seq<Seq<char>>, Seq<Seq<char>>, Seq<Seq<char>>),
) -> Seq<Seq<char>> {
    if v.4.len() > 0 {
        v.4
    } else {
        v.1
    }
}

/// The whole placement plan: headers into every `.inc` directory, root
/// binaries into the workspace root, then the role binaries into the
/// requested directory — or, with no request, each untargeted binary by
/// the name heuristic.
pub open spec fn plan_spec(
    v: (Seq<Seq<char>>, Seq<Seq<char>>, Seq<Seq<char>>, Seq<Seq<char>>, Seq<Seq<char>>),
    target: Option<PackageTarget>,
    root: Seq<char>,
    components: Seq<char>,
    plugins: Seq<char>,
    inc_dirs: Seq<Seq<char>>,
) -> Seq<(Seq<char>, Seq<char>)> {
    cross_inc(v.0, inc_dirs) + dest_map(v.2, root) + (match target {
        Option::Some(PackageTarget::Components) => dest_map(component_files(v), components),
        Option::Some(PackageTarget::Plugins) => dest_map(plugin_files(v), plugins),
        Option::None => auto_map(component_files(v), components, plugins),
    })
}

fn component_like(name: &str) -> (r: bool)
    ensures
        r == component_like_name(name@),
{
    proof {
        reveal_strlit("omp");
        reveal_strlit("component");
        assert(lower("omp"@) =~= omp_token());
        assert(lower("component"@) =~= component_token());
    }
    str_contains_ci(name, "omp") || str_contains_ci(name, "component")
}

/// Where a binary with no declared target belongs, by its file name.
pub fn detect_binary_target(binary_path: &str) -> (r: PackageTarget)
    ensures
        r == (if component_like_name(spec_file_name(binary_path@)) {
            PackageTarget::Components
        } else {
            PackageTarget::Plugins
        }),
{
    let name = path_file_name(binary_path);
    if component_like(name.as_str()) {
        PackageTarget::Components
    } else {
        PackageTarget::Plugins
    }
}

fn push_dest(out: &mut Vec<CopyOp>, source: &String, dir: &str)
    ensures
        plan_view(final(out)@) == plan_view(old(out)@).push(
            (source@, spec_path_join(dir@, spec_file_name(source@))),
        ),
{
    let name = path_file_name(source.as_str());
    let dest = path_join(dir, name.as_str());
    out.push(CopyOp { source: source.clone(), dest });
    proof {
        assert(plan_view(out@) =~= plan_view(old(out)@).push(
            (source@, spec_path_join(dir@, spec_file_name(source@))),
        ));
    }
}

/// The placement plan for one downloaded package, per `plan_spec`.
pub fn plan_install_copies(
    files: &PackageFiles,
    target: Option<PackageTarget>,
    ws: &WorkspaceInfo,
    inc_dirs: &Vec<String>,
) -> (r: Vec<CopyOp>)
    ensures
        plan_view(r@) == plan_spec(
            files@,
            target,
            ws.root@,
            ws.components@,
            ws.plugins@,
            inc_dirs.deep_view(),
        ),
{
    let mut out: Vec<CopyOp> = Vec::new();
    let ghost v = files@;
    let ghost dirs = inc_dirs.deep_view();
    // headers into every search directory
    let mut i: usize = 0;
    proof {
        assert(v.0.take(0) =~= Seq::<Seq<char>>::empty());
        assert(plan_view(out@) =~= cross_inc(v.0.take(0), dirs));
    }
    while i < files.includes.len()
        invariant
            v == files@,
            dirs == inc_dirs.deep_view(),
            i <= files.includes@.len(),
            v.0.len() == files.includes@.len(),
            plan_view(out@) == cross_inc(v.0.take(i as int), dirs),
        decreases files.includes@.len() - i,
    {
        let f = &files.includes[i];
        proof {
            assert(v.0[i as int] == f@);
            assert(v.0.take(i + 1).drop_last() =~= v.0.take(i as int));
            assert(v.0.take(i + 1).last() == v.0[i as int]);
        }
        let mut d: usize = 0;
        proof {
            assert(dirs.take(0) =~= Seq::<Seq<char>>::empty());
            assert(plan_view(out@) + per_dirs(f@, dirs.take(0)) =~= plan_view(out@));
        }
        let ghost base = plan_view(out@);
        while d < inc_dirs.len()
            invariant
                v == files@,
                dirs == inc_dirs.deep_view(),
                dirs.len() == inc_dirs@.len(),
                d <= dirs.len(),
                i < files.includes@.len(),
                f == &files.includes@[i as int],
                f@ == v.0[i as int],
                plan_view(out@) == base + per_dirs(f@, dirs.take(d as int)),
            decreases dirs.len() - d,
        {
            proof {
                assert(dirs[d as int] == inc_dirs@[d as int]@);
                assert(dirs.take(d + 1).drop_last() =~= dirs.take(d as int));
                assert(dirs.take(d + 1).last() == dirs[d as int]);
            }
            push_dest(&mut out, f, inc_dirs[d].as_str());
            proof {
                assert(plan_view(out@) =~= base + per_dirs(f@, dirs.take(d + 1)));
            }
            d += 1;
        }
        proof {
            assert(dirs.take(dirs.len() as int) =~= dirs);
            assert(plan_view(out@) =~= cross_inc(v.0.take(i + 1), dirs));
        }
        i += 1;
    }
    proof {
        assert(v.0.take(v.0.len() as int) =~= v.0);
    }
    // root binaries into the workspace root
    let ghost base_root = plan_view(out@);
    let mut k: usize = 0;
    proof {
        assert(v.2.take(0) =~= Seq::<Seq<char>>::empty());
        assert(plan_view(out@) =~= base_root + dest_map(v.2.take(0), ws.root@));
    }
    while k < files.root_binaries.len()
        invariant
            v == files@,
            k <= files.root_binaries@.len(),
            v.2.len() == files.root_binaries@.len(),
            plan_view(out@) == base_root + dest_map(v.2.take(k as int), ws.root@),
        decreases files.root_binaries@.len() - k,
    {
        let f = &files.root_binaries[k];
        proof {
            assert(v.2[k as int] == f@);
            assert(v.2.take(k + 1).drop_last() =~= v.2.take(k as int));
            assert(v.2.take(k + 1).last() == v.2[k as int]);
        }
        push_dest(&mut out, f, ws.root.as_str());
        proof {
            assert(plan_view(out@) =~= base_root + dest_map(v.2.take(k + 1), ws.root@));
        }
        k += 1;
    }
    proof {
        assert(v.2.take(v.2.len() as int) =~= v.2);
    }
    // role binaries, per the requested target or the name heuristic
    let chosen_component = files.component_binaries.len() > 0;
    let chosen_plugin = files.plugin_binaries.len() > 0;
    let ghost base_role = plan_view(out@);
    match target {
        Some(PackageTarget::Components) => {
            let bucket = if chosen_component {
                &files.component_binaries
            } else {
                &files.binaries
            };
            proof {
                assert(bucket.deep_view() == component_files(v));
            }
            copy_bucket_to(&mut out, bucket, ws.components.as_str());
            proof {
                assert(plan_view(out@) =~= plan_spec(
                    v,
                    target,
                    ws.root@,
                    ws.components@,
                    ws.plugins@,
                    dirs,
                ));
            }
        },
        Some(PackageTarget::Plugins) => {
            let bucket = if chosen_plugin {
                &files.plugin_binaries
            } else {
                &files.binaries
            };
            proof {
                assert(bucket.deep_view() == plugin_files(v));
            }
            copy_bucket_to(&mut out, bucket, ws.plugins.as_str());
            proof {
                assert(plan_view(out@) =~= plan_spec(
                    v,
                    target,
                    ws.root@,
                    ws.components@,
                    ws.plugins@,
                    dirs,
                ));
            }
        },
        None => {
            let bucket = if chosen_component {
                &files.component_binaries
            } else {
                &files.binaries
            };
            proof {
                assert(bucket.deep_view() == component_files(v));
            }
            let ghost bv = bucket.deep_view();
            let mut m: usize = 0;
            proof {
                assert(bv.take(0) =~= Seq::<Seq<char>>::empty());
                assert(plan_view(out@) =~= base_role + auto_map(
                    bv.take(0),
                    ws.components@,
                    ws.plugins@,
                ));
            }
            while m < bucket.len()
                invariant
                    bv == bucket.deep_view(),
                    bv.len() == bucket@.len(),
                    m <= bv.len(),
                    plan_view(out@) == base_role + auto_map(
                        bv.take(m as int),
                        ws.components@,
                        ws.plugins@,
                    ),
                decreases bv.len() - m,
            {
                let f = &bucket[m];
                proof {
                    assert(bv[m as int] == f@);
                    assert(bv.take(m + 1).drop_last() =~= bv.take(m as int));
                    assert(bv.take(m + 1).last() == bv[m as int]);
                }
                let dir_target = detect_binary_target(f.as_str());
                match dir_target {
                    PackageTarget::Components => push_dest(&mut out, f, ws.components.as_str()),
                    PackageTarget::Plugins => push_dest(&mut out, f, ws.plugins.as_str()),
                }
                proof {
                    assert(plan_view(out@) =~= base_role + auto_map(
                        bv.take(m + 1),
                        ws.components@,
                        ws.plugins@,
                    ));
                }
                m += 1;
            }
            proof {
                assert(bv.take(bv.len() as int) =~= bv);
                assert(plan_view(out@) =~= plan_spec(
                    v,
                    target,
                    ws.root@,
                    ws.components@,
                    ws.plugins@,
                    dirs,
                ));
            }
        },
    }
    out
}

/// The file each planned copy would place.
pub fn planned_files(plan: &Vec<CopyOp>) -> (r: Vec<String>)
    ensures
        r.deep_view() == plan_view(plan@).map_values(|p: (Seq<char>, Seq<char>)| p.1),
{
    let mut out: Vec<String> = Vec::new();
    let mut i: usize = 0;
    while i < plan.len()
        invariant
            i <= plan@.len(),
            out@.len() == i,
            forall|j: int| 0 <= j < i ==> out@[j]@ == (#[trigger] plan@[j])@.1,
        decreases plan@.len() - i,
    {
        out.push(plan[i].dest.clone());
        i += 1;
    }
    proof {
        assert(out.deep_view() =~= plan_view(plan@).map_values(|p: (Seq<char>, Seq<char>)| p.1));
    }
    out
}

fn copy_bucket_to(out: &mut Vec<CopyOp>, bucket: &Vec<String>, dir: &str)
    ensures
        plan_view(final(out)@) == plan_view(old(out)@) + dest_map(bucket.deep_view(), dir@),
{
    let ghost bv = bucket.deep_view();
    let mut m: usize = 0;
    proof {
        assert(bv.take(0) =~= Seq::<Seq<char>>::empty());
        assert(plan_view(out@) + dest_map(bv.take(0), dir@) =~= plan_view(out@));
    }
    while m < bucket.len()
        invariant
            bv == bucket.deep_view(),
            bv.len() == bucket@.len(),
            m <= bv.len(),
            plan_view(out@) == plan_view(old(out)@) + dest_map(bv.take(m as int), dir@),
        decreases bv.len() - m,
    {
        let f = &bucket[m];
        proof {
            assert(bv[m as int] == f@);
            assert(bv.take(m + 1).drop_last() =~= bv.take(m as int));
            assert(bv.take(m + 1).last() == bv[m as int]);
        }
        push_dest(out, f, dir);
        proof {
            assert(plan_view(out@) =~= plan_view(old(out)@) + dest_map(bv.take(m + 1), dir@));
        }
        m += 1;
    }
    proof {
        assert(bv.take(bv.len() as int) =~= bv);
    }
}

/// The package name a repository identifier removal matches by: the part
/// after the last `/`, or the whole identifier when it has none.
pub fn package_name_of_repo(repo: &str) -> (r: String)
    ensures
        r@ == spec_tail_after_sep(repo@, false),
{
    tail_after_sep(repo, false)
}

/// A removal takes a `.inc` file whose name holds the package name,
/// case-insensitively.
pub open spec fn removal_inc_match(name: Seq<char>, pkg: Seq<char>) -> bool {
    seq_contains(lower(name), lower(pkg)) && seq_ends_with(name, inc_suffix())
}

/// A removal takes any binary-directory file whose name holds the package
/// name, case-insensitively.
pub open spec fn removal_bin_match(name: Seq<char>, pkg: Seq<char>) -> bool {
    seq_contains(lower(name), lower(pkg))
}

pub fn should_remove_inc(file_name: &str, package_name: &str) -> (r: bool)
    ensures
        r == removal_inc_match(file_name@, package_name@),
{
    proof {
        reveal_strlit(".inc");
        assert((".inc"@) =~= inc_suffix());
    }
    str_contains_ci(file_name, package_name) && str_ends_with(file_name, ".inc")
}

pub fn should_remove_binary(file_name: &str, package_name: &str) -> (r: bool)
    ensures
        r == removal_bin_match(file_name@, package_name@),
{
    str_contains_ci(file_name, package_name)
}

/// The members of a directory listing that a removal selects, in order.
pub open spec fn removal_selection(
    names: Seq<Seq<char>>,
    pkg: Seq<char>,
    inc_only: bool,
) -> Seq<Seq<char>>
    decreases names.len(),
{
    if names.len() == 0 {
        names
    } else {
        let prev = removal_selection(names.drop_last(), pkg, inc_only);
        let hit = if inc_only {
            removal_inc_match(names.last(), pkg)
        } else {
            removal_bin_match(names.last(), pkg)
        };
        if hit {
            prev.push(names.last())
        } else {
            prev
        }
    }
}

/// Selects from a directory listing the files a removal deletes.
pub fn select_removals(names: &Vec<String>, package_name: &str, inc_only: bool) -> (r: Vec<String>)
    ensures
        r.deep_view() == removal_selection(names.deep_view(), package_name@, inc_only),
{
    let mut out: Vec<String> = Vec::new();
    let ghost nv = names.deep_view();
    let mut i: usize = 0;
    proof {
        assert(nv.take(0) =~= Seq::<Seq<char>>::empty());
        assert(out.deep_view() =~= removal_selection(nv.take(0), package_name@, inc_only));
    }
    while i < names.len()
        invariant
            nv == names.deep_view(),
            nv.len() == names@.len(),
            i <= nv.len(),
            out.deep_view() == removal_selection(nv.take(i as int), package_name@, inc_only),
        decreases nv.len() - i,
    {
        proof {
            assert(nv[i as int] == names@[i as int]@);
            assert(nv.take(i + 1).drop_last() =~= nv.take(i as int));
            assert(nv.take(i + 1).last() == nv[i as int]);
        }
        let hit = if inc_only {
            should_remove_inc(names[i].as_str(), package_name)
        } else {
            should_remove_binary(names[i].as_str(), package_name)
        };
        if hit {
            out.push(names[i].clone());
            proof {
                assert(out.deep_view() =~= removal_selection(
                    nv.take(i + 1),
                    package_name@,
                    inc_only,
                ));
            }
        }
        i += 1;
    }
    proof {
        assert(nv.take(nv.len() as int) =~= nv);
    }
    out
}

/// The constraint an install request resolves with: the given text, or
/// match-anything when none was given.
pub fn effective_constraint(version_spec: Option<&str>) -> (r: Result<
    VersionConstraint,
    OpenCliError,
>)
    ensures
        match version_spec {
            Option::Some(s) => constraint_parse_post(s@, r),
            Option::None => r matches Ok(c) && c is Any,
        },
{
    match version_spec {
        Some(s) => VersionConstraint::parse(s),
        None => Ok(VersionConstraint::Any),
    }
}

} // verus!
