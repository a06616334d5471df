use opencli::build::config::{
    Build, BuildConfig, BuildIncludes, PackageSpec, PackageTarget,
};
use opencli::package::downloader::{classify_entries, find_matching_release, GitHubAsset,
    GitHubRelease};
use opencli::package::lock::{InstalledPackage, PackageLock};
use opencli::package::manager::{
    detect_binary_target, effective_constraint, package_name_of_repo, plan_install_copies,
    planned_files, select_removals, should_remove_binary, should_remove_inc,
};
use opencli::package::workspace::WorkspaceDetector;
use opencli::result::OpenCliError;

fn sample_config() -> BuildConfig {
    BuildConfig {
        build: Build {
            entry_file: String::from("gamemode.pwn"),
            output_file: String::from("gamemode.amx"),
            compiler_version: String::from("v3.10.11"),
            includes: Some(BuildIncludes {
                paths: vec![String::from("/srv/inc"), String::from("/srv/qawno/inc")],
            }),
            args: None,
        },
        packages: Vec::new(),
    }
}

#[test]
fn default_document_fields() {
    let c = BuildConfig::default();
    assert_eq!(c.build.entry_file, "gamemode.pwn");
    assert_eq!(c.build.output_file, "gamemode.amx");
    assert_eq!(c.build.compiler_version, "v3.10.11");
    assert!(c.packages.is_empty());
    assert!(c.validate().is_ok());
    let inc = c.build.includes.unwrap();
    assert_eq!(inc.paths, vec![String::from("include"), String::from("qawno/include")]);
    let args = c.build.args.unwrap();
    assert_eq!(args.args.len(), 6);
}

#[test]
fn workspace_layout_under_root() {
    let det = WorkspaceDetector::new("/srv");
    let info = det.get_workspace_info();
    assert_eq!(info.root, "/srv");
    assert_eq!(info.components, "/srv/components");
    assert_eq!(info.plugins, "/srv/plugins");
    assert_eq!(
        det.required_dirs(),
        vec![
            String::from("/srv"),
            String::from("/srv/components"),
            String::from("/srv/plugins"),
        ]
    );
}

#[test]
fn end_to_end_resolution_and_placement() {
    // a registry with v1.0.0 and v1.2.0 resolves "*" to v1.2.0
    let releases = vec![
        GitHubRelease { tag_name: String::from("v1.0.0"), assets: Vec::new() },
        GitHubRelease {
            tag_name: String::from("v1.2.0"),
            assets: vec![GitHubAsset {
                name: String::from("pkg.zip"),
                download_url: String::from("https://host/pkg.zip"),
                size: 4,
            }],
        },
    ];
    let c = effective_constraint(Some("*")).unwrap();
    let rel = find_matching_release(&releases, &c).unwrap();
    assert_eq!(rel.tag_name, "v1.2.0");

    // the archive holds plugins/pkg.so and inc/pkg.inc
    let entries = vec![String::from("plugins/pkg.so"), String::from("inc/pkg.inc")];
    let files = classify_entries("/tmp/scratch", &entries);

    let det = WorkspaceDetector::new("/srv");
    let info = det.get_workspace_info();
    let inc_dirs = sample_config().get_include_paths();
    let plan = plan_install_copies(&files, Some(PackageTarget::Plugins), &info, &inc_dirs);

    let dests = planned_files(&plan);
    assert_eq!(
        dests,
        vec![
            String::from("/srv/inc/pkg.inc"),
            String::from("/srv/qawno/inc/pkg.inc"),
            String::from("/srv/plugins/pkg.so"),
        ]
    );

    // the lock records what was placed
    let mut lock = PackageLock::new();
    lock.upsert(InstalledPackage {
        repo: String::from("owner/pkg"),
        version: rel.tag_name.clone(),
        target: Some(PackageTarget::Plugins),
        files: dests,
    });
    let entry = lock.get("owner/pkg").unwrap();
    assert_eq!(entry.version, "v1.2.0");
    assert_eq!(entry.files.len(), 3);
}

#[test]
fn removal_matches_the_placed_files() {
    let pkg = package_name_of_repo("owner/pkg");
    assert_eq!(pkg, "pkg");

    // the listing of each target directory after the install above
    let inc_listing = vec![String::from("pkg.inc"), String::from("other.inc")];
    let plugin_listing = vec![String::from("pkg.so"), String::from("unrelated.so")];

    assert_eq!(
        select_removals(&inc_listing, pkg.as_str(), true),
        vec![String::from("pkg.inc")]
    );
    assert_eq!(
        select_removals(&plugin_listing, pkg.as_str(), false),
        vec![String::from("pkg.so")]
    );

    // and the declarative spec no longer holds the repository
    let mut config = sample_config();
    config.add_package("owner/pkg", PackageSpec::new_simple("*"));
    assert_eq!(config.get_packages().len(), 1);
    assert!(config.remove_package("owner/pkg"));
    assert!(config.get_packages().is_empty());
    assert!(!config.remove_package("owner/pkg"));
}

#[test]
fn redeclaring_a_repo_replaces_its_entry() {
    let mut config = sample_config();
    config.add_package("o/p", PackageSpec::new_simple("1.0.0"));
    config.add_package("o/p", PackageSpec::new_detailed("2.0.0", Some(PackageTarget::Plugins)));
    assert_eq!(config.get_packages().len(), 1);
    assert_eq!(config.get_packages()[0].spec.version(), "2.0.0");
}

#[test]
fn removal_match_is_loose_by_name() {
    assert!(should_remove_binary("chatlog.so", "chat"));
    assert!(should_remove_inc("Chat.inc", "chat"));
    assert!(!should_remove_inc("chat.so", "chat"));
    assert!(!should_remove_binary("stream.so", "chat"));
}

#[test]
fn untargeted_binaries_follow_the_name_heuristic() {
    assert_eq!(detect_binary_target("omp-timers.so"), PackageTarget::Components);
    assert_eq!(detect_binary_target("a/MyComponent.dll"), PackageTarget::Components);
    assert_eq!(detect_binary_target("streamer.so"), PackageTarget::Plugins);
}

#[test]
fn untargeted_plan_places_each_binary_by_name() {
    let entries = vec![String::from("omp-gps.so"), String::from("streamer.so")];
    let files = classify_entries("/t", &entries);
    let det = WorkspaceDetector::new("/srv");
    let info = det.get_workspace_info();
    let inc_dirs: Vec<String> = Vec::new();
    let plan = plan_install_copies(&files, None, &info, &inc_dirs);
    let dests = planned_files(&plan);
    assert_eq!(
        dests,
        vec![
            String::from("/srv/components/omp-gps.so"),
            String::from("/srv/plugins/streamer.so"),
        ]
    );
}

#[test]
fn targeted_plan_falls_back_to_generic_bucket() {
    let entries = vec![String::from("loose.so")];
    let files = classify_entries("/t", &entries);
    let det = WorkspaceDetector::new("/srv");
    let info = det.get_workspace_info();
    let inc_dirs: Vec<String> = Vec::new();
    let plan = plan_install_copies(&files, Some(PackageTarget::Components), &info, &inc_dirs);
    let dests = planned_files(&plan);
    assert_eq!(dests, vec![String::from("/srv/components/loose.so")]);
}

#[test]
fn effective_constraint_defaults_to_any() {
    let c = effective_constraint(None).unwrap();
    let vs = vec![opencli::package::version::Version::parse("0.1").unwrap()];
    assert!(c.latest_matching(&vs).is_some());
}

#[test]
fn validate_reports_first_empty_field() {
    let mut config = sample_config();
    assert!(config.validate().is_ok());
    config.build.entry_file = String::new();
    assert!(matches!(config.validate(), Err(OpenCliError::Config(_))));
}

#[test]
fn lock_upsert_replaces_and_remove_deletes() {
    let mut lock = PackageLock::new();
    lock.upsert(InstalledPackage {
        repo: String::from("o/p"),
        version: String::from("1.0"),
        target: None,
        files: Vec::new(),
    });
    lock.upsert(InstalledPackage {
        repo: String::from("o/p"),
        version: String::from("2.0"),
        target: None,
        files: Vec::new(),
    });
    assert_eq!(lock.installed.len(), 1);
    assert_eq!(lock.get("o/p").unwrap().version, "2.0");
    assert!(lock.remove("o/p"));
    assert!(lock.get("o/p").is_none());
    assert!(!lock.remove("o/p"));
}

#[test]
fn error_constructors_keep_their_message() {
    let e = OpenCliError::not_found(String::from("missing"));
    assert!(matches!(e, OpenCliError::NotFound(_)));
    assert_eq!(e.message(), "missing");
    let e2 = OpenCliError::server(String::from("down"));
    assert!(matches!(e2, OpenCliError::Server(_)));
    let e3 = OpenCliError::process(String::from("boom"));
    assert!(matches!(e3, OpenCliError::Process(_)));
    let e4 = OpenCliError::config(String::from("bad"));
    assert!(matches!(e4, OpenCliError::Config(_)));
}
