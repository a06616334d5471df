use opencli::package::downloader::{
    asset_action, classify_entries, classify_path, find_matching_release, is_binary_file,
    is_inc_file, parse_repo, AssetAction, BinaryRole, GitHubAsset, GitHubRelease, PackageFiles,
};
use opencli::package::version::VersionConstraint;
use opencli::result::OpenCliError;

#[test]
fn component_directory_classifies_component() {
    assert_eq!(classify_path("components/x.so"), BinaryRole::Component);
}

#[test]
fn plugin_directory_classifies_plugin() {
    assert_eq!(classify_path("plugins/x.so"), BinaryRole::Plugin);
    assert_eq!(classify_path("a/plugin/x.so"), BinaryRole::Plugin);
}

#[test]
fn amx_name_is_root_regardless_of_path() {
    assert_eq!(classify_path("components/amxcore.so"), BinaryRole::Root);
    assert_eq!(classify_path("deep/dir/LibFoo.dll"), BinaryRole::Root);
}

#[test]
fn bare_binary_is_generic() {
    assert_eq!(classify_path("x.so"), BinaryRole::Generic);
    assert_eq!(classify_path("misc/thing.dll"), BinaryRole::Generic);
}

#[test]
fn classification_is_case_insensitive_on_directories() {
    assert_eq!(classify_path("Components/x.so"), BinaryRole::Component);
    assert_eq!(classify_path("PLUGINS/x.so"), BinaryRole::Plugin);
}

#[test]
fn asset_actions_by_suffix() {
    assert!(matches!(asset_action("pkg.zip"), AssetAction::ExtractZip));
    assert!(matches!(asset_action("pkg.tar.gz"), AssetAction::ExtractTarGz));
    assert!(matches!(asset_action("pkg.tgz"), AssetAction::ExtractTarGz));
    assert!(matches!(asset_action("pkg.rar"), AssetAction::UnsupportedArchive));
    assert!(matches!(asset_action("pkg.inc"), AssetAction::TakeInc));
    assert!(matches!(asset_action("pkg.so"), AssetAction::TakeBinary));
    assert!(matches!(asset_action("pkg.dylib"), AssetAction::TakeBinary));
    assert!(matches!(asset_action("README.md"), AssetAction::Skip));
}

#[test]
fn name_predicates() {
    assert!(is_inc_file("a.inc"));
    assert!(!is_inc_file("a.inc.txt"));
    assert!(is_binary_file("a.dll"));
    assert!(is_binary_file("a.so"));
    assert!(!is_binary_file("a.txt"));
}

#[test]
fn classify_entries_fills_buckets_with_destinations() {
    let entries = vec![
        String::from("plugins/pkg.so"),
        String::from("inc/pkg.inc"),
        String::from("components/comp.dll"),
        String::from("notes.txt"),
        String::from("loose.so"),
    ];
    let files: PackageFiles = classify_entries("/tmp/scratch", &entries);
    assert_eq!(files.includes, vec![String::from("/tmp/scratch/inc/pkg.inc")]);
    assert_eq!(files.plugin_binaries, vec![String::from("/tmp/scratch/plugins/pkg.so")]);
    assert_eq!(files.component_binaries, vec![String::from("/tmp/scratch/components/comp.dll")]);
    assert_eq!(files.binaries, vec![String::from("/tmp/scratch/loose.so")]);
    assert!(files.root_binaries.is_empty());
    assert!(!files.is_empty());
}

#[test]
fn empty_entry_list_gives_empty_buckets() {
    let entries: Vec<String> = Vec::new();
    let files = classify_entries("/tmp/scratch", &entries);
    assert!(files.is_empty());
}

#[test]
fn merge_appends_every_bucket() {
    let mut a = classify_entries("/d", &vec![String::from("plugins/one.so")]);
    let b = classify_entries("/d", &vec![String::from("plugins/two.so")]);
    a.merge(b);
    assert_eq!(
        a.plugin_binaries,
        vec![String::from("/d/plugins/one.so"), String::from("/d/plugins/two.so")]
    );
}

#[test]
fn parse_repo_splits_owner_and_name() {
    let (owner, name) = parse_repo("openmultiplayer/omp-stdlib").unwrap();
    assert_eq!(owner, "openmultiplayer");
    assert_eq!(name, "omp-stdlib");
}

#[test]
fn parse_repo_rejects_bad_shapes() {
    assert!(matches!(parse_repo("noslash"), Err(OpenCliError::Config(_))));
    assert!(matches!(parse_repo("a/b/c"), Err(OpenCliError::Config(_))));
    assert!(matches!(parse_repo("/name"), Err(OpenCliError::Config(_))));
    assert!(matches!(parse_repo("owner/"), Err(OpenCliError::Config(_))));
}

#[test]
fn find_matching_release_takes_greatest_parseable_tag() {
    let releases = vec![
        GitHubRelease { tag_name: String::from("v1.0.0"), assets: Vec::new() },
        GitHubRelease {
            tag_name: String::from("v1.2.0"),
            assets: vec![GitHubAsset {
                name: String::from("pkg.zip"),
                download_url: String::from("https://host/pkg.zip"),
                size: 10,
            }],
        },
        GitHubRelease { tag_name: String::from("nightly"), assets: Vec::new() },
    ];
    let c = VersionConstraint::parse("*").unwrap();
    let rel = find_matching_release(&releases, &c).unwrap();
    assert_eq!(rel.tag_name, "v1.2.0");
    assert_eq!(rel.assets.len(), 1);
    assert_eq!(rel.assets[0].name, "pkg.zip");
}

#[test]
fn find_matching_release_not_found_when_nothing_parses() {
    let releases = vec![GitHubRelease { tag_name: String::from("nightly"), assets: Vec::new() }];
    let c = VersionConstraint::parse("*").unwrap();
    assert!(matches!(find_matching_release(&releases, &c), Err(OpenCliError::NotFound(_))));
}
