//! The package-management pipeline: version resolution, artifact
//! classification, workspace layout, the installation lock, and
//! reconciliation of the legacy plugin configuration.

pub mod config_manager;
pub mod downloader;
pub mod lock;
pub mod manager;
pub mod version;
pub mod workspace;

pub use config_manager::ConfigManager;
pub use lock::InstalledPackage;
pub use lock::PackageLock;
pub use workspace::WorkspaceDetector;
pub use workspace::WorkspaceInfo;
pub use downloader::GitHubAsset;
pub use downloader::GitHubRelease;
pub use downloader::PackageFiles;
pub use version::Version;
pub use version::VersionConstraint;
