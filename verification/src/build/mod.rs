//! The build configuration document and the declarative package spec.

pub mod config;

pub use config::Build;
pub use config::BuildArgs;
pub use config::BuildConfig;
pub use config::BuildIncludes;
pub use config::PackageEntry;
pub use config::PackageSpec;
pub use config::PackageTarget;
