//! Orchestration core of an Android skin-package builder: resource priority
//! and overlay classification, dependency resolution between build
//! configurations, the content caches used for incremental builds, the
//! per-configuration compile and link plan, and the build scheduler.
//!
//! Paths are `/`-separated strings. Reading files, running the resource
//! compiler and writing archives are left to the caller, which hands the
//! results to the functions here.

pub mod aapt2;
pub mod aar;
pub mod builder;
pub mod cache;
pub mod dependency;
pub mod priority;
pub mod scheduler;
pub mod text;
pub mod types;

pub use cache::{BuildCache, CacheEntry, CommonDependencyCache, DirCacheEntry};
pub use dependency::{
    extract_common_dependencies, group_configs_by_dependencies, CommonDependency, ConfigWithIndex,
    DependencyError,
};
pub use priority::{ResourceInfo, ResourcePriority, ResourcePriorityTracker};
pub use types::{
    AarInfo, AppConfig, BuildConfig, BuildResult, CompileResult, ConfigError, FlavorConfig, LinkResult,
    MultiAppConfig,
};
