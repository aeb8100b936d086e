//! Core engine for a dependency lock file: parsing, serialization,
//! reconciliation ("freeze") and targeted version/reference bumps.

pub mod dependencies;
pub mod error;
pub mod lock;
pub mod settings;
pub mod text;

pub use dependencies::FrozenDependency;
pub use error::Error;
pub use lock::Lock;
pub use settings::Settings;
