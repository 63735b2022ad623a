//! Layered TOML configuration: sources are interpolated, parsed and deep-merged
//! into one immutable table that callers query by section key.

pub mod builder;
pub mod config;
pub mod env;
pub mod error;
pub mod extract;
pub mod interpolation;
pub mod laws;
pub mod text;
pub mod token;
pub mod units;
pub mod value;

pub use builder::{ConfigBuilder, Event, Loader, Source, Stage, Step};
pub use config::Config;
pub use env::{expand_env_variables, Environment};
pub use error::ConfigError;
pub use extract::{ErrorResponse, ExtractConfig, ExtractOptionalConfig, ExtractValidatedConfig};
pub use interpolation::{FileContents, Interpolator};
pub use units::{ByteConfig, TimeConfig};
pub use value::{merge_tables, Table, Value};

use vstd::prelude::*;

verus! {

/// A type that is read from one top-level section of the configuration.
pub trait ConfigItem {
    /// The key of that section.
    fn key() -> &'static str;
}

} // verus!
