use vstd::prelude::*;

verus! {

/// Why a configuration could not be built or a section could not be had.
#[derive(Debug)]
pub enum ConfigError {
    /// A required file source does not exist; the path.
    FileNotFound(String),
    /// A file source exists but could not be read.
    ReadError { message: String },
    /// A reference in a source could not be resolved and had no fallback.
    InterpolationError { message: String },
    /// No section has the key.
    KeyNotFound { key: String },
    /// A source is not well-formed TOML, or a section does not have the shape asked for.
    DeserializeError { message: String },
    /// A section was read but did not pass its validation.
    ValidationError { message: String },
    /// `build` was called on a builder with no sources.
    NoSourcesConfigured,
    /// The directory of the running program could not be found.
    ExeDirNotFound,
    /// A request carried no configuration.
    ExtensionError,
}

impl ConfigError {
    pub fn interpolation_error(message: String) -> (r: ConfigError)
        ensures
            r == (ConfigError::InterpolationError { message }),
    {
        ConfigError::InterpolationError { message }
    }

    pub fn key_not_found(key: &str) -> (r: ConfigError)
        ensures
            r matches ConfigError::KeyNotFound { key: k } && k@ == key@,
    {
        ConfigError::KeyNotFound { key: key.to_owned() }
    }
}

} // verus!
