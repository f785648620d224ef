//! Configuration: the encoding constant, and what cannot be combined with the encoding.
use crate::codec::{Codec, AN_CONSTANT_LIMIT};
use vstd::prelude::*;

verus! {

/// The constant that is used unless another is set.
pub const DEFAULT_AN_CONSTANT: u64 = 65521;

/// The code generators.
#[derive(Clone, Copy, Debug, PartialEq, Eq, Structural)]
pub enum Strategy {
    Cranelift,
    Winch,
}

/// The features that the encoding excludes.
#[derive(Clone, Copy, Debug, PartialEq, Eq, Structural)]
pub struct MaskedFeatures {
    pub simd: bool,
    pub relaxed_simd: bool,
    pub gc: bool,
    pub exceptions: bool,
    pub stack_switching: bool,
    pub shared_everything_threads: bool,
    pub component_model_async: bool,
}

impl MaskedFeatures {
    /// None of them.
    pub open spec fn none(self) -> bool {
        !self.simd && !self.relaxed_simd && !self.gc && !self.exceptions && !self.stack_switching
            && !self.shared_everything_threads && !self.component_model_async
    }
}

/// A configuration.
#[derive(Clone, Copy, Debug, PartialEq, Eq, Structural)]
pub struct Config {
    pub an_encoding: bool,
    pub an_constant: u64,
    pub strategy: Strategy,
    /// The features that were switched on explicitly.
    pub enabled: MaskedFeatures,
}

/// Why a configuration is refused.
#[derive(Clone, Copy, Debug, PartialEq, Eq, Structural)]
pub enum ConfigError {
    /// The constant is not in the supported range.
    InvalidConstant(u64),
    /// The code generator does not know of the encoding.
    WinchStrategy,
    /// A feature was switched on that the encoding excludes.
    MaskedFeature,
}

impl ConfigError {
    /// The text of the error.
    pub open spec fn text(self) -> Seq<char> {
        match self {
            ConfigError::InvalidConstant(_) => "AN-encoding requires 1 <= A < 2^24"@,
            ConfigError::WinchStrategy => "AN-encoding is not supported by Winch"@,
            ConfigError::MaskedFeature => "a wasm feature conflicts with AN-encoding"@,
        }
    }

    /// The text of the error.
    pub fn message(self) -> (r: &'static str)
        ensures
            r@ == self.text(),
    {
        match self {
            ConfigError::InvalidConstant(_) => "AN-encoding requires 1 <= A < 2^24",
            ConfigError::WinchStrategy => "AN-encoding is not supported by Winch",
            ConfigError::MaskedFeature => "a wasm feature conflicts with AN-encoding",
        }
    }
}

impl Config {
    /// The default configuration: no encoding.
    pub fn new() -> (c: Config)
        ensures
            c == (Config {
                an_encoding: false,
                an_constant: DEFAULT_AN_CONSTANT,
                strategy: Strategy::Cranelift,
                enabled: MaskedFeatures {
                    simd: false,
                    relaxed_simd: false,
                    gc: false,
                    exceptions: false,
                    stack_switching: false,
                    shared_everything_threads: false,
                    component_model_async: false,
                },
            }),
    {
        Config {
            an_encoding: false,
            an_constant: DEFAULT_AN_CONSTANT,
            strategy: Strategy::Cranelift,
            enabled: MaskedFeatures {
                simd: false,
                relaxed_simd: false,
                gc: false,
                exceptions: false,
                stack_switching: false,
                shared_everything_threads: false,
                component_model_async: false,
            },
        }
    }

    /// What building an engine comes to.
    pub open spec fn outcome(self) -> Result<Codec, ConfigError> {
        if self.an_constant == 0 || self.an_constant >= AN_CONSTANT_LIMIT {
            Err(ConfigError::InvalidConstant(self.an_constant))
        } else if self.an_encoding && self.strategy == Strategy::Winch {
            Err(ConfigError::WinchStrategy)
        } else if self.an_encoding && !self.enabled.none() {
            Err(ConfigError::MaskedFeature)
        } else if self.an_encoding {
            Ok(Codec { a: self.an_constant })
        } else {
            Ok(Codec { a: 1 })
        }
    }

    /// Checks the configuration. The encoding of the engine is that with the constant, or
    /// without encoding the identity.
    pub fn build(&self) -> (r: Result<Codec, ConfigError>)
        ensures
            r == self.outcome(),
            r matches Ok(c) ==> c.wf(),
    {
        if self.an_constant == 0 || self.an_constant >= AN_CONSTANT_LIMIT {
            return Err(ConfigError::InvalidConstant(self.an_constant));
        }
        if !self.an_encoding {
            return Ok(Codec { a: 1 });
        }
        match self.strategy {
            Strategy::Winch => {
                return Err(ConfigError::WinchStrategy);
            },
            Strategy::Cranelift => {},
        }
        let e: MaskedFeatures = self.enabled;
        if e.simd || e.relaxed_simd || e.gc || e.exceptions || e.stack_switching
            || e.shared_everything_threads || e.component_model_async {
            return Err(ConfigError::MaskedFeature);
        }
        Ok(Codec { a: self.an_constant })
    }
}

} // verus!
