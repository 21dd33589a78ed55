//! The rules that a configuration must meet before any device is polled.
use vstd::prelude::*;
use crate::backend::BackendInfluxDB;
use crate::device::SourceDevice;

verus! {

/// The sources and the targets of one run.
#[derive(Clone, Debug)]
pub struct Config {
    pub sources: Vec<SourceDevice>,
    pub targets: Vec<BackendInfluxDB>,
}

/// Where the configuration comes from.
#[derive(Clone, Copy, Debug, PartialEq, Eq, Structural)]
pub enum ConfigChannel {
    /// Both lists given as arguments (or their environment variables).
    Arguments,
    /// The configuration file.
    File,
}

#[derive(Clone, Copy, Debug, PartialEq, Eq, Structural)]
pub enum ConfigError {
    /// One list was given as an argument and the other was not.
    Partial,
    NoSources,
    NoTargets,
}

/// Arguments are all or nothing: both lists, or neither and then the file.
pub fn choose_channel(has_sources: bool, has_targets: bool) -> (r: Result<
    ConfigChannel,
    ConfigError,
>)
    ensures
        has_sources && has_targets ==> r == Ok::<ConfigChannel, ConfigError>(
            ConfigChannel::Arguments,
        ),
        !has_sources && !has_targets ==> r == Ok::<ConfigChannel, ConfigError>(
            ConfigChannel::File,
        ),
        has_sources != has_targets ==> r == Err::<ConfigChannel, ConfigError>(
            ConfigError::Partial,
        ),
{
    if has_sources && has_targets {
        Ok(ConfigChannel::Arguments)
    } else if !has_sources && !has_targets {
        Ok(ConfigChannel::File)
    } else {
        Err(ConfigError::Partial)
    }
}

impl Config {
    /// Accepts the configuration where both lists are non-empty.
    pub fn validate(self) -> (r: Result<Config, ConfigError>)
        ensures
            self.sources@.len() == 0 ==> r == Err::<Config, ConfigError>(ConfigError::NoSources),
            self.sources@.len() > 0 && self.targets@.len() == 0 ==> r == Err::<
                Config,
                ConfigError,
            >(ConfigError::NoTargets),
            self.sources@.len() > 0 && self.targets@.len() > 0 ==> r == Ok::<Config, ConfigError>(
                self,
            ),
    {
        if self.sources.len() == 0 {
            return Err(ConfigError::NoSources);
        }
        if self.targets.len() == 0 {
            return Err(ConfigError::NoTargets);
        }
        Ok(self)
    }
}

} // verus!
