//! The setting that turns spilling on.
use vstd::prelude::*;

verus! {

/// Where spilled rows go, and from when on an operator spills.
#[derive(Debug)]
pub struct SpillConfig {
    /// The directory of the transient files.
    pub dir: String,
    /// The bytes that an operator may hold in memory before it spills.
    pub threshold_bytes: usize,
}

impl Clone for SpillConfig {
    fn clone(&self) -> (r: SpillConfig)
        ensures
            r.dir@ == self.dir@,
            r.threshold_bytes == self.threshold_bytes,
    {
        SpillConfig { dir: self.dir.clone(), threshold_bytes: self.threshold_bytes }
    }
}

/// The spill setting of a process.
pub struct SpillSettings {
    config: Option<SpillConfig>,
}

impl SpillSettings {
    /// The directory and threshold in force; `None` where spilling is off.
    pub closed spec fn active(&self) -> Option<(Seq<char>, usize)> {
        match self.config {
            Some(c) => Some((c.dir@, c.threshold_bytes)),
            None => None,
        }
    }

    /// Spilling is off.
    pub fn new() -> (r: SpillSettings)
        ensures
            r.active() is None,
    {
        SpillSettings { config: None }
    }
}

/// What a configuration says.
pub open spec fn config_view(config: Option<SpillConfig>) -> Option<(Seq<char>, usize)> {
    match config {
        Some(c) => Some((c.dir@, c.threshold_bytes)),
        None => None,
    }
}

/// Turn spilling on with `Some`, or off with `None`.
pub fn set_spill_config(settings: &mut SpillSettings, config: Option<SpillConfig>)
    ensures
        final(settings).active() == config_view(config),
{
    settings.config = config;
}

/// The configuration in force, or `None` where spilling is off.
pub fn spill_config(settings: &SpillSettings) -> (r: Option<SpillConfig>)
    ensures
        config_view(r) == settings.active(),
{
    match &settings.config {
        Some(c) => Some(c.clone()),
        None => None,
    }
}

} // verus!
