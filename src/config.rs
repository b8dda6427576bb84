//! The settings a run is made with.

use vstd::prelude::*;

use crate::cap::Severity;
use crate::output::OutputFormat;

verus! {

/// The settings of a run: where alerts come from, what to keep, and where
/// the output goes. Paths are kept as text.
#[derive(Clone, Debug)]
pub struct Args {
    /// Logging verbosity, from 0 to 3.
    pub verbose: u8,
    pub quiet: bool,
    /// Feed URLs.
    pub cap: Vec<String>,
    /// The least severity to report.
    pub severity: Severity,
    pub boundaries: String,
    pub outlines: String,
    pub cache_db: String,
    pub format: OutputFormat,
    pub print: bool,
    pub file: Option<String>,
    pub image_height: u32,
    pub image_width: u32,
    pub facebook_token: Option<String>,
    pub facebook_thread: Option<String>,
    pub discord_webhook_url: Option<String>,
}

impl Args {
    /// The settings a run has when nothing is given: minor alerts and up,
    /// boundaries in `_boundaries`, outlines in `_outlines`, the cache in
    /// `_cache`, a text-and-map output of at most 512 by 512 pixels.
    pub fn defaults() -> (r: Args)
        ensures
            r.severity == Severity::Minor,
            r.format == OutputFormat::ImageMap,
            r.image_width == 512 && r.image_height == 512,
            r.boundaries@ == "_boundaries"@,
            r.outlines@ == "_outlines"@,
            r.cache_db@ == "_cache"@,
            r.cap@.len() == 0,
            r.verbose == 0 && !r.quiet && !r.print,
            r.file is None,
            r.facebook_token is None && r.facebook_thread is None && r.discord_webhook_url is None,
    {
        Args {
            verbose: 0,
            quiet: false,
            cap: Vec::new(),
            severity: Severity::Minor,
            boundaries: String::from_str("_boundaries"),
            outlines: String::from_str("_outlines"),
            cache_db: String::from_str("_cache"),
            format: OutputFormat::ImageMap,
            print: false,
            file: None,
            image_height: 512,
            image_width: 512,
            facebook_token: None,
            facebook_thread: None,
            discord_webhook_url: None,
        }
    }
}

} // verus!
