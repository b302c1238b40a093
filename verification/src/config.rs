//! What the operator asks of a run.

use crate::error::{StrErr, NO_REQUESTS_ALLOWED};
use vstd::prelude::*;

verus! {

/// The upper limit of parallel requests where the operator names none.
pub const DEFAULT_REQUESTS: u32 = 20;

/// The settings of a run.
#[derive(Debug, Clone, Copy, PartialEq, Eq)]
pub struct RunConfig {
    /// Upper limit of parallel requests.
    pub requests: usize,
    /// Whether outcomes are appended to a log file.
    pub log_to_file: bool,
    /// Whether outcomes are printed as they arrive.
    pub log_to_stdout: bool,
    /// Whether a progress bar is shown.
    pub progress_bar: bool,
}

impl RunConfig {
    /// The settings that the options of the operator come to.
    ///
    /// Without a limit of parallel requests the limit is
    /// [`DEFAULT_REQUESTS`]; a limit of zero is refused. A progress bar
    /// implies that outcomes are not printed.
    pub fn from_options(
        requests: Option<u32>,
        has_logfile: bool,
        no_log_to_stdout: bool,
        progress_bar: bool,
    ) -> (made: Result<RunConfig, StrErr>)
        ensures
            made is Err <==> requests == Some(0u32),
            made matches Err(err) ==> err@ == NO_REQUESTS_ALLOWED@,
            made matches Ok(config) ==> {
                &&& config.requests == match requests {
                    Some(limit) => limit,
                    None => DEFAULT_REQUESTS,
                }
                &&& config.log_to_file == has_logfile
                &&& config.log_to_stdout == !(no_log_to_stdout || progress_bar)
                &&& config.progress_bar == progress_bar
            },
    {
        let limit: u32 = match requests {
            Some(limit) => limit,
            None => DEFAULT_REQUESTS,
        };
        if limit == 0 {
            return Err(StrErr::new(NO_REQUESTS_ALLOWED));
        }
        Ok(
            RunConfig {
                requests: limit as usize,
                log_to_file: has_logfile,
                log_to_stdout: !(no_log_to_stdout || progress_bar),
                progress_bar,
            },
        )
    }
}

} // verus!
