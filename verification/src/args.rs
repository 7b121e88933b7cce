//! The command line options of the scoreboard server.
use vstd::prelude::*;

verus! {

/// Command line options.
pub struct Args {
    /// Show the GUI.
    pub gui: bool,
    /// Port on which to bind the web server.
    pub port: i32,
    /// Host address on which to bind the web server.
    pub host: String,
    /// Path for files to import.
    pub import: Option<String>,
    /// Enable metrics.
    pub metrics: bool,
    /// The frequency in seconds that the autosave is triggered.
    pub autosave_frequency_s: Option<u32>,
}

impl Default for Args {
    /// The options when none is given: no GUI, port 8000, host `0.0.0.0`, nothing to
    /// import, no metrics, no autosave frequency.
    fn default() -> (r: Args)
        ensures
            !r.gui,
            r.port == 8000,
            r.host@ == "0.0.0.0"@,
            r.import is None,
            !r.metrics,
            r.autosave_frequency_s is None,
    {
        Args {
            gui: false,
            port: 8000,
            host: String::from_str("0.0.0.0"),
            import: None,
            metrics: false,
            autosave_frequency_s: None,
        }
    }
}

/// The addresses the server answers on, one per line.
pub fn urls() -> (r: String)
    ensures
        r@ == "0.0.0.0:8000\nlocalhost:8000"@,
{
    String::from_str("0.0.0.0:8000\nlocalhost:8000")
}

} // verus!
