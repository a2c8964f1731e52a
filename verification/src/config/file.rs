//! The text of the configuration file.

use vstd::prelude::*;
use vstd::string::*;

verus! {

/// The comment at the top of a configuration file that the agent writes.
pub open spec fn header() -> Seq<char> {
    "# Rustiferin configuration.\n# Missing fields fall back to defaults; see README for the full schema.\n# LED order = order of `led_matrix.zones`; reorder this array to remap.\n"@
}

/// The text of a fresh configuration file: the comment, then the settings.
pub fn default_file(yaml: &str) -> (text: String)
    ensures
        text@ == header() + yaml@,
{
    let mut text: String =
        "# Rustiferin configuration.\n# Missing fields fall back to defaults; see README for the full schema.\n# LED order = order of `led_matrix.zones`; reorder this array to remap.\n".to_owned();
    text.append(yaml);
    text
}

} // verus!
