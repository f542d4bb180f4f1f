//! The command surface of the controller.

use vstd::prelude::*;

verus! {

/// A parsed command line: one of the supported subcommands together with
/// its arguments.
pub enum Arguments {
    /// No subcommand was given; only a request for help may be present.
    Global { _help: bool },
    /// Cycle the focused tags in a direction, over an optional number of
    /// tags, optionally skipping unoccupied tags.
    CycleTags { direction: String, n_tags: Option<u8>, skip_unoccupied: bool },
    /// Focus the requested tags, or restore the previous ones when they
    /// are already focused.
    ToggleTags { to_tags: u32 },
    /// Focus the tags marked urgent.
    FocusUrgentTags,
    /// Set a view's tags and focus them.
    FocusSetViewTags { to_tags: u32 },
}

} // verus!
