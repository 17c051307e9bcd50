//! Configuration data types shared with the dock's settings layer, and the
//! plain timestamp the profile store records.

use vstd::prelude::*;
use crate::text::{dec_str_nat, u64_to_string};

verus! {

/// Where the dock sits on the screen.
#[derive(Clone, Copy, PartialEq, Eq, Structural, Debug)]
pub enum DockPosition {
    Left,
    Right,
    Top,
    Bottom,
}

impl Default for DockPosition {
    /// The dock starts at the left edge.
    fn default() -> (r: Self)
        ensures
            r == DockPosition::Left,
    {
        DockPosition::Left
    }
}

/// One pinned application entry.
pub struct PinnedApp {
    /// Display name of the application.
    pub name: String,
    /// Icon name from the theme, or a path to an icon file.
    pub icon: String,
    /// Command to execute when clicked.
    pub command: String,
    /// Optional desktop-file path for richer integration.
    pub desktop_file: Option<String>,
}

/// Metadata of one saved dock profile.
pub struct ProfileMeta {
    pub name: String,
    pub description: Option<String>,
    pub icon: Option<String>,
    /// Unix seconds at creation, as decimal text.
    pub created_at: String,
    /// Unix seconds at last use, as decimal text.
    pub last_used: Option<String>,
}

/// The theme preference: fixed light or dark, or following the system.
#[derive(Clone, Copy, PartialEq, Eq, Structural, Debug)]
pub enum ThemeMode {
    Light,
    Dark,
    System,
}

/// Relies on std::time::SystemTime::now and duration_since: the seconds
/// since the Unix epoch, zero when the clock stands before it.
#[verifier::external_body]
fn now_unix_seconds() -> u64 {
    std::time::SystemTime::now().duration_since(std::time::UNIX_EPOCH).unwrap_or_default().as_secs()
}

/// The current time as decimal Unix seconds — the timestamp format the
/// profile store records.
pub fn chrono_lite_now() -> (r: String)
    ensures
        exists|n: u64| r@ == dec_str_nat(n as nat),
{
    let secs = now_unix_seconds();
    let r = u64_to_string(secs);
    proof {
        assert(r@ == dec_str_nat(secs as nat));
    }
    r
}

} // verus!
