//! Environment detection: pick exactly one backend kind from session
//! markers. Compositor-specific markers win over the generic desktop-name
//! heuristics, because some environments set several markers at once; an
//! unknown session is a valid, permanent answer, not an error.

use vstd::prelude::*;
use crate::registry::DesktopEnvironment;
use crate::text::{contains_seq, lower_seq, contains_lower};

verus! {

/// The decision: the Hyprland instance signature wins, then the Sway socket
/// variable, then a case-insensitive scan of the desktop-name values for
/// "kde"/"plasma", then for "gnome"; otherwise the session stays unknown.
pub open spec fn spec_detect(
    hyprland_signature: bool,
    sway_socket: bool,
    current_desktop: Seq<char>,
    session_desktop: Seq<char>,
) -> DesktopEnvironment {
    if hyprland_signature {
        DesktopEnvironment::Hyprland
    } else if sway_socket {
        DesktopEnvironment::Sway
    } else if contains_seq(lower_seq(current_desktop), "kde"@) || contains_seq(
        lower_seq(current_desktop),
        "plasma"@,
    ) || contains_seq(lower_seq(session_desktop), "kde"@) || contains_seq(
        lower_seq(session_desktop),
        "plasma"@,
    ) {
        DesktopEnvironment::KDE
    } else if contains_seq(lower_seq(current_desktop), "gnome"@) || contains_seq(
        lower_seq(session_desktop),
        "gnome"@,
    ) {
        DesktopEnvironment::GNOME
    } else {
        DesktopEnvironment::Unknown
    }
}

/// Choose the backend kind for this session. `hyprland_signature` and
/// `sway_socket` say whether the compositor-specific variables are set;
/// `current_desktop` and `session_desktop` carry the generic desktop-name
/// values (empty when unset).
pub fn detect_environment(
    hyprland_signature: bool,
    sway_socket: bool,
    current_desktop: &str,
    session_desktop: &str,
) -> (r: DesktopEnvironment)
    ensures
        r == spec_detect(hyprland_signature, sway_socket, current_desktop@, session_desktop@),
{
    proof {
        reveal_strlit("kde");
        reveal_strlit("plasma");
        reveal_strlit("gnome");
        assert(lower_seq("kde"@) =~= "kde"@);
        assert(lower_seq("plasma"@) =~= "plasma"@);
        assert(lower_seq("gnome"@) =~= "gnome"@);
    }
    if hyprland_signature {
        return DesktopEnvironment::Hyprland;
    }
    if sway_socket {
        return DesktopEnvironment::Sway;
    }
    if contains_lower(current_desktop, "kde") || contains_lower(current_desktop, "plasma")
        || contains_lower(session_desktop, "kde") || contains_lower(session_desktop, "plasma") {
        return DesktopEnvironment::KDE;
    }
    if contains_lower(current_desktop, "gnome") || contains_lower(session_desktop, "gnome") {
        return DesktopEnvironment::GNOME;
    }
    DesktopEnvironment::Unknown
}

} // verus!
