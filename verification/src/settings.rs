//! The rules that the settings of the client must keep.

use vstd::prelude::*;

verus! {

/// The render distance that is used where none is given, in chunks.
pub const DEFAULT_RENDER_DISTANCE: u32 = 16;

/// A rule that the settings break.
#[derive(Debug, Clone, Copy, PartialEq, Eq, Structural)]
pub enum SettingsIssue {
    /// The render distance is 0.
    RenderDistanceZero,
    /// The field of view is not between 30 and 120 degrees.
    FovOutOfRange,
    /// The limit of frames per second is 0.
    FpsLimitZero,
}

/// The first rule that the settings break, in the order of [`SettingsIssue`].
pub open spec fn first_issue(render_distance: u32, fov_in_range: bool, fps_limit: Option<u32>) -> Option<
    SettingsIssue,
> {
    if render_distance == 0 {
        Some(SettingsIssue::RenderDistanceZero)
    } else if !fov_in_range {
        Some(SettingsIssue::FovOutOfRange)
    } else if fps_limit == Some(0u32) {
        Some(SettingsIssue::FpsLimitZero)
    } else {
        None
    }
}

/// Checks the settings of the client: the render distance must not be 0, the
/// field of view must lie in its range, and a limit of frames per second, if
/// there is one, must not be 0.
pub fn check_client(render_distance: u32, fov_in_range: bool, fps_limit: Option<u32>) -> (result:
    Result<(), SettingsIssue>)
    ensures
        match first_issue(render_distance, fov_in_range, fps_limit) {
            Some(issue) => result == Err::<(), SettingsIssue>(issue),
            None => result is Ok,
        },
{
    if render_distance == 0 {
        return Err(SettingsIssue::RenderDistanceZero);
    }
    if !fov_in_range {
        return Err(SettingsIssue::FovOutOfRange);
    }
    match fps_limit {
        Some(fps) => {
            if fps == 0 {
                return Err(SettingsIssue::FpsLimitZero);
            }
        },
        None => {},
    }
    Ok(())
}

} // verus!
