//! The one decision of the scroll bar widget: which background it shows.

use vstd::prelude::*;

verus! {

/// Whether the pointer is over the scroll bar.
#[derive(Clone, Copy, Debug, PartialEq, Eq, Structural)]
pub enum ScrollBarStatus {
    /// The pointer is elsewhere.
    Idle,
    /// The pointer is over the scroll bar.
    Hovering,
}

/// Whether the scroll bar shows the background of its theme.
pub open spec fn shows_themed(status: ScrollBarStatus, clicking_scrollbar: bool) -> bool {
    clicking_scrollbar || status is Hovering
}

/// The background of the scroll bar: that of the theme while the bar is
/// dragged or the pointer is over it, and none otherwise.
pub fn scroll_bar_background<'a>(
    status: ScrollBarStatus,
    clicking_scrollbar: bool,
    themed: &'a str,
) -> (background: &'a str)
    ensures
        background@ == if shows_themed(status, clicking_scrollbar) {
            themed@
        } else {
            "transparent"@
        },
{
    if clicking_scrollbar {
        themed
    } else {
        match status {
            ScrollBarStatus::Hovering => themed,
            ScrollBarStatus::Idle => "transparent",
        }
    }
}

} // verus!
