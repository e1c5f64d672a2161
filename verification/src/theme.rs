//! The colours of the window.

use crate::proxy::{Direction, Level};
use crate::session::Status;
use vstd::prelude::*;

verus! {

/// A colour by its red, green and blue parts.
#[derive(Clone, Copy, Debug, PartialEq, Eq, Structural)]
pub struct Rgb {
    pub red: u8,
    pub green: u8,
    pub blue: u8,
}

/// What a colour is for.
#[derive(Clone, Copy, Debug, PartialEq, Eq, Structural)]
pub enum Accent {
    Download,
    Upload,
    Warning,
    Danger,
    Card,
    Border,
    ButtonText,
    Muted,
}

/// The colour with these parts.
pub open spec fn colour(red: u8, green: u8, blue: u8) -> Rgb {
    Rgb { red, green, blue }
}

impl Accent {
    /// The colour for this purpose.
    pub open spec fn shade(self) -> Rgb {
        match self {
            Accent::Download => colour(71, 211, 181),
            Accent::Upload => colour(126, 164, 255),
            Accent::Warning => colour(240, 196, 90),
            Accent::Danger => colour(235, 110, 110),
            Accent::Card => colour(24, 30, 41),
            Accent::Border => colour(40, 48, 62),
            Accent::ButtonText => colour(10, 18, 22),
            Accent::Muted => colour(140, 140, 140),
        }
    }

    /// The colour for this purpose.
    pub fn rgb(self) -> (rgb: Rgb)
        ensures
            rgb == self.shade(),
    {
        match self {
            Accent::Download => Rgb { red: 71, green: 211, blue: 181 },
            Accent::Upload => Rgb { red: 126, green: 164, blue: 255 },
            Accent::Warning => Rgb { red: 240, green: 196, blue: 90 },
            Accent::Danger => Rgb { red: 235, green: 110, blue: 110 },
            Accent::Card => Rgb { red: 24, green: 30, blue: 41 },
            Accent::Border => Rgb { red: 40, green: 48, blue: 62 },
            Accent::ButtonText => Rgb { red: 10, green: 18, blue: 22 },
            Accent::Muted => Rgb { red: 140, green: 140, blue: 140 },
        }
    }
}

/// The colour of a direction.
pub fn direction_color(direction: Direction) -> (rgb: Rgb)
    ensures
        rgb == match direction {
            Direction::Download => Accent::Download.shade(),
            Direction::Upload => Accent::Upload.shade(),
        },
{
    match direction {
        Direction::Download => Accent::Download.rgb(),
        Direction::Upload => Accent::Upload.rgb(),
    }
}

/// The colour of a status.
pub fn status_color(status: Status) -> (rgb: Rgb)
    ensures
        rgb == match status {
            Status::Offline => Accent::Muted.shade(),
            Status::Starting => Accent::Warning.shade(),
            Status::Stopping => Accent::Warning.shade(),
            Status::Listening => Accent::Download.shade(),
        },
{
    match status {
        Status::Offline => Accent::Muted.rgb(),
        Status::Starting | Status::Stopping => Accent::Warning.rgb(),
        Status::Listening => Accent::Download.rgb(),
    }
}

/// The colour of an event, where it is not that of ordinary text.
pub fn tint(level: Level) -> (rgb: Option<Rgb>)
    ensures
        rgb == match level {
            Level::Info => None,
            Level::Error => Some(Accent::Danger.shade()),
        },
{
    match level {
        Level::Info => None,
        Level::Error => Some(Accent::Danger.rgb()),
    }
}

} // verus!
