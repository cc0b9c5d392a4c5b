//! The icons of the board and the HUD, by name.
use vstd::prelude::*;

verus! {

/// Icons drawn on cells and in the HUD.
#[derive(Clone, Copy, Debug, PartialEq, Eq, Structural)]
pub enum SweepIcon {
    Flag,
    Bomb,
    X,
    Smile,
    Frown,
    Grin,
    Lightbulb,
    Trophy,
    Timer,
    Info,
}

/// The asset path of each icon's SVG.
pub open spec fn icon_path(i: SweepIcon) -> Seq<char> {
    match i {
        SweepIcon::Flag => "icons/flag.svg"@,
        SweepIcon::Bomb => "icons/bomb.svg"@,
        SweepIcon::X => "icons/x.svg"@,
        SweepIcon::Smile => "icons/face-slightly-smiling.svg"@,
        SweepIcon::Frown => "icons/face-slightly-frowning.svg"@,
        SweepIcon::Grin => "icons/face-grinning.svg"@,
        SweepIcon::Lightbulb => "icons/lightbulb.svg"@,
        SweepIcon::Trophy => "icons/trophy.svg"@,
        SweepIcon::Timer => "icons/timer.svg"@,
        SweepIcon::Info => "icons/info.svg"@,
    }
}

impl SweepIcon {
    /// The asset path of the icon's SVG.
    pub fn path(self) -> (r: &'static str)
        ensures
            r@ == icon_path(self),
    {
        match self {
            SweepIcon::Flag => "icons/flag.svg",
            SweepIcon::Bomb => "icons/bomb.svg",
            SweepIcon::X => "icons/x.svg",
            SweepIcon::Smile => "icons/face-slightly-smiling.svg",
            SweepIcon::Frown => "icons/face-slightly-frowning.svg",
            SweepIcon::Grin => "icons/face-grinning.svg",
            SweepIcon::Lightbulb => "icons/lightbulb.svg",
            SweepIcon::Trophy => "icons/trophy.svg",
            SweepIcon::Timer => "icons/timer.svg",
            SweepIcon::Info => "icons/info.svg",
        }
    }
}

} // verus!
