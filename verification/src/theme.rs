//! Light and dark appearance.

use crate::bars::Theme;
use crate::text::same;
use vstd::prelude::*;

verus! {

#[derive(Debug, Clone, Copy, PartialEq, Eq, Structural)]
pub enum Appearance {
    Light,
    Dark,
}

/// The name of the dark appearance.
pub const DARK_AQUA: &'static str = "NSAppearanceNameDarkAqua";

/// The background of an empty bar.
pub open spec fn background(a: Appearance) -> Seq<u8> {
    match a {
        Appearance::Light => seq![0xE5, 0xE5, 0xE7, 0xFF],
        Appearance::Dark => seq![0x3A, 0x3A, 0x3C, 0xFF],
    }
}

impl Appearance {
    /// The appearance with the name that matches best; light where there is no
    /// match.
    pub fn detect(best_match: Option<&str>) -> (r: Appearance)
        ensures
            r == match best_match {
                Some(name) => if name@ == "NSAppearanceNameDarkAqua"@ {
                    Appearance::Dark
                } else {
                    Appearance::Light
                },
                None => Appearance::Light,
            },
    {
        match best_match {
            Some(name) => if same(name, DARK_AQUA) {
                Appearance::Dark
            } else {
                Appearance::Light
            },
            None => Appearance::Light,
        }
    }

    pub fn theme(self) -> (r: Theme)
        ensures
            r.empty_bg@ == background(self),
    {
        let empty_bg: [u8; 4] = match self {
            Appearance::Light => [0xE5, 0xE5, 0xE7, 0xFF],
            Appearance::Dark => [0x3A, 0x3A, 0x3C, 0xFF],
        };
        assert(empty_bg@ =~= background(self));
        Theme { empty_bg }
    }
}

} // verus!
