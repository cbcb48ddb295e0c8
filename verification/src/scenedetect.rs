//! How scene changes are looked for.
use crate::command::{ArgView, CommandLine};
use vstd::prelude::*;

verus! {

/// Options determining how to run scene change detection.
#[derive(Debug, Clone, Copy, PartialEq, Eq, Structural)]
pub struct DetectionSettings {
    /// Compare pixel by pixel, which is fast, and not block by block.
    pub fast_analysis: bool,
    /// Leave out scene changes that are too close to each other.
    pub ignore_flashes: bool,
    /// How many frames to look ahead for flashes.
    pub lookahead_distance: usize,
    /// The most frames between two scene changes.
    pub max_scenecut_distance: Option<usize>,
    /// The fewest frames between two scene changes.
    pub min_scenecut_distance: Option<usize>,
}

/// How scene changes are looked for: fast, without flashes, five frames ahead, and between
/// twelve and two hundred frames apart.
pub fn detection_settings() -> (r: DetectionSettings)
    ensures
        r.fast_analysis,
        r.ignore_flashes,
        r.lookahead_distance == 5,
        r.max_scenecut_distance == Some(200usize),
        r.min_scenecut_distance == Some(12usize),
{
    DetectionSettings {
        fast_analysis: true,
        ignore_flashes: true,
        lookahead_distance: 5,
        max_scenecut_distance: Some(200),
        min_scenecut_distance: Some(12),
    }
}

/// The name of the program that plays a vapoursynth script.
pub const VSPIPE: &'static str = "vspipe";

/// The command that writes the frames of a vapoursynth script to standard output.
pub fn vspipe_command<P>(script: P) -> (r: CommandLine<P>)
    ensures
        r@ == seq![ArgView::Text("-y"@), ArgView::Path(script), ArgView::Text("-"@)],
{
    let mut command = CommandLine::new();
    command.text("-y");
    command.path(script);
    command.text("-");
    command
}

} // verus!
