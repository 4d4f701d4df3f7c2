//! How a picture is to be rendered.
use crate::single::Single;
use vstd::prelude::*;

verus! {

/// The two renderers.
#[derive(Clone, Copy, Debug, PartialEq, Eq, Structural)]
pub enum Mode {
    /// A brightness ramp of characters.
    Ascii,
    /// Half blocks, two pixels to a cell.
    Blocks,
}

/// What a user can ask of a rendering.
#[derive(Clone, Copy, Debug)]
pub struct RenderOpts {
    /// The renderer.
    pub mode: Mode,
    /// The width in characters, where it is not the terminal's.
    pub width: Option<u32>,
    /// No colour; the characters alone, whatever the mode.
    pub no_color: bool,
    /// Dark for bright.
    pub invert: bool,
    /// A factor on the brightness; one leaves it as it is.
    pub brightness: Single,
    /// Left for right.
    pub mirror: bool,
    /// Stretched over the whole terminal, whatever the picture's proportions.
    pub fill: bool,
}

/// The renderer that is used.
pub open spec fn mode_of(opts: RenderOpts) -> Mode {
    if opts.no_color {
        Mode::Ascii
    } else {
        opts.mode
    }
}

/// The renderer that is used.
pub fn effective_mode(opts: &RenderOpts) -> (mode: Mode)
    ensures
        mode == mode_of(*opts),
{
    if opts.no_color {
        Mode::Ascii
    } else {
        opts.mode
    }
}

} // verus!
