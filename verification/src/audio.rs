use vstd::prelude::*;

verus! {

/// The shapes of wave that the oscillator can play.
#[derive(Clone, Copy, Debug, PartialEq, Eq, Structural)]
pub enum Waveform {
    Sine,
    Square,
    Saw,
    Triangle,
    WhatDis,
}

/// The waveform played in a given slot of the round of five; a slot outside the round
/// plays a sine.
pub fn waveform_for_slot(slot: i32) -> (waveform: Waveform)
    ensures
        waveform == match slot {
            1 => Waveform::Saw,
            2 => Waveform::Square,
            3 => Waveform::Triangle,
            4 => Waveform::WhatDis,
            _ => Waveform::Sine,
        },
{
    match slot {
        0 => Waveform::Sine,
        1 => Waveform::Saw,
        2 => Waveform::Square,
        3 => Waveform::Triangle,
        4 => Waveform::WhatDis,
        _ => Waveform::Sine,
    }
}

/// How a waveform is summed from sine waves: the step from one harmonic to the next and
/// the exponent by which the gain of a harmonic falls.  A sine is played as it is.
pub fn harmonics(waveform: Waveform) -> (recipe: Option<(i32, u8)>)
    ensures
        recipe == match waveform {
            Waveform::Sine => None::<(i32, u8)>,
            Waveform::Square => Some((2i32, 1u8)),
            Waveform::Saw => Some((1i32, 1u8)),
            Waveform::Triangle => Some((2i32, 2u8)),
            Waveform::WhatDis => Some((4i32, 1u8)),
        },
{
    match waveform {
        Waveform::Sine => None,
        Waveform::Square => Some((2, 1)),
        Waveform::Saw => Some((1, 1)),
        Waveform::Triangle => Some((2, 2)),
        Waveform::WhatDis => Some((4, 1)),
    }
}

} // verus!
