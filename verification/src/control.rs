use vstd::prelude::*;

verus! {

/// How many frames the keyboard stays ignored after a push.
pub const COOL_DOWN: usize = 100;

/// What one frame of keyboard handling does: which pushes to apply, and the
/// cool-down left for the next frame.
pub struct KeyStep {
    pub push_left: bool,
    pub push_right: bool,
    pub cool: usize,
}

/// One frame of keyboard handling. While `cool` is not zero the keys are
/// ignored and `cool` goes down by one. Otherwise key A gives a push one
/// way and key D a push the other way (both if both are held), and either
/// starts a cool-down of `COOL_DOWN` frames.
pub fn key_step(cool: usize, a_pressed: bool, d_pressed: bool) -> (s: KeyStep)
    ensures
        cool == 0 ==> {
            &&& s.push_left == a_pressed
            &&& s.push_right == d_pressed
            &&& s.cool == if a_pressed || d_pressed { COOL_DOWN } else { 0 }
        },
        cool > 0 ==> !s.push_left && !s.push_right && s.cool == cool - 1,
{
    if cool == 0 {
        let mut next: usize = 0;
        if a_pressed {
            next = COOL_DOWN;
        }
        if d_pressed {
            next = COOL_DOWN;
        }
        KeyStep { push_left: a_pressed, push_right: d_pressed, cool: next }
    } else {
        KeyStep { push_left: false, push_right: false, cool: cool - 1 }
    }
}

} // verus!
