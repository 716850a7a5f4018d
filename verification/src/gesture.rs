//! Hand gestures as patterns of extended fingers (thumb, index, middle,
//! ring, little).
use vstd::prelude::*;

verus! {

/// Number of known gestures.
pub const N_GESTURES: usize = 5;

/// The finger pattern of gesture `g`: fist, open hand, one, two, thumbs up.
pub open spec fn gesture_pattern(g: int) -> Seq<bool> {
    if g == 0 {
        seq![false, false, false, false, false]
    } else if g == 1 {
        seq![true, true, true, true, true]
    } else if g == 2 {
        seq![false, true, false, false, false]
    } else if g == 3 {
        seq![false, true, true, false, false]
    } else {
        seq![true, false, false, false, false]
    }
}

/// The finger pattern of gesture `g`.
pub fn pattern_of(g: usize) -> (p: [bool; 5])
    requires
        g < N_GESTURES,
    ensures
        p@ == gesture_pattern(g as int),
{
    let p = if g == 0 {
        [false, false, false, false, false]
    } else if g == 1 {
        [true, true, true, true, true]
    } else if g == 2 {
        [false, true, false, false, false]
    } else if g == 3 {
        [false, true, true, false, false]
    } else {
        [true, false, false, false, false]
    };
    assert(p@ =~= gesture_pattern(g as int));
    p
}

/// The gesture whose finger pattern is `ext`, or -1 when none is.
pub fn match_gesture(ext: [bool; 5]) -> (r: i32)
    ensures
        -1 <= r < N_GESTURES,
        r >= 0 ==> gesture_pattern(r as int) == ext@,
        r == -1 <==> forall|g: int| 0 <= g < N_GESTURES ==> gesture_pattern(g) != ext@,
{
    let mut g: usize = 0;
    while g < N_GESTURES
        invariant
            g <= N_GESTURES,
            forall|h: int| 0 <= h < g ==> gesture_pattern(h) != ext@,
        decreases N_GESTURES - g,
    {
        let p = pattern_of(g);
        if p[0] == ext[0] && p[1] == ext[1] && p[2] == ext[2] && p[3] == ext[3] && p[4] == ext[4] {
            assert(p@ =~= ext@);
            return g as i32;
        }
        proof {
            if gesture_pattern(g as int) == ext@ {
                assert(p@[0] == ext@[0] && p@[1] == ext@[1] && p@[2] == ext@[2] && p@[3] == ext@[3] && p@[4] == ext@[4]);
            }
        }
        g = g + 1;
    }
    -1
}

/// No two gestures share a pattern, so a pattern names at most one gesture.
pub proof fn law_gesture_patterns_distinct(a: int, b: int)
    requires
        0 <= a < b < N_GESTURES,
    ensures
        gesture_pattern(a) != gesture_pattern(b),
{
    if a == 0 {
        assert(gesture_pattern(a)[0] != gesture_pattern(b)[0] || gesture_pattern(a)[1] != gesture_pattern(b)[1]);
    } else if a == 1 {
        assert(gesture_pattern(a)[0] != gesture_pattern(b)[0] || gesture_pattern(a)[2] != gesture_pattern(b)[2]);
    } else if a == 2 {
        assert(gesture_pattern(a)[2] != gesture_pattern(b)[2] || gesture_pattern(a)[0] != gesture_pattern(b)[0]);
    } else {
        assert(gesture_pattern(a)[0] != gesture_pattern(b)[0]);
    }
}

} // verus!
