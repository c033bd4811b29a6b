//! The tile window calculator: given a center tile and a radius, the square
//! set of tile coordinates that must be resident around the viewpoint.

use vstd::prelude::*;

use crate::coordinates::ADTPosition;

verus! {

/// Membership in the desired window: for `range == 0` exactly the center;
/// otherwise the square from `center - range/2` to `center - range/2 + range`
/// inclusive on each axis. The window is `range + 1` tiles wide, so it sits
/// one tile off-center when `range` is odd; that asymmetry is an accepted
/// simplification of the grid walk, not an error.
pub open spec fn in_window(center: ADTPosition, range: u32, p: ADTPosition) -> bool {
    let base_x = center.x - range / 2;
    let base_y = center.y - range / 2;
    &&& base_x <= p.x <= base_x + range
    &&& base_y <= p.y <= base_y + range
}

/// The window fits the unsigned tile grid: the low edge does not underflow
/// and the high edge does not overflow. Tile coordinates are unsigned, so a
/// window reaching past the world edge is a caller contract violation; the
/// calculator rejects it here rather than clamping.
pub open spec fn window_fits(center: ADTPosition, range: u32) -> bool {
    &&& range / 2 <= center.x
    &&& range / 2 <= center.y
    &&& center.x - range / 2 + range <= u32::MAX
    &&& center.y - range / 2 + range <= u32::MAX
}

/// Runtime check matching `window_fits`, for callers near the world edge.
pub fn window_fits_ok(center: &ADTPosition, range: u32) -> (r: bool)
    ensures
        r == window_fits(*center, range),
{
    let half = range / 2;
    half <= center.x && half <= center.y && range <= u32::MAX - (center.x - half) && range
        <= u32::MAX - (center.y - half)
}

/// All tiles that must be resident around `origin`: the `(range + 1)` by
/// `(range + 1)` square described by `in_window`, each coordinate exactly
/// once, walked axis by axis.
pub fn get_adts_in_range(origin: ADTPosition, range: u32) -> (adts: Vec<ADTPosition>)
    requires
        window_fits(origin, range),
    ensures
        adts@.len() == (range + 1) * (range + 1),
        forall|p: ADTPosition| adts@.contains(p) <==> in_window(origin, range, p),
        adts@.no_duplicates(),
{
    if range == 0 {
        let single = vec![origin];
        assert(single@.contains(origin));
        assert forall|p: ADTPosition| single@.contains(p) implies in_window(origin, range, p) by {
            assert(single@[choose|i: int| 0 <= i < single@.len() && single@[i] == p] == p);
        }
        return single;
    }

    let base_x = origin.x - range / 2;
    let base_y = origin.y - range / 2;
    let mut adts: Vec<ADTPosition> = Vec::new();
    let mut x: u64 = 0;
    while x <= range as u64
        invariant
            window_fits(origin, range),
            range > 0,
            base_x == origin.x - range / 2,
            base_y == origin.y - range / 2,
            x <= range + 1,
            adts@.len() == x * (range + 1),
            forall|p: ADTPosition|
                adts@.contains(p) <==> (base_x <= p.x < base_x + x && base_y <= p.y <= base_y
                    + range),
            adts@.no_duplicates(),
        decreases range + 1 - x,
    {
        let mut y: u64 = 0;
        while y <= range as u64
            invariant
                window_fits(origin, range),
                range > 0,
                base_x == origin.x - range / 2,
                base_y == origin.y - range / 2,
                x <= range,
                y <= range + 1,
                adts@.len() == x * (range + 1) + y,
                forall|p: ADTPosition|
                    adts@.contains(p) <==> ((base_x <= p.x < base_x + x && base_y <= p.y <= base_y
                        + range) || (p.x == base_x + x && base_y <= p.y < base_y + y)),
                adts@.no_duplicates(),
            decreases range + 1 - y,
        {
            let next = ADTPosition { x: base_x + (x as u32), y: base_y + (y as u32) };
            let ghost prev = adts@;
            assert(!prev.contains(next));
            adts.push(next);
            proof {
                assert(adts@.contains(next)) by {
                    assert(adts@[prev.len() as int] == next);
                }
                assert forall|p: ADTPosition| #[trigger] adts@.contains(p) && p != next implies
                    prev.contains(p) by {
                    let i = choose|i: int| 0 <= i < adts@.len() && adts@[i] == p;
                    assert(prev[i] == p);
                }
                assert forall|p: ADTPosition| prev.contains(p) implies #[trigger] adts@.contains(
                    p,
                ) by {
                    let i = choose|i: int| 0 <= i < prev.len() && prev[i] == p;
                    assert(adts@[i] == p);
                }
                assert(adts@.no_duplicates()) by {
                    assert forall|i: int, j: int|
                        0 <= i < adts@.len() && 0 <= j < adts@.len() && i != j implies adts@[i]
                        != adts@[j] by {
                        if i < prev.len() && j < prev.len() {
                            assert(prev[i] == adts@[i] && prev[j] == adts@[j]);
                        } else if j == prev.len() {
                            assert(prev[i] == adts@[i]);
                            assert(prev.contains(adts@[i]));
                        } else {
                            assert(prev[j] == adts@[j]);
                            assert(prev.contains(adts@[j]));
                        }
                    }
                }
                assert forall|p: ADTPosition|
                    ((base_x <= p.x < base_x + x && base_y <= p.y <= base_y + range) || (p.x
                        == base_x + x && base_y <= p.y < base_y + y + 1)) implies
                    #[trigger] adts@.contains(p) by {
                    if p.x == base_x + x && p.y == base_y + y {
                        assert(p == next);
                    } else {
                        assert(prev.contains(p));
                    }
                }
            }
            y = y + 1;
        }
        x = x + 1;
        proof {
            assert(adts@.len() == x * (range + 1)) by (nonlinear_arith)
                requires
                    adts@.len() == (x - 1) * (range + 1) + (range + 1),
            {}
        }
    }
    adts
}

/// The window of radius zero holds the center alone.
pub proof fn lemma_window_zero(center: ADTPosition, p: ADTPosition)
    ensures
        in_window(center, 0, p) <==> p == center,
{
}

/// A window's tiles, taken as a set, number exactly `(range + 1)` squared:
/// the calculator hands out no coordinate twice.
pub proof fn lemma_window_set_size(adts: Seq<ADTPosition>, range: u32)
    requires
        adts.no_duplicates(),
        adts.len() == (range + 1) * (range + 1),
    ensures
        adts.to_set().finite(),
        adts.to_set().len() == (range + 1) * (range + 1),
{
    broadcast use vstd::seq_lib::seq_to_set_is_finite;

    adts.unique_seq_to_set();
}

} // verus!
