use vstd::prelude::*;

verus! {

/// One of the three components of a 3D vector.
#[derive(Clone, Copy, Debug, PartialEq, Eq, Structural)]
pub enum Axis {
    X,
    Y,
    Z,
}

/// The component that position `index` of a vector stands for:
/// 0 is x, 1 is y and 2 is z. No other position exists.
pub open spec fn axis_at(index: int) -> Axis
    recommends
        0 <= index < 3,
{
    if index == 0 {
        Axis::X
    } else if index == 1 {
        Axis::Y
    } else {
        Axis::Z
    }
}

/// The position of an axis within a vector, the inverse of `axis_at`.
pub open spec fn position_of(a: Axis) -> int {
    match a {
        Axis::X => 0,
        Axis::Y => 1,
        Axis::Z => 2,
    }
}

/// Maps a component index to the component it reads or writes.
/// Indices from 3 on name no component; callers must not pass them.
pub fn axis_of(index: usize) -> (r: Axis)
    requires
        index < 3,
    ensures
        r == axis_at(index as int),
        position_of(r) == index,
{
    match index {
        0 => Axis::X,
        1 => Axis::Y,
        _ => Axis::Z,
    }
}

} // verus!
