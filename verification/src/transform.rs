//! Local transforms of scene nodes.

use crate::scalar::Scalar;
use vstd::prelude::*;

verus! {

/// Position, rotation and scale of a node relative to its parent. The rotation
/// is a quaternion in the order x, y, z, w.
#[derive(Clone, Copy, Debug, PartialEq, Eq)]
pub struct Transform {
    pub position: [Scalar; 3],
    pub rotation: [Scalar; 4],
    pub scale: [Scalar; 3],
}

/// Every number of `s` is finite.
pub open spec fn all_finite(s: Seq<Scalar>) -> bool {
    forall|i: int| 0 <= i < s.len() ==> (#[trigger] s[i]).finite()
}

/// Some number of `s` is a zero.
pub open spec fn some_zero(s: Seq<Scalar>) -> bool {
    exists|i: int| 0 <= i < s.len() && (#[trigger] s[i]).zero()
}

impl Transform {
    /// All ten numbers are finite.
    pub open spec fn finite(self) -> bool {
        all_finite(self.position@) && all_finite(self.rotation@) && all_finite(self.scale@)
    }

    /// A scale of zero along some axis: the node's geometry is flattened.
    pub open spec fn degenerate(self) -> bool {
        some_zero(self.scale@)
    }

    /// At the origin, not rotated, of unit scale.
    pub open spec fn is_identity(self) -> bool {
        &&& self.position@ == seq![Scalar { bits: 0 }, Scalar { bits: 0 }, Scalar { bits: 0 }]
        &&& self.rotation@ == seq![
            Scalar { bits: 0 },
            Scalar { bits: 0 },
            Scalar { bits: 0 },
            Scalar { bits: 0x3f80_0000 },
        ]
        &&& self.scale@ == seq![
            Scalar { bits: 0x3f80_0000 },
            Scalar { bits: 0x3f80_0000 },
            Scalar { bits: 0x3f80_0000 },
        ]
    }

    pub fn identity() -> (r: Transform)
        ensures
            r.is_identity(),
            r.finite(),
            !r.degenerate(),
    {
        let zero = Scalar { bits: 0 };
        let one = Scalar { bits: 0x3f80_0000 };
        let r = Transform {
            position: [zero, zero, zero],
            rotation: [zero, zero, zero, one],
            scale: [one, one, one],
        };
        assert(r.position@ =~= seq![zero, zero, zero]);
        assert(r.rotation@ =~= seq![zero, zero, zero, one]);
        assert(r.scale@ =~= seq![one, one, one]);
        r
    }

    pub fn from_bits(position: [u32; 3], rotation: [u32; 4], scale: [u32; 3]) -> (r: Transform)
        ensures
            forall|i: int| 0 <= i < 3 ==> (#[trigger] r.position@[i]).bits == position@[i],
            forall|i: int| 0 <= i < 4 ==> (#[trigger] r.rotation@[i]).bits == rotation@[i],
            forall|i: int| 0 <= i < 3 ==> (#[trigger] r.scale@[i]).bits == scale@[i],
    {
        Transform {
            position: [
                Scalar { bits: position[0] },
                Scalar { bits: position[1] },
                Scalar { bits: position[2] },
            ],
            rotation: [
                Scalar { bits: rotation[0] },
                Scalar { bits: rotation[1] },
                Scalar { bits: rotation[2] },
                Scalar { bits: rotation[3] },
            ],
            scale: [
                Scalar { bits: scale[0] },
                Scalar { bits: scale[1] },
                Scalar { bits: scale[2] },
            ],
        }
    }

    pub fn is_finite(&self) -> (r: bool)
        ensures
            r == self.finite(),
    {
        self.position[0].is_finite() && self.position[1].is_finite()
            && self.position[2].is_finite() && self.rotation[0].is_finite()
            && self.rotation[1].is_finite() && self.rotation[2].is_finite()
            && self.rotation[3].is_finite() && self.scale[0].is_finite()
            && self.scale[1].is_finite() && self.scale[2].is_finite()
    }

    pub fn has_degenerate_scale(&self) -> (r: bool)
        ensures
            r == self.degenerate(),
    {
        self.scale[0].is_zero() || self.scale[1].is_zero() || self.scale[2].is_zero()
    }
}

} // verus!
