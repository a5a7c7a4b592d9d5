//! A single keyframe: a time, a sample value, and the interpolation
//! mode used to blend into this keyframe from its predecessor.

use vstd::prelude::*;

verus! {

/// The blending rule attached to a node.  It is consulted when the
/// node is the right-hand endpoint of an evaluation span: `Hold` keeps
/// the left neighbour's value, `Linear` blends proportionally.
#[derive(Clone, Copy, Debug, PartialEq, Eq, Structural)]
pub enum InterpType {
    Hold,
    Linear,
}

impl InterpType {
    /// The integer tag under which the mode is persisted: 0 holds,
    /// 1 blends linearly.
    pub open spec fn spec_tag(self) -> u64 {
        match self {
            InterpType::Hold => 0,
            InterpType::Linear => 1,
        }
    }

    /// Returns the persisted integer tag of the mode.
    pub fn tag(self) -> (t: u64)
        ensures
            t == self.spec_tag(),
    {
        match self {
            InterpType::Hold => 0,
            InterpType::Linear => 1,
        }
    }

    /// The mode persisted under an integer tag, if the tag is known.
    pub open spec fn spec_from_tag(t: u64) -> Option<InterpType> {
        if t == 0 {
            Some(InterpType::Hold)
        } else if t == 1 {
            Some(InterpType::Linear)
        } else {
            None
        }
    }

    /// Returns the mode persisted under `t`, or `None` for an unknown tag.
    pub fn from_tag(t: u64) -> (r: Option<InterpType>)
        ensures
            r == InterpType::spec_from_tag(t),
    {
        if t == 0 {
            Some(InterpType::Hold)
        } else if t == 1 {
            Some(InterpType::Linear)
        } else {
            None
        }
    }
}

/// A keyframe.  The `value` field carries the sample as an opaque
/// 64-bit pattern (the bits of the host's double-precision value); the
/// library stores and compares these patterns but never does arithmetic
/// on them.  Any field combination is a valid node; a track imposes its
/// ordering rules only when a node is inserted.
#[derive(Clone, Copy, Debug, PartialEq, Eq, Structural)]
pub struct Node {
    pub time: u32,
    pub value: u64,
    pub interp: InterpType,
}

impl Node {
    /// Builds a node from its three fields.
    pub fn new(time: u32, value: u64, interp: InterpType) -> (n: Node)
        ensures
            n == (Node { time, value, interp }),
    {
        Node { time, value, interp }
    }

    /// Returns the node's time.
    pub fn get_time(&self) -> (t: u32)
        ensures
            t == self.time,
    {
        self.time
    }

    /// Replaces the node's time.
    pub fn set_time(&mut self, time: u32)
        ensures
            *final(self) == (Node { time, ..*old(self) }),
    {
        self.time = time;
    }

    /// Returns the node's value pattern.
    pub fn get_value(&self) -> (v: u64)
        ensures
            v == self.value,
    {
        self.value
    }

    /// Replaces the node's value pattern.
    pub fn set_value(&mut self, value: u64)
        ensures
            *final(self) == (Node { value, ..*old(self) }),
    {
        self.value = value;
    }

    /// Returns the node's interpolation mode.
    pub fn get_interpolator(&self) -> (i: InterpType)
        ensures
            i == self.interp,
    {
        self.interp
    }

    /// Replaces the node's interpolation mode.
    pub fn set_interpolator(&mut self, interp: InterpType)
        ensures
            *final(self) == (Node { interp, ..*old(self) }),
    {
        self.interp = interp;
    }
}

} // verus!
