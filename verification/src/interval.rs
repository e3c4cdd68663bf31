//! An interval start position together with the bucket-associated entities
//! covering it.

use vstd::prelude::*;

use crate::regeffects::{RegEffectData, RegEffectModel};

verus! {

/// One entry of a chromosome's interval list: the start coordinate and the
/// entities whose features overlap the interval.
#[derive(Debug)]
pub struct Interval {
    pub start: u32,
    pub values: Vec<RegEffectData>,
}

/// Mathematical model of an interval entry.
#[verifier::ext_equal]
pub struct IntervalModel {
    pub start: u32,
    pub values: Seq<RegEffectModel>,
}

impl View for Interval {
    type V = IntervalModel;

    open spec fn view(&self) -> IntervalModel {
        IntervalModel { start: self.start, values: self.values.deep_view() }
    }
}

impl DeepView for Interval {
    type V = IntervalModel;

    open spec fn deep_view(&self) -> IntervalModel {
        self.view()
    }
}

impl Interval {
    /// Pairs a start position with the entities covering it.
    pub fn new(start: u32, values: Vec<RegEffectData>) -> (r: Self)
        ensures
            r@.start == start,
            r@.values == values.deep_view(),
    {
        Interval { start: start, values: values }
    }
}

} // verus!
