use vstd::prelude::*;

verus! {

/// State behind the brush-size slider of the control panel.
pub struct PoheModel {
    pub value: i64,
}

impl PoheModel {
    pub fn new() -> (m: PoheModel)
        ensures
            m.value == 0,
    {
        PoheModel { value: 0 }
    }
}

/// State behind the brush-toggle button of the control panel.
pub struct HoeModel {
    pub count: i64,
}

impl HoeModel {
    pub fn new() -> (m: HoeModel)
        ensures
            m.count == 0,
    {
        HoeModel { count: 0 }
    }
}

} // verus!
