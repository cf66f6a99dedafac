use vstd::prelude::*;

verus! {

/// Process-wide storage parameters: bytes per page and buffer pool capacity.
pub struct ConfigData {
    pub page_size: u32,
    pub page_num: u32,
}

} // verus!
