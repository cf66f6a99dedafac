use vstd::prelude::*;

verus! {

/// The class of a cached page.
#[derive(Debug, Clone, Copy, PartialEq, Eq, Structural, Hash)]
pub enum PageType {
    TABLE,
    INDEX,
}

/// Names one page: its class, the file (or table) that owns it and its index.
#[derive(Debug, Clone)]
pub struct ResId {
    pub page_type: PageType,
    pub file_name: String,
    pub page_id: usize,
}

/// Abstract value of a resource identifier.
pub struct ResIdView {
    pub page_type: PageType,
    pub file_name: Seq<char>,
    pub page_id: usize,
}

impl View for ResId {
    type V = ResIdView;

    open spec fn view(&self) -> ResIdView {
        ResIdView { page_type: self.page_type, file_name: self.file_name@, page_id: self.page_id }
    }
}

impl ResId {
    pub fn new(page_type: PageType, file_name: &str, page_id: usize) -> (r: ResId)
        ensures
            r@ == (ResIdView { page_type, file_name: file_name@, page_id }),
    {
        ResId { page_type, file_name: file_name.to_owned(), page_id }
    }

    /// A copy with the same abstract value.
    pub fn duplicate(&self) -> (r: ResId)
        ensures
            r@ == self@,
    {
        ResId { page_type: self.page_type, file_name: self.file_name.clone(), page_id: self.page_id }
    }

    /// Equality over the triple (class, file name, page index).
    pub fn same(&self, other: &ResId) -> (r: bool)
        ensures
            r == (self@ == other@),
    {
        let t = self.page_type == other.page_type;
        let n = self.file_name == other.file_name;
        let r = t && n && self.page_id == other.page_id;
        proof {
            if r {
                assert(self@ == other@);
            }
        }
        r
    }
}

impl PartialEq for ResId {
    fn eq(&self, other: &ResId) -> (r: bool) {
        self.same(other)
    }
}

impl vstd::std_specs::cmp::PartialEqSpecImpl for ResId {
    open spec fn obeys_eq_spec() -> bool {
        true
    }

    open spec fn eq_spec(&self, other: &ResId) -> bool {
        self@ == other@
    }
}

impl Eq for ResId {
}

} // verus!
