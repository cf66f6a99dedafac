use vstd::prelude::*;
use crate::cache::CacheBuf;
use crate::catalog::{TableCatalog, has_name, lookup};
use crate::error::StoreError;

verus! {

/// The buffer pool together with the table catalog. Page I/O is left to the
/// caller, which reads pages on a miss and writes back dirty victims.
#[allow(non_camel_case_types)]
pub struct IO_Manager<const PAGE_NUM: usize> {
    pub cache_sys: CacheBuf<PAGE_NUM>,
    pub catalog: TableCatalog,
}

impl<const PAGE_NUM: usize> IO_Manager<PAGE_NUM> {
    pub open spec fn wf(&self) -> bool {
        self.cache_sys.wf() && self.catalog.wf()
    }

    pub fn new(catalog: TableCatalog) -> (r: Self)
        requires
            catalog.wf(),
            PAGE_NUM <= usize::MAX / 8,
        ensures
            r.wf(),
            r.catalog@ == catalog@,
            r.cache_sys@.order.len() == 0,
            forall|i: int| 0 <= i < PAGE_NUM ==> r.cache_sys@.owners[i].is_none(),
    {
        let cache_sys = CacheBuf::new();
        proof {
            cache_sys.lemma_view();
        }
        IO_Manager { cache_sys, catalog }
    }

    /// Creates a table and returns its new storage id.
    pub fn create_table(&mut self, table_name: &str) -> (r: Result<String, StoreError>)
        requires
            old(self).wf(),
        ensures
            final(self).wf(),
            final(self).cache_sys@ == old(self).cache_sys@,
            has_name(old(self).catalog@, table_name@) ==> r == Err::<String, StoreError>(StoreError::TableExists),
            !has_name(old(self).catalog@, table_name@) ==> r != Err::<String, StoreError>(StoreError::TableExists),
            match r {
                Ok(id) => !has_name(old(self).catalog@, table_name@)
                    && final(self).catalog@ == old(self).catalog@.push((table_name@, id@)),
                Err(_) => final(self).catalog@ == old(self).catalog@,
            },
    {
        self.catalog.new_table(table_name)
    }

    /// The storage id of a table.
    pub fn resolve_table(&self, table_name: &str) -> (r: Result<String, StoreError>)
        requires
            self.wf(),
        ensures
            match lookup(self.catalog@, table_name@) {
                Some(id) => r matches Ok(s) && s@ == id,
                None => r == Err::<String, StoreError>(StoreError::TableNotFound),
            },
    {
        self.catalog.open_table(table_name)
    }

    /// Removes a table from the catalog and drops, unflushed, every cached page
    /// of its storage. Returns the storage id it had.
    pub fn delete_table(&mut self, table_name: &str) -> (r: Result<String, StoreError>)
        requires
            old(self).wf(),
        ensures
            final(self).wf(),
            lookup(old(self).catalog@, table_name@) is None ==> r == Err::<String, StoreError>(StoreError::TableNotFound)
                && final(self).catalog@ == old(self).catalog@
                && final(self).cache_sys@ == old(self).cache_sys@,
            lookup(old(self).catalog@, table_name@) matches Some(id) ==> ({
                &&& r matches Ok(s) && s@ == id
                &&& lookup(final(self).catalog@, table_name@) is None
                &&& exists|i: int| 0 <= i < old(self).catalog@.len() && old(self).catalog@[i].0 == table_name@
                    && final(self).catalog@ == old(self).catalog@.remove(i)
                &&& final(self).cache_sys@.order == old(self).cache_sys@.order
                &&& final(self).cache_sys@.pages == old(self).cache_sys@.pages
                &&& forall|i: int| 0 <= i < PAGE_NUM ==> {
                    let o = #[trigger] old(self).cache_sys@.owners[i];
                    let gone = o.is_some() && o.unwrap().file_name == id;
                    &&& final(self).cache_sys@.owners[i] == (if gone { None } else { o })
                    &&& final(self).cache_sys@.valid[i] == (if gone { false } else { old(self).cache_sys@.valid[i] })
                    &&& final(self).cache_sys@.dirty[i] == (if gone { false } else { old(self).cache_sys@.dirty[i] })
                }
                &&& forall|i: int| 0 <= i < PAGE_NUM ==> !(#[trigger] final(self).cache_sys@.owners[i] matches Some(o) && o.file_name == id)
            }),
    {
        let id = match self.catalog.open_table(table_name) {
            Ok(id) => id,
            Err(e) => {
                return Err(e);
            },
        };
        let _ = self.catalog.delete_table(table_name);
        proof {
            let before = old(self).catalog@;
            let i = choose|i: int| 0 <= i < before.len() && before[i].0 == table_name@
                && self.catalog@ == before.remove(i);
            crate::catalog::lemma_deleted_table_not_found(before, i);
        }
        let ghost mid = self.cache_sys@;
        proof {
            self.cache_sys.lemma_view();
        }
        self.cache_sys.invalidate_file(id.as_str());
        proof {
            assert forall|i: int| 0 <= i < PAGE_NUM implies !(#[trigger] self.cache_sys@.owners[i] matches Some(o) && o.file_name == id@) by {
                let o = mid.owners[i];
            }
        }
        Ok(id)
    }
}

} // verus!
