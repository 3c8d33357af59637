//! An in-memory catalog: the same interface the remote catalog service
//! offers — fetch a mod record by id, fetch a file record by file id — over
//! records held locally.  The verified resolution driver runs against it;
//! the surrounding application answers the same questions with remote calls.

use crate::records::{FileRecord, FileRecordView, ModRecord};
use crate::registry::Registry;
use vstd::prelude::*;

verus! {

/// The first file record carrying `file_id`.
pub open spec fn find_file_in(files: Seq<FileRecordView>, file_id: u32) -> Option<FileRecordView>
    decreases files.len(),
{
    if files.len() == 0 {
        None
    } else if files[0].id == file_id {
        Some(files[0])
    } else {
        find_file_in(files.drop_first(), file_id)
    }
}

/// A catalog held in memory: mod records keyed by id, and the concrete file
/// records that per-version pointers refer to.
pub struct Catalog {
    pub mods: Registry,
    pub files: Vec<FileRecord>,
}

impl Catalog {
    pub open spec fn wf(self) -> bool {
        self.mods.wf()
    }

    /// Whether the catalog can answer a fetch for mod `id`.
    pub open spec fn has_mod(self, id: u32) -> bool {
        self.mods.contains_id(id)
    }

    /// The file record a fetch for `file_id` returns, if any.
    pub open spec fn spec_file(self, file_id: u32) -> Option<FileRecordView> {
        find_file_in(self.files.deep_view(), file_id)
    }

    pub fn new() -> (c: Catalog)
        ensures
            c.wf(),
            c.mods@ == Seq::<crate::records::ModRecordView>::empty(),
            c.files.deep_view() == Seq::<FileRecordView>::empty(),
    {
        let c = Catalog { mods: Registry::new(), files: Vec::new() };
        proof {
            assert(c.files.deep_view() =~= Seq::<FileRecordView>::empty());
        }
        c
    }

    /// Make `record` fetchable by its id (replacing any previous record with
    /// that id).
    pub fn add_mod(&mut self, record: ModRecord)
        requires
            old(self).wf(),
        ensures
            final(self).wf(),
            final(self).mods.to_map() == old(self).mods.to_map().insert(record@.id, record@),
            final(self).files == old(self).files,
    {
        self.mods.upsert(record);
    }

    /// Make `file` fetchable by its file id.
    pub fn add_file(&mut self, file: FileRecord)
        requires
            old(self).wf(),
        ensures
            final(self).wf(),
            final(self).mods == old(self).mods,
            final(self).files.deep_view() == old(self).files.deep_view().push(file@),
    {
        self.files.push(file);
        proof {
            assert(self.files.deep_view() =~= old(self).files.deep_view().push(
                self.files@.last()@,
            ));
        }
    }

    /// `fetchById`: the mod record stored under `id`, if any.
    pub fn fetch_by_id(&self, id: u32) -> (r: Option<&ModRecord>)
        requires
            self.wf(),
        ensures
            match r {
                Some(record) => self.has_mod(id) && record@ == self.mods.to_map()[id]
                    && record@.id == id,
                None => !self.has_mod(id),
            },
    {
        self.mods.lookup(id)
    }

    /// `fetchFileDetail`: the file record stored under `file_id`, if any.
    pub fn fetch_file_detail(&self, file_id: u32) -> (r: Option<&FileRecord>)
        ensures
            match r {
                Some(file) => self.spec_file(file_id) == Some(file@),
                None => self.spec_file(file_id) is None,
            },
    {
        let ghost dv = self.files.deep_view();
        let mut i: usize = 0;
        proof {
            assert(dv.skip(0) =~= dv);
        }
        while i < self.files.len()
            invariant
                0 <= i <= dv.len(),
                dv == self.files.deep_view(),
                dv.len() == self.files@.len(),
                find_file_in(dv, file_id) == find_file_in(dv.skip(i as int), file_id),
            decreases dv.len() - i,
        {
            proof {
                assert(dv.skip(i as int)[0] == dv[i as int]);
            }
            if self.files[i].id == file_id {
                proof {
                    assert(find_file_in(dv, file_id) == Some(dv[i as int]));
                }
                return Some(&self.files[i]);
            }
            proof {
                assert(dv.skip(i as int).drop_first() =~= dv.skip(i + 1));
            }
            i = i + 1;
        }
        proof {
            assert(dv.skip(i as int).len() == 0);
        }
        None
    }
}

} // verus!
