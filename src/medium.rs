use vstd::prelude::*;

use crate::unit::File;
use crate::unitset::{all_files, UnitSet};

verus! {

/// One storage volume of bounded capacity, holding either source files or
/// generated redundancy files.
#[derive(Debug)]
pub struct Medium {
    id: Option<usize>,
    group_id: Option<usize>,
    pub name: String,
    size: u64,
    len: u64,
    files: Vec<File>,
    redundancy: bool,
}

impl Medium {
    pub closed spec fn spec_name(&self) -> Seq<char> {
        self.name@
    }

    pub closed spec fn spec_id(&self) -> Option<usize> {
        self.id
    }

    pub closed spec fn spec_group_id(&self) -> Option<usize> {
        self.group_id
    }

    pub closed spec fn spec_size(&self) -> u64 {
        self.size
    }

    pub closed spec fn spec_len(&self) -> u64 {
        self.len
    }

    pub closed spec fn spec_files(&self) -> Seq<File> {
        self.files@
    }

    pub closed spec fn spec_redundancy(&self) -> bool {
        self.redundancy
    }

    /// An empty data medium of capacity `size`.
    pub fn new(name: &str, size: u64) -> (r: Medium)
        ensures
            r.spec_name() == name@,
            r.spec_id() is None,
            r.spec_group_id() is None,
            r.spec_size() == size,
            r.spec_len() == 0,
            r.spec_files() == Seq::<File>::empty(),
            !r.spec_redundancy(),
    {
        Medium {
            id: None,
            group_id: None,
            name: name.to_owned(),
            size,
            len: 0,
            files: Vec::new(),
            redundancy: false,
        }
    }

    /// The same medium, marked as holding redundancy files or not.
    pub fn redundancy(self, redundancy: bool) -> (r: Medium)
        ensures
            r.spec_redundancy() == redundancy,
            r.spec_name() == self.spec_name(),
            r.spec_id() == self.spec_id(),
            r.spec_group_id() == self.spec_group_id(),
            r.spec_size() == self.spec_size(),
            r.spec_len() == self.spec_len(),
            r.spec_files() == self.spec_files(),
    {
        Medium { redundancy, ..self }
    }

    /// The same medium, filled with the files of `units`.
    pub fn unit_set(self, units: UnitSet) -> (r: Medium)
        ensures
            r.spec_len() == units.total(),
            r.spec_files() == all_files(units.0@),
            r.spec_name() == self.spec_name(),
            r.spec_id() == self.spec_id(),
            r.spec_group_id() == self.spec_group_id(),
            r.spec_size() == self.spec_size(),
            r.spec_redundancy() == self.spec_redundancy(),
    {
        let len = units.len();
        let files = units.into_files();
        Medium { len, files, ..self }
    }

    pub fn set_id(&mut self, id: usize)
        ensures
            final(self).spec_id() == Some(id),
            final(self).spec_name() == old(self).spec_name(),
            final(self).spec_group_id() == old(self).spec_group_id(),
            final(self).spec_size() == old(self).spec_size(),
            final(self).spec_len() == old(self).spec_len(),
            final(self).spec_files() == old(self).spec_files(),
            final(self).spec_redundancy() == old(self).spec_redundancy(),
    {
        self.id = Some(id);
    }

    /// The medium's id within its group; it must have been set.
    pub fn id(&self) -> (r: usize)
        requires
            self.spec_id() is Some,
        ensures
            self.spec_id() == Some(r),
    {
        self.id.unwrap()
    }

    pub fn set_group_id(&mut self, id: usize)
        ensures
            final(self).spec_group_id() == Some(id),
            final(self).spec_name() == old(self).spec_name(),
            final(self).spec_id() == old(self).spec_id(),
            final(self).spec_size() == old(self).spec_size(),
            final(self).spec_len() == old(self).spec_len(),
            final(self).spec_files() == old(self).spec_files(),
            final(self).spec_redundancy() == old(self).spec_redundancy(),
    {
        self.group_id = Some(id);
    }

    /// The group the medium belongs to; it must have been set.
    pub fn group_id(&self) -> (r: usize)
        requires
            self.spec_group_id() is Some,
        ensures
            self.spec_group_id() == Some(r),
    {
        self.group_id.unwrap()
    }

    pub fn name(&self) -> (r: &str)
        ensures
            r@ == self.spec_name(),
    {
        self.name.as_str()
    }

    pub fn is_redundancy(&self) -> (r: bool)
        ensures
            r == self.spec_redundancy(),
    {
        self.redundancy
    }

    /// Bytes of source files placed on the medium.
    pub fn len(&self) -> (r: u64)
        ensures
            r == self.spec_len(),
    {
        self.len
    }

    /// The capacity of the medium.
    pub fn size(&self) -> (r: u64)
        ensures
            r == self.spec_size(),
    {
        self.size
    }

    pub fn files(&self) -> (r: &Vec<File>)
        ensures
            r@ == self.spec_files(),
    {
        &self.files
    }

    /// Adds a file at the end of the medium's files.
    pub fn push_file(&mut self, file: File)
        ensures
            final(self).spec_files() == old(self).spec_files().push(file),
            final(self).spec_name() == old(self).spec_name(),
            final(self).spec_id() == old(self).spec_id(),
            final(self).spec_group_id() == old(self).spec_group_id(),
            final(self).spec_size() == old(self).spec_size(),
            final(self).spec_len() == old(self).spec_len(),
            final(self).spec_redundancy() == old(self).spec_redundancy(),
    {
        self.files.push(file);
    }
}

} // verus!
