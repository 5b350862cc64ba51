use vstd::prelude::*;

use crate::block;
use crate::errors::Error;
use crate::medium::Medium;
use crate::path::stripped_of;
use crate::unit::File;

verus! {

/// The list of media of one group, as `(id, name)` pairs; the id of a medium
/// is its position in the table.
#[derive(Debug)]
pub struct MediaTable {
    table: Vec<(usize, String)>,
}

impl MediaTable {
    pub closed spec fn spec_table(&self) -> Seq<(usize, Seq<char>)> {
        self.table@.map_values(|e: (usize, String)| (e.0, e.1@))
    }

    pub fn new() -> (r: MediaTable)
        ensures
            r.spec_table() == Seq::<(usize, Seq<char>)>::empty(),
    {
        let r = MediaTable { table: Vec::new() };
        assert(r.spec_table() =~= Seq::<(usize, Seq<char>)>::empty());
        r
    }

    /// Adds a medium and returns the id it gets, which is the number of media
    /// added before it.
    pub fn add(&mut self, medium: &Medium) -> (r: usize)
        requires
            old(self).spec_table().len() < usize::MAX,
        ensures
            r == old(self).spec_table().len(),
            final(self).spec_table() == old(self).spec_table().push((r, medium.spec_name())),
    {
        let id = self.table.len();
        self.table.push((id, medium.name().to_owned()));
        assert(self.spec_table() =~= old(self).spec_table().push((id, medium.spec_name())));
        id
    }

    /// The literal name that starts the serialised table.
    pub fn identifier(&self) -> (r: &'static str)
        ensures
            r@ == "Media Index Table"@,
    {
        "Media Index Table"
    }

    pub fn entries(&self) -> (r: &Vec<(usize, String)>)
        ensures
            r@.map_values(|e: (usize, String)| (e.0, e.1@)) == self.spec_table(),
    {
        &self.table
    }
}

/// One file of a group: its dense id, the medium it is on, its path relative
/// to the backup root, its size, and where it is on disk now.
#[derive(Debug)]
pub struct FileEntry {
    pub id: usize,
    pub medium_id: usize,
    pub path: String,
    pub size: u64,
    pub actual_path: String,
}

impl FileEntry {
    pub fn id(&self) -> (r: usize)
        ensures
            r == self.id,
    {
        self.id
    }

    pub fn medium_id(&self) -> (r: usize)
        ensures
            r == self.medium_id,
    {
        self.medium_id
    }

    pub fn path(&self) -> (r: &str)
        ensures
            r@ == self.path@,
    {
        self.path.as_str()
    }

    pub fn size(&self) -> (r: u64)
        ensures
            r == self.size,
    {
        self.size
    }

    pub fn actual_path(&self) -> (r: &str)
        ensures
            r@ == self.actual_path@,
    {
        self.actual_path.as_str()
    }
}

/// The entry that `FileTable::add` makes for `file` of a medium with id
/// `medium_id`, when the table already holds `id` entries.
pub open spec fn entry_for(e: FileEntry, id: int, medium_id: usize, file: File) -> bool {
    &&& e.id == id
    &&& e.medium_id == medium_id
    &&& stripped_of(file.path@.1, file.path@.0) == Some(e.path@)
    &&& e.size == file.len
    &&& e.actual_path@ == file.path@.1
}

/// The files of a group with dense ids in insertion order.
#[derive(Debug)]
pub struct FileTable {
    table: Vec<FileEntry>,
}

impl FileTable {
    pub closed spec fn spec_table(&self) -> Seq<FileEntry> {
        self.table@
    }

    /// Ids are positions.
    pub open spec fn wf(&self) -> bool {
        forall|i: int| 0 <= i < self.spec_table().len() ==> (#[trigger] self.spec_table()[i]).id == i
    }

    /// An empty table.
    pub fn empty() -> (r: FileTable)
        ensures
            r.wf(),
            r.spec_table() == Seq::<FileEntry>::empty(),
    {
        FileTable { table: Vec::new() }
    }

    /// A table of the files of `media`, medium after medium; fails when a
    /// file does not lie under its root.
    pub fn new(media: &[Medium]) -> (r: Result<FileTable, Error>)
        requires
            forall|i: int| 0 <= i < media@.len() ==> (#[trigger] media@[i]).spec_id() is Some,
            files_count(media@) < usize::MAX,
        ensures
            r matches Ok(t) ==> t.wf() && t.spec_table().len() == files_count(media@),
            r matches Ok(t) ==> forall|m: int, j: int|
                0 <= m < media@.len() && 0 <= j < media@[m].spec_files().len() ==> entry_for(
                    t.spec_table()[files_count(media@.subrange(0, m)) + j],
                    files_count(media@.subrange(0, m)) + j,
                    media@[m].spec_id()->0,
                    #[trigger] media@[m].spec_files()[j],
                ),
            r is Err ==> r == Err::<FileTable, Error>(Error::NotUnderPrefix),
            r is Err <==> exists|i: int, j: int|
                0 <= i < media@.len() && 0 <= j < media@[i].spec_files().len() && stripped_of(
                    (#[trigger] media@[i].spec_files()[j]).path@.1,
                    media@[i].spec_files()[j].path@.0,
                ) is None,
    {
        let mut table = FileTable::empty();
        let mut i: usize = 0;
        while i < media.len()
            invariant
                i <= media@.len(),
                table.wf(),
                table.spec_table().len() == files_count(media@.subrange(0, i as int)),
                files_count(media@) < usize::MAX,
                forall|k: int| 0 <= k < media@.len() ==> (#[trigger] media@[k]).spec_id() is Some,
                forall|a: int, b: int|
                    0 <= a < i && 0 <= b < media@[a].spec_files().len() ==> stripped_of(
                        (#[trigger] media@[a].spec_files()[b]).path@.1,
                        media@[a].spec_files()[b].path@.0,
                    ) is Some,
                forall|m: int, j: int|
                    0 <= m < i && 0 <= j < media@[m].spec_files().len() ==> entry_for(
                        table.spec_table()[files_count(media@.subrange(0, m)) + j],
                        files_count(media@.subrange(0, m)) + j,
                        media@[m].spec_id()->0,
                        #[trigger] media@[m].spec_files()[j],
                    ),
            decreases media@.len() - i,
        {
            proof {
                let pre = media@.subrange(0, i as int);
                assert(media@.subrange(0, i + 1).drop_last() =~= pre);
                lemma_files_count_prefix(media@, i + 1);
            }
            let ghost before = table.spec_table();
            match table.add_medium(&media[i]) {
                Ok(()) => {},
                Err(e) => {
                    return Err(e);
                },
            }
            proof {
                let next = media@.subrange(0, i + 1);
                assert forall|m: int, j: int|
                    0 <= m < i + 1 && 0 <= j < media@[m].spec_files().len() implies entry_for(
                        table.spec_table()[files_count(media@.subrange(0, m)) + j],
                        files_count(media@.subrange(0, m)) + j,
                        media@[m].spec_id()->0,
                        #[trigger] media@[m].spec_files()[j],
                    ) by {
                    if m < i {
                        let pm = media@.subrange(0, i as int);
                        lemma_files_count_prefix(pm, m + 1);
                        assert(pm.subrange(0, m + 1) =~= media@.subrange(0, m + 1));
                        assert(media@.subrange(0, m + 1).drop_last() =~= media@.subrange(0, m));
                        assert(media@.subrange(0, m + 1).last() == media@[m]);
                        assert(files_count(media@.subrange(0, m + 1)) == files_count(media@.subrange(0, m))
                            + media@[m].spec_files().len());
                        assert(before.len() == files_count(pm));
                        lemma_files_count_prefix(media@.subrange(0, m), 0);
                        assert(media@.subrange(0, m).subrange(0, 0) =~= Seq::<Medium>::empty());
                        let idx = files_count(media@.subrange(0, m)) + j;
                        assert(0 <= idx < before.len());
                        assert(table.spec_table()[idx] == table.spec_table().subrange(0, before.len() as int)[idx]);
                    }
                }
            }
            i += 1;
        }
        assert(media@.subrange(0, i as int) =~= media@);
        Ok(table)
    }

    /// Adds every file of `medium`, in order.
    pub fn add_medium(&mut self, medium: &Medium) -> (r: Result<(), Error>)
        requires
            old(self).wf(),
            medium.spec_id() is Some,
            old(self).spec_table().len() + medium.spec_files().len() < usize::MAX,
        ensures
            final(self).wf(),
            r is Err ==> r == Err::<(), Error>(Error::NotUnderPrefix),
            r is Ok <==> forall|j: int|
                0 <= j < medium.spec_files().len() ==> stripped_of(
                    (#[trigger] medium.spec_files()[j]).path@.1,
                    medium.spec_files()[j].path@.0,
                ) is Some,
            r is Ok ==> final(self).spec_table().len() == old(self).spec_table().len()
                + medium.spec_files().len() && final(self).spec_table().subrange(
                0,
                old(self).spec_table().len() as int,
            ) == old(self).spec_table() && forall|j: int|
                0 <= j < medium.spec_files().len() ==> entry_for(
                    #[trigger] final(self).spec_table()[old(self).spec_table().len() + j],
                    old(self).spec_table().len() + j,
                    medium.spec_id()->0,
                    medium.spec_files()[j],
                ),
    {
        let files = medium.files();
        let ghost start = self.table@;
        let mut j: usize = 0;
        while j < files.len()
            invariant
                self.wf(),
                j <= files@.len(),
                files@ == medium.spec_files(),
                medium.spec_id() is Some,
                start.len() + files@.len() < usize::MAX,
                self.table@.len() == start.len() + j,
                self.table@.subrange(0, start.len() as int) == start,
                forall|k: int| 0 <= k < j ==> entry_for(
                    #[trigger] self.table@[start.len() + k],
                    start.len() + k,
                    medium.spec_id()->0,
                    files@[k],
                ),
                forall|k: int|
                    0 <= k < j ==> stripped_of(
                        (#[trigger] files@[k]).path@.1,
                        files@[k].path@.0,
                    ) is Some,
            decreases files@.len() - j,
        {
            match self.add(medium, &files[j]) {
                Ok(_) => {},
                Err(e) => {
                    return Err(e);
                },
            }
            proof {
                assert forall|k: int| 0 <= k < j + 1 implies entry_for(
                    #[trigger] self.table@[start.len() + k],
                    start.len() + k,
                    medium.spec_id()->0,
                    files@[k],
                ) by {
                    if k < j {
                        assert(self.table@[start.len() + k] == self.table@.subrange(
                            0,
                            start.len() + j,
                        )[start.len() + k]);
                    }
                }
                assert(self.table@.subrange(0, start.len() as int) =~= start) by {
                    assert forall|k: int| 0 <= k < start.len() implies self.table@[k] == start[k] by {
                        assert(self.table@[k] == self.table@.subrange(0, start.len() + j)[k]);
                    }
                }
            }
            j += 1;
        }
        Ok(())
    }

    /// Adds one file of `medium` and returns its id; fails, leaving the table
    /// as it was, when the file does not lie under its root.
    pub fn add(&mut self, medium: &Medium, file: &File) -> (r: Result<usize, Error>)
        requires
            old(self).wf(),
            medium.spec_id() is Some,
            old(self).spec_table().len() < usize::MAX,
        ensures
            final(self).wf(),
            r is Ok <==> stripped_of(file.path@.1, file.path@.0) is Some,
            r matches Ok(id) ==> id == old(self).spec_table().len() && final(self).spec_table().len()
                == id + 1 && final(self).spec_table().subrange(0, id as int) == old(
                self,
            ).spec_table() && entry_for(
                final(self).spec_table()[id as int],
                id as int,
                medium.spec_id()->0,
                *file,
            ),
            r is Err ==> r == Err::<usize, Error>(Error::NotUnderPrefix) && final(self).spec_table()
                == old(self).spec_table(),
    {
        let id = self.table.len();
        let path = match file.path.logical() {
            Some(p) => p,
            None => {
                return Err(Error::NotUnderPrefix);
            },
        };
        self.table.push(
            FileEntry {
                id,
                medium_id: medium.id(),
                path,
                size: file.len,
                actual_path: file.path.as_str().to_owned(),
            },
        );
        assert(self.table@.subrange(0, id as int) =~= old(self).table@);
        Ok(id)
    }

    pub fn entries(&self) -> (r: &[FileEntry])
        ensures
            r@ == self.spec_table(),
    {
        self.table.as_slice()
    }

    /// The literal name that starts the serialised table.
    pub fn identifier(&self) -> (r: &'static str)
        ensures
            r@ == "File Index Table"@,
    {
        "File Index Table"
    }

    /// The files of the medium with id `medium_id`, in table order, as the
    /// block streamer takes them.
    pub fn block_files(&self, medium_id: usize) -> (r: Vec<block::File>)
        ensures
            ({
                let on = self.spec_table().filter(on_medium(medium_id));
                &&& r@.len() == on.len()
                &&& forall|k: int|
                    0 <= k < r@.len() ==> (#[trigger] r@[k]).id == on[k].id && r@[k].path@
                        == on[k].actual_path@
            }),
    {
        let mut r: Vec<block::File> = Vec::new();
        let mut i: usize = 0;
        while i < self.table.len()
            invariant
                i <= self.table@.len(),
                ({
                    let on = self.table@.subrange(0, i as int).filter(on_medium(medium_id));
                    &&& r@.len() == on.len()
                    &&& forall|k: int|
                        0 <= k < r@.len() ==> (#[trigger] r@[k]).id == on[k].id && r@[k].path@
                            == on[k].actual_path@
                }),
            decreases self.table@.len() - i,
        {
            let entry = &self.table[i];
            let ghost pre = self.table@.subrange(0, i as int);
            proof {
                let next = self.table@.subrange(0, i + 1);
                assert(next.drop_last() =~= pre);
                assert(next.last() == self.table@[i as int]);
                reveal(Seq::filter);
            }
            if entry.medium_id == medium_id {
                let f = block::File::new(entry.id, entry.actual_path.as_str());
                r.push(f);
            }
            i += 1;
        }
        assert(self.table@.subrange(0, i as int) =~= self.table@);
        r
    }
}

/// Entries of the medium with id `medium_id`.
pub open spec fn on_medium(medium_id: usize) -> spec_fn(FileEntry) -> bool {
    |e: FileEntry| e.medium_id == medium_id
}

proof fn lemma_files_count_prefix(media: Seq<Medium>, n: int)
    requires
        0 <= n <= media.len(),
    ensures
        files_count(media.subrange(0, n)) <= files_count(media),
    decreases media.len(),
{
    if n < media.len() {
        assert(media.drop_last().subrange(0, n) =~= media.subrange(0, n));
        lemma_files_count_prefix(media.drop_last(), n);
    } else {
        assert(media.subrange(0, n) =~= media);
    }
}

/// Number of files on a sequence of media.
pub open spec fn files_count(media: Seq<Medium>) -> int
    decreases media.len(),
{
    if media.len() == 0 {
        0
    } else {
        files_count(media.drop_last()) + media.last().spec_files().len()
    }
}

/// The on-disk name of one block: the file it belongs to, its position in
/// that file, its length and the SHA-1 of its bytes.
#[derive(Clone, Copy, Debug)]
pub struct Block {
    pub file: usize,
    pub block: usize,
    pub size: u32,
    pub hash: [u8; 20],
}

impl Block {
    pub fn new(file: usize, block: usize, size: u32, hash: &[u8]) -> (r: Block)
        requires
            hash@.len() == 20,
        ensures
            r.file == file,
            r.block == block,
            r.size == size,
            r.hash@ == hash@,
    {
        let mut h: [u8; 20] = [0u8; 20];
        let mut i: usize = 0;
        while i < 20
            invariant
                i <= 20,
                hash@.len() == 20,
                forall|j: int| 0 <= j < i ==> h@[j] == hash@[j],
            decreases 20 - i,
        {
            h[i] = hash[i];
            i += 1;
        }
        assert(h@ =~= hash@);
        Block { file, block, size, hash: h }
    }
}

/// How one block of a redundancy file was made, and from what.
#[derive(Debug)]
pub enum RedundancyIndex {
    /// The parity of a block of each data medium.
    Redundancy { left: Block, right: Block, redundancy: Block },
    /// A copy of a block that had no partner.
    Replication { original: Block, replication: Block },
}

/// The redundancy records of one group, in the order the blocks were made.
#[derive(Debug)]
pub struct RedundancyTable {
    table: Vec<RedundancyIndex>,
}

impl RedundancyTable {
    pub closed spec fn spec_table(&self) -> Seq<RedundancyIndex> {
        self.table@
    }

    pub fn new() -> (r: RedundancyTable)
        ensures
            r.spec_table() == Seq::<RedundancyIndex>::empty(),
    {
        RedundancyTable { table: Vec::new() }
    }

    pub fn add(&mut self, index: RedundancyIndex)
        ensures
            final(self).spec_table() == old(self).spec_table().push(index),
    {
        self.table.push(index);
    }

    pub fn entries(&self) -> (r: &Vec<RedundancyIndex>)
        ensures
            r@ == self.spec_table(),
    {
        &self.table
    }

    /// The literal name that starts the serialised table.
    pub fn identifier(&self) -> (r: &'static str)
        ensures
            r@ == "Redundancy Index Table"@,
    {
        "Redundancy Index Table"
    }
}

} // verus!
