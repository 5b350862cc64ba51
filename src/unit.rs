use vstd::prelude::*;

use crate::consts::SMALL_FILE_UPPER_BOUND;
use crate::errors::Error;
use crate::path::{file_name, file_name_of, Path};

verus! {

/// A regular file found while scanning, with its length in bytes.
#[derive(Debug)]
pub struct File {
    pub path: Path,
    pub len: u64,
}

impl File {
    pub fn new(path: Path, len: u64) -> (r: File)
        ensures
            r.path == path,
            r.len == len,
    {
        File { path, len }
    }
}

/// The files of one directory, in the order they were found.
#[derive(Debug)]
pub struct Files(pub Vec<File>);

/// Total length of a sequence of files.
pub open spec fn files_len(files: Seq<File>) -> int
    decreases files.len(),
{
    if files.len() == 0 {
        0
    } else {
        files_len(files.drop_last()) + files.last().len
    }
}

/// A file whose name starts with a dot.
pub open spec fn is_hidden(file: File) -> bool {
    match file_name_of(file.path@.1) {
        Some(name) => name.len() > 0 && name[0] == '.',
        None => false,
    }
}

/// Every visible file is at most `SMALL_FILE_UPPER_BOUND` bytes long.
pub open spec fn all_small(files: Seq<File>) -> bool {
    forall|i: int|
        0 <= i < files.len() && !is_hidden(#[trigger] files[i]) ==> files[i].len
            <= SMALL_FILE_UPPER_BOUND
}

pub proof fn lemma_files_len_append(a: Seq<File>, b: Seq<File>)
    ensures
        files_len(a + b) == files_len(a) + files_len(b),
    decreases b.len(),
{
    if b.len() == 0 {
        assert(a + b =~= a);
    } else {
        assert((a + b).drop_last() =~= a + b.drop_last());
        lemma_files_len_append(a, b.drop_last());
    }
}

pub proof fn lemma_files_len_nonneg(a: Seq<File>)
    ensures
        files_len(a) >= 0,
    decreases a.len(),
{
    if a.len() > 0 {
        lemma_files_len_nonneg(a.drop_last());
    }
}

/// One directory's non-directory entries. `parent` is the index of the
/// enclosing directory's unit in its unit set; the root is its own parent.
#[derive(Debug)]
pub struct Unit {
    pub parent: usize,
    pub len: u64,
    pub path: Path,
    pub files: Files,
}

impl Unit {
    /// The cached length is the sum of the files' lengths.
    pub open spec fn wf(&self) -> bool {
        self.len == files_len(self.files.0@)
    }

    /// The unit holds no visible file over the small-file bound.
    pub open spec fn small(&self) -> bool {
        all_small(self.files.0@)
    }

    /// The unit of the scanned root directory.
    pub fn root(root: Path, files: Vec<File>) -> (r: Result<Unit, Error>)
        ensures
            files_len(files@) <= u64::MAX <==> r is Ok,
            r matches Ok(u) ==> u.wf() && u.parent == 0 && u.path == root && u.files.0@
                == files@,
            r matches Err(e) ==> e == Error::LengthOverflow,
    {
        Self::new(root, 0, files)
    }

    /// A unit holding `files`, found in directory `path`.
    pub fn new(path: Path, parent: usize, files: Vec<File>) -> (r: Result<Unit, Error>)
        ensures
            files_len(files@) <= u64::MAX <==> r is Ok,
            r matches Ok(u) ==> u.wf() && u.parent == parent && u.path == path && u.files.0@
                == files@,
            r matches Err(e) ==> e == Error::LengthOverflow,
    {
        let mut len: u64 = 0;
        let mut i: usize = 0;
        while i < files.len()
            invariant
                i <= files@.len(),
                len == files_len(files@.subrange(0, i as int)),
            decreases files@.len() - i,
        {
            proof {
                let next = files@.subrange(0, i + 1);
                assert(next.drop_last() =~= files@.subrange(0, i as int));
            }
            if files[i].len > u64::MAX - len {
                proof {
                    lemma_files_len_nonneg(files@.subrange(i + 1, files@.len() as int));
                    lemma_files_len_append(
                        files@.subrange(0, i + 1),
                        files@.subrange(i + 1, files@.len() as int),
                    );
                    assert(files@.subrange(0, i + 1) + files@.subrange(i + 1, files@.len() as int)
                        =~= files@);
                }
                return Err(Error::LengthOverflow);
            }
            len = len + files[i].len;
            i += 1;
        }
        assert(files@.subrange(0, i as int) =~= files@);
        Ok(Unit { parent, len, path, files: Files(files) })
    }

    /// Whether every visible file of the unit is a small file.
    pub fn is_small(&self) -> (r: bool)
        ensures
            r == self.small(),
    {
        let n = self.files.0.len();
        let mut i: usize = 0;
        while i < n
            invariant
                n == self.files.0@.len(),
                i <= n,
                forall|j: int|
                    0 <= j < i && !is_hidden(#[trigger] self.files.0@[j]) ==> self.files.0@[j].len
                        <= SMALL_FILE_UPPER_BOUND,
            decreases n - i,
        {
            let file = &self.files.0[i];
            if !file_is_hidden(file) && file.len > SMALL_FILE_UPPER_BOUND {
                return false;
            }
            i += 1;
        }
        true
    }

    /// Moves the files of `unit` to the end of this unit's files.
    pub fn merge(&mut self, unit: &mut Unit)
        requires
            old(self).len + old(unit).len <= u64::MAX,
        ensures
            final(self).files.0@ == old(self).files.0@ + old(unit).files.0@,
            final(self).len == old(self).len + old(unit).len,
            final(self).parent == old(self).parent,
            final(self).path == old(self).path,
            final(unit).files.0@ == Seq::<File>::empty(),
            final(unit).len == 0,
            final(unit).parent == old(unit).parent,
            final(unit).path == old(unit).path,
    {
        self.files.0.append(&mut unit.files.0);
        self.len = self.len + unit.len;
        unit.len = 0;
    }
}

/// Whether the file's name starts with a dot.
pub fn file_is_hidden(file: &File) -> (r: bool)
    ensures
        r == is_hidden(*file),
{
    match file_name(file.path.as_str()) {
        Some(name) => {
            let s = name.as_str();
            s.unicode_len() > 0 && s.get_char(0) == '.'
        },
        None => false,
    }
}

} // verus!
