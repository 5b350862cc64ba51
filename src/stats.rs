use vstd::prelude::*;

use crate::errors::Error;
use crate::path::stripped_of;
use crate::unit::File;

verus! {

/// The byte length of a file's path relative to its root, in UTF-8.
pub open spec fn logical_len(file: File) -> usize {
    match stripped_of(file.path@.1, file.path@.0) {
        Some(p) => vstd::utf8::encode_utf8(p).len() as usize,
        None => 0,
    }
}

/// The figures of a file population that the block size is chosen from: the
/// size of each file and the byte length of each file's relative path.
#[derive(Debug)]
pub struct Stats {
    pub path_lens: Vec<usize>,
    pub file_sizes: Vec<u64>,
}

impl Stats {
    pub fn new() -> (r: Stats)
        ensures
            r.path_lens@.len() == 0,
            r.file_sizes@.len() == 0,
    {
        Stats { path_lens: Vec::new(), file_sizes: Vec::new() }
    }

    /// The statistics of `files`; fails when a file does not lie under its
    /// root.
    pub fn files(self, files: &[&File]) -> (r: Result<Stats, Error>)
        ensures
            r is Ok <==> forall|i: int|
                0 <= i < files@.len() ==> stripped_of(
                    (#[trigger] files@[i]).path@.1,
                    files@[i].path@.0,
                ) is Some,
            r is Err ==> r == Err::<Stats, Error>(Error::NotUnderPrefix),
            r matches Ok(s) ==> s.file_sizes@.len() == files@.len() && s.path_lens@.len()
                == files@.len() && forall|i: int|
                0 <= i < files@.len() ==> (#[trigger] s.file_sizes@[i]) == files@[i].len
                    && s.path_lens@[i] == logical_len(*files@[i]),
    {
        let mut file_sizes: Vec<u64> = Vec::new();
        let mut path_lens: Vec<usize> = Vec::new();
        let mut i: usize = 0;
        while i < files.len()
            invariant
                i <= files@.len(),
                file_sizes@.len() == i,
                path_lens@.len() == i,
                forall|k: int|
                    0 <= k < i ==> stripped_of(
                        (#[trigger] files@[k]).path@.1,
                        files@[k].path@.0,
                    ) is Some,
                forall|k: int|
                    0 <= k < i ==> (#[trigger] file_sizes@[k]) == files@[k].len && path_lens@[k]
                        == logical_len(*files@[k]),
            decreases files@.len() - i,
        {
            let file = files[i];
            match file.path.logical() {
                Some(logical) => {
                    let len = logical.as_str().len();
                    path_lens.push(len);
                },
                None => {
                    return Err(Error::NotUnderPrefix);
                },
            }
            file_sizes.push(file.len);
            i += 1;
        }
        Ok(Stats { path_lens, file_sizes })
    }
}

} // verus!
