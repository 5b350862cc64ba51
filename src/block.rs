use vstd::prelude::*;

verus! {

/// A piece of one file: `data` is `block_size` bytes long, except for the
/// last block of a file, which may be shorter.
#[derive(Debug)]
pub struct Block {
    file_id: usize,
    block_id: usize,
    data: Vec<u8>,
}

impl Block {
    pub closed spec fn spec_file_id(&self) -> usize {
        self.file_id
    }

    pub closed spec fn spec_block_id(&self) -> usize {
        self.block_id
    }

    pub closed spec fn spec_data(&self) -> Seq<u8> {
        self.data@
    }

    pub fn new(file_id: usize, block_id: usize, data: Vec<u8>) -> (r: Block)
        ensures
            r.spec_file_id() == file_id,
            r.spec_block_id() == block_id,
            r.spec_data() == data@,
    {
        Block { file_id, block_id, data }
    }

    pub fn file_id(&self) -> (r: usize)
        ensures
            r == self.spec_file_id(),
    {
        self.file_id
    }

    pub fn block_id(&self) -> (r: usize)
        ensures
            r == self.spec_block_id(),
    {
        self.block_id
    }

    pub fn data(&self) -> (r: &[u8])
        ensures
            r@ == self.spec_data(),
    {
        self.data.as_slice()
    }
}

/// A file to be streamed, with the identity its blocks carry.
#[derive(Debug)]
pub struct File {
    pub id: usize,
    pub path: String,
}

impl File {
    pub fn new(id: usize, path: &str) -> (r: File)
        ensures
            r.id == id,
            r.path@ == path@,
    {
        File { id, path: path.to_owned() }
    }
}

/// The blocks that a file's bytes are cut into: `block_size` bytes each, the
/// last one possibly shorter, none for an empty file.
pub open spec fn blocks_of(data: Seq<u8>, block_size: nat) -> Seq<Seq<u8>>
    decreases data.len(),
{
    if data.len() == 0 || block_size == 0 {
        Seq::empty()
    } else if data.len() <= block_size {
        seq![data]
    } else {
        seq![data.subrange(0, block_size as int)] + blocks_of(
            data.subrange(block_size as int, data.len() as int),
            block_size,
        )
    }
}

/// Cutting a file into blocks loses nothing: the blocks, in order, make up
/// the file's exact bytes; every block but the last is `block_size` long and
/// the last one is not empty.
pub proof fn lemma_block_coverage(data: Seq<u8>, block_size: nat)
    requires
        block_size > 0,
    ensures
        blocks_of(data, block_size).flatten() == data,
        forall|k: int|
            0 <= k < blocks_of(data, block_size).len() - 1 ==> (#[trigger] blocks_of(
                data,
                block_size,
            )[k]).len() == block_size,
        blocks_of(data, block_size).len() > 0 ==> 0 < blocks_of(data, block_size).last().len()
            <= block_size,
        data.len() == 0 <==> blocks_of(data, block_size).len() == 0,
    decreases data.len(),
{
    let b = blocks_of(data, block_size);
    if data.len() == 0 {
        assert(b.flatten() =~= data);
    } else if data.len() <= block_size {
        assert(b.flatten() =~= data) by {
            assert(b.drop_first() =~= Seq::<Seq<u8>>::empty());
            assert(b.flatten() == b[0] + b.drop_first().flatten());
        }
    } else {
        let head = data.subrange(0, block_size as int);
        let tail = data.subrange(block_size as int, data.len() as int);
        lemma_block_coverage(tail, block_size);
        let rest = blocks_of(tail, block_size);
        assert(b.drop_first() =~= rest);
        assert(b.flatten() == head + rest.flatten());
        assert(head + tail =~= data);
        assert forall|k: int| 0 <= k < b.len() - 1 implies (#[trigger] b[k]).len() == block_size by {
            if k > 0 {
                assert(b[k] == rest[k - 1]);
            }
        }
        assert(b.last() == rest.last());
    }
}

/// Cutting more bytes onto whole blocks adds one block at the end.
pub proof fn lemma_blocks_extend(fed: Seq<u8>, chunk: Seq<u8>, block_size: nat, k: nat)
    requires
        block_size > 0,
        fed.len() == k * block_size,
        0 < chunk.len() <= block_size,
    ensures
        blocks_of(fed + chunk, block_size) == blocks_of(fed, block_size).push(chunk),
    decreases k,
{
    if k == 0 {
        assert(fed.len() == 0) by (nonlinear_arith)
            requires fed.len() == k * block_size, k == 0;
        assert(fed + chunk =~= chunk);
        assert(blocks_of(fed, block_size) =~= Seq::<Seq<u8>>::empty());
        assert(blocks_of(chunk, block_size) == seq![chunk]);
        assert(seq![chunk] =~= Seq::<Seq<u8>>::empty().push(chunk));
    } else {
        let bs = block_size as int;
        assert(fed.len() == (k - 1) * block_size + block_size) by (nonlinear_arith)
            requires fed.len() == k * block_size, k >= 1;
        let rest = fed.subrange(bs, fed.len() as int);
        lemma_blocks_extend(rest, chunk, block_size, (k - 1) as nat);
        let all = fed + chunk;
        assert(all.subrange(0, bs) =~= fed.subrange(0, bs));
        assert(all.subrange(bs, all.len() as int) =~= rest + chunk);
        if fed.len() == block_size {
            assert(rest =~= Seq::<u8>::empty());
            assert(blocks_of(fed, block_size) == seq![fed]);
            assert(fed.subrange(0, bs) =~= fed);
            assert(blocks_of(all, block_size) =~= blocks_of(fed, block_size).push(chunk));
        } else {
            assert(blocks_of(all, block_size) =~= blocks_of(fed, block_size).push(chunk));
        }
    }
}

/// Walks through a sequence of files and cuts what is read from each into
/// blocks. The reading itself is left to the caller: it asks `open_next` which
/// file to read, reads up to `block_size` bytes at a time, and hands them to
/// `cut`, which turns them into a block.
pub struct BlockIter {
    block_size: usize,
    file_id: usize,
    block_id: usize,
    files: Vec<File>,
    next: usize,
    open: bool,
    fed: Ghost<Seq<u8>>,
    emitted: Ghost<Seq<Seq<u8>>>,
}

impl BlockIter {
    pub closed spec fn spec_block_size(&self) -> usize {
        self.block_size
    }

    pub closed spec fn spec_file_id(&self) -> usize {
        self.file_id
    }

    pub closed spec fn spec_block_id(&self) -> usize {
        self.block_id
    }

    pub closed spec fn spec_files(&self) -> Seq<File> {
        self.files@
    }

    /// How many files have been opened so far.
    pub closed spec fn spec_next(&self) -> nat {
        self.next as nat
    }

    pub closed spec fn spec_open(&self) -> bool {
        self.open
    }

    /// The bytes handed to `cut` for the current file so far.
    pub closed spec fn spec_fed(&self) -> Seq<u8> {
        self.fed@
    }

    /// The data of the blocks cut from the current file so far.
    pub closed spec fn spec_emitted(&self) -> Seq<Seq<u8>> {
        self.emitted@
    }

    pub closed spec fn wf(&self) -> bool {
        &&& self.next <= self.files@.len()
        &&& self.block_size > 0
        &&& self.emitted@ == blocks_of(self.fed@, self.block_size as nat)
        &&& self.open ==> self.fed@.len() == self.emitted@.len() * self.block_size
    }

    /// A streamer over `files`, in order, with none of them opened yet.
    pub fn new(block_size: usize, files: Vec<File>) -> (r: BlockIter)
        requires
            block_size > 0,
        ensures
            r.wf(),
            r.spec_block_size() == block_size,
            r.spec_files() == files@,
            r.spec_next() == 0,
            !r.spec_open(),
            r.spec_block_id() == 0,
    {
        let r = BlockIter {
            block_size,
            file_id: 0,
            block_id: 0,
            files,
            next: 0,
            open: false,
            fed: Ghost(Seq::empty()),
            emitted: Ghost(Seq::empty()),
        };
        assert(blocks_of(Seq::<u8>::empty(), block_size as nat) == Seq::<Seq<u8>>::empty());
        r
    }

    pub fn block_size(&self) -> (r: usize)
        ensures
            r == self.spec_block_size(),
    {
        self.block_size
    }

    pub fn block_id(&self) -> (r: usize)
        ensures
            r == self.spec_block_id(),
    {
        self.block_id
    }

    /// Whether a file is being read.
    pub fn is_open(&self) -> (r: bool)
        ensures
            r == self.spec_open(),
    {
        self.open
    }

    /// Moves on to the next file and returns its path; `None` once every file
    /// has been read. Block numbers start again at 0 for the new file.
    pub fn open_next(&mut self) -> (r: Option<String>)
        requires
            old(self).wf(),
        ensures
            final(self).wf(),
            final(self).spec_block_size() == old(self).spec_block_size(),
            final(self).spec_files() == old(self).spec_files(),
            old(self).spec_next() < old(self).spec_files().len() ==> {
                let f = old(self).spec_files()[old(self).spec_next() as int];
                &&& r matches Some(p) && p@ == f.path@
                &&& final(self).spec_next() == old(self).spec_next() + 1
                &&& final(self).spec_open()
                &&& final(self).spec_file_id() == f.id
                &&& final(self).spec_block_id() == 0
                &&& final(self).spec_fed() == Seq::<u8>::empty()
                &&& final(self).spec_emitted() == Seq::<Seq<u8>>::empty()
            },
            old(self).spec_next() >= old(self).spec_files().len() ==> r is None
                && !final(self).spec_open() && final(self).spec_next() == old(self).spec_next(),
    {
        if self.next < self.files.len() {
            let id = self.files[self.next].id;
            let path = self.files[self.next].path.clone();
            self.file_id = id;
            self.block_id = 0;
            self.open = true;
            self.next = self.next + 1;
            self.fed = Ghost(Seq::empty());
            self.emitted = Ghost(Seq::empty());
            assert(blocks_of(Seq::<u8>::empty(), self.block_size as nat) == Seq::<Seq<u8>>::empty());
            Some(path)
        } else {
            self.open = false;
            None
        }
    }

    /// Turns the first `bytes_read` bytes of `buf`, read from the open file,
    /// into a block of that file. A full block keeps the file open for the
    /// next one; a short one, or an empty read, means the file is done.
    pub fn cut(&mut self, buf: Vec<u8>, bytes_read: usize) -> (r: Option<Block>)
        requires
            old(self).wf(),
            old(self).spec_open(),
            bytes_read <= buf@.len(),
            bytes_read <= old(self).spec_block_size(),
            old(self).spec_block_id() < usize::MAX,
        ensures
            final(self).wf(),
            final(self).spec_block_size() == old(self).spec_block_size(),
            final(self).spec_files() == old(self).spec_files(),
            final(self).spec_next() == old(self).spec_next(),
            final(self).spec_file_id() == old(self).spec_file_id(),
            bytes_read == 0 ==> r is None && !final(self).spec_open(),
            bytes_read > 0 ==> (r matches Some(b) && b.spec_file_id() == old(self).spec_file_id()
                && b.spec_block_id() == old(self).spec_block_id() && b.spec_data() == buf@.subrange(
                0,
                bytes_read as int,
            )),
            bytes_read > 0 && bytes_read == old(self).spec_block_size() ==> final(self).spec_open()
                && final(self).spec_block_id() == old(self).spec_block_id() + 1,
            bytes_read < old(self).spec_block_size() ==> !final(self).spec_open(),
            final(self).spec_fed() == old(self).spec_fed() + buf@.subrange(0, bytes_read as int),
            final(self).spec_emitted() == blocks_of(final(self).spec_fed(), old(self).spec_block_size() as nat),
            bytes_read > 0 ==> final(self).spec_emitted() == old(self).spec_emitted().push(
                buf@.subrange(0, bytes_read as int),
            ),
    {
        let ghost chunk = buf@.subrange(0, bytes_read as int);
        if bytes_read == 0 {
            self.open = false;
            assert(self.fed@ + chunk =~= self.fed@);
            self.fed = Ghost(self.fed@ + chunk);
            return None;
        }
        proof {
            lemma_blocks_extend(self.fed@, chunk, self.block_size as nat, self.emitted@.len());
            assert((self.emitted@.len() + 1) * self.block_size == self.emitted@.len() * self.block_size + self.block_size) by (nonlinear_arith);
        }
        self.fed = Ghost(self.fed@ + chunk);
        self.emitted = Ghost(self.emitted@.push(chunk));
        let mut data = buf;
        data.truncate(bytes_read);
        let block = Block { file_id: self.file_id, block_id: self.block_id, data };
        if bytes_read == self.block_size {
            self.block_id = self.block_id + 1;
        } else {
            self.open = false;
        }
        Some(block)
    }
}

} // verus!
