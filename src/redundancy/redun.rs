use vstd::prelude::*;

use crate::block;
use crate::consts::MAX_REDUNDANCY_BLOCKS;
use crate::errors::Error;
use crate::index::{self, RedundancyIndex};
use crate::redundancy::{redundancy_copy, xor_copy};

verus! {

/// A 128-bit AES key.
pub type EncKey = [u8; 16];

/// The counter block that starts one encrypted block.
pub type Nonce = [u8; 16];

/// The SHA-1 digest of a byte sequence.
pub uninterp spec fn sha1_of(data: Seq<u8>) -> Seq<u8>;

/// AES-128 in counter mode under `key`, starting from counter block `nonce`,
/// applied to `data`.
pub uninterp spec fn aes_ctr_of(key: Seq<u8>, nonce: Seq<u8>, data: Seq<u8>) -> Seq<u8>;

/// Relies on `sha1::Sha1` (`new`, `update`, `digest`, `bytes`): the 20-byte
/// SHA-1 digest of `data`.
#[verifier::external_body]
fn sha1_digest(data: &[u8]) -> (r: crate::redundancy::Hash)
    ensures
        r@ == sha1_of(data@),
{
    let mut sha1 = sha1::Sha1::new();
    sha1.update(data);
    sha1.digest().bytes()
}

/// Relies on `crypto::aes::ctr` with a 128-bit key and its `process`: the
/// input XORed with the AES-CTR key stream, as long as the input.
#[verifier::external_body]
fn encrypt(data: &[u8], key: &EncKey, nonce: &Nonce) -> (r: Vec<u8>)
    ensures
        r@ == aes_ctr_of(key@, nonce@, data@),
        r@.len() == data@.len(),
{
    let mut buf = vec![0u8; data.len()];
    let mut cipher = crypto::aes::ctr(crypto::aes::KeySize::KeySize128, key, nonce);
    cipher.process(data, &mut buf);
    buf
}

/// Relies on `rand::OsRng` (`new`, `fill_bytes`): `n` bytes from the
/// operating system's random source, or `None` when it cannot be opened.
#[verifier::external_body]
fn os_random(n: usize) -> (r: Option<Vec<u8>>)
    ensures
        r matches Some(v) ==> v@.len() == n,
{
    let mut rng = rand::OsRng::new().ok()?;
    let mut buf = vec![0u8; n];
    rand::Rng::fill_bytes(&mut rng, &mut buf);
    Some(buf)
}

/// Relies on `time::get_time`: the wall clock as seconds and nanoseconds
/// since the epoch; the nanoseconds stay below one second.
#[verifier::external_body]
fn wall_clock() -> (r: (i64, i32))
    ensures
        0 <= r.1 < 1_000_000_000,
{
    let now = time::get_time();
    (now.sec, now.nsec)
}

/// `data` followed by zeros up to `n` bytes.
pub open spec fn pad(data: Seq<u8>, n: nat) -> Seq<u8> {
    data + Seq::new((n - data.len()) as nat, |i: int| 0u8)
}

/// What the recovering side computes from the block it still has (`known`)
/// and a redundancy payload: the first `n` bytes of the lost block.
pub open spec fn recover(known: Seq<u8>, payload: Seq<u8>, n: nat) -> Seq<u8> {
    Seq::new(n, |i: int| if i < known.len() { payload[i] ^ known[i] } else { payload[i] })
}

/// Either data medium of a pair can be rebuilt from the other one and the
/// redundancy block: knowing one block and the payload gives back the other
/// block exactly, whichever of the two is longer. A replicated block is the
/// start of its payload.
pub proof fn lemma_recoverable(l: Seq<u8>, r: Seq<u8>, block_size: nat)
    requires
        l.len() <= block_size,
        r.len() <= block_size,
    ensures
        recover(l, pad(xor_copy(l, r), block_size), r.len()) == r,
        recover(r, pad(xor_copy(l, r), block_size), l.len()) == l,
        pad(l, block_size).subrange(0, l.len() as int) == l,
{
    let x = pad(xor_copy(l, r), block_size);
    assert forall|i: int| 0 <= i < r.len() implies #[trigger] recover(l, x, r.len())[i] == r[i] by {
        if i < l.len() {
            let (a, b) = (l[i], r[i]);
            assert(a ^ b ^ a == b) by (bit_vector);
            assert(b ^ a ^ a == b) by (bit_vector);
        }
    }
    assert forall|i: int| 0 <= i < l.len() implies #[trigger] recover(r, x, l.len())[i] == l[i] by {
        if i < r.len() {
            let (a, b) = (l[i], r[i]);
            assert(a ^ b ^ b == a) by (bit_vector);
            assert(b ^ a ^ b == a) by (bit_vector);
        }
    }
    assert(recover(l, x, r.len()) =~= r);
    assert(recover(r, x, l.len()) =~= l);
    assert(pad(l, block_size).subrange(0, l.len() as int) =~= l);
}

/// One plaintext block of a redundancy file, with its nonce.
#[derive(Debug)]
pub struct Block {
    pub nonce: Nonce,
    pub bytes: Vec<u8>,
}

impl Block {
    pub fn new(nonce: &[u8], bytes: Vec<u8>) -> (r: Block)
        requires
            nonce@.len() == 16,
        ensures
            r.nonce@ == nonce@,
            r.bytes@ == bytes@,
    {
        let mut n: Nonce = [0u8; 16];
        let mut i: usize = 0;
        while i < 16
            invariant
                i <= 16,
                nonce@.len() == 16,
                forall|j: int| 0 <= j < i ==> n@[j] == nonce@[j],
            decreases 16 - i,
        {
            n[i] = nonce[i];
            i += 1;
        }
        assert(n@ =~= nonce@);
        Block { nonce: n, bytes }
    }
}

/// The bytes of a redundancy file: each block's nonce followed by the block
/// encrypted under `key` with that nonce.
pub open spec fn encoded(key: Seq<u8>, blocks: Seq<Block>) -> Seq<u8>
    decreases blocks.len(),
{
    if blocks.len() == 0 {
        Seq::empty()
    } else {
        let b = blocks.last();
        encoded(key, blocks.drop_last()) + b.nonce@ + aes_ctr_of(key, b.nonce@, b.bytes@)
    }
}

/// A redundancy file: where it goes and the key its blocks are encrypted with.
#[derive(Debug)]
pub struct RedunFile {
    key: EncKey,
    path: String,
}

impl RedunFile {
    pub closed spec fn spec_key(&self) -> Seq<u8> {
        self.key@
    }

    pub closed spec fn spec_path(&self) -> Seq<char> {
        self.path@
    }

    pub fn new(path: &str) -> (r: RedunFile)
        ensures
            r.spec_path() == path@,
            r.spec_key() == Seq::new(16, |i: int| 0u8),
    {
        let r = RedunFile { key: [0u8; 16], path: path.to_owned() };
        assert(r.spec_key() =~= Seq::new(16, |i: int| 0u8));
        r
    }

    pub fn with_enc_key(self, key: &[u8]) -> (r: RedunFile)
        requires
            key@.len() == 16,
        ensures
            r.spec_key() == key@,
            r.spec_path() == self.spec_path(),
    {
        let mut k: EncKey = [0u8; 16];
        let mut i: usize = 0;
        while i < 16
            invariant
                i <= 16,
                key@.len() == 16,
                forall|j: int| 0 <= j < i ==> k@[j] == key@[j],
            decreases 16 - i,
        {
            k[i] = key[i];
            i += 1;
        }
        assert(k@ =~= key@);
        RedunFile { key: k, path: self.path }
    }

    pub fn path(&self) -> (r: &str)
        ensures
            r@ == self.spec_path(),
    {
        self.path.as_str()
    }

    /// The file's contents for `blocks`: nonce, then ciphertext, block after
    /// block. Every block is `block_size` bytes long.
    pub fn encode_blocks(&self, blocks: &[Block], block_size: usize) -> (r: Vec<u8>)
        requires
            forall|i: int| 0 <= i < blocks@.len() ==> (#[trigger] blocks@[i]).bytes@.len() == block_size,
        ensures
            r@ == encoded(self.spec_key(), blocks@),
            r@.len() == blocks@.len() * (16 + block_size),
    {
        let mut out: Vec<u8> = Vec::new();
        let mut i: usize = 0;
        while i < blocks.len()
            invariant
                i <= blocks@.len(),
                out@ == encoded(self.key@, blocks@.subrange(0, i as int)),
                out@.len() == i * (16 + block_size),
                forall|j: int| 0 <= j < blocks@.len() ==> (#[trigger] blocks@[j]).bytes@.len() == block_size,
            decreases blocks@.len() - i,
        {
            let b = &blocks[i];
            let cipher = encrypt(b.bytes.as_slice(), &self.key, &b.nonce);
            proof {
                assert(blocks@.subrange(0, i + 1).drop_last() =~= blocks@.subrange(0, i as int));
            }
            let ghost before = out@;
            append_bytes(&mut out, &b.nonce);
            append_bytes(&mut out, cipher.as_slice());
            assert(out@ =~= before + b.nonce@ + cipher@);
            assert((i + 1) * (16 + block_size) == i * (16 + block_size) + 16 + block_size) by (nonlinear_arith);
            i += 1;
        }
        assert(blocks@.subrange(0, i as int) =~= blocks@);
        out
    }
}

fn append_bytes(out: &mut Vec<u8>, bytes: &[u8])
    ensures
        final(out)@ == old(out)@ + bytes@,
{
    let mut i: usize = 0;
    while i < bytes.len()
        invariant
            i <= bytes@.len(),
            out@ == old(out)@ + bytes@.subrange(0, i as int),
        decreases bytes@.len() - i,
    {
        out.push(bytes[i]);
        i += 1;
        assert(out@ =~= old(out)@ + bytes@.subrange(0, i as int));
    }
    assert(bytes@.subrange(0, i as int) =~= bytes@);
}

/// How an emitted redundancy block was made.
#[derive(Debug)]
pub enum PartialIndexKind {
    Redundancy { left: index::Block, right: index::Block },
    Replication { original: index::Block },
}

/// One emitted redundancy block before the id of the file that will hold it
/// is known: how it was made, its position `id` in that file, and the length
/// and SHA-1 of its unpadded payload.
#[derive(Debug)]
pub struct PartialIndex {
    pub kind: PartialIndexKind,
    pub id: usize,
    pub len: u32,
    pub hash: crate::redundancy::Hash,
}

/// `ib` names block `b`: the same file and position, its length, and the
/// SHA-1 of exactly its bytes.
pub open spec fn names(ib: index::Block, b: block::Block) -> bool {
    &&& ib.file == b.spec_file_id()
    &&& ib.block == b.spec_block_id()
    &&& ib.size == b.spec_data().len()
    &&& ib.hash@ == sha1_of(b.spec_data())
}

/// The unpadded payload made from a pair of blocks: their parity when both
/// are there, a copy of the one block otherwise.
pub open spec fn raw_payload(l: Option<block::Block>, r: Option<block::Block>) -> Seq<u8> {
    match (l, r) {
        (Some(a), Some(b)) => xor_copy(a.spec_data(), b.spec_data()),
        (Some(a), None) => a.spec_data(),
        (None, Some(b)) => b.spec_data(),
        (None, None) => Seq::empty(),
    }
}

/// `p` is the record of the payload made from `l` and `r` at position `id`.
pub open spec fn records(p: PartialIndex, id: int, l: Option<block::Block>, r: Option<block::Block>) -> bool {
    &&& p.id == id
    &&& p.len == raw_payload(l, r).len()
    &&& p.hash@ == sha1_of(raw_payload(l, r))
    &&& match (l, r) {
        (Some(a), Some(b)) => p.kind matches PartialIndexKind::Redundancy { left, right } && names(
            left,
            a,
        ) && names(right, b),
        (Some(a), None) => p.kind matches PartialIndexKind::Replication { original } && names(
            original,
            a,
        ),
        (None, Some(b)) => p.kind matches PartialIndexKind::Replication { original } && names(
            original,
            b,
        ),
        (None, None) => false,
    }
}

/// Builds the redundancy blocks of one pair of data media, pair of blocks by
/// pair of blocks. Blocks queue up in memory with their records until the
/// caller spills them into a redundancy file.
#[derive(Debug)]
pub struct Redundancy {
    block_size: usize,
    queue: Vec<Block>,
    partial_indices: Vec<PartialIndex>,
    key: EncKey,
}

impl Redundancy {
    pub closed spec fn spec_block_size(&self) -> usize {
        self.block_size
    }

    pub closed spec fn spec_queue(&self) -> Seq<Block> {
        self.queue@
    }

    pub closed spec fn spec_partial_indices(&self) -> Seq<PartialIndex> {
        self.partial_indices@
    }

    pub closed spec fn spec_key(&self) -> Seq<u8> {
        self.key@
    }

    /// Queued blocks are `block_size` long and match their records one to one.
    pub open spec fn wf(&self) -> bool {
        &&& 0 < self.spec_block_size() <= u32::MAX
        &&& self.spec_queue().len() == self.spec_partial_indices().len()
        &&& self.spec_queue().len() <= MAX_REDUNDANCY_BLOCKS
        &&& forall|i: int|
            0 <= i < self.spec_queue().len() ==> (#[trigger] self.spec_queue()[i]).bytes@.len()
                == self.spec_block_size()
    }

    /// An engine with an empty queue and an all-zero key.
    pub fn new(block_size: usize) -> (r: Redundancy)
        requires
            0 < block_size <= u32::MAX,
        ensures
            r.wf(),
            r.spec_block_size() == block_size,
            r.spec_queue().len() == 0,
            r.spec_key() == Seq::new(16, |i: int| 0u8),
    {
        let r = Redundancy {
            block_size,
            queue: Vec::new(),
            partial_indices: Vec::new(),
            key: [0u8; 16],
        };
        assert(r.spec_key() =~= Seq::new(16, |i: int| 0u8));
        r
    }

    /// The same engine, encrypting with `key`.
    pub fn key(self, key: &[u8]) -> (r: Redundancy)
        requires
            key@.len() == 16,
        ensures
            r.spec_key() == key@,
            r.spec_block_size() == self.spec_block_size(),
            r.spec_queue() == self.spec_queue(),
            r.spec_partial_indices() == self.spec_partial_indices(),
    {
        let mut k: EncKey = [0u8; 16];
        let mut i: usize = 0;
        while i < 16
            invariant
                i <= 16,
                key@.len() == 16,
                forall|j: int| 0 <= j < i ==> k@[j] == key@[j],
            decreases 16 - i,
        {
            k[i] = key[i];
            i += 1;
        }
        assert(k@ =~= key@);
        Redundancy { key: k, ..self }
    }

    /// Takes the next block of each data medium, `None` for a medium that is
    /// exhausted, and queues the redundancy block made of them with its record:
    /// the parity of the two when both are there, a copy of the one otherwise,
    /// zero-padded to `block_size`. Returns whether the queue is full and must
    /// be spilled.
    pub fn push(&mut self, lblk: Option<block::Block>, rblk: Option<block::Block>, nonce: &Nonce) -> (full: bool)
        requires
            old(self).wf(),
            old(self).spec_queue().len() < MAX_REDUNDANCY_BLOCKS,
            lblk is Some || rblk is Some,
            lblk matches Some(b) ==> b.spec_data().len() <= old(self).spec_block_size(),
            rblk matches Some(b) ==> b.spec_data().len() <= old(self).spec_block_size(),
        ensures
            final(self).wf(),
            final(self).spec_block_size() == old(self).spec_block_size(),
            final(self).spec_key() == old(self).spec_key(),
            final(self).spec_queue().len() == old(self).spec_queue().len() + 1,
            final(self).spec_queue().drop_last() == old(self).spec_queue(),
            final(self).spec_queue().last().nonce@ == nonce@,
            final(self).spec_queue().last().bytes@ == pad(
                raw_payload(lblk, rblk),
                old(self).spec_block_size() as nat,
            ),
            final(self).spec_partial_indices().drop_last() == old(self).spec_partial_indices(),
            records(
                final(self).spec_partial_indices().last(),
                old(self).spec_queue().len() as int,
                lblk,
                rblk,
            ),
            full == (final(self).spec_queue().len() >= MAX_REDUNDANCY_BLOCKS),
    {
        let id = self.queue.len();
        let bs = self.block_size;
        let (index, raw) = match (lblk, rblk) {
            (Some(l), Some(r)) => {
                let lhash = sha1_digest(l.data());
                let rhash = sha1_digest(r.data());
                let n = if l.data().len() < r.data().len() {
                    r.data().len()
                } else {
                    l.data().len()
                };
                let mut buf = zeros(n);
                redundancy_copy(l.data(), r.data(), buf.as_mut_slice());
                let redun_hash = sha1_digest(buf.as_slice());
                let index = PartialIndex {
                    kind: PartialIndexKind::Redundancy {
                        left: index::Block::new(l.file_id(), l.block_id(), l.data().len() as u32, &lhash),
                        right: index::Block::new(r.file_id(), r.block_id(), r.data().len() as u32, &rhash),
                    },
                    id,
                    len: n as u32,
                    hash: redun_hash,
                };
                (index, buf)
            },
            (Some(b), None) | (None, Some(b)) => {
                let hash = sha1_digest(b.data());
                let index = PartialIndex {
                    kind: PartialIndexKind::Replication {
                        original: index::Block::new(b.file_id(), b.block_id(), b.data().len() as u32, &hash),
                    },
                    id,
                    len: b.data().len() as u32,
                    hash,
                };
                let mut buf: Vec<u8> = Vec::new();
                append_bytes(&mut buf, b.data());
                (index, buf)
            },
            (None, None) => {
                assert(false);
                return false;
            },
        };
        assert(raw@ == raw_payload(lblk, rblk));
        let mut padded = raw;
        let pad_len = bs - padded.len();
        let tail = zeros(pad_len);
        append_bytes(&mut padded, tail.as_slice());
        assert(padded@ =~= pad(raw_payload(lblk, rblk), bs as nat));
        self.partial_indices.push(index);
        self.queue.push(Block::new(nonce, padded));
        self.queue.len() >= MAX_REDUNDANCY_BLOCKS
    }

    /// Empties the queue into the contents of one redundancy file, and hands
    /// back those contents with the records of its blocks, in file order.
    pub fn spill(&mut self) -> (r: (Vec<u8>, Vec<PartialIndex>))
        requires
            old(self).wf(),
        ensures
            final(self).wf(),
            final(self).spec_block_size() == old(self).spec_block_size(),
            final(self).spec_key() == old(self).spec_key(),
            final(self).spec_queue().len() == 0,
            r.0@ == encoded(old(self).spec_key(), old(self).spec_queue()),
            r.0@.len() == old(self).spec_queue().len() * (16 + old(self).spec_block_size()),
            r.1@ == old(self).spec_partial_indices(),
    {
        let file = RedunFile { key: self.key, path: String::new() };
        let bytes = file.encode_blocks(self.queue.as_slice(), self.block_size);
        let mut indices: Vec<PartialIndex> = Vec::new();
        std::mem::swap(&mut indices, &mut self.partial_indices);
        self.queue = Vec::new();
        (bytes, indices)
    }

    pub fn is_empty(&self) -> (r: bool)
        ensures
            r == (self.spec_queue().len() == 0),
    {
        self.queue.len() == 0
    }
}

fn zeros(n: usize) -> (r: Vec<u8>)
    ensures
        r@ == Seq::new(n as nat, |i: int| 0u8),
{
    let mut v: Vec<u8> = Vec::new();
    let mut i: usize = 0;
    while i < n
        invariant
            i <= n,
            v@ == Seq::new(i as nat, |j: int| 0u8),
        decreases n - i,
    {
        v.push(0u8);
        i += 1;
        assert(v@ =~= Seq::new(i as nat, |j: int| 0u8));
    }
    v
}

/// `r` is the on-disk record of `partial` once the redundancy file holding
/// it has id `file_id`: the same source blocks, and the redundancy block named
/// by that file, its position in it, and its payload's length and SHA-1.
pub open spec fn indexes(r: RedundancyIndex, partial: PartialIndex, file_id: usize) -> bool {
    match (partial.kind, r) {
        (
            PartialIndexKind::Redundancy { left, right },
            RedundancyIndex::Redundancy { left: l, right: rr, redundancy },
        ) => l == left && rr == right && redundancy.file == file_id && redundancy.block
            == partial.id && redundancy.size == partial.len && redundancy.hash == partial.hash,
        (
            PartialIndexKind::Replication { original },
            RedundancyIndex::Replication { original: o, replication },
        ) => o == original && replication.file == file_id && replication.block == partial.id
            && replication.size == partial.len && replication.hash == partial.hash,
        _ => false,
    }
}

/// The on-disk record of a redundancy block once the file holding it has
/// got id `file_id` in the file table.
pub fn redundancy_index(partial: &PartialIndex, file_id: usize) -> (r: RedundancyIndex)
    ensures
        indexes(r, *partial, file_id),
        match (partial.kind, r) {
            (
                PartialIndexKind::Redundancy { left, right },
                RedundancyIndex::Redundancy { left: l, right: rr, redundancy },
            ) => l == left && rr == right && redundancy.file == file_id && redundancy.block
                == partial.id && redundancy.size == partial.len && redundancy.hash == partial.hash,
            (
                PartialIndexKind::Replication { original },
                RedundancyIndex::Replication { original: o, replication },
            ) => o == original && replication.file == file_id && replication.block == partial.id
                && replication.size == partial.len && replication.hash == partial.hash,
            _ => false,
        },
{
    let this = index::Block { file: file_id, block: partial.id, size: partial.len, hash: partial.hash };
    match partial.kind {
        PartialIndexKind::Redundancy { left, right } => RedundancyIndex::Redundancy {
            left,
            right,
            redundancy: this,
        },
        PartialIndexKind::Replication { original } => RedundancyIndex::Replication {
            original,
            replication: this,
        },
    }
}

/// A key holding exactly the given 16 bytes.
pub fn key_from(bytes: &[u8]) -> (r: EncKey)
    requires
        bytes@.len() == 16,
    ensures
        r@ == bytes@,
{
    let mut k: EncKey = [0u8; 16];
    let mut i: usize = 0;
    while i < 16
        invariant
            i <= 16,
            bytes@.len() == 16,
            forall|j: int| 0 <= j < i ==> k@[j] == bytes@[j],
        decreases 16 - i,
    {
        k[i] = bytes[i];
        i += 1;
    }
    assert(k@ =~= bytes@);
    k
}

/// A fresh 16-byte key from the operating system's random source.
pub fn generate_key() -> (r: Result<EncKey, Error>)
    ensures
        r is Err ==> r == Err::<EncKey, Error>(Error::Random),
{
    match os_random(16) {
        Some(v) => Ok(key_from(v.as_slice())),
        None => Err(Error::Random),
    }
}

/// The clock part of a nonce: the low 32 bits of the seconds above the
/// nanoseconds.
pub open spec fn time_part(sec: i64, nsec: i32) -> u64 {
    (((sec as u64) & 0xffff_ffffu64) << 32u64) | (nsec as u64)
}

/// Byte `k` of `v` in little-endian order.
pub open spec fn le_byte(v: u64, k: int) -> u8 {
    ((v >> ((8 * k) as u64)) & 0xffu64) as u8
}

/// A nonce from a clock reading and eight random bytes: the clock part in
/// little-endian order, then the random bytes.
pub fn nonce_from(sec: i64, nsec: i32, random: &[u8]) -> (r: Nonce)
    requires
        0 <= nsec,
        random@.len() == 8,
    ensures
        forall|k: int| 0 <= k < 8 ==> r@[k] == le_byte(time_part(sec, nsec), k),
        forall|k: int| 8 <= k < 16 ==> r@[k] == random@[k - 8],
{
    let t: u64 = (((sec as u64) & 0xffff_ffffu64) << 32u64) | (nsec as u64);
    let mut nonce: Nonce = [0u8; 16];
    let mut k: usize = 0;
    while k < 8
        invariant
            k <= 8,
            t == time_part(sec, nsec),
            forall|j: int| 0 <= j < k ==> nonce@[j] == le_byte(t, j),
        decreases 8 - k,
    {
        let shift: u64 = 8 * (k as u64);
        let byte: u64 = (t >> shift) & 0xffu64;
        assert(byte <= 0xff) by (bit_vector)
            requires
                byte == (t >> shift) & 0xffu64,
        ;
        nonce[k] = byte as u8;
        k += 1;
    }
    while k < 16
        invariant
            8 <= k <= 16,
            random@.len() == 8,
            forall|j: int| 0 <= j < 8 ==> nonce@[j] == le_byte(t, j),
            t == time_part(sec, nsec),
            forall|j: int| 8 <= j < k ==> nonce@[j] == random@[j - 8],
        decreases 16 - k,
    {
        nonce[k] = random[k - 8];
        k += 1;
    }
    nonce
}

/// The first eight bytes of `n` are the clock part of a reading of `sec`
/// seconds and `nsec` nanoseconds.
pub open spec fn clock_prefix(n: Seq<u8>, sec: i64, nsec: i32) -> bool {
    &&& 0 <= nsec < 1_000_000_000
    &&& forall|k: int| 0 <= k < 8 ==> n[k] == #[trigger] le_byte(time_part(sec, nsec), k)
}

/// A fresh nonce: the wall clock, then eight bytes from the operating
/// system's random source.
pub fn generate_nonce() -> (r: Result<Nonce, Error>)
    ensures
        r is Err ==> r == Err::<Nonce, Error>(Error::Random),
        r is Ok ==> exists|sec: i64, nsec: i32| #[trigger] clock_prefix(r->Ok_0@, sec, nsec),
{
    let (sec, nsec) = wall_clock();
    match os_random(8) {
        Some(random) => {
            let n = nonce_from(sec, nsec, random.as_slice());
            let r: Result<Nonce, Error> = Ok(n);
            assert(clock_prefix(r->Ok_0@, sec, nsec));
            r
        },
        None => Err(Error::Random),
    }
}

} // verus!
