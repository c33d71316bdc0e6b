//! Blocks: the metadata of one block directory, its chunk segment headers,
//! its index, and the choice of block directories in a database directory.
use std::sync::Arc;
use vstd::prelude::*;
use crate::encoding::{be_u32, read_u32_be};
use crate::error::IndexError;
use crate::querier::{BlockQuerier, MergeGenericQuerier};
use crate::reader::Reader;

verus! {

/// The only block metadata version.
pub const META_VERSION1: u64 = 1;

/// The first four bytes of every chunk segment.
pub const MAGIC_CHUNK: u32 = 0x85BD40DD;

pub const CHUNKS_FORMAT_V1: u8 = 1;

/// Bytes in a chunk segment header: magic, version, padding.
pub const SEGMENT_HEADER_SIZE: u64 = 8;

/// Why a block could not be opened.
#[derive(Debug, Clone, Copy, PartialEq, Eq, Structural)]
pub enum BlockError {
    /// The metadata names a version other than 1; holds it.
    UnsupportedBlockVersion(u64),
    /// A chunk segment does not start with a valid header.
    InvalidChunkHeader,
    /// The index could not be read.
    Index(IndexError),
}

#[derive(Debug, Clone, PartialEq, Eq)]
pub struct BlockStats {
    pub num_samples: i64,
    pub num_series: i64,
    pub num_chunks: i64,
    pub num_tombstones: Option<i64>,
}

#[derive(Debug, Clone, PartialEq, Eq)]
pub struct BlockMetaCompaction {
    pub level: u64,
    pub sources: Vec<String>,
}

/// The contents of a block's `meta.json`, the ULID as an integer.
#[derive(Debug, Clone, PartialEq, Eq)]
pub struct BlockMeta {
    pub ulid: u128,
    pub min_time: i64,
    pub max_time: i64,
    pub stats: BlockStats,
    pub compaction: BlockMetaCompaction,
    pub version: u64,
}

/// Accepts only the metadata version this reader knows.
pub fn check_meta_version(meta: &BlockMeta) -> (r: Result<(), BlockError>)
    ensures
        r is Ok <==> meta.version == 1,
        r matches Err(e) ==> e == BlockError::UnsupportedBlockVersion(meta.version),
{
    if meta.version != META_VERSION1 {
        return Err(BlockError::UnsupportedBlockVersion(meta.version));
    }
    Ok(())
}

/// A chunk segment header: the chunk magic, format version 1, then padding.
pub open spec fn segment_header_ok(h: Seq<u8>) -> bool {
    h.len() >= 8 && be_u32(h, 0) == 0x85BD40DD && h[4] == 1
}

/// Checks the first bytes of a chunk segment.
pub fn check_segment_header(header: &[u8]) -> (r: Result<(), BlockError>)
    ensures
        r is Ok <==> segment_header_ok(header@),
        r matches Err(e) ==> e == BlockError::InvalidChunkHeader,
{
    if header.len() < 8 {
        return Err(BlockError::InvalidChunkHeader);
    }
    if read_u32_be(header, 0) != MAGIC_CHUNK || header[4] != CHUNKS_FORMAT_V1 {
        return Err(BlockError::InvalidChunkHeader);
    }
    Ok(())
}

/// The value of a ULID in its text form, if it is one.
pub uninterp spec fn ulid_value(s: Seq<char>) -> Option<u128>;

/// Relies on ulid::Ulid::from_string: the value of the 26-character
/// Crockford base32 text, or an error; a function of the text alone.
#[verifier::external_body]
fn parse_ulid(s: &str) -> (r: Option<u128>)
    ensures
        r == ulid_value(s@),
{
    match ulid::Ulid::from_string(s) {
        Ok(u) => Some(u.0),
        Err(_) => None,
    }
}

/// The ULID that a block directory's name spells, if it spells one.
pub fn block_ulid(name: &str) -> (r: Option<u128>)
    ensures
        r == ulid_value(name@),
{
    parse_ulid(name)
}

/// The names, in order, of the entries that are directories named by a ULID.
pub open spec fn block_dir_names(es: Seq<(Seq<char>, bool)>) -> Seq<Seq<char>>
    decreases es.len(),
{
    if es.len() == 0 {
        Seq::empty()
    } else {
        let rest = block_dir_names(es.drop_last());
        if es.last().1 && ulid_value(es.last().0) is Some {
            rest.push(es.last().0)
        } else {
            rest
        }
    }
}

/// Keeps the entries of a database directory, given as name and whether it
/// is a directory, that are block directories.
pub fn select_block_dirs(entries: &Vec<(String, bool)>) -> (r: Vec<String>)
    ensures
        r@.map_values(|s: String| s@) == block_dir_names(entries@.map_values(|e: (String, bool)| (e.0@, e.1))),
{
    let ghost es = entries@.map_values(|e: (String, bool)| (e.0@, e.1));
    let mut out: Vec<String> = Vec::new();
    let n = entries.len();
    let mut i: usize = 0;
    while i < n
        invariant
            n == entries@.len(),
            i <= n,
            es == entries@.map_values(|e: (String, bool)| (e.0@, e.1)),
            out@.map_values(|s: String| s@) == block_dir_names(es.subrange(0, i as int)),
        decreases n - i,
    {
        let ghost prefix = es.subrange(0, i + 1);
        assert(prefix.drop_last() =~= es.subrange(0, i as int));
        let ghost before = out@.map_values(|s: String| s@);
        if entries[i].1 && block_ulid(entries[i].0.as_str()).is_some() {
            out.push(entries[i].0.clone());
            assert(out@.map_values(|s: String| s@) =~= before.push(es[i as int].0));
        }
        i += 1;
    }
    assert(es.subrange(0, n as int) =~= es);
    out
}

/// The first position of `id` among the ULIDs of loaded blocks.
pub fn find_block(loaded: &Vec<u128>, id: u128) -> (r: Option<usize>)
    ensures
        match r {
            Some(i) => i < loaded@.len() && loaded@[i as int] == id
                && forall|j: int| 0 <= j < i ==> loaded@[j] != id,
            None => !loaded@.contains(id),
        },
{
    let n = loaded.len();
    let mut i: usize = 0;
    while i < n
        invariant
            n == loaded@.len(),
            i <= n,
            forall|j: int| 0 <= j < i ==> loaded@[j] != id,
        decreases n - i,
    {
        if loaded[i] == id {
            return Some(i);
        }
        i += 1;
    }
    None
}

/// What to do with one block directory when a database is opened.
#[derive(Debug, Clone, Copy, PartialEq, Eq, Structural)]
pub enum BlockSource {
    /// Its metadata could not be read: leave it out.
    Skip,
    /// A block with its ULID is loaded already: keep that one.
    Reuse(usize),
    /// Open it.
    Open,
}

/// Decides, for each block directory whose metadata gave a ULID (or none,
/// where it could not be read), whether to skip it, reuse a loaded block or
/// open it.
pub fn plan_blocks(metas: &Vec<Option<u128>>, loaded: &Vec<u128>) -> (r: Vec<BlockSource>)
    ensures
        r@.len() == metas@.len(),
        forall|i: int| 0 <= i < metas@.len() ==> match #[trigger] metas@[i] {
            None => r@[i] == BlockSource::Skip,
            Some(id) => match r@[i] {
                BlockSource::Reuse(j) => j < loaded@.len() && loaded@[j as int] == id,
                BlockSource::Open => !loaded@.contains(id),
                BlockSource::Skip => false,
            },
        },
{
    let mut out: Vec<BlockSource> = Vec::new();
    let n = metas.len();
    let mut i: usize = 0;
    while i < n
        invariant
            n == metas@.len(),
            i <= n,
            out@.len() == i,
            forall|k: int| 0 <= k < i ==> match #[trigger] metas@[k] {
                None => out@[k] == BlockSource::Skip,
                Some(id) => match out@[k] {
                    BlockSource::Reuse(j) => j < loaded@.len() && loaded@[j as int] == id,
                    BlockSource::Open => !loaded@.contains(id),
                    BlockSource::Skip => false,
                },
            },
        decreases n - i,
    {
        let s = match metas[i] {
            None => BlockSource::Skip,
            Some(id) => match find_block(loaded, id) {
                Some(j) => BlockSource::Reuse(j),
                None => BlockSource::Open,
            },
        };
        out.push(s);
        i += 1;
    }
    out
}

/// The total of `sizes`, added in order and saturating at `u64::MAX`.
pub open spec fn saturating_total(sizes: Seq<u64>) -> u64
    decreases sizes.len(),
{
    if sizes.len() == 0 {
        0
    } else {
        let t = saturating_total(sizes.drop_last()) as int + sizes.last() as int;
        if t > u64::MAX { u64::MAX } else { t as u64 }
    }
}

/// One block: its metadata, the total size of its chunk segments, and its
/// index.
pub struct Block {
    dir: String,
    meta: BlockMeta,
    num_byte_meta: u64,
    chunk_bytes: u64,
    index: Arc<Reader>,
}

impl Block {
    pub closed spec fn wf(self) -> bool {
        self.meta.version == 1 && self.index.wf()
    }

    pub closed spec fn meta_view(self) -> BlockMeta {
        self.meta
    }

    /// The index of the block.
    pub closed spec fn reader(self) -> Reader {
        *self.index
    }

    pub closed spec fn dir_view(self) -> Seq<char> {
        self.dir@
    }

    pub closed spec fn meta_bytes(self) -> u64 {
        self.num_byte_meta
    }

    pub closed spec fn chunk_total(self) -> u64 {
        self.chunk_bytes
    }

    /// Binds a block: checks its metadata version and the header of each
    /// chunk segment (given with the segment's size), and reads its index.
    pub fn new(
        dir: String,
        meta: BlockMeta,
        num_byte_meta: u64,
        segments: &Vec<(Vec<u8>, u64)>,
        index: Vec<u8>,
    ) -> (r: Result<Block, BlockError>)
        ensures
            match r {
                Ok(b) => {
                    &&& b.wf()
                    &&& b.meta_view() == meta
                    &&& b.reader().data() == index@
                    &&& b.dir_view() == dir@
                    &&& b.meta_bytes() == num_byte_meta
                    &&& b.chunk_total() == saturating_total(segments@.map_values(|x: (Vec<u8>, u64)| x.1))
                    &&& forall|i: int| 0 <= i < segments@.len() ==> segment_header_ok((#[trigger] segments@[i]).0@)
                },
                Err(e) => {
                    &&& meta.version != 1 ==> e == BlockError::UnsupportedBlockVersion(meta.version)
                    &&& (meta.version == 1 && exists|i: int| 0 <= i < segments@.len()
                        && !segment_header_ok((#[trigger] segments@[i]).0@)) ==> e == BlockError::InvalidChunkHeader
                    &&& (meta.version == 1 && forall|i: int| 0 <= i < segments@.len()
                        ==> segment_header_ok((#[trigger] segments@[i]).0@))
                        ==> (e matches BlockError::Index(ie) && crate::reader::build_error(index@, ie))
                },
            },
    {
        let ghost data = index@;
        check_meta_version(&meta)?;
        let mut total: u64 = 0;
        let n = segments.len();
        let mut i: usize = 0;
        while i < n
            invariant
                n == segments@.len(),
                i <= n,
                meta.version == 1,
                forall|k: int| 0 <= k < i ==> segment_header_ok((#[trigger] segments@[k]).0@),
                total == saturating_total(segments@.map_values(|x: (Vec<u8>, u64)| x.1).subrange(0, i as int)),
            decreases n - i,
        {
            check_segment_header(segments[i].0.as_slice())?;
            let ghost sz = segments@.map_values(|x: (Vec<u8>, u64)| x.1);
            total = total.saturating_add(segments[i].1);
            assert(sz.subrange(0, i + 1).drop_last() =~= sz.subrange(0, i as int));
            i += 1;
        }
        assert(segments@.map_values(|x: (Vec<u8>, u64)| x.1).subrange(0, n as int) =~= segments@.map_values(|x: (Vec<u8>, u64)| x.1));
        let reader = match Reader::build(index) {
            Ok(rd) => rd,
            Err(e) => {
                return Err(BlockError::Index(e));
            },
        };
        Ok(Block { dir, meta, num_byte_meta, chunk_bytes: total, index: Arc::new(reader) })
    }

    pub fn dir(&self) -> (r: &String)
        ensures
            r@ == self.dir_view(),
    {
        &self.dir
    }

    pub fn meta(&self) -> (r: &BlockMeta)
        ensures
            *r == self.meta_view(),
    {
        &self.meta
    }

    /// The size of `meta.json` in bytes.
    pub fn num_byte_meta(&self) -> (r: u64)
        ensures
            r == self.meta_bytes(),
    {
        self.num_byte_meta
    }

    /// The total size of the chunk segments in bytes, saturating.
    pub fn chunk_bytes(&self) -> (r: u64)
        ensures
            r == self.chunk_total(),
    {
        self.chunk_bytes
    }

    /// The querier of this block.
    pub fn querier(&self) -> (r: BlockQuerier)
        requires
            self.wf(),
        ensures
            r.wf(),
            r.block_id() == self.meta_view().ulid,
    {
        BlockQuerier::new(self.meta.ulid, self.index.clone())
    }
}

/// The blocks of a database directory.
pub struct DB {
    blocks: Vec<Arc<Block>>,
}

impl DB {
    pub closed spec fn wf(self) -> bool {
        forall|i: int| 0 <= i < self.blocks@.len() ==> (#[trigger] self.blocks@[i]).wf()
    }

    pub closed spec fn block_ids(self) -> Seq<u128> {
        self.blocks@.map_values(|b: Arc<Block>| b.meta_view().ulid)
    }

    pub fn new(blocks: Vec<Arc<Block>>) -> (r: DB)
        requires
            forall|i: int| 0 <= i < blocks@.len() ==> (#[trigger] blocks@[i]).wf(),
        ensures
            r.wf(),
            r.block_ids() == blocks@.map_values(|b: Arc<Block>| b.meta_view().ulid),
    {
        DB { blocks }
    }

    pub fn blocks(&self) -> (r: &Vec<Arc<Block>>)
        ensures
            r@.map_values(|b: Arc<Block>| b.meta_view().ulid) == self.block_ids(),
    {
        &self.blocks
    }

    /// A querier over all blocks, one block querier each, in block order.
    pub fn querier(&self) -> (r: MergeGenericQuerier<BlockQuerier>)
        requires
            self.wf(),
        ensures
            r.len_view() == self.block_ids().len(),
            forall|i: int| 0 <= i < self.block_ids().len() ==> (#[trigger] r.part(i)).wf()
                && r.part(i).block_id() == self.block_ids()[i],
    {
        let mut queriers: Vec<BlockQuerier> = Vec::new();
        let n = self.blocks.len();
        let mut i: usize = 0;
        while i < n
            invariant
                self.wf(),
                n == self.blocks@.len(),
                i <= n,
                queriers@.len() == i,
                forall|j: int| 0 <= j < i ==> (#[trigger] queriers@[j]).wf()
                    && queriers@[j].block_id() == self.blocks@[j].meta_view().ulid,
            decreases n - i,
        {
            let q = self.blocks[i].querier();
            let ghost q0 = queriers@;
            queriers.push(q);
            proof {
                assert forall|j: int| 0 <= j < i + 1 implies (#[trigger] queriers@[j]).wf()
                    && queriers@[j].block_id() == self.blocks@[j].meta_view().ulid by {
                    if j < i {
                        assert(queriers@[j] == q0[j]);
                    }
                }
            }
            i += 1;
        }
        let ghost qs = queriers@;
        let r = crate::querier::new_generic_querier(queriers);
        proof {
            assert forall|i: int| 0 <= i < self.block_ids().len() implies (#[trigger] r.part(i)).wf()
                && r.part(i).block_id() == self.block_ids()[i] by {
                assert(r.part(i) == qs[i]);
                assert(self.block_ids()[i] == self.blocks@[i].meta_view().ulid);
            }
        }
        r
    }
}

} // verus!
