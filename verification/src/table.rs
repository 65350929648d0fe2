//! Sorted string tables.
//!
//! The file of a table is laid out as
//! `blocks | block metadata | metadata offset (4) | bloom filter | bloom offset (4)`,
//! where each block is followed by the four bytes of its checksum.
use crate::block::{self, Block, BlockIterator};
use crate::codec::{
    self, append_le, copy_to_bytes, get_u16_le, get_u64_le, read_u16_le, read_u32_le,
};
use crate::error::LsmError;
use crate::hashing;
use crate::key::{self, Entry, KeyBytes, KeySlice, KeyVec, KeyView, StorageKey, copy_bytes};
use crate::table::bloom::Bloom;
use std::sync::Arc;
use vstd::prelude::*;

pub mod bloom;
pub mod builder;
pub mod iterator;
pub mod sound;

pub use builder::SsTableBuilder;
pub use iterator::SsTableIterator;

verus! {

/// Where a block stands in its table, and the range of its keys.
#[derive(Debug)]
pub struct BlockMeta {
    /// Offset of this data block.
    pub offset: usize,
    /// The first key of the data block.
    pub first_key: KeyBytes,
    /// The last key of the data block.
    pub last_key: KeyBytes,
}

/// Block metadata as a mathematical value.
#[verifier::ext_equal]
pub struct MetaView {
    pub offset: usize,
    pub first_key: KeyView,
    pub last_key: KeyView,
}

impl View for BlockMeta {
    type V = MetaView;

    open spec fn view(&self) -> MetaView {
        MetaView { offset: self.offset, first_key: self.first_key@, last_key: self.last_key@ }
    }
}

pub open spec fn metas_view(metas: Seq<BlockMeta>) -> Seq<MetaView> {
    metas.map_values(|m: BlockMeta| m@)
}

/// The bytes of one piece of metadata: the offset and the two user keys. Timestamps are not kept.
pub open spec fn meta_bytes(m: MetaView) -> Seq<u8> {
    codec::le_bytes(m.offset as nat, 8) + codec::le_bytes((m.first_key.key.len() as u16) as nat, 2)
        + m.first_key.key + codec::le_bytes((m.last_key.key.len() as u16) as nat, 2)
            + m.last_key.key
}

pub open spec fn metas_bytes(ms: Seq<MetaView>) -> Seq<u8>
    decreases ms.len(),
{
    if ms.len() == 0 {
        Seq::empty()
    } else {
        meta_bytes(ms[0]) + metas_bytes(ms.drop_first())
    }
}

/// The metadata that stands at the front of `s`, and how many bytes it takes; `None` if `s` ends
/// within it.
pub open spec fn parse_meta(s: Seq<u8>) -> Option<(MetaView, nat)> {
    if s.len() < 10 {
        None
    } else {
        let a = codec::le_value(s.subrange(8, 10));
        if s.len() < 12 + a {
            None
        } else {
            let b = codec::le_value(s.subrange(10 + a as int, 12 + a as int));
            if s.len() < 12 + a + b {
                None
            } else {
                let m = MetaView {
                    offset: codec::le_value(s.take(8)) as u64 as usize,
                    first_key: key::user_key(s.subrange(10, 10 + a as int)),
                    last_key: key::user_key(s.subrange(12 + a as int, (12 + a + b) as int)),
                };
                Some((m, 12 + a + b))
            }
        }
    }
}

/// The metadata that `s` lists; `None` if `s` ends within a piece of it.
pub open spec fn parse_metas(s: Seq<u8>) -> Option<Seq<MetaView>>
    decreases s.len(),
{
    if s.len() == 0 {
        Some(Seq::empty())
    } else {
        match parse_meta(s) {
            None => None,
            Some((m, n)) => match parse_metas(s.skip(n as int)) {
                None => None,
                Some(ms) => Some(seq![m] + ms),
            },
        }
    }
}

/// Metadata whose keys carry the default timestamp.
pub open spec fn without_ts(m: MetaView) -> MetaView {
    MetaView {
        offset: m.offset,
        first_key: key::user_key(m.first_key.key),
        last_key: key::user_key(m.last_key.key),
    }
}

/// The keys are short enough for their length fields.
pub open spec fn meta_fits(m: MetaView) -> bool {
    m.first_key.key.len() <= u16::MAX && m.last_key.key.len() <= u16::MAX
}

impl BlockMeta {
    /// Appends the bytes of the metadata to `buf`.
    pub fn encode_block_meta(block_meta: &[BlockMeta], buf: &mut Vec<u8>)
        ensures
            final(buf)@ == old(buf)@ + metas_bytes(metas_view(block_meta@)),
    {
        let ghost all = metas_view(block_meta@);
        let ghost target = buf@ + metas_bytes(all);
        let mut i: usize = 0;
        assert(all.skip(0) =~= all);
        while i < block_meta.len()
            invariant
                i <= block_meta@.len(),
                all == metas_view(block_meta@),
                target == buf@ + metas_bytes(all.skip(i as int)),
            decreases block_meta@.len() - i,
        {
            let m: &BlockMeta = &block_meta[i];
            let ghost before = buf@;
            append_le(buf, m.offset as u64, 8);
            append_le(buf, (m.first_key.key_len() as u16) as u64, 2);
            buf.extend_from_slice(m.first_key.key_ref());
            append_le(buf, (m.last_key.key_len() as u16) as u64, 2);
            buf.extend_from_slice(m.last_key.key_ref());
            proof {
                assert(all[i as int] == m@);
                assert(buf@ =~= before + meta_bytes(m@));
                assert(all.skip(i as int).drop_first() =~= all.skip(i + 1));
                assert(all.skip(i as int)[0] == m@);
                assert(before + (meta_bytes(m@) + metas_bytes(all.skip(i + 1))) =~= (before
                    + meta_bytes(m@)) + metas_bytes(all.skip(i + 1)));
            }
            i = i + 1;
        }
        assert(all.skip(i as int) =~= Seq::empty());
        assert(buf@ =~= target);
    }

    /// Reads metadata out of its bytes.
    pub fn decode_block_meta(buf: &[u8]) -> (ms: Vec<BlockMeta>)
        requires
            parse_metas(buf@) is Some,
        ensures
            metas_view(ms@) == parse_metas(buf@).unwrap(),
    {
        let mut ms: Vec<BlockMeta> = Vec::new();
        let mut pos: usize = 0;
        let ghost all = parse_metas(buf@).unwrap();
        assert(buf@.skip(0) =~= buf@);
        assert(metas_view(ms@) + parse_metas(buf@).unwrap() =~= all);
        while pos < buf.len()
            invariant
                pos <= buf@.len(),
                parse_metas(buf@.skip(pos as int)) is Some,
                metas_view(ms@) + parse_metas(buf@.skip(pos as int)).unwrap() == all,
            decreases buf@.len() - pos,
        {
            let n: usize = buf.len();
            let ghost s = buf@.skip(pos as int);
            let rest: &[u8] = &buf[pos..n];
            assert(rest@ =~= s);
            let offset: usize = get_u64_le(rest) as usize;
            let at_first: &[u8] = &buf[pos + 8..n];
            assert(at_first@.take(2) =~= s.subrange(8, 10));
            let first_len: usize = get_u16_le(at_first) as usize;
            let first: Vec<u8> = copy_to_bytes(&buf[pos + 10..n], first_len);
            assert(first@ =~= s.subrange(10, 10 + first_len as int));
            let at_last: &[u8] = &buf[pos + 10 + first_len..n];
            assert(at_last@.take(2) =~= s.subrange(10 + first_len as int, 12 + first_len as int));
            let last_len: usize = get_u16_le(at_last) as usize;
            let last: Vec<u8> = copy_to_bytes(&buf[pos + 12 + first_len..n], last_len);
            assert(last@ =~= s.subrange(12 + first_len as int, 12 + first_len + last_len));
            let m = BlockMeta {
                offset,
                first_key: KeyVec::from_vec(first),
                last_key: KeyVec::from_vec(last),
            };
            let ghost before = metas_view(ms@);
            proof {
                assert(parse_meta(s) == Some((m@, (12 + first_len + last_len) as nat)));
                assert(s.skip(12 + first_len + last_len) =~= buf@.skip(
                    pos + 12 + first_len + last_len,
                ));
            }
            ms.push(m);
            pos = pos + 12 + first_len + last_len;
            proof {
                assert(metas_view(ms@) =~= before.push(m@));
                assert(before.push(m@) + parse_metas(buf@.skip(pos as int)).unwrap() =~= before + (
                seq![m@] + parse_metas(buf@.skip(pos as int)).unwrap()));
            }
        }
        assert(buf@.skip(pos as int) =~= Seq::empty());
        assert(metas_view(ms@) =~= all);
        ms
    }

    /// Whether `buf` lists metadata to its end.
    pub fn is_decodable(buf: &[u8]) -> (r: bool)
        ensures
            r == (parse_metas(buf@) is Some),
    {
        let mut pos: usize = 0;
        assert(buf@.skip(0) =~= buf@);
        while pos < buf.len()
            invariant
                pos <= buf@.len(),
                parse_metas(buf@) is Some <==> parse_metas(buf@.skip(pos as int)) is Some,
            decreases buf@.len() - pos,
        {
            let n: usize = buf.len();
            let ghost s = buf@.skip(pos as int);
            if n - pos < 10 {
                return false;
            }
            assert(s.subrange(8, 10) =~= buf@.subrange(pos + 8, pos + 10));
            let a: usize = read_u16_le(buf, pos + 8) as usize;
            if n - pos < 12 + a {
                return false;
            }
            assert(s.subrange(10 + a as int, 12 + a as int) =~= buf@.subrange(
                pos + 10 + a,
                pos + 12 + a,
            ));
            let b: usize = read_u16_le(buf, pos + 10 + a) as usize;
            if n - pos < 12 + a + b {
                return false;
            }
            assert(s.skip(12 + a + b) =~= buf@.skip(pos + 12 + a + b));
            pos = pos + 12 + a + b;
        }
        assert(buf@.skip(pos as int) =~= Seq::empty());
        true
    }
}

/// Metadata is read back as it was written, but for the timestamps of its keys.
pub proof fn law_metas_decode_encode(ms: Seq<MetaView>)
    requires
        forall|i: int| 0 <= i < ms.len() ==> meta_fits(#[trigger] ms[i]),
    ensures
        parse_metas(metas_bytes(ms)) == Some(ms.map_values(|m: MetaView| without_ts(m))),
    decreases ms.len(),
{
    broadcast use codec::lemma_le_bytes_len;

    codec::lemma_byte_capacities();
    let s = metas_bytes(ms);
    let target = ms.map_values(|m: MetaView| without_ts(m));
    if ms.len() == 0 {
        assert(target =~= Seq::empty());
    } else {
        let m = ms[0];
        let rest = ms.drop_first();
        assert(meta_fits(m));
        assert forall|i: int| 0 <= i < rest.len() implies meta_fits(#[trigger] rest[i]) by {
            assert(rest[i] == ms[i + 1]);
        }
        law_metas_decode_encode(rest);
        let a = m.first_key.key.len();
        let b = m.last_key.key.len();
        assert(s.take(8) =~= codec::le_bytes(m.offset as nat, 8));
        codec::lemma_le_round_trip(m.offset as nat, 8);
        assert(s.subrange(8, 10) =~= codec::le_bytes(a, 2));
        codec::lemma_le_round_trip(a, 2);
        assert(s.subrange(10, 10 + a as int) =~= m.first_key.key);
        assert(s.subrange(10 + a as int, 12 + a as int) =~= codec::le_bytes(b, 2));
        codec::lemma_le_round_trip(b, 2);
        assert(s.subrange(12 + a as int, (12 + a + b) as int) =~= m.last_key.key);
        assert(s.skip((12 + a + b) as int) =~= metas_bytes(rest));
        assert(parse_meta(s) == Some((without_ts(m), (12 + a + b) as nat)));
        assert(target =~= seq![without_ts(m)] + rest.map_values(|m: MetaView| without_ts(m)));
    }
}

/// The content of a file, or only its size.
#[derive(Debug)]
pub struct FileObject {
    pub data: Option<Vec<u8>>,
    pub size: u64,
}

impl FileObject {
    /// The content is there and the size is its length.
    pub open spec fn present(&self) -> bool {
        self.data is Some && self.size == self.data->Some_0@.len()
    }

    pub open spec fn content(&self) -> Seq<u8> {
        self.data->Some_0@
    }

    /// Reads `len` bytes at `offset`.
    pub fn read(&self, offset: u64, len: u64) -> (r: Result<Vec<u8>, LsmError>)
        requires
            self.data is Some,
        ensures
            offset + len <= self.content().len() ==> r is Ok && r->Ok_0@ == self.content().subrange(
                offset as int,
                offset + len,
            ),
            offset + len > self.content().len() ==> r == Err::<Vec<u8>, _>(
                LsmError::ReadOutOfRange,
            ),
    {
        let data: &Vec<u8> = self.data.as_ref().unwrap();
        let n: u64 = data.len() as u64;
        if offset > n || len > n - offset {
            return Err(LsmError::ReadOutOfRange);
        }
        Ok(copy_bytes(&data.as_slice()[offset as usize..(offset + len) as usize]))
    }

    pub fn size(&self) -> (r: u64)
        ensures
            r == self.size,
    {
        self.size
    }

    /// A new file with the given content.
    pub fn create(data: Vec<u8>) -> (f: Self)
        ensures
            f.present(),
            f.content() == data@,
    {
        let size: u64 = data.len() as u64;
        FileObject { data: Some(data), size }
    }

    /// An existing file, with what was read from it.
    pub fn open(data: Vec<u8>) -> (f: Self)
        ensures
            f.present(),
            f.content() == data@,
    {
        let size: u64 = data.len() as u64;
        FileObject { data: Some(data), size }
    }
}

/// Where the block `i`, with its checksum, ends; the blocks end at `end`.
pub open spec fn blk_end(metas: Seq<MetaView>, end: int, i: int) -> int {
    if i + 1 < metas.len() {
        metas[i + 1].offset as int
    } else {
        end
    }
}

/// The bytes of the block `i`, without its checksum.
pub open spec fn blk_bytes(data: Seq<u8>, metas: Seq<MetaView>, end: int, i: int) -> Seq<u8> {
    data.subrange(metas[i].offset as int, blk_end(metas, end, i) - 4)
}

/// The entries of the block `i`.
pub open spec fn blk_entries(data: Seq<u8>, metas: Seq<MetaView>, end: int, i: int) -> Seq<Entry> {
    let s = blk_bytes(data, metas, end, i);
    block::block_entries(block::decoded_data(s), block::decoded_offsets(s))
}

/// The block `i` lies within `data` and has room for its checksum.
pub open spec fn blk_placed(data: Seq<u8>, metas: Seq<MetaView>, end: int, i: int) -> bool {
    metas[i].offset + 4 <= blk_end(metas, end, i) <= data.len()
}

/// The block `i` can be read, and holds at least one entry.
pub open spec fn blk_ok(data: Seq<u8>, metas: Seq<MetaView>, end: int, i: int) -> bool {
    let s = blk_bytes(data, metas, end, i);
    &&& blk_placed(data, metas, end, i)
    &&& block::decodable(s)
    &&& block::block_wf(block::decoded_data(s), block::decoded_offsets(s))
    &&& block::decoded_offsets(s).len() > 0
}

/// The block `i` is followed by the checksum of its bytes.
pub open spec fn blk_checked(data: Seq<u8>, metas: Seq<MetaView>, end: int, i: int) -> bool {
    let p = blk_end(metas, end, i);
    data.subrange(p - 4, p)
        == codec::le_bytes(hashing::crc32(blk_bytes(data, metas, end, i)) as nat, 4)
}

/// The entries of the blocks before the block `i`.
pub open spec fn entries_upto(data: Seq<u8>, metas: Seq<MetaView>, end: int, i: int) -> Seq<Entry>
    decreases i,
{
    if i <= 0 {
        Seq::empty()
    } else {
        entries_upto(data, metas, end, i - 1) + blk_entries(data, metas, end, i - 1)
    }
}

/// The entries of the block `i` and of those after it.
pub open spec fn entries_from(data: Seq<u8>, metas: Seq<MetaView>, end: int, i: int) -> Seq<Entry>
    decreases metas.len() - i,
{
    if i >= metas.len() {
        Seq::empty()
    } else {
        blk_entries(data, metas, end, i) + entries_from(data, metas, end, i + 1)
    }
}

/// The metadata of the block `i` tells its first and its last key.
pub open spec fn meta_matches(data: Seq<u8>, metas: Seq<MetaView>, end: int, i: int) -> bool {
    let es = blk_entries(data, metas, end, i);
    metas[i].first_key == es[0].key && metas[i].last_key == es.last().key
}

/// The blocks before `i` and those from `i` on make up the whole.
pub proof fn lemma_entries_split(data: Seq<u8>, metas: Seq<MetaView>, end: int, i: int)
    requires
        0 <= i <= metas.len(),
    ensures
        entries_from(data, metas, end, 0) == entries_upto(data, metas, end, i) + entries_from(
            data,
            metas,
            end,
            i,
        ),
    decreases i,
{
    if i > 0 {
        lemma_entries_split(data, metas, end, i - 1);
        assert(entries_upto(data, metas, end, i) + entries_from(data, metas, end, i)
            =~= entries_upto(data, metas, end, i - 1) + entries_from(data, metas, end, i - 1));
    } else {
        assert(entries_upto(data, metas, end, 0) + entries_from(data, metas, end, 0)
            =~= entries_from(data, metas, end, 0));
    }
}

/// A sorted string table.
#[derive(Debug)]
pub struct SsTable {
    /// The file of the table.
    pub file: FileObject,
    /// What is known of the data blocks.
    pub block_meta: Vec<BlockMeta>,
    /// Where the data blocks end and their metadata begins.
    pub block_meta_offset: usize,
    pub id: usize,
    pub first_key: KeyBytes,
    pub last_key: KeyBytes,
    pub bloom: Option<Bloom>,
    /// The maximum timestamp in the table.
    pub max_ts: u64,
}

/// The largest timestamp of the entries; 0 if there are none.
pub open spec fn max_ts_of(es: Seq<Entry>) -> u64
    decreases es.len(),
{
    if es.len() == 0 {
        0
    } else {
        larger_ts(max_ts_of(es.drop_last()), es.last().key.ts)
    }
}

/// The larger of two timestamps.
pub open spec fn larger_ts(a: u64, b: u64) -> u64 {
    if a < b {
        b
    } else {
        a
    }
}

/// The largest timestamp of two sequences is that of one of them.
pub proof fn lemma_max_ts_concat(a: Seq<Entry>, b: Seq<Entry>)
    ensures
        max_ts_of(a + b) == larger_ts(max_ts_of(a), max_ts_of(b)),
    decreases b.len(),
{
    if b.len() == 0 {
        assert(a + b =~= a);
    } else {
        assert((a + b).drop_last() =~= a + b.drop_last());
        lemma_max_ts_concat(a, b.drop_last());
    }
}

/// `max_ts_of` gives a timestamp that occurs, and none that occurs is larger.
pub proof fn law_max_ts(es: Seq<Entry>)
    ensures
        forall|i: int| 0 <= i < es.len() ==> (#[trigger] es[i]).key.ts <= max_ts_of(es),
        es.len() > 0 ==> exists|i: int|
            0 <= i < es.len() && (#[trigger] es[i]).key.ts == max_ts_of(es),
        es.len() == 0 ==> max_ts_of(es) == 0,
    decreases es.len(),
{
    if es.len() > 0 {
        let front = es.drop_last();
        law_max_ts(front);
        assert forall|i: int| 0 <= i < es.len() implies (#[trigger] es[i]).key.ts <= max_ts_of(
            es,
        ) by {
            if i < front.len() {
                assert(es[i] == front[i]);
            }
        }
        let n = es.len() - 1;
        if max_ts_of(es) == es[n].key.ts {
        } else {
            let i = choose|i: int|
                0 <= i < front.len() && (#[trigger] front[i]).key.ts == max_ts_of(front);
            assert(es[i] == front[i]);
        }
    }
}

/// The bloom offset that a table ends with.
pub open spec fn footer_bloom_offset(s: Seq<u8>) -> int {
    codec::le_value(s.subrange(s.len() - 4, s.len() as int)) as int
}

/// The metadata offset, which stands before the bloom filter.
pub open spec fn footer_meta_offset(s: Seq<u8>) -> int {
    let b = footer_bloom_offset(s);
    codec::le_value(s.subrange(b - 4, b)) as int
}

/// The metadata section of a table.
pub open spec fn footer_metas(s: Seq<u8>) -> Seq<u8> {
    s.subrange(footer_meta_offset(s), footer_bloom_offset(s) - 4)
}

/// The bloom section of a table.
pub open spec fn footer_bloom(s: Seq<u8>) -> Seq<u8> {
    s.subrange(footer_bloom_offset(s), s.len() - 4)
}

/// The offsets in a table lead to places within it, and its metadata can be read.
pub open spec fn openable(s: Seq<u8>) -> bool {
    &&& 4 <= s.len()
    &&& 4 <= footer_bloom_offset(s) <= s.len() - 4
    &&& footer_meta_offset(s) <= footer_bloom_offset(s) - 4
    &&& parse_metas(footer_metas(s)) is Some
}

/// The first key of a table that holds `es`; the empty key if it holds nothing.
pub open spec fn first_key_of(es: Seq<Entry>) -> KeyView {
    if es.len() == 0 {
        key::user_key(Seq::empty())
    } else {
        es[0].key
    }
}

/// The last key of a table that holds `es`; the empty key if it holds nothing.
pub open spec fn last_key_of(es: Seq<Entry>) -> KeyView {
    if es.len() == 0 {
        key::user_key(Seq::empty())
    } else {
        es.last().key
    }
}

impl SsTable {
    pub open spec fn metas(&self) -> Seq<MetaView> {
        metas_view(self.block_meta@)
    }

    /// The entries of the block `i`.
    pub open spec fn block(&self, i: int) -> Seq<Entry> {
        blk_entries(self.file.content(), self.metas(), self.block_meta_offset as int, i)
    }

    /// The entries of the block `i` and of those after it.
    pub open spec fn entries_at(&self, i: int) -> Seq<Entry> {
        entries_from(self.file.content(), self.metas(), self.block_meta_offset as int, i)
    }

    /// All entries of the table.
    pub open spec fn entries(&self) -> Seq<Entry> {
        self.entries_at(0)
    }

    /// Every block can be read.
    pub open spec fn readable(&self) -> bool {
        &&& self.file.present()
        &&& forall|i: int|
            0 <= i < self.block_meta@.len() ==> #[trigger] blk_ok(
                self.file.content(),
                self.metas(),
                self.block_meta_offset as int,
                i,
            )
    }

    /// The table can be read, it holds its entries in order, and what it says of its keys (in the
    /// metadata and in the bloom filter) is true of them. A table without blocks holds no entries.
    pub open spec fn wf(&self) -> bool {
        &&& self.readable()
        &&& key::sorted(self.entries())
        &&& forall|i: int|
            0 <= i < self.block_meta@.len() ==> #[trigger] meta_matches(
                self.file.content(),
                self.metas(),
                self.block_meta_offset as int,
                i,
            )
        &&& self.first_key@ == first_key_of(self.entries())
        &&& self.last_key@ == last_key_of(self.entries())
        &&& self.bloom is Some
        &&& 8 * self.bloom->Some_0.filter@.len() <= usize::MAX
        &&& forall|i: int|
            0 <= i < self.entries().len() ==> self.known_to_bloom(#[trigger] self.entries()[i])
    }

    /// What the table says of its blocks and keys is what its file says of them. The largest
    /// timestamp is that of its entries; 0 if they cannot be read.
    pub open spec fn opened(&self) -> bool {
        let s = self.file.content();
        &&& self.metas() == parse_metas(footer_metas(s))->Some_0
        &&& self.block_meta_offset == footer_meta_offset(s)
        &&& self.first_key@ == if self.metas().len() == 0 {
            key::user_key(Seq::empty())
        } else {
            self.metas()[0].first_key
        }
        &&& self.last_key@ == if self.metas().len() == 0 {
            key::user_key(Seq::empty())
        } else {
            self.metas().last().last_key
        }
        &&& self.bloom is Some
        &&& self.bloom->Some_0.bytes() == footer_bloom(s)
        &&& self.max_ts == if self.readable() {
            max_ts_of(self.entries())
        } else {
            0
        }
    }

    /// The bloom filter does not rule out the entry.
    pub open spec fn known_to_bloom(&self, e: Entry) -> bool {
        hashing::key_hash_of(e.key.key) is Some
            ==> self.bloom->Some_0.holds(hashing::key_hash_of(e.key.key)->Some_0)
    }

    /// Whether the file can be opened as a table.
    pub fn is_openable(file: &FileObject) -> (r: bool)
        ensures
            r == (file.present() && openable(file.content())),
    {
        match &file.data {
            None => false,
            Some(data) => {
                let n: usize = data.len();
                if file.size != n as u64 || n < 4 {
                    return false;
                }
                let s: &[u8] = data.as_slice();
                let bloom_offset: u64 = read_u32_le(s, n - 4) as u64;
                if bloom_offset < 4 || bloom_offset > (n - 4) as u64 {
                    return false;
                }
                let b: usize = bloom_offset as usize;
                let meta_offset: u64 = read_u32_le(s, b - 4) as u64;
                if meta_offset > (b - 4) as u64 {
                    return false;
                }
                let metas: &[u8] = &s[meta_offset as usize..b - 4];
                BlockMeta::is_decodable(metas)
            },
        }
    }

    /// Opens a table from its file. The file does not tell the largest timestamp, so the blocks are
    /// read for it.
    pub fn open(id: usize, file: FileObject) -> (r: Result<Self, LsmError>)
        requires
            file.present(),
            openable(file.content()),
        ensures
            footer_bloom(file.content()).len() == 0 <==> r is Err,
            r is Err ==> r->Err_0 == LsmError::MissingBloom,
            r matches Ok(t) ==> t.file == file && t.id == id && t.opened(),
    {
        let size: u64 = file.size();
        let bloom_offset_bytes: Vec<u8> = file.read(size - 4, 4)?;
        assert(bloom_offset_bytes@ == bloom_offset_bytes@.subrange(0, 4));
        let bloom_offset: u64 = read_u32_le(bloom_offset_bytes.as_slice(), 0) as u64;
        let bloom: Bloom = Self::read_bloom(&file, bloom_offset, size - 4 - bloom_offset)?;
        let meta_offset_bytes: Vec<u8> = file.read(bloom_offset - 4, 4)?;
        assert(meta_offset_bytes@ == meta_offset_bytes@.subrange(0, 4));
        let block_meta_offset: u64 = read_u32_le(meta_offset_bytes.as_slice(), 0) as u64;
        let block_meta: Vec<BlockMeta> = Self::read_block_meta(
            &file,
            block_meta_offset,
            bloom_offset - 4 - block_meta_offset,
        )?;
        let n: usize = block_meta.len();
        let first_key: KeyBytes = if n == 0 {
            KeyVec::new()
        } else {
            block_meta[0].first_key.clone()
        };
        let last_key: KeyBytes = if n == 0 {
            KeyVec::new()
        } else {
            block_meta[n - 1].last_key.clone()
        };
        let mut table = SsTable {
            file,
            block_meta,
            block_meta_offset: block_meta_offset as usize,
            id,
            first_key,
            last_key,
            bloom: Some(bloom),
            max_ts: 0,
        };
        if table.is_readable() {
            let max_ts: u64 = table.largest_ts();
            let ghost before = table;
            table.max_ts = max_ts;
            assert(table.entries() == before.entries());
            assert(table.readable());
        }
        Ok(table)
    }

    /// The largest timestamp of the entries.
    fn largest_ts(&self) -> (r: u64)
        requires
            self.readable(),
        ensures
            r == max_ts_of(self.entries()),
    {
        let ghost data = self.file.content();
        let ghost metas = self.metas();
        let ghost end = self.block_meta_offset as int;
        let n: usize = self.block_meta.len();
        let mut r: u64 = 0;
        let mut i: usize = 0;
        while i < n
            invariant
                i <= n,
                n == self.block_meta@.len(),
                self.readable(),
                data == self.file.content(),
                metas == self.metas(),
                end == self.block_meta_offset,
                r == max_ts_of(entries_upto(data, metas, end, i as int)),
            decreases n - i,
        {
            let ghost before = entries_upto(data, metas, end, i as int);
            match self.read_block_cached(i) {
                Err(_) => {},
                Ok(block) => {
                    let ts: u64 = Self::largest_block_ts(block);
                    proof {
                        assert(entries_upto(data, metas, end, i + 1) == before + self.block(
                            i as int,
                        ));
                        lemma_max_ts_concat(before, self.block(i as int));
                    }
                    if r < ts {
                        r = ts;
                    }
                },
            }
            i = i + 1;
        }
        proof {
            lemma_entries_split(data, metas, end, n as int);
            assert(self.entries() =~= entries_upto(data, metas, end, n as int));
        }
        r
    }

    /// The largest timestamp of the entries of a block.
    fn largest_block_ts(block: Arc<Block>) -> (r: u64)
        requires
            block.wf(),
        ensures
            r == max_ts_of(block.entries()),
    {
        let ghost es = block.entries();
        let mut it = BlockIterator::create_and_seek_to_first(block);
        let mut r: u64 = 0;
        let ghost mut n: int = 0;
        assert(es.take(0) =~= Seq::empty());
        assert(es.skip(0) =~= es);
        while it.is_valid()
            invariant
                it.inv(),
                0 <= n <= es.len(),
                it.remaining() == es.skip(n),
                r == max_ts_of(es.take(n)),
            decreases it.remaining().len(),
        {
            let ts: u64 = it.key().ts();
            if r < ts {
                r = ts;
            }
            it.next();
            proof {
                assert(es.take(n + 1).drop_last() =~= es.take(n));
                assert(es.take(n + 1).last() == es[n]);
                assert(es.skip(n).drop_first() =~= es.skip(n + 1));
                n = n + 1;
            }
        }
        assert(es.take(n) =~= es);
        r
    }

    fn read_block_meta(file: &FileObject, offset: u64, length: u64) -> (r: Result<
        Vec<BlockMeta>,
        LsmError,
    >)
        requires
            file.data is Some,
            offset + length <= file.content().len() ==> parse_metas(
                file.content().subrange(offset as int, offset + length),
            ) is Some,
        ensures
            offset + length <= file.content().len() ==> r is Ok && metas_view(r->Ok_0@)
                == parse_metas(file.content().subrange(offset as int, offset + length))->Some_0,
            offset + length > file.content().len() ==> r == Err::<Vec<BlockMeta>, _>(
                LsmError::ReadOutOfRange,
            ),
    {
        let buf: Vec<u8> = file.read(offset, length)?;
        Ok(BlockMeta::decode_block_meta(buf.as_slice()))
    }

    fn read_bloom(file: &FileObject, offset: u64, length: u64) -> (r: Result<Bloom, LsmError>)
        requires
            file.data is Some,
            offset + length <= file.content().len(),
        ensures
            length == 0 ==> r == Err::<Bloom, _>(LsmError::MissingBloom),
            length > 0 ==> r is Ok && r->Ok_0.bytes() == file.content().subrange(
                offset as int,
                offset + length,
            ),
    {
        let buf: Vec<u8> = file.read(offset, length)?;
        Bloom::decode(buf.as_slice())
    }

    /// A table of which only the id, the size and the first and last key are known.
    pub fn create_meta_only(
        id: usize,
        file_size: u64,
        first_key: KeyBytes,
        last_key: KeyBytes,
    ) -> (t: Self)
        ensures
            t.id == id,
            t.file.size == file_size,
            t.file.data is None,
            t.block_meta@.len() == 0,
            t.block_meta_offset == 0,
            t.first_key == first_key,
            t.last_key == last_key,
            t.bloom is None,
            t.max_ts == 0,
    {
        SsTable {
            file: FileObject { data: None, size: file_size },
            block_meta: Vec::new(),
            block_meta_offset: 0,
            id,
            first_key,
            last_key,
            bloom: None,
            max_ts: 0,
        }
    }

    /// Reads a block.
    pub fn read_block(&self, block_idx: usize) -> (r: Result<Arc<Block>, LsmError>)
        requires
            self.file.data is Some,
            block_idx < self.block_meta@.len(),
            self.metas()[block_idx as int].offset + 4 <= blk_end(
                self.metas(),
                self.block_meta_offset as int,
                block_idx as int,
            ),
            blk_placed(
                self.file.content(),
                self.metas(),
                self.block_meta_offset as int,
                block_idx as int,
            ) ==> block::decodable(
                blk_bytes(
                    self.file.content(),
                    self.metas(),
                    self.block_meta_offset as int,
                    block_idx as int,
                ),
            ),
        ensures
            r is Ok <==> blk_placed(
                self.file.content(),
                self.metas(),
                self.block_meta_offset as int,
                block_idx as int,
            ),
            r is Err ==> r->Err_0 == LsmError::ReadOutOfRange,
            r matches Ok(b) ==> {
                let s = blk_bytes(
                    self.file.content(),
                    self.metas(),
                    self.block_meta_offset as int,
                    block_idx as int,
                );
                &&& b.data@ == block::decoded_data(s)
                &&& b.offsets@ == block::decoded_offsets(s)
            },
    {
        let offset: usize = self.block_meta[block_idx].offset;
        assert(self.metas()[block_idx as int].offset == offset);
        let end: usize = if block_idx < self.block_meta.len() - 1 {
            assert(self.metas()[block_idx + 1].offset == self.block_meta@[block_idx + 1].offset);
            self.block_meta[block_idx + 1].offset
        } else {
            self.block_meta_offset
        };
        let bytes: Vec<u8> = self.file.read(offset as u64, (end - offset) as u64)?;
        let block_bytes: &[u8] = &bytes.as_slice()[0..end - offset - 4];
        assert(block_bytes@ =~= blk_bytes(
            self.file.content(),
            self.metas(),
            self.block_meta_offset as int,
            block_idx as int,
        ));
        Ok(Arc::new(Block::decode(block_bytes)))
    }

    /// Reads a block of a table whose blocks can all be read.
    pub fn read_block_cached(&self, block_idx: usize) -> (r: Result<Arc<Block>, LsmError>)
        requires
            self.readable(),
            block_idx < self.block_meta@.len(),
        ensures
            r is Ok,
            r->Ok_0.data@ == block::decoded_data(
                blk_bytes(
                    self.file.content(),
                    self.metas(),
                    self.block_meta_offset as int,
                    block_idx as int,
                ),
            ),
            r->Ok_0.offsets@ == block::decoded_offsets(
                blk_bytes(
                    self.file.content(),
                    self.metas(),
                    self.block_meta_offset as int,
                    block_idx as int,
                ),
            ),
            r->Ok_0.wf(),
            r->Ok_0.entries() == self.block(block_idx as int),
            r->Ok_0.entries().len() > 0,
    {
        assert(blk_ok(
            self.file.content(),
            self.metas(),
            self.block_meta_offset as int,
            block_idx as int,
        ));
        self.read_block(block_idx)
    }

    /// The keys at which the blocks begin stand in order.
    pub open spec fn metas_sorted(&self) -> bool {
        forall|i: int, j: int|
            0 <= i < j < self.block_meta@.len() ==> key::key_lt(
                #[trigger] self.block_meta@[i].first_key@,
                #[trigger] self.block_meta@[j].first_key@,
            )
    }

    /// Finds the block that may contain `key`: the last one that does not begin after it, or the
    /// first one if they all do.
    pub fn find_block_idx(&self, key: KeySlice<'_>) -> (r: usize)
        requires
            self.metas_sorted(),
        ensures
            self.block_meta@.len() == 0 ==> r == 0,
            self.block_meta@.len() > 0 ==> r < self.block_meta@.len(),
            r > 0 ==> key::key_le(self.block_meta@[r as int].first_key@, key@),
            forall|j: int|
                r < j < self.block_meta@.len() ==> key::key_lt(
                    key@,
                    #[trigger] self.block_meta@[j].first_key@,
                ),
    {
        broadcast use key::group_key_order;

        let mut lo: usize = 0;
        let mut hi: usize = self.block_meta.len();
        while lo < hi
            invariant
                lo <= hi <= self.block_meta@.len(),
                self.metas_sorted(),
                forall|j: int|
                    0 <= j < lo ==> key::key_le(#[trigger] self.block_meta@[j].first_key@, key@),
                forall|j: int|
                    hi <= j < self.block_meta@.len() ==> key::key_lt(
                        key@,
                        #[trigger] self.block_meta@[j].first_key@,
                    ),
            decreases hi - lo,
        {
            broadcast use key::group_key_order;

            let mid: usize = lo + (hi - lo) / 2;
            if key.less(&self.block_meta[mid].first_key.as_key_slice()) {
                hi = mid;
            } else {
                lo = mid + 1;
            }
        }
        if lo == 0 {
            0
        } else {
            lo - 1
        }
    }

    pub fn num_of_blocks(&self) -> (r: usize)
        ensures
            r == self.block_meta@.len(),
    {
        self.block_meta.len()
    }

    pub fn first_key(&self) -> (r: &KeyBytes)
        ensures
            *r == self.first_key,
    {
        &self.first_key
    }

    pub fn last_key(&self) -> (r: &KeyBytes)
        ensures
            *r == self.last_key,
    {
        &self.last_key
    }

    pub fn table_size(&self) -> (r: u64)
        ensures
            r == self.file.size,
    {
        self.file.size
    }

    pub fn sst_id(&self) -> (r: usize)
        ensures
            r == self.id,
    {
        self.id
    }

    pub fn max_ts(&self) -> (r: u64)
        ensures
            r == self.max_ts,
    {
        self.max_ts
    }

    /// Gets the value of a key.
    pub fn get(&self, key: KeySlice<'_>) -> (r: Result<Option<(KeyVec, Vec<u8>)>, LsmError>)
        requires
            self.wf(),
        ensures
            r is Ok,
            r->Ok_0 is Some <==> key::lookup(self.entries(), key@) is Some,
            r->Ok_0 matches Some((k, v))
                ==> k@ == key@ && key::lookup(self.entries(), key@) == Some(v@),
    {
        broadcast use key::group_key_order;

        proof {
            key::lemma_lookup(self.entries(), key@);
        }
        if key.less(&self.first_key().as_key_slice()) || self.last_key().as_key_slice().less(&key) {
            assert forall|i: int| 0 <= i < self.entries().len()
                implies #[trigger] self.entries()[i].key
                != key@ by {
                let n = self.entries().len() - 1;
                assert(i == 0 || key::key_lt(self.entries()[0].key, self.entries()[i].key));
                assert(i == n || key::key_lt(self.entries()[i].key, self.entries()[n].key));
            }
            return Ok(None);
        }
        proof {
            lemma_metas_sorted(self);
        }
        let block_idx: usize = self.find_block_idx(key);
        if block_idx >= self.num_of_blocks() {
            return Ok(None);
        }
        proof {
            lemma_block_of_key(self, block_idx as int, key@);
        }
        let block: Arc<Block> = self.read_block_cached(block_idx)?;
        let ghost es = block.entries();
        let it = BlockIterator::create_and_seek_to_key(block, key);
        proof {
            key::lemma_lower_bound(es, key@);
            key::lemma_lookup(es, key@);
        }
        if it.is_valid() && it.key().same(&key) {
            let ghost p = key::lower_bound(es, key@) as int;
            assert(it.remaining()[0] == es[p]);
            return Ok(Some((it.key().to_key_vec(), copy_bytes(it.value()))));
        }
        proof {
            let p = key::lower_bound(es, key@) as int;
            assert forall|i: int| 0 <= i < es.len() implies #[trigger] es[i].key != key@ by {
                if i == p {
                    assert(it.remaining()[0] == es[p]);
                } else if i > p {
                    assert(key::key_lt(es[p].key, es[i].key));
                }
            }
        }
        Ok(None)
    }
}

/// Every block of a readable table adds to its entries.
pub proof fn lemma_entries_nonempty(t: &SsTable)
    requires
        t.readable(),
        t.block_meta@.len() > 0,
    ensures
        t.entries().len() > 0,
{
    assert(blk_ok(t.file.content(), t.metas(), t.block_meta_offset as int, 0));
    assert(t.block(0).len() > 0);
}

/// The entries around the block `i`.
pub proof fn lemma_block_place(t: &SsTable, i: int)
    requires
        t.readable(),
        0 <= i < t.block_meta@.len(),
    ensures
        ({
            let before = entries_upto(t.file.content(), t.metas(), t.block_meta_offset as int, i);
            t.entries() == before + t.block(i) + t.entries_at(i + 1)
        }),
        t.block(i).len() > 0,
{
    lemma_entries_split(t.file.content(), t.metas(), t.block_meta_offset as int, i);
    let before = entries_upto(t.file.content(), t.metas(), t.block_meta_offset as int, i);
    assert(before + (t.block(i) + t.entries_at(i + 1)) =~= before + t.block(i) + t.entries_at(
        i + 1,
    ));
    assert(blk_ok(t.file.content(), t.metas(), t.block_meta_offset as int, i));
}

/// The first entry of a later block stands behind those of an earlier one.
proof fn lemma_block_positions(t: &SsTable, i: int, j: int)
    requires
        t.readable(),
        0 <= i < j < t.block_meta@.len(),
    ensures
        ({
            let bi = entries_upto(t.file.content(), t.metas(), t.block_meta_offset as int, i);
            let bj = entries_upto(t.file.content(), t.metas(), t.block_meta_offset as int, j);
            bi.len() + t.block(i).len() <= bj.len()
        }),
    decreases j,
{
    if i < j - 1 {
        lemma_block_positions(t, i, j - 1);
    }
}

/// The first keys of the blocks of a well-formed table stand in order.
pub proof fn lemma_metas_sorted(t: &SsTable)
    requires
        t.wf(),
    ensures
        t.metas_sorted(),
{
    assert forall|i: int, j: int| 0 <= i < j < t.block_meta@.len() implies key::key_lt(
        #[trigger] t.block_meta@[i].first_key@,
        #[trigger] t.block_meta@[j].first_key@,
    ) by {
        lemma_block_place(t, i);
        lemma_block_place(t, j);
        lemma_block_positions(t, i, j);
        assert(meta_matches(t.file.content(), t.metas(), t.block_meta_offset as int, i));
        assert(meta_matches(t.file.content(), t.metas(), t.block_meta_offset as int, j));
        let bi = entries_upto(t.file.content(), t.metas(), t.block_meta_offset as int, i).len();
        let bj = entries_upto(t.file.content(), t.metas(), t.block_meta_offset as int, j).len();
        assert(t.metas()[i].first_key == t.block_meta@[i].first_key@);
        assert(t.metas()[j].first_key == t.block_meta@[j].first_key@);
        assert(t.entries()[bi as int] == t.block(i)[0]);
        assert(t.entries()[bj as int] == t.block(j)[0]);
    }
}

/// What a block is to a key that it may contain: the entries before it come before the key, those
/// after it come after the key.
pub proof fn lemma_block_of_key(t: &SsTable, i: int, k: KeyView)
    requires
        t.wf(),
        0 <= i < t.block_meta@.len(),
        i > 0 ==> key::key_le(t.block_meta@[i].first_key@, k),
        forall|j: int|
            i < j < t.block_meta@.len() ==> key::key_lt(k, #[trigger] t.block_meta@[j].first_key@),
    ensures
        key::sorted(t.block(i)),
        key::lookup(t.entries(), k) == key::lookup(t.block(i), k),
        ({
            let before = entries_upto(t.file.content(), t.metas(), t.block_meta_offset as int, i);
            key::lower_bound(t.entries(), k) == before.len() + key::lower_bound(t.block(i), k)
        }),
        forall|j: int| 0 <= j < t.entries_at(i + 1).len()
            ==> key::key_lt(k, #[trigger] t.entries_at(i + 1)[j].key),
{
    broadcast use key::group_key_order;

    let es = t.entries();
    let before = entries_upto(t.file.content(), t.metas(), t.block_meta_offset as int, i);
    let blk = t.block(i);
    let after = t.entries_at(i + 1);
    lemma_block_place(t, i);
    let b = before.len() as int;
    let n = blk.len() as int;
    assert(meta_matches(t.file.content(), t.metas(), t.block_meta_offset as int, i));
    assert(t.metas()[i].first_key == t.block_meta@[i].first_key@);
    assert(es[b] == blk[0]);
    assert forall|j: int| 0 <= j < b implies key::key_lt(#[trigger] es[j].key, k) by {
        assert(key::key_lt(es[j].key, es[b].key));
        assert(i > 0);
    }
    assert forall|j: int| b + n <= j < es.len() implies key::key_lt(k, #[trigger] es[j].key) by {
        assert(i + 1 < t.block_meta@.len());
        lemma_block_place(t, i + 1);
        assert(meta_matches(t.file.content(), t.metas(), t.block_meta_offset as int, i + 1));
        assert(t.metas()[i + 1].first_key == t.block_meta@[i + 1].first_key@);
        assert(es[b + n] == t.block(i + 1)[0]);
        assert(j == b + n || key::key_lt(es[b + n].key, es[j].key));
    }
    assert forall|j: int| 0 <= j < after.len() implies key::key_lt(k, #[trigger] after[j].key) by {
        assert(after[j] == es[b + n + j]);
    }
    assert(key::sorted(blk)) by {
        assert forall|x: int, y: int| 0 <= x < y < n implies key::key_lt(
            #[trigger] blk[x].key,
            #[trigger] blk[y].key,
        ) by {
            assert(blk[x] == es[b + x]);
            assert(blk[y] == es[b + y]);
        }
    }
    key::lemma_lower_bound(blk, k);
    let p = key::lower_bound(blk, k) as int;
    assert forall|j: int| 0 <= j < b + p implies key::key_lt(#[trigger] es[j].key, k) by {
        if j >= b {
            assert(es[j] == blk[j - b]);
        }
    }
    if b + p < es.len() {
        if p < n {
            assert(es[b + p] == blk[p]);
        }
    }
    key::lemma_lower_bound_unique(es, k, b + p);
    key::lemma_lookup(es, k);
    key::lemma_lookup(blk, k);
    assert(forall|j: int| 0 <= j < n ==> #[trigger] blk[j] == es[b + j]);
    if key::lookup(blk, k) is None {
        assert forall|j: int| 0 <= j < es.len() implies #[trigger] es[j].key != k by {
            if b <= j < b + n {
                assert(es[j] == blk[j - b]);
                assert(blk[j - b].key != k);
            }
        }
    } else {
        let j = choose|j: int| 0 <= j < n && #[trigger] blk[j].key == k;
        assert(es[b + j] == blk[j]);
    }
}

/// Where the parts of the metadata of a block stand: the offset in eight bytes, then each of the two
/// user keys behind its length in two, numbers with their least significant byte first.
pub proof fn law_meta_layout(m: MetaView)
    requires
        meta_fits(m),
    ensures
        ({
            let s = meta_bytes(m);
            let a = m.first_key.key.len() as int;
            let b = m.last_key.key.len() as int;
            &&& s.len() == 12 + a + b
            &&& codec::le_value(s.take(8)) == m.offset
            &&& codec::le_value(s.subrange(8, 10)) == a
            &&& s.subrange(10, 10 + a) == m.first_key.key
            &&& codec::le_value(s.subrange(10 + a, 12 + a)) == b
            &&& s.skip(12 + a) == m.last_key.key
        }),
{
    broadcast use codec::lemma_le_bytes_len;

    let s = meta_bytes(m);
    let a = m.first_key.key.len() as int;
    let b = m.last_key.key.len() as int;
    codec::lemma_byte_capacities();
    codec::lemma_le_round_trip(m.offset as nat, 8);
    codec::lemma_le_round_trip(a as nat, 2);
    codec::lemma_le_round_trip(b as nat, 2);
    assert(s.take(8) =~= codec::le_bytes(m.offset as nat, 8));
    assert(s.subrange(8, 10) =~= codec::le_bytes(a as nat, 2));
    assert(s.subrange(10, 10 + a) =~= m.first_key.key);
    assert(s.subrange(10 + a, 12 + a) =~= codec::le_bytes(b as nat, 2));
    assert(s.skip(12 + a) =~= m.last_key.key);
}

} // verus!
