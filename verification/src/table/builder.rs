//! Building tables.
use crate::block::{self, BlockBuilder};
use crate::codec::{self, append_le};
use crate::hashing::{self, checksum, key_hash};
use crate::key::{self, Entry, KeyBytes, KeySlice, KeyVec, KeyView, copy_bytes};
use crate::table::{self, BlockMeta, FileObject, MetaView, SsTable};
use crate::table::bloom::{self, Bloom};
use vstd::prelude::*;

verus! {

/// The fingerprints of the keys that have one, in order.
pub open spec fn hashes_of(es: Seq<Entry>) -> Seq<u32>
    decreases es.len(),
{
    if es.len() == 0 {
        Seq::empty()
    } else {
        match hashing::key_hash_of(es.last().key.key) {
            Some(h) => hashes_of(es.drop_last()).push(h),
            None => hashes_of(es.drop_last()),
        }
    }
}

/// The bytes of a block with these entries.
pub open spec fn finished_block(entries: Seq<u8>, offsets: Seq<u16>) -> Seq<u8> {
    block::encoded_block(entries + crate::block::builder::block_trailer(offsets), offsets)
}

/// A block with its checksum, as it stands in a table.
pub open spec fn checked_block(s: Seq<u8>) -> Seq<u8> {
    s + codec::le_bytes(hashing::crc32(s) as nat, 4)
}

/// The file of a table: its blocks, their metadata, the bloom filter, and the two offsets (modulo
/// 2^32).
pub open spec fn table_image(data: Seq<u8>, metas: Seq<MetaView>, bloom: Seq<u8>) -> Seq<u8> {
    let ms = table::metas_bytes(metas);
    data + ms + codec::le_bytes((data.len() as u32) as nat, 4) + bloom + codec::le_bytes(
        ((data.len() + ms.len() + 4) as u32) as nat,
        4,
    )
}

/// The bloom filter of a table that holds `es`.
pub open spec fn bloom_of(b: Bloom, es: Seq<Entry>) -> bool {
    let hs = hashes_of(es);
    b.made_of(hs, bloom::bits_per_key_for(hs.len()))
}

/// The file of a table holds the blocks `data` and what the table says of them, the offsets in it
/// are exact, and the table knows the largest timestamp of its entries.
pub open spec fn stored_as(t: &SsTable, data: Seq<u8>) -> bool {
    &&& t.file.present()
    &&& t.bloom is Some
    &&& t.file.content() == table_image(data, t.metas(), t.bloom->Some_0.bytes())
    &&& t.block_meta_offset == data.len()
    &&& forall|i: int| 0 <= i < t.metas().len() ==> table::meta_fits(#[trigger] t.metas()[i])
    &&& data.len() + table::metas_bytes(t.metas()).len() + 4 <= u32::MAX
    &&& t.readable() ==> t.max_ts == table::max_ts_of(t.entries())
}

/// The file of a table holds its blocks and what the table says of them.
pub open spec fn stored(t: &SsTable) -> bool {
    exists|data: Seq<u8>| #[trigger] stored_as(t, data)
}

/// A table as far as it has been filled.
#[verifier::ext_equal]
pub struct Draft {
    /// The finished blocks, each with its checksum.
    pub data: Seq<u8>,
    /// What is known of the finished blocks.
    pub metas: Seq<MetaView>,
    /// The entries of the block that is being filled.
    pub block: Seq<u8>,
    /// Where these entries stand.
    pub offsets: Seq<u16>,
    /// The first key of that block.
    pub first: KeyView,
    /// The last key of the table.
    pub last: KeyView,
}

impl Draft {
    /// The block that is being filled takes `e`: it has no entry yet, or `e` ends within the block
    /// size.
    pub open spec fn has_room(self, e: Entry, block_size: usize) -> bool {
        self.offsets.len() == 0 || self.block.len() + 14 + e.key.key.len() - block::common_prefix(
            self.first.key,
            e.key.key,
        ) + e.value.len() <= crate::block::builder::block_limit(block_size)
    }

    /// The blocks of the table if it ends here.
    pub open spec fn sealed_data(self) -> Seq<u8> {
        if self.offsets.len() == 0 {
            self.data
        } else {
            self.data + checked_block(finished_block(self.block, self.offsets))
        }
    }

    /// The metadata of the table if it ends here.
    pub open spec fn sealed_metas(self) -> Seq<MetaView> {
        if self.offsets.len() == 0 {
            self.metas
        } else {
            self.metas.push(
                MetaView {
                    offset: self.data.len() as usize,
                    first_key: self.first,
                    last_key: self.last,
                },
            )
        }
    }

    /// The table once `e` is added: to the block that is being filled if that has room for it,
    /// otherwise that block is finished, and `e` begins a new one.
    pub open spec fn add_entry(self, e: Entry, block_size: usize) -> Draft {
        if self.offsets.len() == 0 {
            Draft {
                block: self.block + block::entry_bytes(0, e),
                offsets: self.offsets.push(self.block.len() as u16),
                first: e.key,
                last: e.key,
                ..self
            }
        } else if self.has_room(e, block_size) {
            Draft {
                block: self.block
                    + block::entry_bytes(block::common_prefix(self.first.key, e.key.key), e),
                offsets: self.offsets.push(self.block.len() as u16),
                last: e.key,
                ..self
            }
        } else {
            Draft {
                data: self.sealed_data(),
                metas: self.sealed_metas(),
                block: block::entry_bytes(0, e),
                offsets: seq![0u16],
                first: e.key,
                last: e.key,
            }
        }
    }
}

/// A table to which `es` were added.
pub open spec fn draft_of(es: Seq<Entry>, block_size: usize) -> Draft
    decreases es.len(),
{
    if es.len() == 0 {
        Draft {
            data: Seq::empty(),
            metas: Seq::empty(),
            block: Seq::empty(),
            offsets: Seq::empty(),
            first: key::user_key(Seq::empty()),
            last: key::user_key(Seq::empty()),
        }
    } else {
        draft_of(es.drop_last(), block_size).add_entry(es.last(), block_size)
    }
}

/// The bytes of all blocks of a table that holds `es`.
pub open spec fn blocks_len(es: Seq<Entry>, block_size: usize) -> nat {
    draft_of(es, block_size).sealed_data().len()
}

/// How long the file of a table is.
proof fn lemma_image_len(data: Seq<u8>, metas: Seq<MetaView>, bloom: Seq<u8>)
    ensures
        table_image(data, metas, bloom).len()
            == data.len() + table::metas_bytes(metas).len() + bloom.len()
            + 8,
{
    broadcast use codec::lemma_le_bytes_len;

}

/// A finished block takes the bytes of its entries, four for each of them, and eight more.
pub proof fn law_block_len(entries: Seq<u8>, offsets: Seq<u16>)
    ensures
        checked_block(finished_block(entries, offsets)).len() == entries.len() + 4 * offsets.len()
            + 8,
{
    broadcast use {codec::lemma_le_bytes_len, codec::lemma_be_bytes_len};

    lemma_offsets_len(offsets);
}

proof fn lemma_offsets_len(offsets: Seq<u16>)
    ensures
        block::offsets_le(offsets).len() == 2 * offsets.len(),
        crate::block::builder::offsets_be(offsets).len() == 2 * offsets.len(),
    decreases offsets.len(),
{
    broadcast use {codec::lemma_le_bytes_len, codec::lemma_be_bytes_len};

    if offsets.len() > 0 {
        lemma_offsets_len(offsets.drop_last());
    }
}

/// Builds a table from key-value pairs.
#[derive(Debug)]
pub struct SsTableBuilder {
    /// The block that is being filled.
    pub builder: BlockBuilder,
    pub first_key: KeyVec,
    pub last_key: KeyVec,
    /// The finished blocks.
    pub data: Vec<u8>,
    pub meta: Vec<BlockMeta>,
    pub block_size: usize,
    pub key_hashes: Vec<u32>,
    /// The largest timestamp so far.
    pub max_ts: u64,
}

impl SsTableBuilder {
    pub open spec fn metas(&self) -> Seq<MetaView> {
        table::metas_view(self.meta@)
    }

    /// The entries of the finished blocks.
    pub open spec fn flushed(&self) -> Seq<Entry> {
        table::entries_upto(
            self.data@,
            self.metas(),
            self.data@.len() as int,
            self.meta@.len() as int,
        )
    }

    /// All entries, in the order in which they were added.
    pub open spec fn entries(&self) -> Seq<Entry> {
        self.flushed() + self.builder.entries()
    }

    /// The finished blocks can be read, their checksums are right, and their metadata is true of
    /// them.
    pub open spec fn blocks_ok(&self) -> bool {
        &&& forall|i: int|
            0 <= i < self.meta@.len() ==> #[trigger] table::blk_ok(
                self.data@,
                self.metas(),
                self.data@.len() as int,
                i,
            )
        &&& forall|i: int|
            0 <= i < self.meta@.len() ==> #[trigger] table::meta_matches(
                self.data@,
                self.metas(),
                self.data@.len() as int,
                i,
            )
        &&& forall|i: int|
            0 <= i < self.meta@.len() ==> #[trigger] table::blk_checked(
                self.data@,
                self.metas(),
                self.data@.len() as int,
                i,
            )
        &&& forall|i: int| 0 <= i < self.meta@.len()
            ==> table::meta_fits(#[trigger] self.metas()[i])
    }

    pub open spec fn inv(&self) -> bool {
        &&& self.builder.inv()
        &&& self.builder.block_size == self.block_size
        &&& self.builder.data@.len() <= 14 + 2 * u16::MAX
        &&& 14 * self.builder.offsets@.len() <= self.builder.data@.len()
        &&& self.builder.offsets@.len() == 0 ==> {
            &&& self.builder.data@.len() == 0
            &&& self.meta@.len() == 0
            &&& self.data@.len() == 0
        }
        &&& self.blocks_ok()
        &&& self.builder.offsets@.len() == 0 <==> self.first_key@.key.len() == 0
        &&& self.first_key@ == table::first_key_of(self.entries())
        &&& self.last_key@ == table::last_key_of(self.entries())
        &&& self.last_key@.key.len() <= u16::MAX
        &&& self.key_hashes@ == hashes_of(self.entries())
        &&& self.max_ts == table::max_ts_of(self.entries())
        &&& 14 * self.entries().len() <= self.data@.len() + self.builder.data@.len()
        &&& self.draft() == draft_of(self.entries(), self.block_size)
        &&& self.meta@.len() == 0 ==> self.data@.len() == 0
        &&& self.meta@.len() > 0 ==> self.metas()[0].offset == 0
    }

    /// The table as far as it has been filled.
    pub open spec fn draft(&self) -> Draft {
        Draft {
            data: self.data@,
            metas: self.metas(),
            block: self.builder.data@,
            offsets: self.builder.offsets@,
            first: self.builder.first_key@,
            last: self.last_key@,
        }
    }

    /// The blocks of the table if it were built now.
    pub open spec fn sealed_data(&self) -> Seq<u8> {
        self.draft().sealed_data()
    }

    /// The metadata of the table if it were built now.
    pub open spec fn sealed_metas(&self) -> Seq<MetaView> {
        self.draft().sealed_metas()
    }

    /// A builder without entries, for the given block size.
    pub fn new(block_size: usize) -> (b: Self)
        ensures
            b.inv(),
            b.entries() == Seq::<Entry>::empty(),
            b.block_size == block_size,
            b.data@.len() == 0,
            b.meta@.len() == 0,
            b.builder.offsets@.len() == 0,
    {
        let b = SsTableBuilder {
            builder: BlockBuilder::new(block_size),
            first_key: KeyVec::new(),
            last_key: KeyVec::new(),
            data: Vec::new(),
            meta: Vec::new(),
            block_size,
            key_hashes: Vec::new(),
            max_ts: 0,
        };
        assert(b.entries() =~= Seq::<Entry>::empty());
        assert(b.key_hashes@ =~= hashes_of(b.entries()));
        assert(b.draft() =~= draft_of(b.entries(), block_size));
        b
    }

    /// Finishes the block that is being filled: its bytes, its checksum and its metadata are
    /// appended. The block builder is left as it was when it built the block.
    fn finish_block(&mut self)
        requires
            old(self).inv(),
            old(self).builder.offsets@.len() > 0,
        ensures
            final(self).data@ == old(self).sealed_data(),
            final(self).metas() == old(self).sealed_metas(),
            final(self).meta@.len() == old(self).meta@.len() + 1,
            final(self).blocks_ok(),
            final(self).flushed() == old(self).entries(),
            final(self).block_size == old(self).block_size,
            final(self).first_key == old(self).first_key,
            final(self).last_key == old(self).last_key,
            final(self).key_hashes == old(self).key_hashes,
            final(self).max_ts == old(self).max_ts,
            final(self).data@.len() >= old(self).data@.len() + old(self).builder.data@.len(),
    {
        let ghost before = *self;
        let block_data: Vec<u8> = self.builder.build().encode();
        let offset: usize = self.data.len();
        let sum: u32 = checksum(block_data.as_slice());
        self.data.extend_from_slice(block_data.as_slice());
        append_le(&mut self.data, sum as u64, 4);
        let first_key: KeyBytes = self.builder.first_key();
        let last_key: KeyBytes = self.last_key.clone();
        self.meta.push(BlockMeta { offset, first_key, last_key });
        proof {
            assert(self.data@ =~= before.sealed_data());
            assert(self.metas() =~= before.sealed_metas());
            lemma_finish_block(before, *self);
        }
    }

    /// Puts a key-value pair into the current block or, where that is full, finishes it and begins a
    /// new one with the pair.
    #[verifier::spinoff_prover]
    #[verifier::rlimit(20)]
    fn place(&mut self, key: KeySlice<'_>, value: &[u8])
        requires
            old(self).inv(),
            0 < key@.key.len() <= u16::MAX,
            value@.len() <= u16::MAX,
        ensures
            final(self).builder.inv(),
            final(self).builder.block_size == old(self).block_size,
            final(self).builder.data@.len() <= 14 + 2 * u16::MAX,
            0 < 14 * final(self).builder.offsets@.len() <= final(self).builder.data@.len(),
            final(self).blocks_ok(),
            final(self).entries() == old(self).entries().push(Entry { key: key@, value: value@ }),
            14 * final(self).entries().len() - final(self).data@.len()
                <= final(self).builder.data@.len(),
            final(self).meta@.len() == 0 ==> final(self).data@.len() == 0,
            final(self).meta@.len() > 0 ==> final(self).metas()[0].offset == 0,
            (Draft { last: key@, ..final(self).draft() }) == old(self).draft().add_entry(
                Entry { key: key@, value: value@ },
                old(self).block_size,
            ),
            final(self).block_size == old(self).block_size,
            final(self).first_key == old(self).first_key,
            final(self).last_key == old(self).last_key,
            final(self).key_hashes == old(self).key_hashes,
            final(self).max_ts == old(self).max_ts,
    {
        let ghost before = *self;
        let ghost e = Entry { key: key@, value: value@ };
        proof {
            crate::block::builder::lemma_common_prefix(before.builder.first_key@.key, key@.key);
            block::lemma_entry_read_back(before.builder.data@, before.builder.overlap(key@.key), e);
            block::lemma_entry_read_back(Seq::empty(), 0, e);
        }
        if !self.builder.add(key, value) {
            self.finish_block();
            self.builder = BlockBuilder::new(self.block_size);
            let added: bool = self.builder.add(key, value);
            assert(added);
            assert(self.builder.data@ =~= block::entry_bytes(0, e));
            assert(self.builder.entries() =~= seq![e]);
        } else {
            assert(self.flushed() == before.flushed());
        }
        assert(self.entries() =~= before.entries().push(e));
    }

    /// Adds a key-value pair to the table. Where the current block is full, it is finished, and
    /// the pair begins a new one.
    #[verifier::spinoff_prover]
    #[verifier::rlimit(20)]
    pub fn add(&mut self, key: KeySlice<'_>, value: &[u8])
        requires
            old(self).inv(),
            0 < key@.key.len() <= u16::MAX,
            value@.len() <= u16::MAX,
        ensures
            final(self).inv(),
            final(self).block_size == old(self).block_size,
            final(self).entries() == old(self).entries().push(Entry { key: key@, value: value@ }),
            final(self).draft() == old(self).draft().add_entry(
                Entry { key: key@, value: value@ },
                old(self).block_size,
            ),
    {
        let ghost before = *self;
        let ghost e = Entry { key: key@, value: value@ };
        let ghost es = before.entries().push(e);
        self.place(key, value);
        match key_hash(key.key_ref()) {
            Some(h) => {
                self.key_hashes.push(h);
            },
            None => {},
        }
        if self.max_ts < key.ts() {
            self.max_ts = key.ts();
        }
        if self.first_key.key_len() == 0 {
            self.first_key.set_from_slice(key);
        }
        self.last_key.set_from_slice(key);
        proof {
            assert(es.drop_last() =~= before.entries());
            assert(es.last() == e);
            assert(self.key_hashes@ =~= hashes_of(es));
        }
    }

    /// The size of the finished blocks, for an estimate of the size of the table.
    pub fn estimated_size(&self) -> (n: usize)
        ensures
            n == self.data@.len(),
            self.inv() ==> n == draft_of(self.entries(), self.block_size).data.len(),
    {
        self.data.len()
    }

    /// Whether nothing was added.
    pub fn is_empty(&self) -> (r: bool)
        ensures
            r == (self.data@.len() == 0 && self.builder.offsets@.len() == 0),
            self.inv() ==> r == (self.entries().len() == 0),
    {
        if self.data.len() == 0 && self.builder.is_empty() {
            assert(self.inv() ==> self.entries().len() == 0);
            return true;
        }
        assert(self.inv() ==> self.builder.entries().len() > 0);
        false
    }

    /// Builds the table.
    #[verifier::spinoff_prover]
    #[verifier::rlimit(30)]
    pub fn build(self, id: usize) -> (t: SsTable)
        requires
            self.inv(),
        ensures
            t.id == id,
            t.file.present(),
            t.bloom is Some,
            t.file.content() == table_image(
                self.sealed_data(),
                self.sealed_metas(),
                t.bloom->Some_0.bytes(),
            ),
            t.metas() == self.sealed_metas(),
            t.metas().len() > 0 ==> t.metas()[0].offset == 0,
            bloom_of(t.bloom->Some_0, self.entries()),
            t.file.content().len() <= u32::MAX ==> stored_as(&t, self.sealed_data()),
            self.sealed_data().len() == blocks_len(self.entries(), self.block_size),
            t.block_meta_offset == self.sealed_data().len() as u32,
            t.first_key@ == table::first_key_of(self.entries()),
            t.last_key@ == table::last_key_of(self.entries()),
            t.max_ts == table::max_ts_of(self.entries()),
            forall|i: int|
                0 <= i < self.entries().len() ==> t.known_to_bloom(#[trigger] self.entries()[i]),
            self.sealed_data().len() <= u32::MAX ==> t.readable() && t.entries() == self.entries(),
            self.sealed_data().len() <= u32::MAX ==> forall|i: int|
                0 <= i < t.metas().len() ==> #[trigger] table::blk_checked(
                    t.file.content(),
                    t.metas(),
                    t.block_meta_offset as int,
                    i,
                ),
            self.sealed_data().len() <= u32::MAX && key::sorted(self.entries()) ==> t.wf(),
    {
        let ghost before = self;
        let mut last = self;
        if !last.builder.is_empty() {
            last.finish_block();
        } else {
            assert(before.builder.entries() =~= Seq::empty());
            assert(before.entries() =~= last.flushed());
        }
        let mut image: Vec<u8> = copy_bytes(last.data.as_slice());
        BlockMeta::encode_block_meta(last.meta.as_slice(), &mut image);
        let meta_offset: u32 = last.data.len() as u32;
        append_le(&mut image, meta_offset as u64, 4);
        let bits_per_key: usize = Bloom::bloom_bits_per_key(last.key_hashes.len());
        proof {
            lemma_hashes_len(before.entries());
            assert(14 * last.key_hashes@.len() <= last.data@.len());
        }
        let bloom: Bloom = Bloom::build_from_key_hashes(&last.key_hashes, bits_per_key);
        let bloom_offset: u32 = image.len() as u32;
        bloom.encode(&mut image);
        append_le(&mut image, bloom_offset as u64, 4);
        let ghost data = last.data@;
        let ghost metas = last.metas();
        proof {
            broadcast use codec::lemma_le_bytes_len;

            assert(image@ =~= table_image(data, metas, bloom.bytes()));
        }
        let t = SsTable {
            file: FileObject::create(image),
            block_meta: last.meta,
            block_meta_offset: meta_offset as usize,
            id,
            first_key: last.first_key,
            last_key: last.last_key,
            bloom: Some(bloom),
            max_ts: last.max_ts,
        };
        proof {
            let es = before.entries();
            assert forall|i: int| 0 <= i < es.len() implies t.known_to_bloom(#[trigger] es[i]) by {
                lemma_hashes_contain(es, i);
            }
            lemma_image_len(data, metas, t.bloom->Some_0.bytes());
            if data.len() <= u32::MAX {
                assert(t.file.content().take(data.len() as int) =~= data);
                lemma_blocks_in_file(data, metas, &t);
                table::lemma_entries_split(data, metas, data.len() as int, metas.len() as int);
                assert(table::entries_from(data, metas, data.len() as int, metas.len() as int)
                    =~= Seq::empty());
                assert(t.entries() =~= es);
            }
        }
        t
    }
}

/// A key has at most one fingerprint.
proof fn lemma_hashes_len(es: Seq<Entry>)
    ensures
        hashes_of(es).len() <= es.len(),
    decreases es.len(),
{
    if es.len() > 0 {
        lemma_hashes_len(es.drop_last());
    }
}

/// The fingerprint of every key that has one is among those of all the keys.
proof fn lemma_hashes_contain(es: Seq<Entry>, i: int)
    requires
        0 <= i < es.len(),
    ensures
        hashing::key_hash_of(es[i].key.key) matches Some(h) ==> exists|j: int|
            0 <= j < hashes_of(es).len() && #[trigger] hashes_of(es)[j] == h,
    decreases es.len(),
{
    let prev = hashes_of(es.drop_last());
    if i < es.len() - 1 {
        lemma_hashes_contain(es.drop_last(), i);
        if let Some(h) = hashing::key_hash_of(es[i].key.key) {
            let j = choose|j: int| 0 <= j < prev.len() && #[trigger] prev[j] == h;
            assert(hashes_of(es)[j] == h);
        }
    } else {
        if let Some(h) = hashing::key_hash_of(es[i].key.key) {
            assert(hashes_of(es)[prev.len() as int] == h);
        }
    }
}

/// Blocks with the same entries make up the same whole.
proof fn lemma_entries_upto_same(
    d1: Seq<u8>,
    m1: Seq<MetaView>,
    e1: int,
    d2: Seq<u8>,
    m2: Seq<MetaView>,
    e2: int,
    n: int,
)
    requires
        forall|i: int|
            0 <= i < n
                ==> #[trigger] table::blk_entries(d1, m1, e1, i)
                    == table::blk_entries(d2, m2, e2, i),
    ensures
        table::entries_upto(d1, m1, e1, n) == table::entries_upto(d2, m2, e2, n),
    decreases n,
{
    if n > 0 {
        lemma_entries_upto_same(d1, m1, e1, d2, m2, e2, n - 1);
        assert(table::blk_entries(d1, m1, e1, n - 1) == table::blk_entries(d2, m2, e2, n - 1));
    }
}

/// What finishing a block does to the blocks of a table.
proof fn lemma_finish_block(before: SsTableBuilder, after: SsTableBuilder)
    requires
        before.builder.inv(),
        before.builder.data@.len() <= 14 + 2 * u16::MAX,
        14 * before.builder.offsets@.len() <= before.builder.data@.len(),
        before.blocks_ok(),
        before.last_key@ == table::last_key_of(before.entries()),
        before.last_key@.key.len() <= u16::MAX,
        before.builder.offsets@.len() > 0,
        after.data@ == before.sealed_data(),
        after.metas() == before.sealed_metas(),
        after.meta@.len() == before.meta@.len() + 1,
    ensures
        after.blocks_ok(),
        after.flushed() == before.entries(),
        after.data@.len() >= before.data@.len() + before.builder.data@.len(),
{
    broadcast use codec::lemma_le_bytes_len;

    let d1 = before.data@;
    let m1 = before.metas();
    let e1 = d1.len() as int;
    let d2 = after.data@;
    let m2 = after.metas();
    let e2 = d2.len() as int;
    let n = before.meta@.len() as int;
    let b = before.builder;
    let s = finished_block(b.data@, b.offsets@);
    block::law_block_decode_encode(
        b.data@ + crate::block::builder::block_trailer(b.offsets@),
        b.offsets@,
    );
    block::lemma_block_extend(
        b.data@,
        crate::block::builder::block_trailer(b.offsets@),
        b.offsets@,
    );
    assert(before.entries().last() == b.entries().last());
    assert(d1.len() == before.data.len());
    assert(m2[n].offset == d1.len());
    assert(table::blk_bytes(d2, m2, e2, n) =~= s);
    assert(table::blk_ok(d2, m2, e2, n));
    assert(table::blk_entries(d2, m2, e2, n) == b.entries());
    assert(table::meta_matches(d2, m2, e2, n));
    assert(d2.subrange(e2 - 4, e2) =~= codec::le_bytes(hashing::crc32(s) as nat, 4));
    assert(table::blk_checked(d2, m2, e2, n));
    assert forall|i: int| 0 <= i < n implies {
        &&& #[trigger] table::blk_ok(d2, m2, e2, i)
        &&& table::blk_entries(d2, m2, e2, i) == table::blk_entries(d1, m1, e1, i)
        &&& table::meta_matches(d2, m2, e2, i)
        &&& table::blk_checked(d2, m2, e2, i)
    } by {
        assert(table::blk_ok(d1, m1, e1, i));
        assert(table::meta_matches(d1, m1, e1, i));
        assert(table::blk_checked(d1, m1, e1, i));
        assert(m2[i] == m1[i]);
        let p = table::blk_end(m1, e1, i);
        assert(table::blk_end(m2, e2, i) == p);
        assert(table::blk_bytes(d2, m2, e2, i) =~= table::blk_bytes(d1, m1, e1, i));
        assert(d2.subrange(p - 4, p) =~= d1.subrange(p - 4, p));
    }
    assert forall|i: int| 0 <= i < n
        implies #[trigger] table::blk_entries(d1, m1, e1, i) == table::blk_entries(
        d2,
        m2,
        e2,
        i,
    ) by {
        assert(table::blk_ok(d2, m2, e2, i));
    }
    lemma_entries_upto_same(d1, m1, e1, d2, m2, e2, n);
    assert forall|i: int| 0 <= i < after.meta@.len()
        implies #[trigger] table::blk_ok(d2, m2, e2, i) by {}
    assert forall|i: int| 0 <= i < after.meta@.len() implies #[trigger] table::meta_matches(
        d2,
        m2,
        e2,
        i,
    ) by {
        if i < n {
            assert(table::blk_ok(d2, m2, e2, i));
        }
    }
    assert forall|i: int| 0 <= i < after.meta@.len() implies #[trigger] table::blk_checked(
        d2,
        m2,
        e2,
        i,
    ) by {
        if i < n {
            assert(table::blk_ok(d2, m2, e2, i));
        }
    }
    assert forall|i: int| 0 <= i < after.meta@.len() implies table::meta_fits(#[trigger] m2[i]) by {
        if i < n {
            assert(table::meta_fits(m1[i]));
        }
    }
}

/// The blocks of a table keep their entries when the rest of the file follows them.
proof fn lemma_blocks_in_file(data: Seq<u8>, metas: Seq<MetaView>, t: &SsTable)
    requires
        t.file.present(),
        t.metas() == metas,
        t.block_meta_offset == data.len(),
        data.len() <= t.file.content().len(),
        t.file.content().take(data.len() as int) == data,
        forall|i: int|
            0 <= i < metas.len() ==> #[trigger] table::blk_ok(data, metas, data.len() as int, i),
        forall|i: int|
            0 <= i < metas.len()
                ==> #[trigger] table::meta_matches(data, metas, data.len() as int, i),
        forall|i: int|
            0 <= i < metas.len()
                ==> #[trigger] table::blk_checked(data, metas, data.len() as int, i),
    ensures
        forall|i: int|
            0 <= i < metas.len() ==> #[trigger] table::blk_checked(
                t.file.content(),
                metas,
                data.len() as int,
                i,
            ),
        t.readable(),
        t.entries() == table::entries_from(data, metas, data.len() as int, 0),
        forall|i: int|
            0 <= i < metas.len() ==> #[trigger] table::meta_matches(
                t.file.content(),
                metas,
                data.len() as int,
                i,
            ),
{
    let f = t.file.content();
    let e = data.len() as int;
    assert forall|i: int| 0 <= i < metas.len() implies {
        &&& #[trigger] table::blk_ok(f, metas, e, i)
        &&& table::meta_matches(f, metas, e, i)
        &&& table::blk_checked(f, metas, e, i)
        &&& table::blk_entries(f, metas, e, i) == table::blk_entries(data, metas, e, i)
    } by {
        assert(table::blk_ok(data, metas, e, i));
        assert(table::meta_matches(data, metas, e, i));
        assert(table::blk_checked(data, metas, e, i));
        assert(forall|j: int| 0 <= j < e ==> data[j] == f[j]) by {
            assert(forall|j: int| 0 <= j < e ==> f.take(e)[j] == f[j]);
        }
        assert(table::blk_bytes(f, metas, e, i) =~= table::blk_bytes(data, metas, e, i));
        let p = table::blk_end(metas, e, i);
        assert(f.subrange(p - 4, p) =~= data.subrange(p - 4, p));
    }
    assert forall|i: int| 0 <= i < metas.len()
        implies #[trigger] table::blk_checked(f, metas, e, i) by {
        assert(table::blk_ok(f, metas, e, i));
    }
    assert forall|i: int| 0 <= i < metas.len()
        implies #[trigger] table::meta_matches(f, metas, e, i) by {
        assert(table::blk_ok(f, metas, e, i));
    }
    assert forall|i: int| 0 <= i < metas.len() implies #[trigger] table::blk_entries(f, metas, e, i)
        == table::blk_entries(data, metas, e, i) by {
        assert(table::blk_ok(f, metas, e, i));
    }
    lemma_entries_upto_same(f, metas, e, data, metas, e, metas.len() as int);
    table::lemma_entries_split(f, metas, e, metas.len() as int);
    table::lemma_entries_split(data, metas, e, metas.len() as int);
    assert(table::entries_from(f, metas, e, metas.len() as int) == table::entries_from(
        data,
        metas,
        e,
        metas.len() as int,
    ));
}

/// The file of a table tells where its parts stand, and gives its parts back; the metadata loses the
/// timestamps of its keys.
pub proof fn law_image_parts(data: Seq<u8>, metas: Seq<MetaView>, bloom: Seq<u8>)
    requires
        data.len() + table::metas_bytes(metas).len() + 4 <= u32::MAX,
        forall|i: int| 0 <= i < metas.len() ==> table::meta_fits(#[trigger] metas[i]),
    ensures
        table::openable(table_image(data, metas, bloom)),
        table::footer_meta_offset(table_image(data, metas, bloom)) == data.len(),
        table::footer_bloom(table_image(data, metas, bloom)) == bloom,
        table::parse_metas(table::footer_metas(table_image(data, metas, bloom))) == Some(
            metas.map_values(|m: MetaView| table::without_ts(m)),
        ),
{
    broadcast use codec::lemma_le_bytes_len;

    let s = table_image(data, metas, bloom);
    let ms = table::metas_bytes(metas);
    let n = s.len() as int;
    let b = data.len() + ms.len() + 4;
    codec::lemma_byte_capacities();
    codec::lemma_le_round_trip(data.len(), 4);
    codec::lemma_le_round_trip(b, 4);
    assert(s.subrange(n - 4, n) =~= codec::le_bytes(b, 4));
    assert(s.subrange(b - 4, b as int) =~= codec::le_bytes(data.len(), 4));
    assert(table::footer_metas(s) =~= ms);
    assert(table::footer_bloom(s) =~= bloom);
    table::law_metas_decode_encode(metas);
}

/// The bytes of metadata do not tell timestamps.
proof fn lemma_metas_bytes_plain(ms: Seq<MetaView>)
    ensures
        table::metas_bytes(ms.map_values(|m: MetaView| table::without_ts(m)))
            == table::metas_bytes(ms),
    decreases ms.len(),
{
    let plain = ms.map_values(|m: MetaView| table::without_ts(m));
    if ms.len() > 0 {
        lemma_metas_bytes_plain(ms.drop_first());
        assert(
            plain.drop_first() =~= ms.drop_first().map_values(|m: MetaView| table::without_ts(m))
        );
    }
}

/// A table that was written to a file and opened again holds what it held. `t` is the table as it
/// was written, `again` the one that was opened. The largest timestamp is kept, and where all keys
/// are plain user keys, all that a table says of its keys is kept too.
#[verifier::spinoff_prover]
#[verifier::rlimit(30)]
pub proof fn law_reopened_holds(t: &SsTable, again: &SsTable)
    requires
        stored(t),
        again.file.present(),
        again.file.content() == t.file.content(),
        again.opened(),
    ensures
        table::openable(t.file.content()),
        table::footer_bloom(t.file.content()).len() > 0,
        again.entries() == t.entries(),
        t.readable() ==> again.readable(),
        t.readable() ==> again.max_ts == t.max_ts,
        t.wf() && key::plain_keys(t.entries()) ==> again.wf(),
        stored(again),
{
    let data = choose|data: Seq<u8>| #[trigger] stored_as(t, data);
    let s = t.file.content();
    let m1 = t.metas();
    let m2 = again.metas();
    let e = data.len() as int;
    let n = m1.len() as int;
    let bloom = t.bloom->Some_0;
    law_image_parts(data, m1, bloom.bytes());
    assert(m2 =~= m1.map_values(|m: MetaView| table::without_ts(m)));
    assert forall|i: int| 0 <= i < n
        implies #[trigger] table::blk_entries(s, m1, e, i) == table::blk_entries(
        s,
        m2,
        e,
        i,
    ) && table::blk_ok(s, m1, e, i) == table::blk_ok(s, m2, e, i) by {
        assert(m2[i] == table::without_ts(m1[i]));
        if i + 1 < n {
            assert(m2[i + 1] == table::without_ts(m1[i + 1]));
        }
    }
    lemma_entries_upto_same(s, m1, e, s, m2, e, n);
    table::lemma_entries_split(s, m1, e, n);
    table::lemma_entries_split(s, m2, e, n);
    assert(again.entries() =~= t.entries());
    assert(again.bloom->Some_0.filter@ =~= bloom.filter@) by {
        assert(again.bloom->Some_0.bytes().drop_last() =~= again.bloom->Some_0.filter@);
        assert(bloom.bytes().drop_last() =~= bloom.filter@);
    }
    assert(again.bloom->Some_0.k == bloom.k) by {
        assert(again.bloom->Some_0.bytes().last() == again.bloom->Some_0.k);
        assert(bloom.bytes().last() == bloom.k);
    }
    assert(stored_as(again, data)) by {
        lemma_metas_bytes_plain(m1);
        assert forall|i: int| 0 <= i < m2.len() implies table::meta_fits(#[trigger] m2[i]) by {
            assert(table::meta_fits(m1[i]));
        }
    }
    if t.readable() {
        assert forall|i: int| 0 <= i < n implies #[trigger] table::blk_ok(s, m2, e, i) by {
            assert(table::blk_ok(s, m1, e, i));
            assert(table::blk_entries(s, m1, e, i) == table::blk_entries(s, m2, e, i));
        }
    }
    if t.wf() && key::plain_keys(t.entries()) {
        let es = t.entries();
        assert forall|i: int| 0 <= i < n
            implies #[trigger] table::meta_matches(s, m2, e, i) && m2[i].first_key
            == m1[i].first_key && m2[i].last_key == m1[i].last_key by {
            assert(table::meta_matches(s, m1, e, i));
            assert(table::blk_ok(s, m1, e, i));
            let b = table::blk_entries(s, m1, e, i);
            assert(b == table::blk_entries(s, m2, e, i));
            table::lemma_block_place(t, i);
            let before = table::entries_upto(s, m1, e, i).len() as int;
            assert(b[0] == es[before]);
            assert(b.last() == es[before + b.len() - 1]);
            assert(m2[i] == table::without_ts(m1[i]));
        }
        assert forall|i: int| 0 <= i < es.len() implies again.known_to_bloom(#[trigger] es[i]) by {
            assert(t.known_to_bloom(es[i]));
        }
        if n > 0 {
            assert(table::meta_matches(s, m2, e, 0));
            assert(table::meta_matches(s, m2, e, n - 1));
            table::lemma_block_place(t, 0);
            table::lemma_block_place(t, n - 1);
            assert(es[0] == t.block(0)[0]);
            assert(es.last() == t.block(n - 1).last());
        }
    }
}

/// The estimated size of a table is that of its finished blocks, each with its checksum. Adding an
/// entry leaves it unchanged if the entry fits into the block that is being filled; otherwise that
/// block is finished and counts too.
pub proof fn law_estimated_size(before: SsTableBuilder, after: SsTableBuilder, e: Entry)
    requires
        before.inv(),
        after.inv(),
        after.block_size == before.block_size,
        after.entries() == before.entries().push(e),
    ensures
        before.entries().len() == 0 ==> after.data@.len() == 0,
        before.builder.has_room(e) ==> after.data@ == before.data@,
        !before.builder.has_room(e) ==> after.data@ == before.data@ + checked_block(
            finished_block(before.builder.data@, before.builder.offsets@),
        ),
        !before.builder.has_room(e) ==> after.data@.len() == before.data@.len()
            + before.builder.data@.len() + 4 * before.builder.offsets@.len() + 8,
        before.data@.len() <= after.data@.len(),
{
    law_block_len(before.builder.data@, before.builder.offsets@);
    let es = after.entries();
    assert(es.drop_last() =~= before.entries());
    assert(es.last() == e);
    assert(after.draft() == before.draft().add_entry(e, before.block_size));
    assert(before.builder.has_room(e) == before.draft().has_room(e, before.block_size));
}

/// The fingerprints of a table are those of its keys and no others, one for each key that has one.
pub proof fn law_hashes(es: Seq<Entry>)
    ensures
        forall|i: int|
            0 <= i < es.len() && hashing::key_hash_of((#[trigger] es[i]).key.key) is Some
                ==> hashes_of(
                es,
            ).contains(hashing::key_hash_of(es[i].key.key)->Some_0),
        forall|j: int|
            0 <= j < hashes_of(es).len() ==> exists|i: int|
                0 <= i < es.len() && hashing::key_hash_of((#[trigger] es[i]).key.key) == Some(
                    #[trigger] hashes_of(es)[j],
                ),
        (forall|i: int| 0 <= i < es.len() ==> hashing::key_hash_of((#[trigger] es[i]).key.key) is Some)
            ==> hashes_of(es).len() == es.len(),
    decreases es.len(),
{
    if es.len() > 0 {
        let front = es.drop_last();
        let last = es.last();
        let few = hashes_of(front);
        let all = hashes_of(es);
        law_hashes(front);
        assert(forall|i: int| 0 <= i < front.len() ==> #[trigger] front[i] == es[i]);
        assert forall|i: int|
            0 <= i < es.len() && hashing::key_hash_of((#[trigger] es[i]).key.key) is Some
                implies all.contains(
            hashing::key_hash_of(es[i].key.key)->Some_0,
        ) by {
            lemma_hashes_contain(es, i);
        }
        assert forall|j: int| 0 <= j < all.len() implies exists|i: int|
            0 <= i < es.len() && hashing::key_hash_of((#[trigger] es[i]).key.key) == Some(
                #[trigger] all[j],
            ) by {
            if j < few.len() {
                assert(all[j] == few[j]);
                let i = choose|i: int|
                    0 <= i < front.len()
                        && hashing::key_hash_of((#[trigger] front[i]).key.key) == Some(
                        few[j],
                    );
                assert(es[i] == front[i]);
            } else {
                assert(es[es.len() - 1] == last);
            }
        }
        if forall|i: int| 0 <= i < es.len()
            ==> hashing::key_hash_of((#[trigger] es[i]).key.key) is Some {
            assert(es[es.len() - 1] == last);
            assert forall|i: int| 0 <= i < front.len() implies hashing::key_hash_of(
                (#[trigger] front[i]).key.key,
            ) is Some by {
                assert(front[i] == es[i]);
            }
        }
    }
}

/// The bloom filter of a table has at least ten bits for each fingerprint, and at least 64, and six
/// probes for each if there are any.
pub proof fn law_table_filter(b: Bloom, es: Seq<Entry>)
    requires
        bloom_of(b, es),
    ensures
        8 * b.filter@.len() >= 10 * hashes_of(es).len(),
        8 * b.filter@.len() >= 64,
        hashes_of(es).len() > 0 ==> b.k == 6,
{
    bloom::law_filter(b, hashes_of(es), bloom::bits_per_key_for(hashes_of(es).len()), 0, 0);
}

/// How a table is cut into blocks: an entry goes into the current block if the entries of that block
/// then take no more than the block size, as far as the offsets of a block reach; otherwise it begins
/// a new one. `n` is how many bytes its key shares with the first key of the block. What was
/// finished before stays as it is.
pub proof fn law_blocks_cut(es: Seq<Entry>, e: Entry, block_size: usize, n: int)
    requires
        es.len() > 0,
        ({
            let first = draft_of(es, block_size).first.key;
            &&& 0 <= n <= first.len()
            &&& n <= e.key.key.len()
            &&& first.take(n) == e.key.key.take(n)
            &&& n == first.len() || n == e.key.key.len() || first[n] != e.key.key[n]
        }),
    ensures
        ({
            let before = draft_of(es, block_size);
            let after = draft_of(es.push(e), block_size);
            let size = before.block.len() + 14 + e.key.key.len() - n + e.value.len();
            if size <= block_size && size <= 65535 {
                &&& after.data == before.data
                &&& after.metas == before.metas
                &&& after.first == before.first
                &&& after.block.len() == size
                &&& after.offsets.len() == before.offsets.len() + 1
            } else {
                &&& after.data.len() == before.data.len() + before.block.len() + 4
                    * before.offsets.len() + 8
                &&& after.data.take(before.data.len() as int) == before.data
                &&& after.metas.len() == before.metas.len() + 1
                &&& after.metas.drop_last() == before.metas
                &&& after.metas.last().offset == before.data.len() as usize
                &&& after.metas.last().first_key == before.first
                &&& after.metas.last().last_key == es.last().key
                &&& after.first == e.key
                &&& after.block.len() == 14 + e.key.key.len() + e.value.len()
                &&& after.offsets.len() == 1
            }
        }),
        es.len() == 1 ==> {
            let before = draft_of(es, block_size);
            &&& before.data.len() == 0
            &&& before.metas.len() == 0
            &&& before.first == es[0].key
            &&& before.block.len() == 14 + es[0].key.key.len() + es[0].value.len()
            &&& before.offsets.len() == 1
        },
{
    broadcast use codec::lemma_le_bytes_len;

    let before = draft_of(es, block_size);
    let first = before.first.key;
    let m = block::common_prefix(first, e.key.key) as int;
    assert(es.push(e).drop_last() =~= es);
    assert(es.push(e).last() == e);
    lemma_draft_begun(es, block_size);
    crate::block::builder::law_common_prefix(first, e.key.key);
    law_block_len(before.block, before.offsets);
    assert(first.take(m) == e.key.key.take(m));
    if n < m {
        assert(first[n] == first.take(m)[n]);
        assert(e.key.key[n] == e.key.key.take(m)[n]);
    }
    assert(n == m);
    let after = draft_of(es.push(e), block_size);
    if after.metas.len() == before.metas.len() + 1 {
        assert(after.metas.drop_last() =~= before.metas);
        assert(after.data.take(before.data.len() as int) =~= before.data);
    }
    if es.len() == 1 {
        reveal_with_fuel(draft_of, 2);
        assert(es.drop_last() =~= Seq::empty());
    }
}

/// A table with entries has begun a block, and its last key is that of its last entry.
proof fn lemma_draft_begun(es: Seq<Entry>, block_size: usize)
    requires
        es.len() > 0,
    ensures
        draft_of(es, block_size).offsets.len() > 0,
        draft_of(es, block_size).last == es.last().key,
{
}

/// Where the parts of a table stand: its blocks, their metadata, where the metadata begins, the bloom
/// filter, and where the bloom filter begins. Both offsets take four bytes, the least significant one
/// first.
pub proof fn law_image_layout(data: Seq<u8>, metas: Seq<MetaView>, bloom: Seq<u8>)
    requires
        data.len() + table::metas_bytes(metas).len() + 4 <= u32::MAX,
    ensures
        ({
            let s = table_image(data, metas, bloom);
            let m = table::metas_bytes(metas);
            let p = data.len() as int;
            let q = p + m.len();
            &&& s.len() == q + 8 + bloom.len()
            &&& s.take(p) == data
            &&& s.subrange(p, q) == m
            &&& codec::le_value(s.subrange(q, q + 4)) == p
            &&& s.subrange(q + 4, s.len() - 4) == bloom
            &&& codec::le_value(s.skip(s.len() - 4)) == q + 4
        }),
{
    broadcast use codec::lemma_le_bytes_len;

    let s = table_image(data, metas, bloom);
    let m = table::metas_bytes(metas);
    let p = data.len() as int;
    let q = p + m.len();
    codec::lemma_byte_capacities();
    codec::lemma_le_round_trip(p as nat, 4);
    codec::lemma_le_round_trip((q + 4) as nat, 4);
    assert(s.take(p) =~= data);
    assert(s.subrange(p, q) =~= m);
    assert(s.subrange(q, q + 4) =~= codec::le_bytes(p as nat, 4));
    assert(s.subrange(q + 4, s.len() - 4) =~= bloom);
    assert(s.skip(s.len() - 4) =~= codec::le_bytes((q + 4) as nat, 4));
}

} // verus!
