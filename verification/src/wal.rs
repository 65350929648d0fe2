//! The write-ahead log.
//!
//! A batch of records is written as `batch size (4) | body | checksum (4)`. The body holds
//! records of the form `key length (2) | key | timestamp (8) | value length (2) | value`. A log
//! may also hold single records, each followed by its checksum (4). All numbers stand with the
//! most significant byte first.
use crate::codec::{
    self, append_be, put_slice, put_u16, put_u64, read_u16_be, read_u32_be, read_u64_be,
};
use crate::hashing::{self, checksum};
use crate::key::{Entry, KeySlice, KeyVec, KeyView, copy_bytes};
use crate::versions::{self, VersionMap, put_version};
use vstd::prelude::*;

verus! {

/// Why a log cannot be recovered.
#[derive(Debug, Clone, Copy, PartialEq, Eq, Structural)]
pub enum WalError {
    /// A batch ends within the length of a key.
    MissingKeyLen,
    /// A batch ends within a key.
    MissingKey,
    /// A batch ends within a timestamp.
    MissingTs,
    /// A batch ends within the length of a value.
    MissingValueLen,
    /// A batch ends within a value.
    MissingValue,
    /// The checksum of a single record is not the one that was stored.
    ChecksumMismatch { stored: u32, computed: u32 },
}

/// The bytes of a record. Lengths are kept in two bytes.
pub open spec fn record_bytes(e: Entry) -> Seq<u8> {
    codec::be_bytes((e.key.key.len() as u16) as nat, 2) + e.key.key
        + codec::be_bytes(e.key.ts as nat, 8)
        + codec::be_bytes((e.value.len() as u16) as nat, 2) + e.value
}

/// The bytes of several records.
pub open spec fn records_bytes(es: Seq<Entry>) -> Seq<u8>
    decreases es.len(),
{
    if es.len() == 0 {
        Seq::empty()
    } else {
        records_bytes(es.drop_last()) + record_bytes(es.last())
    }
}

/// A batch as it stands in the log.
pub open spec fn batch_bytes(es: Seq<Entry>) -> Seq<u8> {
    let body = records_bytes(es);
    codec::be_bytes((body.len() as u32) as nat, 4) + body
        + codec::be_bytes(hashing::crc32(body) as nat, 4)
}

/// A number of `n` bytes at `p`.
pub open spec fn be_at(s: Seq<u8>, p: int, n: int) -> nat {
    codec::be_value(s.subrange(p, p + n))
}

/// The record at the front of `s`, and how many bytes it takes; or the part that `s` lacks.
pub open spec fn parse_record(s: Seq<u8>) -> Result<(Entry, nat), WalError> {
    let kl = be_at(s, 0, 2) as int;
    let vl = be_at(s, 10 + kl, 2) as int;
    if s.len() < 2 {
        Err(WalError::MissingKeyLen)
    } else if s.len() < 2 + kl {
        Err(WalError::MissingKey)
    } else if s.len() < 10 + kl {
        Err(WalError::MissingTs)
    } else if s.len() < 12 + kl {
        Err(WalError::MissingValueLen)
    } else if s.len() < 12 + kl + vl {
        Err(WalError::MissingValue)
    } else {
        let key = KeyView { key: s.subrange(2, 2 + kl), ts: be_at(s, 2 + kl, 8) as u64 };
        Ok((Entry { key, value: s.subrange(12 + kl, 12 + kl + vl) }, (12 + kl + vl) as nat))
    }
}

/// The records of a body up to its end or to the first one that it does not hold in full, and
/// what that one lacks.
pub open spec fn parse_body(s: Seq<u8>) -> (Seq<Entry>, Option<WalError>)
    decreases s.len(),
{
    if s.len() == 0 {
        (Seq::empty(), None)
    } else {
        match parse_record(s) {
            Err(e) => (Seq::empty(), Some(e)),
            Ok((e, n)) => {
                let rest = parse_body(s.skip(n as int));
                (seq![e] + rest.0, rest.1)
            },
        }
    }
}

/// The size that the batch at the front of `s` claims.
pub open spec fn batch_size(s: Seq<u8>) -> int {
    be_at(s, 0, 4) as int
}

/// A batch stands at the front of `s`: there is room for it, and its checksum is right.
pub open spec fn has_batch(s: Seq<u8>) -> bool {
    let n = batch_size(s);
    &&& s.len() >= 4
    &&& s.len() >= 8 + n
    &&& hashing::crc32(s.subrange(4, 4 + n)) == be_at(s, 4 + n, 4)
}

/// The records of a log up to its end, to a single record that it does not hold in full, or to an
/// error.
pub open spec fn scan_log(s: Seq<u8>) -> (Seq<Entry>, Option<WalError>)
    decreases s.len(),
{
    if s.len() == 0 {
        (Seq::empty(), None)
    } else if has_batch(s) {
        let n = batch_size(s);
        let (es, err) = parse_body(s.subrange(4, 4 + n));
        if err is Some {
            (es, err)
        } else {
            let rest = scan_log(s.skip(8 + n));
            (es + rest.0, rest.1)
        }
    } else {
        match parse_record(s) {
            Err(_) => (Seq::empty(), None),
            Ok((e, n)) => {
                let stored = be_at(s, n as int, 4) as u32;
                let computed = hashing::crc32(s.take(n as int));
                if s.len() < n + 4 {
                    (Seq::empty(), None)
                } else if stored != computed {
                    (Seq::empty(), Some(WalError::ChecksumMismatch { stored, computed }))
                } else {
                    let rest = scan_log(s.skip(n as int + 4));
                    (seq![e] + rest.0, rest.1)
                }
            },
        }
    }
}

/// What a map holds after records have been put into it one by one.
pub open spec fn insert_all(c: Map<(Seq<u8>, u64), Seq<u8>>, es: Seq<Entry>) -> Map<
    (Seq<u8>, u64),
    Seq<u8>,
>
    decreases es.len(),
{
    if es.len() == 0 {
        c
    } else {
        insert_all(c.insert(versions::slot_of(es[0].key), es[0].value), es.drop_first())
    }
}

/// Records can be put in in two goes.
pub proof fn lemma_insert_all_split(
    c: Map<(Seq<u8>, u64), Seq<u8>>,
    a: Seq<Entry>,
    b: Seq<Entry>,
)
    ensures
        insert_all(c, a + b) == insert_all(insert_all(c, a), b),
    decreases a.len(),
{
    if a.len() == 0 {
        assert(a + b =~= b);
    } else {
        assert((a + b).drop_first() =~= a.drop_first() + b);
        lemma_insert_all_split(
            c.insert(versions::slot_of(a[0].key), a[0].value),
            a.drop_first(),
            b,
        );
    }
}

/// A finite map stays finite.
pub proof fn lemma_insert_all_finite(c: Map<(Seq<u8>, u64), Seq<u8>>, es: Seq<Entry>)
    requires
        c.dom().finite(),
    ensures
        insert_all(c, es).dom().finite(),
    decreases es.len(),
{
    if es.len() > 0 {
        lemma_insert_all_finite(
            c.insert(versions::slot_of(es[0].key), es[0].value),
            es.drop_first(),
        );
    }
}

/// A batch as a mathematical value.
pub open spec fn batch_view(data: Seq<(KeySlice<'_>, &[u8])>) -> Seq<Entry> {
    data.map_values(|p: (KeySlice<'_>, &[u8])| Entry { key: p.0@, value: p.1@ })
}

/// Reads the record at the front of `data`.
fn read_record(data: &[u8]) -> (r: Result<(KeyVec, Vec<u8>, usize), WalError>)
    ensures
        match parse_record(data@) {
            Err(e) => r is Err && r->Err_0 == e,
            Ok((e, n)) => {
                &&& r is Ok
                &&& r->Ok_0.0@ == e.key
                &&& r->Ok_0.1@ == e.value
                &&& r->Ok_0.2 == n
            },
        },
{
    let len: u64 = data.len() as u64;
    proof {
        codec::lemma_byte_capacities();
    }
    if len < 2 {
        return Err(WalError::MissingKeyLen);
    }
    let key_len: u64 = read_u16_be(data, 0) as u64;
    if len < 2 + key_len {
        return Err(WalError::MissingKey);
    }
    if len < 10 + key_len {
        return Err(WalError::MissingTs);
    }
    let kl: usize = key_len as usize;
    let ts: u64 = read_u64_be(data, 2 + kl);
    if len < 12 + key_len {
        return Err(WalError::MissingValueLen);
    }
    let value_len: u64 = read_u16_be(data, 10 + kl) as u64;
    if len < 12 + key_len + value_len {
        return Err(WalError::MissingValue);
    }
    let end: usize = 12 + kl + value_len as usize;
    let key: KeyVec = KeyVec::from_vec_with_ts(copy_bytes(&data[2..2 + kl]), ts);
    let value: Vec<u8> = copy_bytes(&data[12 + kl..end]);
    Ok((key, value, end))
}

/// Puts the records of a body into the map.
fn recover_body(body: &[u8], skiplist: &mut VersionMap) -> (r: Result<(), WalError>)
    ensures
        versions::contents(*final(skiplist))
            == insert_all(versions::contents(*old(skiplist)), parse_body(body@).0),
        match parse_body(body@).1 {
            None => r is Ok,
            Some(e) => r is Err && r->Err_0 == e,
        },
{
    let mut ptr: usize = 0;
    let ghost total = parse_body(body@);
    assert(body@.skip(0) =~= body@);
    while ptr < body.len()
        invariant
            ptr <= body@.len(),
            total == parse_body(body@),
            insert_all(versions::contents(*skiplist), parse_body(body@.skip(ptr as int)).0)
                == insert_all(
                versions::contents(*old(skiplist)),
                total.0,
            ),
            parse_body(body@.skip(ptr as int)).1 == total.1,
        decreases body@.len() - ptr,
    {
        let data: &[u8] = &body[ptr..body.len()];
        assert(data@ =~= body@.skip(ptr as int));
        match read_record(data) {
            Err(e) => {
                return Err(e);
            },
            Ok((key, value, n)) => {
                let ghost rest = parse_body(data@.skip(n as int));
                let ghost e = parse_record(data@)->Ok_0.0;
                proof {
                    assert((seq![e] + rest.0).drop_first() =~= rest.0);
                    assert(data@.skip(n as int) =~= body@.skip(ptr + n));
                }
                put_version(skiplist, key.as_key_slice(), value.as_slice());
                ptr = ptr + n;
            },
        }
    }
    Ok(())
}

/// A write-ahead log. Records gather in memory until they are handed out to be written.
#[derive(Debug)]
pub struct Wal {
    /// The bytes that were logged and not handed out yet.
    pub pending: Vec<u8>,
}

impl Wal {
    /// A new log.
    pub fn create() -> (w: Self)
        ensures
            w.pending@.len() == 0,
    {
        Wal { pending: Vec::new() }
    }

    /// Puts the records of a log into `skiplist`, and goes on with that log. A single record at
    /// the end that is not there in full is passed over.
    pub fn recover(buf: &[u8], skiplist: &mut VersionMap) -> (r: Result<Self, WalError>)
        ensures
            versions::contents(*final(skiplist))
                == insert_all(versions::contents(*old(skiplist)), scan_log(buf@).0),
            match scan_log(buf@).1 {
                None => r is Ok && r->Ok_0.pending@.len() == 0,
                Some(e) => r is Err && r->Err_0 == e,
            },
    {
        proof {
            codec::lemma_byte_capacities();
        }
        let len: usize = buf.len();
        let mut ptr: usize = 0;
        let ghost total = scan_log(buf@);
        assert(buf@.skip(0) =~= buf@);
        while ptr < len
            invariant
                ptr <= len,
                len == buf.len(),
                total == scan_log(buf@),
                insert_all(versions::contents(*skiplist), scan_log(buf@.skip(ptr as int)).0)
                    == insert_all(
                    versions::contents(*old(skiplist)),
                    total.0,
                ),
                scan_log(buf@.skip(ptr as int)).1 == total.1,
            decreases len - ptr,
        {
            let data: &[u8] = &buf[ptr..len];
            let rest: usize = len - ptr;
            assert(data@ =~= buf@.skip(ptr as int));
            let batch: Option<usize> = find_batch(data);
            if let Some(size) = batch {
                let body: &[u8] = &data[4..4 + size];
                let ghost es = parse_body(body@).0;
                let ghost more = scan_log(data@.skip(8 + size));
                let ghost before = versions::contents(*skiplist);
                recover_body(body, skiplist)?;
                proof {
                    lemma_insert_all_split(before, es, more.0);
                    assert(data@.skip(8 + size) =~= buf@.skip(ptr + 8 + size));
                }
                ptr = ptr + 8 + size;
            } else {
                match read_record(data) {
                    Err(_) => {
                        return Ok(Wal { pending: Vec::new() });
                    },
                    Ok((key, value, n)) => {
                        if rest - n < 4 {
                            return Ok(Wal { pending: Vec::new() });
                        }
                        let stored: u32 = read_u32_be(data, n);
                        let computed: u32 = checksum(&data[0..n]);
                        assert(data@.subrange(0, n as int) =~= data@.take(n as int));
                        if stored != computed {
                            return Err(WalError::ChecksumMismatch { stored, computed });
                        }
                        let ghost more = scan_log(data@.skip(n + 4));
                        let ghost e = parse_record(data@)->Ok_0.0;
                        proof {
                            assert((seq![e] + more.0).drop_first() =~= more.0);
                            assert(data@.skip(n + 4) =~= buf@.skip(ptr + n + 4));
                        }
                        put_version(skiplist, key.as_key_slice(), value.as_slice());
                        ptr = ptr + n + 4;
                    },
                }
            }
        }
        Ok(Wal { pending: Vec::new() })
    }

    /// Logs one record.
    pub fn put(&mut self, key: KeySlice<'_>, value: &[u8])
        ensures
            final(self).pending@ == old(self).pending@ + batch_bytes(
                seq![Entry { key: key@, value: value@ }],
            ),
    {
        let mut data: Vec<(KeySlice<'_>, &[u8])> = Vec::new();
        data.push((key, value));
        assert(batch_view(data@) =~= seq![Entry { key: key@, value: value@ }]);
        self.put_batch(data.as_slice());
    }

    /// Logs a batch of records.
    pub fn put_batch(&mut self, data: &[(KeySlice<'_>, &[u8])])
        ensures
            final(self).pending@ == old(self).pending@ + batch_bytes(batch_view(data@)),
    {
        let ghost es = batch_view(data@);
        let mut body: Vec<u8> = Vec::new();
        let mut i: usize = 0;
        while i < data.len()
            invariant
                i <= data@.len(),
                es == batch_view(data@),
                body@ == records_bytes(es.take(i as int)),
            decreases data@.len() - i,
        {
            let key: KeySlice<'_> = data[i].0;
            let value: &[u8] = data[i].1;
            put_u16(&mut body, key.key_len() as u16);
            put_slice(&mut body, key.key_ref());
            put_u64(&mut body, key.ts());
            put_u16(&mut body, value.len() as u16);
            put_slice(&mut body, value);
            proof {
                assert(es[i as int] == Entry { key: key@, value: value@ });
                assert(es.take(i + 1).drop_last() =~= es.take(i as int));
                assert(es.take(i + 1).last() == es[i as int]);
                assert(body@ =~= records_bytes(es.take(i as int)) + record_bytes(es[i as int]));
            }
            i = i + 1;
        }
        assert(es.take(i as int) =~= es);
        let checksum: u32 = checksum(body.as_slice());
        append_be(&mut self.pending, (body.len() as u32) as u64, 4);
        put_slice(&mut self.pending, body.as_slice());
        append_be(&mut self.pending, checksum as u64, 4);
        assert(self.pending@ =~= old(self).pending@ + batch_bytes(es));
    }

    /// Hands out what has been logged, to be written to the file of the log.
    pub fn sync(&mut self) -> (bytes: Vec<u8>)
        ensures
            bytes@ == old(self).pending@,
            final(self).pending@.len() == 0,
    {
        let mut bytes: Vec<u8> = Vec::new();
        std::mem::swap(&mut bytes, &mut self.pending);
        bytes
    }
}

/// The size of the batch at the front of `data`, if there is one.
fn find_batch(data: &[u8]) -> (r: Option<usize>)
    ensures
        r is Some <==> has_batch(data@),
        r matches Some(n) ==> n == batch_size(data@),
{
    let len: u64 = data.len() as u64;
    proof {
        codec::lemma_byte_capacities();
    }
    if len < 4 {
        return None;
    }
    let size: u64 = read_u32_be(data, 0) as u64;
    if len < 8 + size {
        return None;
    }
    let n: usize = size as usize;
    let stored: u32 = read_u32_be(data, 4 + n);
    if checksum(&data[4..4 + n]) == stored {
        Some(n)
    } else {
        None
    }
}

/// The lengths in a record fit into the two bytes that they are kept in.
pub open spec fn record_fits(e: Entry) -> bool {
    e.key.key.len() <= u16::MAX && e.value.len() <= u16::MAX
}

/// All records of a batch fit, and so does its size.
pub open spec fn batch_fits(es: Seq<Entry>) -> bool {
    &&& forall|i: int| 0 <= i < es.len() ==> record_fits(#[trigger] es[i])
    &&& records_bytes(es).len() <= u32::MAX
}

/// A record is read back from the front of the bytes that it was written to.
proof fn lemma_parse_record(e: Entry, rest: Seq<u8>)
    requires
        record_fits(e),
    ensures
        parse_record(record_bytes(e) + rest) == Ok::<(Entry, nat), WalError>(
            (e, record_bytes(e).len()),
        ),
        record_bytes(e).len() > 0,
{
    broadcast use codec::lemma_be_bytes_len;

    let s = record_bytes(e) + rest;
    let kl = e.key.key.len() as int;
    let vl = e.value.len() as int;
    codec::lemma_byte_capacities();
    codec::lemma_be_round_trip(kl as nat, 2);
    codec::lemma_be_round_trip(e.key.ts as nat, 8);
    codec::lemma_be_round_trip(vl as nat, 2);
    assert(s.subrange(0, 2) =~= codec::be_bytes(kl as nat, 2));
    assert(s.subrange(2, 2 + kl) =~= e.key.key);
    assert(s.subrange(2 + kl, 2 + kl + 8) =~= codec::be_bytes(e.key.ts as nat, 8));
    assert(s.subrange(10 + kl, 10 + kl + 2) =~= codec::be_bytes(vl as nat, 2));
    assert(s.subrange(12 + kl, 12 + kl + vl) =~= e.value);
    assert(record_bytes(e).len() == 12 + kl + vl);
}

/// The bytes of several records, seen from the front.
proof fn lemma_records_front(es: Seq<Entry>)
    requires
        es.len() > 0,
    ensures
        records_bytes(es) == record_bytes(es[0]) + records_bytes(es.drop_first()),
    decreases es.len(),
{
    if es.len() == 1 {
        assert(es.drop_last() =~= Seq::empty());
        assert(es.drop_first() =~= Seq::empty());
        assert(records_bytes(es) =~= record_bytes(es[0]) + records_bytes(es.drop_first()));
    } else {
        lemma_records_front(es.drop_last());
        assert(es.drop_last().drop_first() =~= es.drop_first().drop_last());
        assert(records_bytes(es) =~= record_bytes(es[0]) + records_bytes(es.drop_first()));
    }
}

/// The records of a body are read back.
proof fn lemma_parse_body(es: Seq<Entry>)
    requires
        forall|i: int| 0 <= i < es.len() ==> record_fits(#[trigger] es[i]),
    ensures
        parse_body(records_bytes(es)) == (es, None::<WalError>),
    decreases es.len(),
{
    if es.len() == 0 {
        assert(es =~= Seq::empty());
    } else {
        let t = es.drop_first();
        lemma_records_front(es);
        assert(record_fits(es[0]));
        assert forall|i: int| 0 <= i < t.len() implies record_fits(#[trigger] t[i]) by {
            assert(t[i] == es[i + 1]);
        }
        lemma_parse_body(t);
        lemma_parse_record(es[0], records_bytes(t));
        let n = record_bytes(es[0]).len() as int;
        assert(records_bytes(es).skip(n) =~= records_bytes(t));
        assert(seq![es[0]] + t =~= es);
    }
}

/// Batches as they stand in the log one after the other.
pub open spec fn log_bytes(batches: Seq<Seq<Entry>>) -> Seq<u8>
    decreases batches.len(),
{
    if batches.len() == 0 {
        Seq::empty()
    } else {
        batch_bytes(batches[0]) + log_bytes(batches.drop_first())
    }
}

/// The records of several batches.
pub open spec fn batch_records(batches: Seq<Seq<Entry>>) -> Seq<Entry>
    decreases batches.len(),
{
    if batches.len() == 0 {
        Seq::empty()
    } else {
        batches[0] + batch_records(batches.drop_first())
    }
}

/// A batch is read back, and then what follows it.
proof fn lemma_scan_batch(es: Seq<Entry>, rest: Seq<u8>)
    requires
        batch_fits(es),
    ensures
        scan_log(batch_bytes(es) + rest) == (es + scan_log(rest).0, scan_log(rest).1),
{
    broadcast use codec::lemma_be_bytes_len;

    let body = records_bytes(es);
    let n = body.len() as int;
    let s = batch_bytes(es) + rest;
    codec::lemma_byte_capacities();
    codec::lemma_be_round_trip(n as nat, 4);
    codec::lemma_be_round_trip(hashing::crc32(body) as nat, 4);
    assert(s.subrange(0, 4) =~= codec::be_bytes(n as nat, 4));
    assert(s.subrange(4, 4 + n) =~= body);
    assert(s.subrange(4 + n, 4 + n + 4) =~= codec::be_bytes(hashing::crc32(body) as nat, 4));
    assert(has_batch(s));
    lemma_parse_body(es);
    assert(s.skip(8 + n) =~= rest);
}

/// The batches of a log are read back, and then what follows them.
proof fn lemma_recover_then(batches: Seq<Seq<Entry>>, tail: Seq<u8>)
    requires
        forall|i: int| 0 <= i < batches.len() ==> batch_fits(#[trigger] batches[i]),
    ensures
        scan_log(log_bytes(batches) + tail) == (
            batch_records(batches) + scan_log(tail).0,
            scan_log(tail).1,
        ),
    decreases batches.len(),
{
    let end = scan_log(tail);
    if batches.len() > 0 {
        let es = batches[0];
        let t = batches.drop_first();
        assert(batch_fits(es));
        assert forall|i: int| 0 <= i < t.len() implies batch_fits(#[trigger] t[i]) by {
            assert(t[i] == batches[i + 1]);
        }
        lemma_recover_then(t, tail);
        lemma_scan_batch(es, log_bytes(t) + tail);
        assert(log_bytes(batches) + tail =~= batch_bytes(es) + (log_bytes(t) + tail));
        assert(es + (batch_records(t) + end.0) =~= batch_records(batches) + end.0);
    } else {
        assert(log_bytes(batches) + tail =~= tail);
        assert(batch_records(batches) + end.0 =~= end.0);
    }
}

/// What is read from a log is what was written to it: recovering a log of batches gives all their
/// records in order, and no error. What follows the batches is read as a log of its own.
pub proof fn law_recover_logged(batches: Seq<Seq<Entry>>, tail: Seq<u8>)
    requires
        forall|i: int| 0 <= i < batches.len() ==> batch_fits(#[trigger] batches[i]),
    ensures
        scan_log(log_bytes(batches)) == (batch_records(batches), None::<WalError>),
        scan_log(log_bytes(batches) + tail) == (
            batch_records(batches) + scan_log(tail).0,
            scan_log(tail).1,
        ),
{
    lemma_recover_then(batches, tail);
    lemma_recover_then(batches, Seq::empty());
    assert(log_bytes(batches) + Seq::<u8>::empty() =~= log_bytes(batches));
    assert(batch_records(batches) + Seq::<Entry>::empty() =~= batch_records(batches));
}

/// What is not a batch, since there is no room for the size that it claims or the checksum behind it
/// is not that of its bytes, is read as a single record: it counts if the checksum behind it is
/// right, is an error if that is wrong, and is passed over with all that follows if it is not there
/// in full. `m` is how many bytes of it are there.
pub proof fn law_recover_single(e: Entry, stored: u32, rest: Seq<u8>, m: int)
    requires
        record_fits(e),
    ensures
        ({
            let one = record_bytes(e) + codec::be_bytes(stored as nat, 4);
            let s = one + rest;
            let n = codec::be_value(s.subrange(0, 4)) as int;
            let computed = hashing::crc32(record_bytes(e));
            s.len() < 8 + n
                || hashing::crc32(s.subrange(4, 4 + n)) != codec::be_value(s.subrange(4 + n, 8 + n))
                    ==> {
                &&& stored == computed ==> scan_log(s) == (
                    seq![e] + scan_log(rest).0,
                    scan_log(rest).1,
                )
                &&& stored != computed ==> scan_log(s) == (
                    Seq::<Entry>::empty(),
                    Some(WalError::ChecksumMismatch { stored, computed }),
                )
            }
        }),
        ({
            let s = (record_bytes(e) + codec::be_bytes(stored as nat, 4)).take(m);
            let n = codec::be_value(s.subrange(0, 4)) as int;
            0 <= m < record_bytes(e).len() + 4
                && (m < 4 || m < 8 + n || hashing::crc32(s.subrange(4, 4 + n))
                != codec::be_value(s.subrange(4 + n, 8 + n))) ==> scan_log(s) == (
                Seq::<Entry>::empty(),
                None::<WalError>,
            )
        }),
{
    broadcast use codec::lemma_be_bytes_len;

    let r = record_bytes(e);
    let one = r + codec::be_bytes(stored as nat, 4);
    let s = one + rest;
    let k = r.len() as int;
    codec::lemma_byte_capacities();
    codec::lemma_be_round_trip(stored as nat, 4);
    assert(s =~= r + (codec::be_bytes(stored as nat, 4) + rest));
    lemma_parse_record(e, codec::be_bytes(stored as nat, 4) + rest);
    assert(s.subrange(k, k + 4) =~= codec::be_bytes(stored as nat, 4));
    assert(s.take(k) =~= r);
    assert(s.skip(k + 4) =~= rest);
    if 0 <= m < k + 4 {
        lemma_torn_record(e, codec::be_bytes(stored as nat, 4), m);
    }
}

/// A record that is not there in full is not read.
proof fn lemma_torn_record(e: Entry, more: Seq<u8>, m: int)
    requires
        record_fits(e),
        0 <= m < record_bytes(e).len() + 4,
        more.len() == 4,
    ensures
        ({
            let s = (record_bytes(e) + more).take(m);
            parse_record(s) is Err || parse_record(s)->Ok_0.1 + 4 > m
        }),
{
    broadcast use codec::lemma_be_bytes_len;

    let r = record_bytes(e);
    let s = (r + more).take(m);
    let kl = e.key.key.len() as int;
    let vl = e.value.len() as int;
    codec::lemma_byte_capacities();
    codec::lemma_be_round_trip(kl as nat, 2);
    codec::lemma_be_round_trip(vl as nat, 2);
    assert(r.len() == 12 + kl + vl);
    if m >= 2 {
        assert(s.subrange(0, 2) =~= codec::be_bytes(kl as nat, 2));
        if m >= 12 + kl {
            assert(s.subrange(10 + kl, 10 + kl + 2) =~= codec::be_bytes(vl as nat, 2));
        }
    }
}

/// Where the parts of a record stand in a log, numbers with their most significant byte first: the
/// length of the user key, the user key, the timestamp, the length of the value, and the value.
pub proof fn law_record_layout(e: Entry)
    requires
        record_fits(e),
    ensures
        ({
            let s = record_bytes(e);
            let n = e.key.key.len() as int;
            &&& s.len() == 12 + n + e.value.len()
            &&& codec::be_value(s.take(2)) == n
            &&& s.subrange(2, 2 + n) == e.key.key
            &&& codec::be_value(s.subrange(2 + n, 10 + n)) == e.key.ts
            &&& codec::be_value(s.subrange(10 + n, 12 + n)) == e.value.len()
            &&& s.skip(12 + n) == e.value
        }),
{
    broadcast use codec::lemma_be_bytes_len;

    let s = record_bytes(e);
    let n = e.key.key.len() as int;
    codec::lemma_byte_capacities();
    codec::lemma_be_round_trip(n as nat, 2);
    codec::lemma_be_round_trip(e.key.ts as nat, 8);
    codec::lemma_be_round_trip(e.value.len(), 2);
    assert(s.take(2) =~= codec::be_bytes(n as nat, 2));
    assert(s.subrange(2, 2 + n) =~= e.key.key);
    assert(s.subrange(2 + n, 10 + n) =~= codec::be_bytes(e.key.ts as nat, 8));
    assert(s.subrange(10 + n, 12 + n) =~= codec::be_bytes(e.value.len(), 2));
    assert(s.skip(12 + n) =~= e.value);
}

/// A batch stands in a log as its size, its records one after the other, and their checksum.
pub proof fn law_batch_layout(es: Seq<Entry>, more: Seq<Entry>)
    requires
        batch_fits(es),
    ensures
        ({
            let s = batch_bytes(es);
            let n = records_bytes(es).len() as int;
            &&& s.len() == 8 + n
            &&& codec::be_value(s.take(4)) == n
            &&& s.subrange(4, 4 + n) == records_bytes(es)
            &&& codec::be_value(s.skip(4 + n)) == hashing::crc32(records_bytes(es))
        }),
        records_bytes(es + more) == records_bytes(es) + records_bytes(more),
        more.len() == 1 ==> records_bytes(more) == record_bytes(more[0]),
{
    broadcast use codec::lemma_be_bytes_len;

    let s = batch_bytes(es);
    let body = records_bytes(es);
    let n = body.len() as int;
    codec::lemma_byte_capacities();
    codec::lemma_be_round_trip(n as nat, 4);
    codec::lemma_be_round_trip(hashing::crc32(body) as nat, 4);
    assert(s.take(4) =~= codec::be_bytes(n as nat, 4));
    assert(s.subrange(4, 4 + n) =~= body);
    assert(s.skip(4 + n) =~= codec::be_bytes(hashing::crc32(body) as nat, 4));
    lemma_records_concat(es, more);
    if more.len() == 1 {
        lemma_records_front(more);
        assert(more.drop_first() =~= Seq::empty());
        assert(record_bytes(more[0]) + Seq::<u8>::empty() =~= record_bytes(more[0]));
    }
}

proof fn lemma_records_concat(a: Seq<Entry>, b: Seq<Entry>)
    ensures
        records_bytes(a + b) == records_bytes(a) + records_bytes(b),
    decreases b.len(),
{
    if b.len() == 0 {
        assert(a + b =~= a);
        assert(records_bytes(a) + records_bytes(b) =~= records_bytes(a));
    } else {
        lemma_records_concat(a, b.drop_last());
        assert((a + b).drop_last() =~= a + b.drop_last());
        assert((a + b).last() == b.last());
        assert(records_bytes(a) + (records_bytes(b.drop_last()) + record_bytes(b.last())) =~= (
        records_bytes(a) + records_bytes(b.drop_last())) + record_bytes(b.last()));
    }
}

} // verus!
