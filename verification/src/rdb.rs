//! The snapshot codec: the binary payload sent after a full resync and read
//! back at warm start, with the proof that decoding an encoded store
//! recovers every string entry.

use vstd::prelude::*;

use crate::num::{spec_le8, spec_le8_val, u64_to_le8, le8_to_u64, spec_dec_digits, u64_to_dec};
use crate::store::{Entry, EntryVal, Store, StoreItemVal, StoreVal, spec_lookup_seq, StoreItem};
use crate::messages::{push_bytes, copy_bytes, crlf};

verus! {

pub open spec fn rdb_magic() -> Seq<u8> {
    seq![82u8, 69u8, 68u8, 73u8, 83u8]
}

/// Magic, version, database selector and resize hint, for `n` entries.
pub open spec fn spec_rdb_header(n: u8) -> Seq<u8> {
    seq![82u8, 69u8, 68u8, 73u8, 83u8, 48u8, 48u8, 49u8, 49u8, 0xFEu8, 0u8, 0xFBu8, n, 0u8]
}

pub open spec fn spec_rdb_trailer() -> Seq<u8> {
    seq![0xFFu8, 0u8, 0u8, 0u8, 0u8, 0u8, 0u8, 0u8, 0u8]
}

/// A one-byte length prefix followed by the bytes themselves.
pub open spec fn spec_lp(s: Seq<u8>) -> Seq<u8>
    recommends
        s.len() <= 255,
{
    seq![s.len() as u8] + s
}

/// One string entry: optional precise expiry, value type 0, key, value.
pub open spec fn spec_encode_entry(k: Seq<u8>, e: EntryVal) -> Seq<u8> {
    (match e.expiry_at {
        Some(t) => seq![0xFCu8] + spec_le8(t),
        None => Seq::<u8>::empty(),
    }) + seq![0u8] + spec_lp(k) + spec_lp(e.value)
}

pub open spec fn spec_encode_entries(entries: Seq<(Seq<u8>, EntryVal)>) -> Seq<u8>
    decreases entries,
{
    if entries.len() == 0 {
        Seq::empty()
    } else {
        spec_encode_entry(entries[0].0, entries[0].1) + spec_encode_entries(entries.drop_first())
    }
}

/// Every key and value short enough for the one-byte length form.
pub open spec fn rdb_entries_ok(entries: Seq<(Seq<u8>, EntryVal)>) -> bool {
    forall|i: int|
        0 <= i < entries.len() ==> (#[trigger] entries[i]).0.len() <= 255 && entries[i].1.value.len()
            <= 255
}

/// The whole snapshot payload.
pub open spec fn spec_rdb_encode(entries: Seq<(Seq<u8>, EntryVal)>) -> Seq<u8>
    recommends
        entries.len() <= 255,
{
    spec_rdb_header(entries.len() as u8) + spec_encode_entries(entries) + spec_rdb_trailer()
}

/// A length-prefixed string read; `Some` carries the bytes and the position
/// just past them.
pub open spec fn spec_read_lp(data: Seq<u8>, at: int) -> Option<(Seq<u8>, int)> {
    if 0 <= at < data.len() && at + 1 + data[at] <= data.len() {
        Some((data.subrange(at + 1, at + 1 + data[at]), at + 1 + data[at]))
    } else {
        None
    }
}

pub open spec fn spec_le4_val(s: Seq<u8>) -> u64
    recommends
        s.len() == 4,
{
    (s[0] + s[1] * 256 + s[2] * 0x10000 + s[3] * 0x1000000) as u64
}

/// One entry at `at`: a `0xFC` millisecond expiry, a `0xFD` second expiry
/// (accepted and converted), or none; only value type 0 is supported.
pub open spec fn spec_parse_entry(data: Seq<u8>, at: int) -> Option<((Seq<u8>, EntryVal), int)> {
    if !(0 <= at < data.len()) {
        None
    } else if data[at] == 0xFC {
        if at + 10 <= data.len() && data[at + 9] == 0u8 {
            let t = spec_le8_val(data.subrange(at + 1, at + 9));
            match spec_read_lp(data, at + 10) {
                Some((k, p2)) => match spec_read_lp(data, p2) {
                    Some((v, p3)) => Some(
                        ((k, EntryVal { value: v, expiry_at: Some(t) }), p3),
                    ),
                    None => None,
                },
                None => None,
            }
        } else {
            None
        }
    } else if data[at] == 0xFD {
        if at + 6 <= data.len() && data[at + 5] == 0u8 {
            let secs = spec_le4_val(data.subrange(at + 1, at + 5));
            match spec_read_lp(data, at + 6) {
                Some((k, p2)) => match spec_read_lp(data, p2) {
                    Some((v, p3)) => Some(
                        ((k, EntryVal { value: v, expiry_at: Some((secs * 1000) as u64) }), p3),
                    ),
                    None => None,
                },
                None => None,
            }
        } else {
            None
        }
    } else if data[at] == 0u8 {
        match spec_read_lp(data, at + 1) {
            Some((k, p2)) => match spec_read_lp(data, p2) {
                Some((v, p3)) => Some(((k, EntryVal { value: v, expiry_at: None }), p3)),
                None => None,
            },
            None => None,
        }
    } else {
        None
    }
}

/// Entries from `at` up to the `0xFF` terminator, a malformed entry, or the
/// end of the data.
pub open spec fn spec_parse_entries(data: Seq<u8>, at: int) -> Seq<(Seq<u8>, EntryVal)>
    decreases data.len() - at,
{
    if 0 <= at < data.len() && data[at] != 0xFF {
        match spec_parse_entry(data, at) {
            Some((kv, at2)) => if at < at2 <= data.len() {
                seq![kv] + spec_parse_entries(data, at2)
            } else {
                seq![kv]
            },
            None => Seq::empty(),
        }
    } else {
        Seq::empty()
    }
}

/// First position `i >= from` with `0xFE` just before it and the database
/// number 0 at it; `Some` carries the position just past the selector.
pub open spec fn spec_find_sel(data: Seq<u8>, from: int, db: u8) -> Option<int>
    recommends
        from >= 1,
    decreases data.len() - from,
{
    if !(1 <= from < data.len()) {
        None
    } else if data[from - 1] == 0xFE && data[from] == db {
        Some(from + 1)
    } else {
        spec_find_sel(data, from + 1, db)
    }
}

/// What a snapshot holds: its string entries in file order, or nothing when
/// the preamble is unusable.
pub open spec fn spec_rdb_parse(data: Seq<u8>) -> Seq<(Seq<u8>, EntryVal)> {
    if data.len() >= 5 && data.take(5) == rdb_magic() {
        match spec_find_sel(data, 6, 0u8) {
            Some(m) => if m < data.len() && data[m] == 0xFB {
                spec_parse_entries(data, m + 3)
            } else {
                Seq::empty()
            },
            None => Seq::empty(),
        }
    } else {
        Seq::empty()
    }
}

pub proof fn lemma_find_sel_some(data: Seq<u8>, from: int, db: u8, i: int)
    requires
        1 <= from <= i,
        i < data.len(),
        data[i - 1] == 0xFE,
        data[i] == db,
        forall|j: int| from <= j < i ==> !(data[j - 1] == 0xFE && #[trigger] data[j] == db),
    ensures
        spec_find_sel(data, from, db) == Some(i + 1),
    decreases i - from,
{
    if from < i {
        lemma_find_sel_some(data, from + 1, db, i);
    }
}

pub proof fn lemma_find_sel_none(data: Seq<u8>, from: int, db: u8)
    requires
        1 <= from,
        forall|j: int|
            from <= j < data.len() ==> !(data[j - 1] == 0xFE && #[trigger] data[j] == db),
    ensures
        spec_find_sel(data, from, db) is None,
    decreases data.len() - from,
{
    if from < data.len() {
        lemma_find_sel_none(data, from + 1, db);
    }
}

#[derive(Debug, Clone, Copy, PartialEq, Eq)]
pub enum RdbError {
    UnsupportedValue,
    Truncated,
}

/// Check the five magic bytes and move past them and nothing else.
pub fn parse_magic_number(data: &Vec<u8>, marker: &mut usize) -> (r: bool)
    requires
        *old(marker) == 0,
    ensures
        *final(marker) == 5,
        r == (data@.len() >= 5 && data@.take(5) == rdb_magic()),
{
    *marker = 5;
    if data.len() < 5 {
        return false;
    }
    let ok = data[0] == 82 && data[1] == 69 && data[2] == 68 && data[3] == 73 && data[4] == 83;
    proof {
        if ok {
            assert(data@.take(5) =~= rdb_magic());
        } else {
            assert(data@.take(5)[0] == data@[0]);
            assert(data@.take(5)[1] == data@[1]);
            assert(data@.take(5)[2] == data@[2]);
            assert(data@.take(5)[3] == data@[3]);
            assert(data@.take(5)[4] == data@[4]);
        }
    }
    ok
}

/// Scan forward for the selector of database `database`.
pub fn find_database_selector(data: &Vec<u8>, database: u8, marker: &mut usize) -> (r: bool)
    requires
        *old(marker) < usize::MAX,
    ensures
        (match spec_find_sel(data@, *old(marker) + 1, database) {
            Some(m) => r == true && *final(marker) == m,
            None => r == false,
        }),
{
    let ghost from = *old(marker) + 1;
    let mut i: usize = *marker + 1;
    loop
        invariant
            from == *old(marker) + 1,
            *marker == *old(marker),
            from <= i,
            1 <= from,
            forall|j: int|
                from <= j < i ==> !(data@[j - 1] == 0xFE && #[trigger] data@[j] == database),
        decreases data@.len() - i,
    {
        if i >= data.len() {
            proof {
                lemma_find_sel_none(data@, from, database);
            }
            return false;
        }
        if data[i - 1] == 0xFE && data[i] == database {
            proof {
                lemma_find_sel_some(data@, from, database, i as int);
            }
            *marker = i + 1;
            return true;
        }
        i += 1;
    }
}

/// Skip the resize hint: `0xFB` and its two short lengths.
pub fn read_resizedb_field(data: &Vec<u8>, marker: &mut usize) -> (r: bool)
    ensures
        r ==> *old(marker) < data@.len() && data@[*old(marker) as int] == 0xFB && *final(marker)
            == *old(marker) + 3,
        !r ==> *final(marker) == *old(marker) && (*old(marker) >= data@.len() || data@[*old(
            marker,
        ) as int] != 0xFB || *old(marker) + 3 > usize::MAX),
{
    if *marker >= data.len() {
        return false;
    }
    if data[*marker] != 0xFB {
        return false;
    }
    if *marker > usize::MAX - 3 {
        return false;
    }
    *marker = *marker + 3;
    true
}

/// One single-byte-length string.
pub fn read_length_prefixed_string(data: &Vec<u8>, marker: &mut usize) -> (r: Option<Vec<u8>>)
    ensures
        (match spec_read_lp(data@, *old(marker) as int) {
            Some(p) => r matches Some(v) && v@ == p.0 && *final(marker) == p.1,
            None => r is None && *final(marker) == *old(marker),
        }),
{
    if *marker >= data.len() {
        return None;
    }
    let length = data[*marker] as usize;
    if length > data.len() - (*marker + 1) {
        return None;
    }
    let start = *marker + 1;
    let end = start + length;
    let slice = vstd::slice::slice_subrange(data.as_slice(), start, end);
    let value = vstd::slice::slice_to_vec(slice);
    *marker = end;
    Some(value)
}

/// A key and a value, both length-prefixed.
pub fn read_normal_string_value(data: &Vec<u8>, marker: &mut usize) -> (r: Result<
    (Vec<u8>, Vec<u8>),
    RdbError,
>)
    ensures
        (match spec_read_lp(data@, *old(marker) as int) {
            Some(p) => (match spec_read_lp(data@, p.1) {
                Some(q) => r matches Ok(kv) && kv.0@ == p.0 && kv.1@ == q.0 && *final(marker)
                    == q.1,
                None => r is Err,
            }),
            None => r is Err,
        }),
{
    let key = match read_length_prefixed_string(data, marker) {
        Some(k) => k,
        None => {
            return Err(RdbError::Truncated);
        },
    };
    let value = match read_length_prefixed_string(data, marker) {
        Some(v) => v,
        None => {
            return Err(RdbError::Truncated);
        },
    };
    Ok((key, value))
}

/// One entry; the marker moves only when the entry is whole.
pub fn read_entry(data: &Vec<u8>, marker: &mut usize) -> (r: Result<(Vec<u8>, Entry), RdbError>)
    requires
        *old(marker) < data@.len(),
    ensures
        (match r {
            Ok(kv) => spec_parse_entry(data@, *old(marker) as int) == Some(
                ((kv.0@, kv.1@), *final(marker) as int),
            ) && *old(marker) < *final(marker) <= data@.len(),
            Err(e) => spec_parse_entry(data@, *old(marker) as int) is None && *final(marker)
                == *old(marker),
        }),
{
    let n = data.len();
    let at = *marker;
    let tag = data[at];
    if tag == 0xFC {
        if data.len() - at < 10 || data[at + 9] != 0 {
            return Err(RdbError::Truncated);
        }
        let t = le8_to_u64(data.as_slice(), at + 1);
        proof {
            assert(data@.subrange(at + 1, at + 1 + 8) =~= data@.subrange(at + 1, at + 9));
        }
        let mut offset: usize = at + 10;
        match read_normal_string_value(data, &mut offset) {
            Ok((key, value)) => {
                *marker = offset;
                Ok((key, Entry { value, expiry_at: Some(t) }))
            },
            Err(e) => Err(e),
        }
    } else if tag == 0xFD {
        if data.len() - at < 6 || data[at + 5] != 0 {
            return Err(RdbError::Truncated);
        }
        let b0 = data[at + 1] as u64;
        let b1 = data[at + 2] as u64;
        let b2 = data[at + 3] as u64;
        let b3 = data[at + 4] as u64;
        let secs: u64 = b0 + b1 * 256 + b2 * 0x10000 + b3 * 0x1000000;
        proof {
            let sub = data@.subrange(at + 1, at + 5);
            assert(sub[0] == data@[at + 1]);
            assert(sub[1] == data@[at + 2]);
            assert(sub[2] == data@[at + 3]);
            assert(sub[3] == data@[at + 4]);
        }
        let mut offset: usize = at + 6;
        match read_normal_string_value(data, &mut offset) {
            Ok((key, value)) => {
                *marker = offset;
                Ok((key, Entry { value, expiry_at: Some(secs * 1000) }))
            },
            Err(e) => Err(e),
        }
    } else if tag == 0 {
        let mut offset: usize = at + 1;
        match read_normal_string_value(data, &mut offset) {
            Ok((key, value)) => {
                *marker = offset;
                Ok((key, Entry { value, expiry_at: None }))
            },
            Err(e) => Err(e),
        }
    } else {
        Err(RdbError::UnsupportedValue)
    }
}

/// Lookup after the writes in `kvs` have been applied in order: the last
/// write of a key wins; keys not written fall back to the store.
pub open spec fn spec_lookup_after(s: StoreVal, kvs: Seq<(Seq<u8>, EntryVal)>, k: Seq<u8>) -> Option<
    StoreItemVal,
>
    decreases kvs.len(),
{
    if kvs.len() == 0 {
        spec_lookup_seq(s, k)
    } else if kvs.last().0 == k {
        Some(StoreItemVal::KeyValueEntry(kvs.last().1))
    } else {
        spec_lookup_after(s, kvs.drop_last(), k)
    }
}

/// One applied write folds into the sequence still to apply.
proof fn lemma_apply_step(
    pre: StoreVal,
    post: StoreVal,
    kv: (Seq<u8>, EntryVal),
    rest: Seq<(Seq<u8>, EntryVal)>,
    k: Seq<u8>,
)
    requires
        spec_lookup_seq(post, kv.0) == Some(StoreItemVal::KeyValueEntry(kv.1)),
        forall|k2: Seq<u8>| k2 != kv.0 ==> spec_lookup_seq(post, k2) == spec_lookup_seq(pre, k2),
    ensures
        spec_lookup_after(pre, seq![kv] + rest, k) == spec_lookup_after(post, rest, k),
    decreases rest.len(),
{
    let whole = seq![kv] + rest;
    assert(whole.len() == 1 + rest.len());
    if rest.len() == 0 {
        assert(whole.last() == kv);
        assert(whole.drop_last() =~= Seq::<(Seq<u8>, EntryVal)>::empty());
        if kv.0 == k {
            assert(spec_lookup_after(pre, whole, k) == Some(StoreItemVal::KeyValueEntry(kv.1)));
            assert(spec_lookup_after(post, rest, k) == spec_lookup_seq(post, k));
        } else {
            assert(spec_lookup_after(pre, whole, k) == spec_lookup_after(
                pre,
                whole.drop_last(),
                k,
            ));
            assert(spec_lookup_after(pre, whole.drop_last(), k) == spec_lookup_seq(pre, k));
            assert(spec_lookup_after(post, rest, k) == spec_lookup_seq(post, k));
            assert(spec_lookup_seq(post, k) == spec_lookup_seq(pre, k));
        }
    } else {
        assert(whole.last() == rest.last());
        assert(whole.drop_last() =~= seq![kv] + rest.drop_last());
        lemma_apply_step(pre, post, kv, rest.drop_last(), k);
        if rest.last().0 == k {
            assert(spec_lookup_after(pre, whole, k) == Some(
                StoreItemVal::KeyValueEntry(rest.last().1),
            ));
        } else {
            assert(spec_lookup_after(pre, whole, k) == spec_lookup_after(
                pre,
                seq![kv] + rest.drop_last(),
                k,
            ));
            assert(spec_lookup_after(post, rest, k) == spec_lookup_after(
                post,
                rest.drop_last(),
                k,
            ));
        }
    }
    assert(spec_lookup_after(pre, seq![kv] + rest, k) == spec_lookup_after(post, rest, k));
}

/// Load every entry of a snapshot into the store, in file order.
pub fn parse_rdb(store: &mut Store, data: &Vec<u8>)
    requires
        old(store).wf(),
    ensures
        final(store).wf(),
        forall|k: Seq<u8>|
            #[trigger] final(store).spec_lookup(k) == spec_lookup_after(
                old(store)@,
                spec_rdb_parse(data@),
                k,
            ),
{
    let ghost start_view = store@;
    let n = data.len();
    let mut marker: usize = 0;
    if !parse_magic_number(data, &mut marker) {
        proof {
            assert(spec_rdb_parse(data@) == Seq::<(Seq<u8>, EntryVal)>::empty());
        }
        return;
    }
    if !find_database_selector(data, 0x00, &mut marker) {
        proof {
            assert(spec_rdb_parse(data@) == Seq::<(Seq<u8>, EntryVal)>::empty());
        }
        return;
    }
    if !read_resizedb_field(data, &mut marker) {
        proof {
            let m = marker as int;
            if m < data@.len() && data@[m] == 0xFB {
                assert(m + 3 > usize::MAX);
                assert(data@.len() <= usize::MAX);
                assert(spec_rdb_parse(data@) == spec_parse_entries(data@, m + 3));
                assert(spec_parse_entries(data@, m + 3) == Seq::<(Seq<u8>, EntryVal)>::empty());
            } else {
                assert(spec_rdb_parse(data@) == Seq::<(Seq<u8>, EntryVal)>::empty());
            }
        }
        return;
    }
    let ghost parsed = spec_rdb_parse(data@);
    proof {
        assert(parsed == spec_parse_entries(data@, marker as int));
    }
    loop
        invariant
            store.wf(),
            n == data@.len(),
            start_view == old(store)@,
            parsed == spec_rdb_parse(data@),
            marker <= usize::MAX,
            forall|k: Seq<u8>|
                #[trigger] spec_lookup_after(start_view, parsed, k) == spec_lookup_after(
                    store@,
                    spec_parse_entries(data@, marker as int),
                    k,
                ),
        decreases data@.len() - marker,
    {
        if marker >= n {
            proof {
                assert(spec_parse_entries(data@, marker as int) == Seq::<(
                    Seq<u8>,
                    EntryVal,
                )>::empty());
            }
            return;
        }
        if data[marker] == 0xFF {
            proof {
                assert(spec_parse_entries(data@, marker as int) == Seq::<(
                    Seq<u8>,
                    EntryVal,
                )>::empty());
            }
            return;
        }
        let ghost m0 = marker as int;
        let mut m: usize = marker;
        match read_entry(data, &mut m) {
            Ok((key, entry)) => {
                let ghost kv = (key@, entry@);
                let ghost rest = spec_parse_entries(data@, m as int);
                proof {
                    assert(spec_parse_entries(data@, m0) == seq![kv] + rest);
                }
                let ghost pre = store@;
                store.set_kv_value(key, entry);
                proof {
                    assert(store.spec_lookup(kv.0) == spec_lookup_seq(store@, kv.0));
                    assert(spec_lookup_seq(store@, kv.0) == Some(StoreItemVal::KeyValueEntry(kv.1)));
                    assert forall|k2: Seq<u8>| k2 != kv.0 implies spec_lookup_seq(store@, k2)
                        == spec_lookup_seq(pre, k2) by {
                        assert(store.spec_lookup(k2) == spec_lookup_seq(store@, k2));
                    }
                    assert forall|k: Seq<u8>| true implies #[trigger] spec_lookup_after(
                        start_view,
                        parsed,
                        k,
                    ) == spec_lookup_after(store@, rest, k) by {
                        lemma_apply_step(pre, store@, kv, rest, k);
                    }
                }
                marker = m;
            },
            Err(e) => {
                proof {
                    assert(spec_parse_entries(data@, marker as int) == Seq::<(
                        Seq<u8>,
                        EntryVal,
                    )>::empty());
                }
                return;
            },
        }
    }
}

impl Store {
    /// Warm-start from snapshot bytes.
    pub fn import(&mut self, data: &Vec<u8>)
        requires
            old(self).wf(),
        ensures
            final(self).wf(),
            forall|k: Seq<u8>|
                #[trigger] final(self).spec_lookup(k) == spec_lookup_after(
                    old(self)@,
                    spec_rdb_parse(data@),
                    k,
                ),
    {
        parse_rdb(self, data)
    }
}

/// The string entries of a store, in insertion order; streams are not part
/// of the snapshot subset.
pub open spec fn spec_kv_entries(s: StoreVal) -> Seq<(Seq<u8>, EntryVal)>
    decreases s.len(),
{
    if s.len() == 0 {
        Seq::empty()
    } else {
        let r = spec_kv_entries(s.drop_last());
        match s.last().1 {
            StoreItemVal::KeyValueEntry(e) => r.push((s.last().0, e)),
            StoreItemVal::Stream(st) => r,
        }
    }
}

/// The string entries of a prefix of the store are a prefix of the string
/// entries of the whole store.
pub proof fn lemma_kv_entries_prefix(s: StoreVal, i: int)
    requires
        0 <= i <= s.len(),
    ensures
        spec_kv_entries(s.take(i)).len() <= spec_kv_entries(s).len(),
        forall|j: int|
            0 <= j < spec_kv_entries(s.take(i)).len() ==> #[trigger] spec_kv_entries(s)[j]
                == spec_kv_entries(s.take(i))[j],
    decreases s.len() - i,
{
    if i == s.len() {
        assert(s.take(i) =~= s);
    } else {
        lemma_kv_entries_prefix(s, i + 1);
        let t1 = s.take(i + 1);
        assert(t1.drop_last() =~= s.take(i));
        assert(t1.last() == s[i]);
        match s[i].1 {
            StoreItemVal::KeyValueEntry(e) => {
                assert(spec_kv_entries(t1) == spec_kv_entries(s.take(i)).push((s[i].0, e)));
            },
            StoreItemVal::Stream(st) => {
                assert(spec_kv_entries(t1) == spec_kv_entries(s.take(i)));
            },
        }
    }
}

/// Encode one entry, when it fits the one-byte length form.
fn encode_entry(key: &Vec<u8>, e: &Entry) -> (r: Option<Vec<u8>>)
    ensures
        (match r {
            Some(v) => key@.len() <= 255 && e.value@.len() <= 255 && v@ == spec_encode_entry(
                key@,
                e@,
            ),
            None => key@.len() > 255 || e.value@.len() > 255,
        }),
{
    if key.len() > 255 || e.value.len() > 255 {
        return None;
    }
    let mut out: Vec<u8> = Vec::new();
    match e.expiry_at {
        Some(t) => {
            out.push(0xFC);
            let mut le = u64_to_le8(t);
            let ghost lev = le@;
            out.append(&mut le);
            proof {
                assert(out@ =~= seq![0xFCu8] + lev);
            }
        },
        None => {},
    }
    out.push(0);
    out.push(key.len() as u8);
    push_bytes(&mut out, key.as_slice());
    out.push(e.value.len() as u8);
    push_bytes(&mut out, e.value.as_slice());
    proof {
        assert(out@ =~= spec_encode_entry(key@, e@));
    }
    Some(out)
}

/// The snapshot payload for every string entry of the store; `None` when an
/// entry or the entry count does not fit the one-byte length form.
pub fn rdb_encode(store: &Store) -> (r: Option<Vec<u8>>)
    ensures
        (match r {
            Some(v) => spec_kv_entries(store@).len() <= 255 && rdb_entries_ok(
                spec_kv_entries(store@),
            ) && v@ == spec_rdb_encode(spec_kv_entries(store@)),
            None => spec_kv_entries(store@).len() > 255 || !rdb_entries_ok(
                spec_kv_entries(store@),
            ),
        }),
{
    let mut body: Vec<u8> = Vec::new();
    let mut count: u64 = 0;
    let mut i: usize = 0;
    while i < store.data.len()
        invariant
            0 <= i <= store.data@.len(),
            store@.len() == store.data@.len(),
            count == spec_kv_entries(store@.take(i as int)).len(),
            count <= i,
            body@ == spec_encode_entries_rev(spec_kv_entries(store@.take(i as int))),
            rdb_entries_ok(spec_kv_entries(store@.take(i as int))),
        decreases store.data@.len() - i,
    {
        let ghost prefix = spec_kv_entries(store@.take(i as int));
        proof {
            assert(store@.take(i + 1).drop_last() =~= store@.take(i as int));
            assert(store@.take(i + 1).last() == store@[i as int]);
        }
        match &store.data[i].1 {
            StoreItem::KeyValueEntry(e) => {
                match encode_entry(&store.data[i].0, e) {
                    Some(mut piece) => {
                        let ghost piecev = piece@;
                        body.append(&mut piece);
                        count = count + 1;
                        proof {
                            let nkv = prefix.push((store@[i as int].0, e@));
                            assert(spec_kv_entries(store@.take(i + 1)) == nkv);
                            lemma_encode_entries_rev_push(prefix, (store@[i as int].0, e@));
                            assert forall|j: int| 0 <= j < nkv.len() implies (#[trigger] nkv[
                            j]).0.len() <= 255 && nkv[j].1.value.len() <= 255 by {
                                if j < prefix.len() {
                                    assert(nkv[j] == prefix[j]);
                                }
                            }
                        }
                    },
                    None => {
                        proof {
                            let nkv = prefix.push((store@[i as int].0, e@));
                            assert(spec_kv_entries(store@.take(i + 1)) == nkv);
                            lemma_kv_entries_prefix(store@, i + 1);
                            assert(spec_kv_entries(store@)[prefix.len() as int] == nkv[prefix.len() as int]);
                            assert(nkv[prefix.len() as int] == (store@[i as int].0, e@));
                            assert(!rdb_entries_ok(spec_kv_entries(store@)));
                        }
                        return None;
                    },
                }
            },
            StoreItem::Stream(st) => {
                proof {
                    assert(spec_kv_entries(store@.take(i + 1)) == prefix);
                }
            },
        }
        i += 1;
    }
    proof {
        assert(store@.take(store@.len() as int) =~= store@);
    }
    if count > 255 {
        return None;
    }
    let mut out: Vec<u8> = Vec::new();
    out.push(82);
    out.push(69);
    out.push(68);
    out.push(73);
    out.push(83);
    out.push(48);
    out.push(48);
    out.push(49);
    out.push(49);
    out.push(0xFE);
    out.push(0);
    out.push(0xFB);
    out.push(count as u8);
    out.push(0);
    proof {
        assert(out@ =~= spec_rdb_header(spec_kv_entries(store@).len() as u8));
    }
    let ghost headv = out@;
    let ghost bodyv = body@;
    let mut b = body;
    out.append(&mut b);
    out.push(0xFF);
    let mut z: usize = 0;
    while z < 8
        invariant
            0 <= z <= 8,
            out@ == headv + bodyv + seq![0xFFu8] + zero_bytes(z as int),
        decreases 8 - z,
    {
        out.push(0);
        proof {
            assert((headv + bodyv + seq![0xFFu8] + zero_bytes(z as int)).push(0u8) =~= headv
                + bodyv + seq![0xFFu8] + zero_bytes(z + 1));
        }
        z += 1;
    }
    proof {
        lemma_encode_entries_rev_eq(spec_kv_entries(store@));
        assert(zero_bytes(8) =~= seq![0u8, 0u8, 0u8, 0u8, 0u8, 0u8, 0u8, 0u8]);
        assert(out@ =~= spec_rdb_encode(spec_kv_entries(store@)));
    }
    Some(out)
}

/// Entry encoding folded from the back, as the loop builds it.
pub open spec fn spec_encode_entries_rev(entries: Seq<(Seq<u8>, EntryVal)>) -> Seq<u8>
    decreases entries,
{
    if entries.len() == 0 {
        Seq::empty()
    } else {
        spec_encode_entries_rev(entries.drop_last()) + spec_encode_entry(
            entries.last().0,
            entries.last().1,
        )
    }
}

proof fn lemma_encode_entries_rev_push(entries: Seq<(Seq<u8>, EntryVal)>, kv: (Seq<u8>, EntryVal))
    ensures
        spec_encode_entries_rev(entries.push(kv)) == spec_encode_entries_rev(entries)
            + spec_encode_entry(kv.0, kv.1),
{
    assert(entries.push(kv).drop_last() =~= entries);
    assert(entries.push(kv).last() == kv);
}


pub open spec fn zero_bytes(n: int) -> Seq<u8> {
    Seq::new(n as nat, |i: int| 0u8)
}

/// The two foldings agree.
proof fn lemma_encode_entries_rev_eq(entries: Seq<(Seq<u8>, EntryVal)>)
    ensures
        spec_encode_entries_rev(entries) == spec_encode_entries(entries),
    decreases entries.len(),
{
    if entries.len() == 0 {
    } else if entries.len() == 1 {
        assert(entries.drop_last() =~= Seq::<(Seq<u8>, EntryVal)>::empty());
        assert(entries.drop_first() =~= Seq::<(Seq<u8>, EntryVal)>::empty());
        assert(entries.last() == entries[0]);
        assert(spec_encode_entries_rev(entries) == spec_encode_entries_rev(entries.drop_last())
            + spec_encode_entry(entries.last().0, entries.last().1));
        assert(spec_encode_entries_rev(Seq::<(Seq<u8>, EntryVal)>::empty())
            == Seq::<u8>::empty());
        assert(spec_encode_entries(Seq::<(Seq<u8>, EntryVal)>::empty()) == Seq::<u8>::empty());
        assert(spec_encode_entries(entries) == spec_encode_entry(entries[0].0, entries[0].1)
            + spec_encode_entries(entries.drop_first()));
        assert(spec_encode_entries_rev(entries) =~= spec_encode_entries(entries));
    } else {
        let m = entries.drop_last();
        lemma_encode_entries_rev_eq(m);
        lemma_encode_entries_rev_eq(entries.drop_first());
        assert(entries.drop_first().drop_last() =~= m.drop_first());
        lemma_encode_entries_rev_eq(m.drop_first());
        assert(entries.drop_first().last() == entries.last());
        assert(m[0] == entries[0]);
        assert(spec_encode_entries(entries) == spec_encode_entry(entries[0].0, entries[0].1)
            + spec_encode_entries(entries.drop_first()));
        assert(spec_encode_entries_rev(entries.drop_first()) == spec_encode_entries_rev(
            m.drop_first(),
        ) + spec_encode_entry(entries.last().0, entries.last().1));
        assert(spec_encode_entries(m) == spec_encode_entry(m[0].0, m[0].1) + spec_encode_entries(
            m.drop_first(),
        ));
        assert(spec_encode_entries_rev(entries) == spec_encode_entries_rev(m) + spec_encode_entry(
            entries.last().0,
            entries.last().1,
        ));
        let a = spec_encode_entry(entries[0].0, entries[0].1);
        let b = spec_encode_entries(m.drop_first());
        let c = spec_encode_entry(entries.last().0, entries.last().1);
        assert(spec_encode_entries_rev(entries) == (a + b) + c);
        assert(spec_encode_entries(entries) == a + (b + c));
        assert((a + b) + c =~= a + (b + c));
    }
}

/// The `$<len>\r\n<bytes>` frame around a snapshot payload: no trailing CRLF.
pub fn rdb_frame(payload: &Vec<u8>) -> (r: Vec<u8>)
    ensures
        r@ == seq![0x24u8] + spec_dec_digits(payload@.len()) + crlf() + payload@,
{
    let mut out: Vec<u8> = Vec::new();
    out.push(0x24);
    let digits = u64_to_dec(payload.len() as u64);
    push_bytes(&mut out, digits.as_slice());
    out.push(13);
    out.push(10);
    push_bytes(&mut out, payload.as_slice());
    proof {
        assert(out@ =~= seq![0x24u8] + spec_dec_digits(payload@.len()) + crlf() + payload@);
    }
    out
}

/// The empty snapshot: no entries at all.
pub open spec fn spec_empty_rdb() -> Seq<u8> {
    spec_rdb_encode(Seq::empty())
}

pub fn empty_rdb() -> (r: Vec<u8>)
    ensures
        r@ == spec_empty_rdb(),
{
    let mut out: Vec<u8> = Vec::new();
    out.push(82);
    out.push(69);
    out.push(68);
    out.push(73);
    out.push(83);
    out.push(48);
    out.push(48);
    out.push(49);
    out.push(49);
    out.push(0xFE);
    out.push(0);
    out.push(0xFB);
    out.push(0);
    out.push(0);
    out.push(0xFF);
    let mut z: usize = 0;
    while z < 8
        invariant
            0 <= z <= 8,
            out@ == spec_rdb_header(0) + seq![0xFFu8] + zero_bytes(z as int),
        decreases 8 - z,
    {
        out.push(0);
        proof {
            assert((spec_rdb_header(0) + seq![0xFFu8] + zero_bytes(z as int)).push(0u8)
                =~= spec_rdb_header(0) + seq![0xFFu8] + zero_bytes(z + 1));
        }
        z += 1;
    }
    proof {
        assert(out@ =~= spec_empty_rdb());
    }
    out
}

/// The framed empty snapshot sent after `FULLRESYNC` to an empty master.
pub fn full_resync_rdb() -> (r: Vec<u8>)
    ensures
        r@ == seq![0x24u8] + spec_dec_digits(spec_empty_rdb().len()) + crlf() + spec_empty_rdb(),
{
    let payload = empty_rdb();
    rdb_frame(&payload)
}

/// One encoded entry at `at` parses back to itself.
proof fn lemma_parse_encoded_entry(data: Seq<u8>, at: int, k: Seq<u8>, e: EntryVal, rest: Seq<u8>)
    requires
        0 <= at <= data.len(),
        k.len() <= 255,
        e.value.len() <= 255,
        data.skip(at) == spec_encode_entry(k, e) + rest,
    ensures
        spec_parse_entry(data, at) == Some(((k, e), at + spec_encode_entry(k, e).len())),
        spec_encode_entry(k, e).len() >= 3,
        data[at] != 0xFF,
{
    let hb = spec_encode_entry(k, e);
    let suf = data.skip(at);
    assert(suf.len() == data.len() - at);
    assert forall|j: int| 0 <= j < hb.len() implies data[at + j] == hb[j] by {
        assert(suf[j] == data[at + j]);
        assert(suf[j] == (hb + rest)[j]);
    }
    match e.expiry_at {
        Some(t) => {
            let le = spec_le8(t);
            assert(hb == (seq![0xFCu8] + le) + seq![0u8] + spec_lp(k) + spec_lp(e.value));
            assert(hb.len() == 12 + k.len() + e.value.len());
            assert(hb[0] == 0xFC);
            assert forall|j: int| 1 <= j < 9 implies hb[j] == le[j - 1] by {}
            assert(hb[9] == 0u8);
            assert(data[at] == 0xFC);
            assert(at + 10 <= data.len());
            assert(data[at + 9] == 0u8);
            assert(data.subrange(at + 1, at + 9) =~= le) by {
                assert forall|j: int| 0 <= j < 8 implies data.subrange(at + 1, at + 9)[j] == le[j]
                    by {
                    assert(data[at + (1 + j)] == hb[1 + j]);
                }
            }
            crate::num::lemma_le8_round_trip(t);
            // the key
            assert(hb[10] == k.len() as u8);
            assert(data[at + 10] == k.len() as u8);
            assert(at + 10 < data.len()) by {
                assert(suf.len() >= hb.len());
            }
            assert(at + 11 + k.len() <= data.len());
            assert(data.subrange(at + 11, at + 11 + k.len()) =~= k) by {
                assert forall|j: int| 0 <= j < k.len() implies data.subrange(
                    at + 11,
                    at + 11 + k.len(),
                )[j] == k[j] by {
                    assert(data[at + (11 + j)] == hb[11 + j]);
                    assert(hb[11 + j] == k[j]);
                }
            }
            assert(spec_read_lp(data, at + 10) == Some((k, at + 11 + k.len())));
            // the value
            let p2 = at + 11 + k.len();
            assert(hb[11 + k.len() as int] == e.value.len() as u8);
            assert(data[p2] == e.value.len() as u8);
            assert(p2 < data.len());
            assert(p2 + 1 + e.value.len() <= data.len());
            assert(data.subrange(p2 + 1, p2 + 1 + e.value.len()) =~= e.value) by {
                assert forall|j: int| 0 <= j < e.value.len() implies data.subrange(
                    p2 + 1,
                    p2 + 1 + e.value.len(),
                )[j] == e.value[j] by {
                    assert(data[at + (12 + k.len() + j)] == hb[12 + k.len() + j]);
                    assert(hb[12 + k.len() + j] == e.value[j]);
                }
            }
            assert(spec_read_lp(data, p2) == Some((e.value, p2 + 1 + e.value.len())));
            assert(p2 + 1 + e.value.len() == at + hb.len());
        },
        None => {
            assert(hb == seq![0u8] + spec_lp(k) + spec_lp(e.value));
            assert(hb.len() == 3 + k.len() + e.value.len());
            assert(hb[0] == 0u8);
            assert(data[at] == 0u8);
            assert(hb[1] == k.len() as u8);
            assert(data[at + 1] == k.len() as u8);
            assert(at + 1 < data.len()) by {
                assert(suf.len() >= hb.len());
            }
            assert(at + 2 + k.len() <= data.len());
            assert(data.subrange(at + 2, at + 2 + k.len()) =~= k) by {
                assert forall|j: int| 0 <= j < k.len() implies data.subrange(
                    at + 2,
                    at + 2 + k.len(),
                )[j] == k[j] by {
                    assert(data[at + (2 + j)] == hb[2 + j]);
                    assert(hb[2 + j] == k[j]);
                }
            }
            assert(spec_read_lp(data, at + 1) == Some((k, at + 2 + k.len())));
            let p2 = at + 2 + k.len();
            assert(hb[2 + k.len() as int] == e.value.len() as u8);
            assert(data[p2] == e.value.len() as u8);
            assert(p2 < data.len());
            assert(p2 + 1 + e.value.len() <= data.len());
            assert(data.subrange(p2 + 1, p2 + 1 + e.value.len()) =~= e.value) by {
                assert forall|j: int| 0 <= j < e.value.len() implies data.subrange(
                    p2 + 1,
                    p2 + 1 + e.value.len(),
                )[j] == e.value[j] by {
                    assert(data[at + (3 + k.len() + j)] == hb[3 + k.len() + j]);
                    assert(hb[3 + k.len() + j] == e.value[j]);
                }
            }
            assert(spec_read_lp(data, p2) == Some((e.value, p2 + 1 + e.value.len())));
            assert(p2 + 1 + e.value.len() == at + hb.len());
        },
    }
}

/// A run of encoded entries followed by the terminator parses back exactly.
proof fn lemma_parse_encoded_entries(
    data: Seq<u8>,
    at: int,
    entries: Seq<(Seq<u8>, EntryVal)>,
    rest: Seq<u8>,
)
    requires
        0 <= at <= data.len(),
        rdb_entries_ok(entries),
        data.skip(at) == spec_encode_entries(entries) + seq![0xFFu8] + rest,
    ensures
        spec_parse_entries(data, at) == entries,
    decreases entries.len(),
{
    let suf = data.skip(at);
    if entries.len() == 0 {
        assert(spec_encode_entries(entries) == Seq::<u8>::empty());
        assert(suf[0] == 0xFF);
        assert(data[at] == 0xFF);
        assert(spec_parse_entries(data, at) =~= entries);
    } else {
        let kv = entries[0];
        let hb = spec_encode_entry(kv.0, kv.1);
        let tailenc = spec_encode_entries(entries.drop_first());
        assert(spec_encode_entries(entries) == hb + tailenc);
        assert(suf =~= hb + (tailenc + seq![0xFFu8] + rest));
        lemma_parse_encoded_entry(data, at, kv.0, kv.1, tailenc + seq![0xFFu8] + rest);
        let at2 = at + hb.len();
        assert(at2 <= data.len()) by {
            assert(suf.len() >= hb.len() + 1);
        }
        assert(data.skip(at2) =~= tailenc + seq![0xFFu8] + rest) by {
            assert forall|j: int| 0 <= j < data.len() - at2 implies data.skip(at2)[j] == (tailenc
                + seq![0xFFu8] + rest)[j] by {
                assert(data.skip(at2)[j] == data[at2 + j]);
                assert(data[at2 + j] == suf[hb.len() + j]);
                assert(suf[hb.len() + j] == (tailenc + seq![0xFFu8] + rest)[j]);
            }
        }
        assert forall|i: int| 0 <= i < entries.drop_first().len() implies (#[trigger] entries.drop_first()[i]).0.len()
            <= 255 && entries.drop_first()[i].1.value.len() <= 255 by {
            assert(entries.drop_first()[i] == entries[i + 1]);
        }
        lemma_parse_encoded_entries(data, at2, entries.drop_first(), rest);
        assert(spec_parse_entries(data, at) == seq![kv] + entries.drop_first());
        assert(seq![kv] + entries.drop_first() =~= entries);
    }
}

/// The snapshot round-trip law: decoding an encoded store recovers exactly its string
/// entries, in order.
pub proof fn lemma_rdb_round_trip(entries: Seq<(Seq<u8>, EntryVal)>)
    requires
        entries.len() <= 255,
        rdb_entries_ok(entries),
    ensures
        spec_rdb_parse(spec_rdb_encode(entries)) == entries,
{
    let t = spec_rdb_encode(entries);
    let header = spec_rdb_header(entries.len() as u8);
    assert(header.len() == 14);
    assert(t.len() >= 23);
    assert forall|j: int| 0 <= j < 14 implies t[j] == header[j] by {}
    assert(t.take(5) =~= rdb_magic());
    assert(t[9] == 0xFE && t[10] == 0u8);
    lemma_find_sel_some(t, 6, 0u8, 10);
    assert(spec_find_sel(t, 6, 0u8) == Some(11int));
    assert(t[11] == 0xFB);
    assert(t.skip(14) =~= spec_encode_entries(entries) + seq![0xFFu8] + zero_bytes(8)) by {
        assert(spec_rdb_trailer() =~= seq![0xFFu8] + zero_bytes(8));
    }
    lemma_parse_encoded_entries(t, 14, entries, zero_bytes(8));
}

} // verus!
