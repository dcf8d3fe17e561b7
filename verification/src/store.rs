//! The in-memory data model: keyed string entries with optional expiry, and
//! append-only streams with strictly increasing ids.

use vstd::prelude::*;

use crate::num::{spec_dec_digits, spec_parse_u64, u64_to_dec, parse_u64};
use crate::util::bytes_eq;

verus! {

/// A string value with an optional absolute expiry instant, in milliseconds
/// since the epoch. The wall clock is injected by callers.
#[derive(Debug)]
pub struct Entry {
    pub value: Vec<u8>,
    pub expiry_at: Option<u64>,
}

pub struct EntryVal {
    pub value: Seq<u8>,
    pub expiry_at: Option<u64>,
}

impl View for Entry {
    type V = EntryVal;

    open spec fn view(&self) -> EntryVal {
        EntryVal { value: self.value@, expiry_at: self.expiry_at }
    }
}

impl Entry {
    /// A fresh entry; a requested time-to-live of `d` milliseconds becomes the
    /// absolute instant `now_ms + d`, saturating at the largest instant.
    pub fn new(value: Vec<u8>, expiry: Option<u64>, now_ms: u64) -> (r: Entry)
        ensures
            r.value@ == value@,
            r.expiry_at == (match expiry {
                Some(d) => Some(
                    if now_ms + d <= u64::MAX {
                        (now_ms + d) as u64
                    } else {
                        u64::MAX
                    },
                ),
                None => None::<u64>,
            }),
    {
        match expiry {
            Some(d) => {
                let at: u64 = if d <= u64::MAX - now_ms {
                    now_ms + d
                } else {
                    u64::MAX
                };
                Entry { value, expiry_at: Some(at) }
            },
            None => Entry { value, expiry_at: None },
        }
    }
}

/// An entry is readable at `now_ms` until strictly after its expiry instant.
pub open spec fn entry_live(e: EntryVal, now_ms: u64) -> bool {
    match e.expiry_at {
        Some(t) => now_ms <= t,
        None => true,
    }
}

/// The `<ms>-<seq>` identifier of one stream entry, ordered lexicographically.
#[derive(Debug, Clone, Copy, PartialEq, Eq, Structural)]
pub struct StreamId {
    pub ms: u64,
    pub seq: u64,
}

/// Rendered form `<ms>-<seq>`.
pub open spec fn spec_id_bytes(id: StreamId) -> Seq<u8> {
    spec_dec_digits(id.ms as nat) + seq![0x2Du8] + spec_dec_digits(id.seq as nat)
}

/// First index of `b` in `s`, if any.
pub open spec fn spec_find_byte(s: Seq<u8>, b: u8) -> Option<int>
    decreases s.len(),
{
    if s.len() == 0 {
        None
    } else if s[0] == b {
        Some(0)
    } else {
        match spec_find_byte(s.drop_first(), b) {
            Some(i) => Some(i + 1),
            None => None,
        }
    }
}

pub proof fn lemma_find_byte_some(s: Seq<u8>, b: u8, i: int)
    requires
        0 <= i < s.len(),
        s[i] == b,
        forall|j: int| 0 <= j < i ==> s[j] != b,
    ensures
        spec_find_byte(s, b) == Some(i),
    decreases i,
{
    if i > 0 {
        let d = s.drop_first();
        assert forall|j: int| 0 <= j < i - 1 implies d[j] != b by {
            assert(d[j] == s[j + 1]);
        }
        assert(d[i - 1] == s[i]);
        lemma_find_byte_some(d, b, i - 1);
    }
}

pub proof fn lemma_find_byte_none(s: Seq<u8>, b: u8)
    requires
        forall|j: int| 0 <= j < s.len() ==> s[j] != b,
    ensures
        spec_find_byte(s, b) is None,
    decreases s.len(),
{
    if s.len() > 0 {
        let d = s.drop_first();
        assert forall|j: int| 0 <= j < d.len() implies d[j] != b by {
            assert(d[j] == s[j + 1]);
        }
        lemma_find_byte_none(d, b);
    }
}

/// Scan for the first occurrence of `b`.
pub fn find_byte(s: &[u8], b: u8) -> (r: Option<usize>)
    ensures
        match r {
            Some(i) => i < s@.len() && spec_find_byte(s@, b) == Some(i as int),
            None => spec_find_byte(s@, b) is None,
        },
{
    let mut i: usize = 0;
    while i < s.len()
        invariant
            0 <= i <= s@.len(),
            forall|j: int| 0 <= j < i ==> s@[j] != b,
        decreases s@.len() - i,
    {
        if s[i] == b {
            proof {
                lemma_find_byte_some(s@, b, i as int);
            }
            return Some(i);
        }
        i += 1;
    }
    proof {
        lemma_find_byte_none(s@, b);
    }
    None
}

/// `Some(id)` iff `s` is `<digits>-<digits>` with both numbers in `u64`.
pub open spec fn spec_parse_stream_id(s: Seq<u8>) -> Option<StreamId> {
    match spec_find_byte(s, 0x2D) {
        Some(d) => match (spec_parse_u64(s.take(d)), spec_parse_u64(s.skip(d + 1))) {
            (Some(ms), Some(sq)) => Some(StreamId { ms, seq: sq }),
            _ => None,
        },
        None => None,
    }
}

impl StreamId {
    /// Strict lexicographic order on `(ms, seq)`.
    pub open spec fn spec_lt(self, other: StreamId) -> bool {
        self.ms < other.ms || (self.ms == other.ms && self.seq < other.seq)
    }

    pub fn lt(&self, other: &StreamId) -> (r: bool)
        ensures
            r == self.spec_lt(*other),
    {
        self.ms < other.ms || (self.ms == other.ms && self.seq < other.seq)
    }

    /// Render as `<ms>-<seq>`.
    pub fn to_bytes(&self) -> (r: Vec<u8>)
        ensures
            r@ == spec_id_bytes(*self),
    {
        let mut r = u64_to_dec(self.ms);
        r.push(0x2D);
        let mut sq = u64_to_dec(self.seq);
        let ghost sqv = sq@;
        r.append(&mut sq);
        proof {
            assert(r@ =~= spec_dec_digits(self.ms as nat).push(0x2Du8) + sqv);
            assert(spec_dec_digits(self.ms as nat).push(0x2Du8) =~= spec_dec_digits(self.ms as nat)
                + seq![0x2Du8]);
            assert(r@ =~= spec_id_bytes(*self));
        }
        r
    }

    /// Parse `<ms>-<seq>`.
    pub fn from_bytes(s: &[u8]) -> (r: Option<StreamId>)
        ensures
            r == spec_parse_stream_id(s@),
    {
        let n = s.len();
        match find_byte(s, 0x2D) {
            Some(d) => {
                let ms_part = vstd::slice::slice_subrange(s, 0, d);
                let seq_part = vstd::slice::slice_subrange(s, d + 1, n);
                proof {
                    assert(ms_part@ =~= s@.take(d as int));
                    assert(seq_part@ =~= s@.skip(d + 1));
                }
                match (parse_u64(ms_part), parse_u64(seq_part)) {
                    (Some(ms), Some(sq)) => Some(StreamId { ms, seq: sq }),
                    _ => None,
                }
            },
            None => None,
        }
    }
}

/// The field/value pairs of one stream entry, in insertion order.
#[derive(Debug)]
pub struct StreamData {
    pub data: Vec<(Vec<u8>, Vec<u8>)>,
}

impl View for StreamData {
    type V = Seq<(Seq<u8>, Seq<u8>)>;

    open spec fn view(&self) -> Seq<(Seq<u8>, Seq<u8>)> {
        self.data@.map_values(|p: (Vec<u8>, Vec<u8>)| (p.0@, p.1@))
    }
}

impl StreamData {
    /// Fields and values interleaved, in insertion order.
    pub fn flatten(&self) -> (r: Vec<Vec<u8>>)
        ensures
            r@.len() == 2 * self@.len(),
            forall|i: int|
                0 <= i < self@.len() ==> r@[2 * i]@ == self@[i].0 && r@[2 * i + 1]@ == self@[i].1,
    {
        let mut r: Vec<Vec<u8>> = Vec::new();
        let mut i: usize = 0;
        while i < self.data.len()
            invariant
                0 <= i <= self@.len(),
                self@.len() == self.data@.len(),
                r@.len() == 2 * i,
                forall|j: int|
                    0 <= j < i ==> r@[2 * j]@ == self@[j].0 && r@[2 * j + 1]@ == self@[j].1,
            decreases self.data@.len() - i,
        {
            let p = &self.data[i];
            r.push(crate::messages::copy_bytes(&p.0));
            r.push(crate::messages::copy_bytes(&p.1));
            i += 1;
        }
        r
    }

    /// A structurally equal copy.
    pub fn duplicate(&self) -> (r: StreamData)
        ensures
            r@ == self@,
    {
        let mut data: Vec<(Vec<u8>, Vec<u8>)> = Vec::new();
        let mut i: usize = 0;
        while i < self.data.len()
            invariant
                0 <= i <= self.data@.len(),
                data@.len() == i,
                forall|j: int|
                    0 <= j < i ==> data@[j].0@ == self.data@[j].0@ && data@[j].1@
                        == self.data@[j].1@,
            decreases self.data@.len() - i,
        {
            let p = &self.data[i];
            data.push((crate::messages::copy_bytes(&p.0), crate::messages::copy_bytes(&p.1)));
            i += 1;
        }
        let r = StreamData { data };
        proof {
            assert(r@ =~= self@);
        }
        r
    }
}

/// One stream entry as the contracts see it.
pub type StreamEntryVal = (StreamId, Seq<(Seq<u8>, Seq<u8>)>);

/// An append-only log of `(id, data)` pairs, strictly increasing by id.
#[derive(Debug)]
pub struct Stream {
    pub entries: Vec<(StreamId, StreamData)>,
}

impl View for Stream {
    type V = Seq<StreamEntryVal>;

    open spec fn view(&self) -> Seq<StreamEntryVal> {
        self.entries@.map_values(|e: (StreamId, StreamData)| (e.0, e.1@))
    }
}

/// Ids strictly increase along the log.
pub open spec fn stream_sorted(s: Seq<StreamEntryVal>) -> bool {
    forall|i: int, j: int|
        0 <= i < j < s.len() ==> (#[trigger] s[i].0).spec_lt(#[trigger] s[j].0)
}

impl Stream {
    pub fn empty() -> (r: Stream)
        ensures
            r@ == Seq::<StreamEntryVal>::empty(),
    {
        let r = Stream { entries: Vec::new() };
        proof {
            assert(r@ =~= Seq::<StreamEntryVal>::empty());
        }
        r
    }

    pub fn new(entries: Vec<(StreamId, StreamData)>) -> (r: Stream)
        ensures
            r@ == entries@.map_values(|e: (StreamId, StreamData)| (e.0, e.1@)),
    {
        Stream { entries }
    }
}

/// What one key holds: a string entry or a stream.
#[derive(Debug)]
pub enum StoreItem {
    KeyValueEntry(Entry),
    Stream(Stream),
}

pub enum StoreItemVal {
    KeyValueEntry(EntryVal),
    Stream(Seq<StreamEntryVal>),
}

impl View for StoreItem {
    type V = StoreItemVal;

    open spec fn view(&self) -> StoreItemVal {
        match self {
            StoreItem::KeyValueEntry(e) => StoreItemVal::KeyValueEntry(e@),
            StoreItem::Stream(st) => StoreItemVal::Stream(st@),
        }
    }
}

/// The reported type of a value, as the wire protocol spells it.
pub trait EntryValue {
    spec fn spec_value_type(&self) -> Seq<u8>;

    fn value_type(&self) -> (r: Vec<u8>)
        ensures
            r@ == self.spec_value_type(),
    ;
}

pub open spec fn string_type_bytes() -> Seq<u8> {
    seq![115u8, 116u8, 114u8, 105u8, 110u8, 103u8]
}

pub open spec fn stream_type_bytes() -> Seq<u8> {
    seq![115u8, 116u8, 114u8, 101u8, 97u8, 109u8]
}

pub open spec fn none_type_bytes() -> Seq<u8> {
    seq![110u8, 111u8, 110u8, 101u8]
}

impl EntryValue for Entry {
    open spec fn spec_value_type(&self) -> Seq<u8> {
        string_type_bytes()
    }

    fn value_type(&self) -> (r: Vec<u8>)
        ensures
            r@ == self.spec_value_type(),
    {
        let r: Vec<u8> = vec![115u8, 116u8, 114u8, 105u8, 110u8, 103u8];
        proof {
            assert(r@ =~= string_type_bytes());
        }
        r
    }
}

impl EntryValue for StoreItem {
    open spec fn spec_value_type(&self) -> Seq<u8> {
        match self {
            StoreItem::KeyValueEntry(e) => string_type_bytes(),
            StoreItem::Stream(st) => stream_type_bytes(),
        }
    }

    fn value_type(&self) -> (r: Vec<u8>)
        ensures
            r@ == self.spec_value_type(),
    {
        match self {
            StoreItem::KeyValueEntry(e) => e.value_type(),
            StoreItem::Stream(st) => {
                let r: Vec<u8> = vec![115u8, 116u8, 114u8, 101u8, 97u8, 109u8];
                proof {
                    assert(r@ =~= stream_type_bytes());
                }
                r
            },
        }
    }
}

/// The keyed map, a sequence of distinct keys in insertion order.
#[derive(Debug)]
pub struct Store {
    pub data: Vec<(Vec<u8>, StoreItem)>,
}

pub type StoreVal = Seq<(Seq<u8>, StoreItemVal)>;

impl View for Store {
    type V = StoreVal;

    open spec fn view(&self) -> StoreVal {
        self.data@.map_values(|p: (Vec<u8>, StoreItem)| (p.0@, p.1@))
    }
}

/// First binding of `k`, the only one in a well-formed store.
pub open spec fn spec_lookup_seq(s: StoreVal, k: Seq<u8>) -> Option<StoreItemVal>
    decreases s.len(),
{
    if s.len() == 0 {
        None
    } else if s[0].0 == k {
        Some(s[0].1)
    } else {
        spec_lookup_seq(s.drop_first(), k)
    }
}

pub proof fn lemma_lookup_seq_at(s: StoreVal, k: Seq<u8>, i: int)
    requires
        0 <= i < s.len(),
        s[i].0 == k,
        forall|j: int| 0 <= j < i ==> s[j].0 != k,
    ensures
        spec_lookup_seq(s, k) == Some(s[i].1),
    decreases i,
{
    if i > 0 {
        let d = s.drop_first();
        assert forall|j: int| 0 <= j < i - 1 implies d[j].0 != k by {
            assert(d[j] == s[j + 1]);
        }
        assert(d[i - 1] == s[i]);
        lemma_lookup_seq_at(d, k, i - 1);
    }
}

pub proof fn lemma_lookup_seq_none(s: StoreVal, k: Seq<u8>)
    requires
        forall|j: int| 0 <= j < s.len() ==> s[j].0 != k,
    ensures
        spec_lookup_seq(s, k) is None,
    decreases s.len(),
{
    if s.len() > 0 {
        let d = s.drop_first();
        assert forall|j: int| 0 <= j < d.len() implies d[j].0 != k by {
            assert(d[j] == s[j + 1]);
        }
        lemma_lookup_seq_none(d, k);
    }
}


/// A successful lookup names an actual element of the sequence.
pub proof fn lemma_lookup_member(s: StoreVal, k: Seq<u8>)
    requires
        spec_lookup_seq(s, k) is Some,
    ensures
        exists|i: int|
            0 <= i < s.len() && #[trigger] s[i] == (k, spec_lookup_seq(s, k)->Some_0),
    decreases s.len(),
{
    if s.len() > 0 {
        if s[0].0 == k {
            assert(s[0] == (k, spec_lookup_seq(s, k)->Some_0));
        } else {
            lemma_lookup_member(s.drop_first(), k);
            let i = choose|i: int|
                0 <= i < s.drop_first().len() && #[trigger] s.drop_first()[i] == (
                k,
                spec_lookup_seq(s.drop_first(), k)->Some_0,
            );
            assert(s[i + 1] == s.drop_first()[i]);
        }
    }
}

/// Updating index `i`, whose key stays `k`, changes `k` alone.
pub proof fn lemma_lookup_seq_update(s: StoreVal, i: int, item: StoreItemVal, k2: Seq<u8>)
    requires
        0 <= i < s.len(),
    ensures
        spec_lookup_seq(s.update(i, (s[i].0, item)), k2) == (if s[i].0 == k2 && (forall|j: int|
            0 <= j < i ==> s[j].0 != k2) {
            Some(item)
        } else {
            spec_lookup_seq(s, k2)
        }),
    decreases i,
{
    let s2 = s.update(i, (s[i].0, item));
    if i == 0 {
        assert(s2[0] == (s[0].0, item));
        if s[0].0 != k2 {
            assert(s2.drop_first() =~= s.drop_first());
        }
    } else {
        assert(s2[0] == s[0]);
        assert(s2.drop_first() =~= s.drop_first().update(i - 1, (s.drop_first()[i - 1].0, item)));
        lemma_lookup_seq_update(s.drop_first(), i - 1, item, k2);
        if s[i].0 == k2 && (forall|j: int| 0 <= j < i ==> s[j].0 != k2) {
            assert(s.drop_first()[i - 1].0 == k2);
            assert forall|j: int| 0 <= j < i - 1 implies s.drop_first()[j].0 != k2 by {
                assert(s.drop_first()[j] == s[j + 1]);
            }
        } else {
            if s[i].0 == k2 {
                if s[0].0 == k2 {
                } else {
                    assert(exists|j: int| 0 <= j < i && s[j].0 == k2);
                    let j0 = choose|j: int| 0 <= j < i && s[j].0 == k2;
                    assert(j0 >= 1);
                    assert(s.drop_first()[j0 - 1].0 == k2);
                    assert(!(forall|j: int| 0 <= j < i - 1 ==> s.drop_first()[j].0 != k2));
                }
            }
        }
    }
}

/// Appending a fresh binding changes that key alone.
pub proof fn lemma_lookup_seq_push(s: StoreVal, k: Seq<u8>, item: StoreItemVal, k2: Seq<u8>)
    ensures
        spec_lookup_seq(s.push((k, item)), k2) == (if spec_lookup_seq(s, k2) is Some {
            spec_lookup_seq(s, k2)
        } else if k2 == k {
            Some(item)
        } else {
            None::<StoreItemVal>
        }),
    decreases s.len(),
{
    let s2 = s.push((k, item));
    if s.len() == 0 {
        assert(s2[0] == (k, item));
        assert(s2.drop_first() =~= Seq::<(Seq<u8>, StoreItemVal)>::empty());
    } else {
        assert(s2[0] == s[0]);
        assert(s2.drop_first() =~= s.drop_first().push((k, item)));
        lemma_lookup_seq_push(s.drop_first(), k, item, k2);
    }
}

/// Distinct keys, and every stream strictly increasing: the store invariant.
pub open spec fn store_wf(s: StoreVal) -> bool {
    &&& forall|i: int, j: int|
        0 <= i < j < s.len() ==> (#[trigger] s[i].0) != (#[trigger] s[j].0)
    &&& forall|i: int|
        0 <= i < s.len() ==> (match (#[trigger] s[i].1) {
            StoreItemVal::Stream(st) => stream_sorted(st),
            StoreItemVal::KeyValueEntry(e) => true,
        })
}

impl Store {
    pub open spec fn wf(self) -> bool {
        store_wf(self@)
    }

    /// Lookup in the abstract map.
    pub open spec fn spec_lookup(self, k: Seq<u8>) -> Option<StoreItemVal> {
        spec_lookup_seq(self@, k)
    }

    pub fn new() -> (r: Store)
        ensures
            r.wf(),
            r@ == Seq::<(Seq<u8>, StoreItemVal)>::empty(),
    {
        let r = Store { data: Vec::new() };
        proof {
            assert(r@ =~= Seq::<(Seq<u8>, StoreItemVal)>::empty());
        }
        r
    }

    pub fn len(&self) -> (r: usize)
        ensures
            r == self@.len(),
    {
        self.data.len()
    }

    /// All keys, in insertion order.
    pub fn keys(&self) -> (r: Vec<Vec<u8>>)
        ensures
            r@.len() == self@.len(),
            forall|i: int| 0 <= i < self@.len() ==> r@[i]@ == self@[i].0,
    {
        let mut r: Vec<Vec<u8>> = Vec::new();
        let mut i: usize = 0;
        while i < self.data.len()
            invariant
                0 <= i <= self.data@.len(),
                self@.len() == self.data@.len(),
                r@.len() == i,
                forall|j: int| 0 <= j < i ==> r@[j]@ == self@[j].0,
            decreases self.data@.len() - i,
        {
            r.push(crate::messages::copy_bytes(&self.data[i].0));
            i += 1;
        }
        r
    }

    /// Index of the binding of `key`, with everything lookup needs.
    fn position_of(&self, key: &[u8]) -> (r: Option<usize>)
        ensures
            match r {
                Some(i) => i < self@.len() && self@[i as int].0 == key@ && self.spec_lookup(key@)
                    == Some(self@[i as int].1) && (forall|j: int|
                    0 <= j < i ==> self@[j].0 != key@),
                None => self.spec_lookup(key@) is None && (forall|j: int|
                    0 <= j < self@.len() ==> self@[j].0 != key@),
            },
    {
        let mut i: usize = 0;
        while i < self.data.len()
            invariant
                0 <= i <= self.data@.len(),
                self@.len() == self.data@.len(),
                forall|j: int| 0 <= j < i ==> self@[j].0 != key@,
            decreases self.data@.len() - i,
        {
            if bytes_eq(self.data[i].0.as_slice(), key) {
                proof {
                    lemma_lookup_seq_at(self@, key@, i as int);
                }
                return Some(i);
            }
            i += 1;
        }
        proof {
            lemma_lookup_seq_none(self@, key@);
        }
        None
    }

    /// Bind `key` to a string entry, replacing whatever was there.
    pub fn set_kv_value(&mut self, key: Vec<u8>, value: Entry)
        requires
            old(self).wf(),
        ensures
            final(self).wf(),
            final(self).spec_lookup(key@) == Some(StoreItemVal::KeyValueEntry(value@)),
            forall|k2: Seq<u8>|
                k2 != key@ ==> final(self).spec_lookup(k2) == old(self).spec_lookup(k2),
            final(self)@.len() == (if old(self).spec_lookup(key@) is Some {
                old(self)@.len()
            } else {
                old(self)@.len() + 1
            }),
    {
        let item = StoreItem::KeyValueEntry(value);
        match self.position_of(key.as_slice()) {
            Some(i) => {
                let ghost prior = self@;
                self.data.set(i, (key, item));
                proof {
                    assert(self@ =~= prior.update(i as int, (prior[i as int].0, item@)));
                    assert forall|k2: Seq<u8>| true implies spec_lookup_seq(self@, k2) == (if k2
                        == prior[i as int].0 && (forall|j: int|
                        0 <= j < i ==> prior[j].0 != k2) {
                        Some(item@)
                    } else {
                        spec_lookup_seq(prior, k2)
                    }) by {
                        lemma_lookup_seq_update(prior, i as int, item@, k2);
                    }
                }
            },
            None => {
                let ghost prior = self@;
                self.data.push((key, item));
                proof {
                    assert(self@ =~= prior.push((key@, item@)));
                    assert forall|k2: Seq<u8>| true implies spec_lookup_seq(self@, k2) == (if
                        spec_lookup_seq(prior, k2) is Some {
                        spec_lookup_seq(prior, k2)
                    } else if k2 == key@ {
                        Some(item@)
                    } else {
                        None::<StoreItemVal>
                    }) by {
                        lemma_lookup_seq_push(prior, key@, item@, k2);
                    }
                    assert forall|i2: int, j2: int|
                        0 <= i2 < j2 < self@.len() implies (#[trigger] self@[i2].0) != (
                    #[trigger] self@[j2].0) by {
                        if j2 == self@.len() - 1 {
                            assert(self@[i2] == prior[i2]);
                        }
                    }
                }
            },
        }
    }

    /// The live string entry at `key`, if any; expired entries read as absent.
    pub fn get_kv_value(&self, key: &Vec<u8>, now_ms: u64) -> (r: Option<&Entry>)
        ensures
            match r {
                Some(e) => self.spec_lookup(key@) == Some(StoreItemVal::KeyValueEntry(e@))
                    && entry_live(e@, now_ms),
                None => (match self.spec_lookup(key@) {
                    Some(StoreItemVal::KeyValueEntry(e)) => !entry_live(e, now_ms),
                    Some(StoreItemVal::Stream(st)) => true,
                    None => true,
                }),
            },
    {
        match self.position_of(key.as_slice()) {
            Some(i) => match &self.data[i].1 {
                StoreItem::KeyValueEntry(e) => {
                    match e.expiry_at {
                        Some(t) => {
                            if now_ms > t {
                                None
                            } else {
                                Some(e)
                            }
                        },
                        None => Some(e),
                    }
                },
                StoreItem::Stream(st) => None,
            },
            None => None,
        }
    }

    /// Whatever `key` holds, live or not.
    pub fn get_value(&self, key: &Vec<u8>) -> (r: Option<&StoreItem>)
        ensures
            match r {
                Some(it) => self.spec_lookup(key@) == Some(it@),
                None => self.spec_lookup(key@) is None,
            },
    {
        match self.position_of(key.as_slice()) {
            Some(i) => Some(&self.data[i].1),
            None => None,
        }
    }
}

/// Why a stream append is refused.
#[derive(Debug, Clone, Copy, PartialEq, Eq)]
pub enum StoreError {
    IdZero,
    IdTooSmall,
    WrongType,
}

pub open spec fn id_zero_msg() -> Seq<u8> {
    seq![69u8, 82u8, 82u8, 32u8, 84u8, 104u8, 101u8, 32u8, 73u8, 68u8, 32u8, 115u8, 112u8, 101u8, 99u8, 105u8, 102u8, 105u8, 101u8, 100u8, 32u8, 105u8, 110u8, 32u8, 88u8, 65u8, 68u8, 68u8, 32u8, 109u8, 117u8, 115u8, 116u8, 32u8, 98u8, 101u8, 32u8, 103u8, 114u8, 101u8, 97u8, 116u8, 101u8, 114u8, 32u8, 116u8, 104u8, 97u8, 110u8, 32u8, 48u8, 45u8, 48u8]
}

pub open spec fn id_too_small_msg() -> Seq<u8> {
    seq![69u8, 82u8, 82u8, 32u8, 84u8, 104u8, 101u8, 32u8, 73u8, 68u8, 32u8, 115u8, 112u8, 101u8, 99u8, 105u8, 102u8, 105u8, 101u8, 100u8, 32u8, 105u8, 110u8, 32u8, 88u8, 65u8, 68u8, 68u8, 32u8, 105u8, 115u8, 32u8, 101u8, 113u8, 117u8, 97u8, 108u8, 32u8, 111u8, 114u8, 32u8, 115u8, 109u8, 97u8, 108u8, 108u8, 101u8, 114u8, 32u8, 116u8, 104u8, 97u8, 110u8, 32u8, 116u8, 104u8, 101u8, 32u8, 116u8, 97u8, 114u8, 103u8, 101u8, 116u8, 32u8, 115u8, 116u8, 114u8, 101u8, 97u8, 109u8, 32u8, 116u8, 111u8, 112u8, 32u8, 105u8, 116u8, 101u8, 109u8]
}

pub open spec fn wrong_type_msg() -> Seq<u8> {
    seq![87u8, 82u8, 79u8, 78u8, 71u8, 84u8, 89u8, 80u8, 69u8, 32u8, 79u8, 112u8, 101u8, 114u8, 97u8, 116u8, 105u8, 111u8, 110u8, 32u8, 97u8, 103u8, 97u8, 105u8, 110u8, 115u8, 116u8, 32u8, 97u8, 32u8, 107u8, 101u8, 121u8, 32u8, 104u8, 111u8, 108u8, 100u8, 105u8, 110u8, 103u8, 32u8, 116u8, 104u8, 101u8, 32u8, 119u8, 114u8, 111u8, 110u8, 103u8, 32u8, 107u8, 105u8, 110u8, 100u8, 32u8, 111u8, 102u8, 32u8, 118u8, 97u8, 108u8, 117u8, 101u8]
}

impl StoreError {
    pub open spec fn spec_message(self) -> Seq<u8> {
        match self {
            StoreError::IdZero => id_zero_msg(),
            StoreError::IdTooSmall => id_too_small_msg(),
            StoreError::WrongType => wrong_type_msg(),
        }
    }

    /// The wire text of the error, without the leading `-`.
    pub fn message(&self) -> (r: Vec<u8>)
        ensures
            r@ == self.spec_message(),
    {
        match self {
            StoreError::IdZero => {
                let r: Vec<u8> = vec![69u8, 82u8, 82u8, 32u8, 84u8, 104u8, 101u8, 32u8, 73u8, 68u8, 32u8, 115u8, 112u8, 101u8, 99u8, 105u8, 102u8, 105u8, 101u8, 100u8, 32u8, 105u8, 110u8, 32u8, 88u8, 65u8, 68u8, 68u8, 32u8, 109u8, 117u8, 115u8, 116u8, 32u8, 98u8, 101u8, 32u8, 103u8, 114u8, 101u8, 97u8, 116u8, 101u8, 114u8, 32u8, 116u8, 104u8, 97u8, 110u8, 32u8, 48u8, 45u8, 48u8];
                proof {
                    assert(r@ =~= id_zero_msg());
                }
                r
            },
            StoreError::IdTooSmall => {
                let r: Vec<u8> = vec![69u8, 82u8, 82u8, 32u8, 84u8, 104u8, 101u8, 32u8, 73u8, 68u8, 32u8, 115u8, 112u8, 101u8, 99u8, 105u8, 102u8, 105u8, 101u8, 100u8, 32u8, 105u8, 110u8, 32u8, 88u8, 65u8, 68u8, 68u8, 32u8, 105u8, 115u8, 32u8, 101u8, 113u8, 117u8, 97u8, 108u8, 32u8, 111u8, 114u8, 32u8, 115u8, 109u8, 97u8, 108u8, 108u8, 101u8, 114u8, 32u8, 116u8, 104u8, 97u8, 110u8, 32u8, 116u8, 104u8, 101u8, 32u8, 116u8, 97u8, 114u8, 103u8, 101u8, 116u8, 32u8, 115u8, 116u8, 114u8, 101u8, 97u8, 109u8, 32u8, 116u8, 111u8, 112u8, 32u8, 105u8, 116u8, 101u8, 109u8];
                proof {
                    assert(r@ =~= id_too_small_msg());
                }
                r
            },
            StoreError::WrongType => {
                let r: Vec<u8> = vec![87u8, 82u8, 79u8, 78u8, 71u8, 84u8, 89u8, 80u8, 69u8, 32u8, 79u8, 112u8, 101u8, 114u8, 97u8, 116u8, 105u8, 111u8, 110u8, 32u8, 97u8, 103u8, 97u8, 105u8, 110u8, 115u8, 116u8, 32u8, 97u8, 32u8, 107u8, 101u8, 121u8, 32u8, 104u8, 111u8, 108u8, 100u8, 105u8, 110u8, 103u8, 32u8, 116u8, 104u8, 101u8, 32u8, 119u8, 114u8, 111u8, 110u8, 103u8, 32u8, 107u8, 105u8, 110u8, 100u8, 32u8, 111u8, 102u8, 32u8, 118u8, 97u8, 108u8, 117u8, 101u8];
                proof {
                    assert(r@ =~= wrong_type_msg());
                }
                r
            },
        }
    }
}

/// Entries of `s` strictly after `id`, in order.
pub open spec fn spec_entries_after(s: Seq<StreamEntryVal>, id: StreamId) -> Seq<StreamEntryVal>
    decreases s.len(),
{
    if s.len() == 0 {
        Seq::empty()
    } else {
        let r = spec_entries_after(s.drop_last(), id);
        if id.spec_lt(s.last().0) {
            r.push(s.last())
        } else {
            r
        }
    }
}

pub open spec fn id_in_range(id: StreamId, lo: Option<StreamId>, hi: Option<StreamId>) -> bool {
    (match lo {
        Some(l) => !id.spec_lt(l),
        None => true,
    }) && (match hi {
        Some(h) => !h.spec_lt(id),
        None => true,
    })
}

/// Entries of `s` inside the inclusive bounds, in order.
pub open spec fn spec_entries_range(
    s: Seq<StreamEntryVal>,
    lo: Option<StreamId>,
    hi: Option<StreamId>,
) -> Seq<StreamEntryVal>
    decreases s.len(),
{
    if s.len() == 0 {
        Seq::empty()
    } else {
        let r = spec_entries_range(s.drop_last(), lo, hi);
        if id_in_range(s.last().0, lo, hi) {
            r.push(s.last())
        } else {
            r
        }
    }
}

/// Entries past a point where everything is above the high bound contribute
/// nothing, which lets a scan of a sorted stream stop early.
proof fn lemma_range_cut(
    s: Seq<StreamEntryVal>,
    lo: Option<StreamId>,
    hi: Option<StreamId>,
    i: int,
)
    requires
        0 <= i <= s.len(),
        forall|j: int| i <= j < s.len() ==> !id_in_range((#[trigger] s[j]).0, lo, hi),
    ensures
        spec_entries_range(s, lo, hi) == spec_entries_range(s.take(i), lo, hi),
    decreases s.len() - i,
{
    if i == s.len() {
        assert(s.take(i) =~= s);
    } else {
        let shorter = s.drop_last();
        assert(!id_in_range(s.last().0, lo, hi));
        assert forall|j: int| i <= j < shorter.len() implies !id_in_range(
            (#[trigger] shorter[j]).0,
            lo,
            hi,
        ) by {
            assert(shorter[j] == s[j]);
        }
        lemma_range_cut(shorter, lo, hi, i);
        assert(shorter.take(i) =~= s.take(i));
    }
}

impl Store {
    /// The stream at `key`, if that is what the key holds.
    pub fn get_stream(&self, key: &Vec<u8>) -> (r: Option<&Stream>)
        ensures
            match r {
                Some(st) => self.spec_lookup(key@) == Some(StoreItemVal::Stream(st@)),
                None => !(self.spec_lookup(key@) matches Some(StoreItemVal::Stream(st))),
            },
    {
        match self.position_of(key.as_slice()) {
            Some(i) => match &self.data[i].1 {
                StoreItem::Stream(st) => Some(st),
                StoreItem::KeyValueEntry(e) => None,
            },
            None => None,
        }
    }

    /// A mutable borrow of the stream at `key`, pinned to be exactly the
    /// stream that lookup finds there. What the caller leaves in the borrow
    /// is what the store holds afterwards, so well-formedness is the
    /// caller's to keep; the verified append path goes through
    /// `append_stream_value`, which re-establishes it.
    pub fn get_mut_stream(&mut self, key: &Vec<u8>) -> (r: Option<&mut Stream>)
        ensures
            (match r {
                Some(st) => old(self).spec_lookup(key@) == Some(StoreItemVal::Stream((*st)@)),
                None => *final(self) == *old(self) && !(old(self).spec_lookup(key@) matches Some(
                    StoreItemVal::Stream(st),
                )),
            }),
    {
        let idx = match self.position_of(key.as_slice()) {
            Some(i) => i,
            None => {
                return None;
            },
        };
        let is_stream = match &self.data[idx].1 {
            StoreItem::Stream(st) => true,
            StoreItem::KeyValueEntry(e) => false,
        };
        if !is_stream {
            return None;
        }
        let ghost prior_item = self@[idx as int].1;
        let pair = &mut self.data[idx];
        proof {
            assert(*pair == old(self).data@[idx as int]);
            assert(prior_item == old(self)@[idx as int].1);
        }
        match &mut pair.1 {
            StoreItem::Stream(st) => {
                proof {
                    assert(prior_item == StoreItemVal::Stream((*st)@));
                }
                Some(st)
            },
            StoreItem::KeyValueEntry(e) => {
                proof {
                    assert(false);
                }
                None
            },
        }
    }

    /// The id of the newest entry in the stream at `key`.
    pub open spec fn spec_last_id(self, k: Seq<u8>) -> Option<StreamId> {
        match self.spec_lookup(k) {
            Some(StoreItemVal::Stream(st)) => if st.len() > 0 {
                Some(st.last().0)
            } else {
                None
            },
            _ => None,
        }
    }

    pub fn get_lastest_stream_id(&self, key: &Vec<u8>) -> (r: Option<StreamId>)
        ensures
            r == self.spec_last_id(key@),
    {
        match self.get_stream(key) {
            Some(st) => {
                if st.entries.len() == 0 {
                    None
                } else {
                    let e = &st.entries[st.entries.len() - 1];
                    proof {
                        assert(st@.last() == (e.0, e.1@));
                    }
                    Some(e.0)
                }
            },
            None => None,
        }
    }

    /// Exactly when an id may be appended at `key`: never `0-0`, never at or
    /// below the newest id, never onto a key holding a string.
    pub open spec fn spec_validate_id(self, k: Seq<u8>, id: StreamId) -> Result<(), StoreError> {
        if id.ms == 0 && id.seq == 0 {
            Err(StoreError::IdZero)
        } else if (match self.spec_lookup(k) {
            Some(StoreItemVal::KeyValueEntry(e)) => true,
            _ => false,
        }) {
            Err(StoreError::WrongType)
        } else if (match self.spec_last_id(k) {
            Some(l) => !l.spec_lt(id),
            None => false,
        }) {
            Err(StoreError::IdTooSmall)
        } else {
            Ok(())
        }
    }

    pub fn validate_stream_id(&self, key: &Vec<u8>, id: &StreamId) -> (r: Result<(), StoreError>)
        ensures
            r == self.spec_validate_id(key@, *id),
    {
        if id.ms == 0 && id.seq == 0 {
            return Err(StoreError::IdZero);
        }
        match self.get_value(key) {
            Some(it) => match it {
                StoreItem::KeyValueEntry(e) => Err(StoreError::WrongType),
                StoreItem::Stream(st) => {
                    match self.get_lastest_stream_id(key) {
                        Some(l) => {
                            if !l.lt(id) {
                                Err(StoreError::IdTooSmall)
                            } else {
                                Ok(())
                            }
                        },
                        None => Ok(()),
                    }
                },
            },
            None => Ok(()),
        }
    }

    /// Append `(id, data)` to the stream at `key`, creating the stream when
    /// the key is vacant; the id must be fresh (see `spec_validate_id`).
    pub fn append_stream_value(
        &mut self,
        key: &Vec<u8>,
        id: &StreamId,
        stream_data: StreamData,
    ) -> (r: Result<(), StoreError>)
        requires
            old(self).wf(),
        ensures
            final(self).wf(),
            r == old(self).spec_validate_id(key@, *id),
            match r {
                Ok(()) => {
                    let old_entries = (match old(self).spec_lookup(key@) {
                        Some(StoreItemVal::Stream(st)) => st,
                        _ => Seq::<StreamEntryVal>::empty(),
                    });
                    &&& final(self).spec_lookup(key@) == Some(StoreItemVal::Stream(
                        old_entries.push((*id, stream_data@)),
                    ))
                    &&& forall|k2: Seq<u8>|
                        k2 != key@ ==> final(self).spec_lookup(k2) == old(self).spec_lookup(k2)
                },
                Err(e) => final(self)@ == old(self)@,
            },
    {
        let valid = self.validate_stream_id(key, id);
        if let Err(e) = valid {
            return Err(e);
        }
        match self.position_of(key.as_slice()) {
            Some(i) => {
                let ghost prior = self@;
                let (k, item) = self.data.remove(i);
                match item {
                    StoreItem::Stream(mut st) => {
                        let ghost old_entries = st@;
                        st.entries.push((*id, stream_data));
                        proof {
                            assert(st@ =~= old_entries.push((*id, stream_data@)));
                        }
                        self.data.insert(i, (k, StoreItem::Stream(st)));
                        proof {
                            assert(self@ =~= prior.update(
                                i as int,
                                (prior[i as int].0, StoreItemVal::Stream(
                                    old_entries.push((*id, stream_data@)),
                                )),
                            ));
                            let item2 = StoreItemVal::Stream(old_entries.push((*id, stream_data@)));
                            assert forall|k2: Seq<u8>| true implies spec_lookup_seq(self@, k2) == (
                            if k2 == prior[i as int].0 && (forall|j: int|
                                0 <= j < i ==> prior[j].0 != k2) {
                                Some(item2)
                            } else {
                                spec_lookup_seq(prior, k2)
                            }) by {
                                lemma_lookup_seq_update(prior, i as int, item2, k2);
                            }
                            assert(stream_sorted(old_entries.push((*id, stream_data@)))) by {
                                let ne = old_entries.push((*id, stream_data@));
                                assert forall|a: int, b: int|
                                    0 <= a < b < ne.len() implies (#[trigger] ne[a].0).spec_lt(
                                    #[trigger] ne[b].0) by {
                                    if b == ne.len() - 1 {
                                        if old_entries.len() > 0 {
                                            let l = old_entries.last().0;
                                            assert(l.spec_lt(*id));
                                            if a < old_entries.len() - 1 {
                                                assert(old_entries[a].0.spec_lt(l));
                                            }
                                        }
                                    }
                                }
                            }
                        }
                        Ok(())
                    },
                    StoreItem::KeyValueEntry(e) => {
                        proof {
                            assert(false);
                        }
                        Err(StoreError::WrongType)
                    },
                }
            },
            None => {
                let ghost prior = self@;
                let mut st = Stream { entries: Vec::new() };
                st.entries.push((*id, stream_data));
                let ghost stv = st@;
                self.data.push((crate::messages::copy_bytes(key), StoreItem::Stream(st)));
                proof {
                    assert(stv =~= Seq::<StreamEntryVal>::empty().push((*id, stream_data@)));
                    assert(self@ =~= prior.push((key@, StoreItemVal::Stream(stv))));
                    assert forall|k2: Seq<u8>| true implies spec_lookup_seq(self@, k2) == (if
                        spec_lookup_seq(prior, k2) is Some {
                        spec_lookup_seq(prior, k2)
                    } else if k2 == key@ {
                        Some(StoreItemVal::Stream(stv))
                    } else {
                        None::<StoreItemVal>
                    }) by {
                        lemma_lookup_seq_push(prior, key@, StoreItemVal::Stream(stv), k2);
                    }
                    assert forall|i2: int, j2: int|
                        0 <= i2 < j2 < self@.len() implies (#[trigger] self@[i2].0) != (
                    #[trigger] self@[j2].0) by {
                        if j2 == self@.len() - 1 {
                            assert(self@[i2] == prior[i2]);
                        }
                    }
                }
                Ok(())
            },
        }
    }

    /// All entries strictly after `id` at `key`; absent key, a string there,
    /// or nothing new reads as `None`.
    pub fn get_stream_read(&self, key: &Vec<u8>, id: &StreamId) -> (r: Option<Stream>)
        ensures
            match r {
                Some(st) => (match self.spec_lookup(key@) {
                    Some(StoreItemVal::Stream(entries)) => st@ == spec_entries_after(entries, *id)
                        && st@.len() > 0,
                    _ => false,
                }),
                None => (match self.spec_lookup(key@) {
                    Some(StoreItemVal::Stream(entries)) => spec_entries_after(entries, *id).len()
                        == 0,
                    _ => true,
                }),
            },
    {
        let stream = match self.get_stream(key) {
            Some(st) => st,
            None => {
                return None;
            },
        };
        let ghost entries = stream@;
        let mut picked: Vec<(StreamId, StreamData)> = Vec::new();
        let mut i: usize = 0;
        while i < stream.entries.len()
            invariant
                0 <= i <= stream.entries@.len(),
                entries == stream@,
                entries.len() == stream.entries@.len(),
                picked@.map_values(|e: (StreamId, StreamData)| (e.0, e.1@)) == spec_entries_after(
                    entries.take(i as int),
                    *id,
                ),
            decreases stream.entries@.len() - i,
        {
            let e = &stream.entries[i];
            proof {
                assert(entries.take(i + 1).drop_last() =~= entries.take(i as int));
                assert(entries.take(i + 1).last() == entries[i as int]);
                assert(entries[i as int] == (e.0, e.1@));
            }
            if id.lt(&e.0) {
                let ghost pv = picked@.map_values(|q: (StreamId, StreamData)| (q.0, q.1@));
                picked.push((e.0, e.1.duplicate()));
                proof {
                    assert(picked@.map_values(|q: (StreamId, StreamData)| (q.0, q.1@)) =~= pv.push(
                        (e.0, e.1@),
                    ));
                }
            }
            i += 1;
        }
        proof {
            assert(entries.take(entries.len() as int) =~= entries);
        }
        if picked.len() == 0 {
            None
        } else {
            let r = Stream { entries: picked };
            Some(r)
        }
    }

    /// The entries at `key` between the optional inclusive bounds; `None`
    /// only when `key` does not hold a stream.
    pub fn get_stream_range(
        &self,
        key: &Vec<u8>,
        start: Option<&StreamId>,
        end: Option<&StreamId>,
    ) -> (r: Option<Stream>)
        requires
            self.wf(),
        ensures
            match r {
                Some(st) => (match self.spec_lookup(key@) {
                    Some(StoreItemVal::Stream(entries)) => st@ == spec_entries_range(
                        entries,
                        (match start {
                            Some(l) => Some(*l),
                            None => None,
                        }),
                        (match end {
                            Some(h) => Some(*h),
                            None => None,
                        }),
                    ),
                    _ => false,
                }),
                None => !(self.spec_lookup(key@) matches Some(StoreItemVal::Stream(entries))),
            },
    {
        let ghost lo: Option<StreamId> = match start {
            Some(l) => Some(*l),
            None => None,
        };
        let ghost hi: Option<StreamId> = match end {
            Some(h) => Some(*h),
            None => None,
        };
        let stream = match self.get_stream(key) {
            Some(st) => st,
            None => {
                return None;
            },
        };
        let ghost entries = stream@;
        proof {
            lemma_lookup_member(self@, key@);
            let widx = choose|i: int|
                0 <= i < self@.len() && #[trigger] self@[i] == (
                key@,
                spec_lookup_seq(self@, key@)->Some_0,
            );
            assert(self@[widx].1 == StoreItemVal::Stream(entries));
            assert(stream_sorted(entries));
        }
        let mut picked: Vec<(StreamId, StreamData)> = Vec::new();
        let mut i: usize = 0;
        while i < stream.entries.len()
            invariant
                0 <= i <= stream.entries@.len(),
                entries == stream@,
                stream_sorted(entries),
                entries.len() == stream.entries@.len(),
                self.spec_lookup(key@) == Some(StoreItemVal::Stream(entries)),
                lo == (match start {
                    Some(l) => Some(*l),
                    None => None::<StreamId>,
                }),
                hi == (match end {
                    Some(h) => Some(*h),
                    None => None::<StreamId>,
                }),
                picked@.map_values(|e: (StreamId, StreamData)| (e.0, e.1@)) == spec_entries_range(
                    entries.take(i as int),
                    lo,
                    hi,
                ),
            decreases stream.entries@.len() - i,
        {
            let e = &stream.entries[i];
            proof {
                assert(entries.take(i + 1).drop_last() =~= entries.take(i as int));
                assert(entries.take(i + 1).last() == entries[i as int]);
                assert(entries[i as int] == (e.0, e.1@));
            }
            let below = match start {
                Some(l) => e.0.lt(l),
                None => false,
            };
            if below {
                i += 1;
                continue;
            }
            let above = match end {
                Some(h) => h.lt(&e.0),
                None => false,
            };
            if above {
                proof {
                    assert forall|j: int| i <= j < entries.len() implies !id_in_range(
                        (#[trigger] entries[j]).0,
                        lo,
                        hi,
                    ) by {
                        if j > i {
                            assert(entries[i as int].0.spec_lt(entries[j].0));
                        }
                    }
                    lemma_range_cut(entries, lo, hi, i as int);
                }
                let r = Stream { entries: picked };
                proof {
                    assert(r@ =~= spec_entries_range(entries, lo, hi));
                }
                return Some(r);
            }
            let ghost pv = picked@.map_values(|q: (StreamId, StreamData)| (q.0, q.1@));
            picked.push((e.0, e.1.duplicate()));
            proof {
                assert(picked@.map_values(|q: (StreamId, StreamData)| (q.0, q.1@)) =~= pv.push(
                    (e.0, e.1@),
                ));
            }
            i += 1;
        }
        proof {
            assert(entries.take(entries.len() as int) =~= entries);
        }
        let r = Stream { entries: picked };
        proof {
            assert(r@ =~= spec_entries_range(entries, lo, hi));
        }
        Some(r)
    }
}

/// An id pattern `<ms>-<seq>` where either side may be `*`; anything shorter
/// than three bytes stands for `*-*`. `None` in a field means `*`.
pub open spec fn spec_parse_pattern(p: Seq<u8>) -> Option<(Option<u64>, Option<u64>)> {
    let q = if p.len() < 3 {
        seq![0x2Au8, 0x2Du8, 0x2Au8]
    } else {
        p
    };
    match spec_find_byte(q, 0x2D) {
        Some(d) => {
            let msp = q.take(d);
            let sqp = q.skip(d + 1);
            let pmo = if msp == seq![0x2Au8] {
                Some(None::<u64>)
            } else {
                match spec_parse_u64(msp) {
                    Some(v) => Some(Some(v)),
                    None => None,
                }
            };
            let sqo = if sqp == seq![0x2Au8] {
                Some(None::<u64>)
            } else {
                match spec_parse_u64(sqp) {
                    Some(v) => Some(Some(v)),
                    None => None,
                }
            };
            match (pmo, sqo) {
                (Some(a), Some(b)) => Some((a, b)),
                _ => None,
            }
        },
        None => None,
    }
}

/// Resolve a pattern against the clock and the newest id: `*` in the ms
/// field is `now_ms`; `*` in the seq field continues the newest entry with
/// the same ms, else starts at 0 (1 when ms is 0). `None` only when the
/// continued sequence number cannot grow further.
pub open spec fn spec_resolve_id(
    pms: Option<u64>,
    pseq: Option<u64>,
    last: Option<StreamId>,
    now_ms: u64,
) -> Option<StreamId> {
    let ms = match pms {
        Some(v) => v,
        None => now_ms,
    };
    match pseq {
        Some(q) => Some(StreamId { ms, seq: q }),
        None => match last {
            Some(l) => if l.ms == ms {
                if l.seq == u64::MAX {
                    None
                } else {
                    Some(StreamId { ms, seq: (l.seq + 1) as u64 })
                }
            } else {
                Some(StreamId { ms, seq: if ms == 0 { 1u64 } else { 0u64 } })
            },
            None => Some(StreamId { ms, seq: if ms == 0 { 1u64 } else { 0u64 } }),
        },
    }
}

/// Parse an id pattern.
pub fn parse_pattern(p: &[u8]) -> (r: Option<(Option<u64>, Option<u64>)>)
    ensures
        r == spec_parse_pattern(p@),
{
    if p.len() < 3 {
        proof {
            let q = seq![0x2Au8, 0x2Du8, 0x2Au8];
            lemma_find_byte_some(q, 0x2D, 1);
            assert(q.take(1) =~= seq![0x2Au8]);
            assert(q.skip(2) =~= seq![0x2Au8]);
        }
        return Some((None, None));
    }
    let n = p.len();
    match find_byte(p, 0x2D) {
        Some(d) => {
            let msp = vstd::slice::slice_subrange(p, 0, d);
            let sqp = vstd::slice::slice_subrange(p, d + 1, n);
            proof {
                assert(msp@ =~= p@.take(d as int));
                assert(sqp@ =~= p@.skip(d + 1));
            }
            let pmo: Option<Option<u64>> = if msp.len() == 1 && msp[0] == 0x2A {
                proof {
                    assert(msp@ =~= seq![0x2Au8]);
                }
                Some(None)
            } else {
                proof {
                    if msp@.len() == 1 && msp@[0] == 0x2A {
                        assert(msp@ =~= seq![0x2Au8]);
                    }
                }
                match parse_u64(msp) {
                    Some(v) => Some(Some(v)),
                    None => None,
                }
            };
            let sqo: Option<Option<u64>> = if sqp.len() == 1 && sqp[0] == 0x2A {
                proof {
                    assert(sqp@ =~= seq![0x2Au8]);
                }
                Some(None)
            } else {
                proof {
                    if sqp@.len() == 1 && sqp@[0] == 0x2A {
                        assert(sqp@ =~= seq![0x2Au8]);
                    }
                }
                match parse_u64(sqp) {
                    Some(v) => Some(Some(v)),
                    None => None,
                }
            };
            match (pmo, sqo) {
                (Some(a), Some(b)) => Some((a, b)),
                _ => None,
            }
        },
        None => None,
    }
}

/// Resolve a parsed pattern.
pub fn resolve_id(
    pms: Option<u64>,
    pseq: Option<u64>,
    last: Option<StreamId>,
    now_ms: u64,
) -> (r: Option<StreamId>)
    ensures
        r == spec_resolve_id(pms, pseq, last, now_ms),
{
    let ms = match pms {
        Some(v) => v,
        None => now_ms,
    };
    match pseq {
        Some(q) => Some(StreamId { ms, seq: q }),
        None => match last {
            Some(l) => {
                if l.ms == ms {
                    if l.seq == u64::MAX {
                        None
                    } else {
                        Some(StreamId { ms, seq: l.seq + 1 })
                    }
                } else {
                    Some(StreamId { ms, seq: if ms == 0 { 1 } else { 0 } })
                }
            },
            None => Some(StreamId { ms, seq: if ms == 0 { 1 } else { 0 } }),
        },
    }
}

/// The resolved id a pattern produces against `last` at `now_ms`, rendered
/// as `<ms>-<seq>`; `None` on an unusable pattern or an exhausted sequence.
pub fn build_stream_id(pattern: &Vec<u8>, last: Option<StreamId>, now_ms: u64) -> (r: Option<
    Vec<u8>,
>)
    ensures
        (match spec_parse_pattern(pattern@) {
            Some(pq) => (match spec_resolve_id(pq.0, pq.1, last, now_ms) {
                Some(id) => r matches Some(v) && v@ == spec_id_bytes(id),
                None => r is None,
            }),
            None => r is None,
        }),
{
    match parse_pattern(pattern.as_slice()) {
        Some((pms, pseq)) => match resolve_id(pms, pseq, last, now_ms) {
            Some(id) => Some(id.to_bytes()),
            None => None,
        },
        None => None,
    }
}

impl Store {
    /// `build_stream_id` against the newest id at `key`.
    pub fn auto_generate_stream_id(
        &self,
        key: &Vec<u8>,
        id_pattern: &Vec<u8>,
        now_ms: u64,
    ) -> (r: Option<Vec<u8>>)
        ensures
            (match spec_parse_pattern(id_pattern@) {
                Some(pq) => (match spec_resolve_id(
                    pq.0,
                    pq.1,
                    self.spec_last_id(key@),
                    now_ms,
                ) {
                    Some(id) => r matches Some(v) && v@ == spec_id_bytes(id),
                    None => r is None,
                }),
                None => r is None,
            }),
    {
        let last = self.get_lastest_stream_id(key);
        build_stream_id(id_pattern, last, now_ms)
    }

    /// `auto_generate_stream_id`, resolved to the id itself.
    pub fn resolve_pattern_id(&self, key: &Vec<u8>, id_pattern: &Vec<u8>, now_ms: u64) -> (r:
        Option<StreamId>)
        ensures
            (match spec_parse_pattern(id_pattern@) {
                Some(pq) => r == spec_resolve_id(pq.0, pq.1, self.spec_last_id(key@), now_ms),
                None => r is None,
            }),
    {
        let last = self.get_lastest_stream_id(key);
        match parse_pattern(id_pattern.as_slice()) {
            Some((pms, pseq)) => resolve_id(pms, pseq, last, now_ms),
            None => None,
        }
    }
}

/// A low XRANGE bound: `-` is open; a bare ms means seq 0. The outer option
/// is well-formedness, the inner one openness.
pub open spec fn spec_xrange_start(s: Seq<u8>) -> Option<Option<StreamId>> {
    if s == seq![0x2Du8] {
        Some(None)
    } else {
        match spec_find_byte(s, 0x2D) {
            Some(d) => match spec_parse_stream_id(s) {
                Some(id) => Some(Some(id)),
                None => None,
            },
            None => match spec_parse_u64(s) {
                Some(ms) => Some(Some(StreamId { ms, seq: 0 })),
                None => None,
            },
        }
    }
}

/// Parse a low XRANGE bound; `None` when it is not well-formed.
pub fn parse_xrange_start(id: &[u8]) -> (r: Option<Option<StreamId>>)
    ensures
        r == spec_xrange_start(id@),
{
    if id.len() == 1 && id[0] == 0x2D {
        proof {
            assert(id@ =~= seq![0x2Du8]);
        }
        return Some(None);
    }
    proof {
        if id@.len() == 1 && id@[0] == 0x2D {
            assert(id@ =~= seq![0x2Du8]);
        }
    }
    match find_byte(id, 0x2D) {
        Some(d) => match StreamId::from_bytes(id) {
            Some(sid) => Some(Some(sid)),
            None => None,
        },
        None => match parse_u64(id) {
            Some(ms) => Some(Some(StreamId { ms, seq: 0 })),
            None => None,
        },
    }
}

/// The low XRANGE bound of a well-formed request.
pub fn get_start_of_xrange_id(id: &Vec<u8>) -> (r: Option<StreamId>)
    requires
        spec_xrange_start(id@) is Some,
    ensures
        Some(r) == spec_xrange_start(id@),
{
    match parse_xrange_start(id.as_slice()) {
        Some(b) => b,
        None => None,
    }
}

/// A high XRANGE bound: `+` is open; a bare ms caps at the largest live seq,
/// by resolving `<ms>-*` against the stream.
pub open spec fn spec_xrange_end(s: Seq<u8>, last: Option<StreamId>, now_ms: u64) -> Option<
    Option<StreamId>,
> {
    if s == seq![0x2Bu8] {
        Some(None)
    } else {
        let pat = if spec_find_byte(s, 0x2D) is Some {
            s
        } else {
            s + seq![0x2Du8, 0x2Au8]
        };
        match spec_parse_pattern(pat) {
            Some(pq) => match spec_resolve_id(pq.0, pq.1, last, now_ms) {
                Some(id) => Some(Some(id)),
                None => None,
            },
            None => None,
        }
    }
}

/// Parse a high XRANGE bound against the stream at `key`.
pub fn parse_xrange_end(id: &[u8], key: &Vec<u8>, store: &Store, now_ms: u64) -> (r: Option<
    Option<StreamId>,
>)
    ensures
        r == spec_xrange_end(id@, store.spec_last_id(key@), now_ms),
{
    if id.len() == 1 && id[0] == 0x2B {
        proof {
            assert(id@ =~= seq![0x2Bu8]);
        }
        return Some(None);
    }
    proof {
        if id@.len() == 1 && id@[0] == 0x2B {
            assert(id@ =~= seq![0x2Bu8]);
        }
    }
    let template: Vec<u8> = match find_byte(id, 0x2D) {
        Some(d) => vstd::slice::slice_to_vec(id),
        None => {
            let mut t = vstd::slice::slice_to_vec(id);
            t.push(0x2D);
            t.push(0x2A);
            proof {
                assert(t@ =~= id@ + seq![0x2Du8, 0x2Au8]);
            }
            t
        },
    };
    match store.resolve_pattern_id(key, &template, now_ms) {
        Some(sid) => Some(Some(sid)),
        None => None,
    }
}

/// The high XRANGE bound of a well-formed request.
pub fn get_end_of_xrange_id(id: &Vec<u8>, key: &Vec<u8>, store: &Store, now_ms: u64) -> (r:
    Option<StreamId>)
    requires
        spec_xrange_end(id@, store.spec_last_id(key@), now_ms) is Some,
    ensures
        Some(r) == spec_xrange_end(id@, store.spec_last_id(key@), now_ms),
{
    match parse_xrange_end(id.as_slice(), key, store, now_ms) {
        Some(b) => b,
        None => None,
    }
}

/// The value a read of `k` returns at `now_ms`.
pub open spec fn spec_get(s: StoreVal, k: Seq<u8>, now_ms: u64) -> Option<Seq<u8>> {
    match spec_lookup_seq(s, k) {
        Some(StoreItemVal::KeyValueEntry(e)) => if entry_live(e, now_ms) {
            Some(e.value)
        } else {
            None
        },
        _ => None,
    }
}

/// Writing `k` makes every read of `k` return the new value until its expiry
/// has passed, and leaves every other key alone: stated over any store that
/// a `set_kv_value` of `(k, e)` has just produced.
pub proof fn lemma_last_write_wins(
    before: StoreVal,
    after: StoreVal,
    k: Seq<u8>,
    e: EntryVal,
    now_ms: u64,
)
    requires
        spec_lookup_seq(after, k) == Some(StoreItemVal::KeyValueEntry(e)),
        forall|k2: Seq<u8>| k2 != k ==> spec_lookup_seq(after, k2) == spec_lookup_seq(before, k2),
    ensures
        spec_get(after, k, now_ms) == (if entry_live(e, now_ms) {
            Some(e.value)
        } else {
            None::<Seq<u8>>
        }),
        forall|k2: Seq<u8>| k2 != k ==> spec_get(after, k2, now_ms) == spec_get(before, k2, now_ms),
{
}

/// Resolving `*-*` takes the clock for ms; the sequence number continues the
/// newest entry when its ms matches, else starts at 0, or at 1 when ms is 0.
pub proof fn lemma_auto_id(last: Option<StreamId>, now_ms: u64)
    requires
        (match last {
            Some(l) => !(l.ms == now_ms && l.seq == u64::MAX),
            None => true,
        }),
    ensures
        spec_resolve_id(None, None, last, now_ms) matches Some(id) && id.ms == now_ms && id.seq
            == (match last {
            Some(l) => if l.ms == now_ms {
                (l.seq + 1) as u64
            } else if now_ms == 0 {
                1u64
            } else {
                0u64
            },
            None => if now_ms == 0 {
                1u64
            } else {
                0u64
            },
        }),
{
}

/// Every stream a well-formed store holds is strictly increasing. Appends
/// preserve well-formedness (see `append_stream_value`), so any run of
/// appends with accepted ids leaves every stored stream sorted.
pub proof fn lemma_streams_sorted(s: StoreVal, k: Seq<u8>)
    requires
        store_wf(s),
        spec_lookup_seq(s, k) matches Some(StoreItemVal::Stream(st)),
    ensures
        (match spec_lookup_seq(s, k) {
            Some(StoreItemVal::Stream(st)) => stream_sorted(st),
            _ => true,
        }),
{
    lemma_lookup_member(s, k);
    let i = choose|i: int|
        0 <= i < s.len() && #[trigger] s[i] == (k, spec_lookup_seq(s, k)->Some_0);
    assert(s[i].1 == spec_lookup_seq(s, k)->Some_0);
}

} // verus!
