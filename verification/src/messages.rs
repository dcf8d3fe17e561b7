//! The wire codec: a recursive tagged message grammar, its byte-exact
//! serializer and parser, and the proof that they are inverse to each other.

use vstd::prelude::*;

use crate::num::{
    spec_dec_digits, spec_parse_i64, all_digits, spec_digits_val, u64_to_dec, parse_i64,
    lemma_dec_digits_wf, is_digit,
};

verus! {

broadcast use vstd::std_specs::vec::axiom_vec_decreases_to_view, vstd::std_specs::vec::axiom_vec_index_decreases, vstd::seq::axiom_seq_index_decreases;

/// A wire message. Textual payloads are kept as raw bytes; the parser insists
/// that simple strings and errors are UTF-8, bulk strings may hold any bytes.
#[derive(Debug, PartialEq)]
pub enum Message {
    Error(Vec<u8>),
    SimpleString(Vec<u8>),
    BulkString(Vec<u8>),
    Array(Vec<Message>),
    Integer(i64),
    Null,
}

/// The mathematical shape of a `Message`.
pub enum MessageVal {
    Error(Seq<u8>),
    SimpleString(Seq<u8>),
    BulkString(Seq<u8>),
    Array(Seq<MessageVal>),
    Integer(int),
    Null,
}

pub open spec fn msg_view(m: Message) -> MessageVal
    decreases m,
{
    match m {
        Message::Error(s) => MessageVal::Error(s@),
        Message::SimpleString(s) => MessageVal::SimpleString(s@),
        Message::BulkString(s) => MessageVal::BulkString(s@),
        Message::Array(items) => MessageVal::Array(msgs_view(items@)),
        Message::Integer(i) => MessageVal::Integer(i as int),
        Message::Null => MessageVal::Null,
    }
}

pub open spec fn msgs_view(s: Seq<Message>) -> Seq<MessageVal>
    decreases s,
{
    if s.len() == 0 {
        Seq::empty()
    } else {
        seq![msg_view(s[0])] + msgs_view(s.drop_first())
    }
}

impl View for Message {
    type V = MessageVal;

    open spec fn view(&self) -> MessageVal {
        msg_view(*self)
    }
}

pub broadcast proof fn lemma_msgs_view_index(s: Seq<Message>)
    ensures
        (#[trigger] msgs_view(s)).len() == s.len(),
        forall|i: int| 0 <= i < s.len() ==> msgs_view(s)[i] == msg_view(s[i]),
    decreases s.len(),
{
    if s.len() > 0 {
        lemma_msgs_view_index(s.drop_first());
    }
}

pub proof fn lemma_msgs_view_push(s: Seq<Message>, m: Message)
    ensures
        msgs_view(s.push(m)) == msgs_view(s).push(msg_view(m)),
    decreases s.len(),
{
    if s.len() == 0 {
        let p = s.push(m);
        assert(p[0] == m);
        assert(p.drop_first() =~= Seq::<Message>::empty());
        assert(msgs_view(p) == seq![msg_view(p[0])] + msgs_view(p.drop_first()));
        assert(msgs_view(p) =~= seq![msg_view(m)]);
        assert(msgs_view(s).push(msg_view(m)) =~= seq![msg_view(m)]);
    } else {
        assert(s.push(m).drop_first() =~= s.drop_first().push(m));
        lemma_msgs_view_push(s.drop_first(), m);
        assert(msgs_view(s.push(m)) =~= msgs_view(s).push(msg_view(m)));
    }
}

pub open spec fn crlf() -> Seq<u8> {
    seq![13u8, 10u8]
}

/// Digits of a signed integer, with a leading minus sign when negative.
pub open spec fn spec_int_digits(i: int) -> Seq<u8> {
    if i < 0 {
        seq![0x2Du8] + spec_dec_digits((-i) as nat)
    } else {
        spec_dec_digits(i as nat)
    }
}

/// The serialized bytes of a message: the payload of the round-trip law and
/// of every length and offset count in the replication subsystem.
pub open spec fn spec_serialize(v: MessageVal) -> Seq<u8>
    decreases v,
{
    match v {
        MessageVal::Error(s) => seq![0x2Du8] + s + crlf(),
        MessageVal::SimpleString(s) => seq![0x2Bu8] + s + crlf(),
        MessageVal::BulkString(s) => seq![0x24u8] + spec_dec_digits(s.len()) + crlf() + s + crlf(),
        MessageVal::Array(items) => seq![0x2Au8] + spec_dec_digits(items.len()) + crlf()
            + spec_serialize_items(items),
        MessageVal::Integer(i) => seq![0x3Au8] + spec_int_digits(i) + crlf(),
        MessageVal::Null => seq![0x24u8, 0x2Du8, 0x31u8, 13u8, 10u8],
    }
}

pub open spec fn spec_serialize_items(items: Seq<MessageVal>) -> Seq<u8>
    decreases items,
{
    if items.len() == 0 {
        Seq::empty()
    } else {
        spec_serialize(items[0]) + spec_serialize_items(items.drop_first())
    }
}

pub proof fn lemma_serialize_items_push(items: Seq<MessageVal>, v: MessageVal)
    ensures
        spec_serialize_items(items.push(v)) == spec_serialize_items(items) + spec_serialize(v),
    decreases items.len(),
{
    if items.len() == 0 {
        assert(items.push(v).drop_first() =~= Seq::<MessageVal>::empty());
        assert(items.push(v)[0] == v);
        assert(spec_serialize_items(items.push(v)) == spec_serialize(v)
            + spec_serialize_items(Seq::<MessageVal>::empty()));
        assert(spec_serialize_items(items.push(v)) =~= spec_serialize_items(items)
            + spec_serialize(v));
    } else {
        assert(items.push(v).drop_first() =~= items.drop_first().push(v));
        lemma_serialize_items_push(items.drop_first(), v);
        assert(spec_serialize_items(items.push(v)) =~= spec_serialize_items(items)
            + spec_serialize(v));
    }
}

/// Append the bytes of `src` to `dst`.
pub fn push_bytes(dst: &mut Vec<u8>, src: &[u8])
    ensures
        final(dst)@ == old(dst)@ + src@,
{
    let mut i: usize = 0;
    while i < src.len()
        invariant
            0 <= i <= src@.len(),
            dst@ == old(dst)@ + src@.take(i as int),
        decreases src@.len() - i,
    {
        dst.push(src[i]);
        proof {
            assert(old(dst)@ + src@.take(i + 1) =~= (old(dst)@ + src@.take(i as int)).push(
                src@[i as int],
            ));
        }
        i += 1;
    }
    proof {
        assert(src@.take(src@.len() as int) =~= src@);
    }
}

/// A copy of a byte vector.
pub fn copy_bytes(src: &Vec<u8>) -> (r: Vec<u8>)
    ensures
        r@ == src@,
{
    vstd::slice::slice_to_vec(src.as_slice())
}

impl Message {
    pub fn simple_string_from_str(value: &[u8]) -> (r: Self)
        ensures
            r@ == MessageVal::SimpleString(value@),
    {
        Message::SimpleString(vstd::slice::slice_to_vec(value))
    }

    pub fn simple_string(value: Vec<u8>) -> (r: Self)
        ensures
            r@ == MessageVal::SimpleString(value@),
    {
        Message::SimpleString(value)
    }

    pub fn bulk_string(value: Vec<u8>) -> (r: Self)
        ensures
            r@ == MessageVal::BulkString(value@),
    {
        Message::BulkString(value)
    }

    /// Serialize to wire bytes; every variant has exactly one encoding.
    pub fn serialize(&self) -> (r: Vec<u8>)
        ensures
            r@ == spec_serialize(self@),
        decreases *self,
    {
        match self {
            Message::Error(s) => {
                let mut r: Vec<u8> = Vec::new();
                r.push(0x2D);
                push_bytes(&mut r, s.as_slice());
                r.push(13);
                r.push(10);
                proof {
                    assert(r@ =~= seq![0x2Du8] + s@ + crlf());
                }
                r
            },
            Message::SimpleString(s) => {
                let mut r: Vec<u8> = Vec::new();
                r.push(0x2B);
                push_bytes(&mut r, s.as_slice());
                r.push(13);
                r.push(10);
                proof {
                    assert(r@ =~= seq![0x2Bu8] + s@ + crlf());
                }
                r
            },
            Message::BulkString(s) => {
                let mut r: Vec<u8> = Vec::new();
                r.push(0x24);
                let digits = u64_to_dec(s.len() as u64);
                push_bytes(&mut r, digits.as_slice());
                r.push(13);
                r.push(10);
                push_bytes(&mut r, s.as_slice());
                r.push(13);
                r.push(10);
                proof {
                    assert(r@ =~= seq![0x24u8] + spec_dec_digits(s@.len()) + crlf() + s@ + crlf());
                }
                r
            },
            Message::Integer(i) => {
                let mut r: Vec<u8> = Vec::new();
                r.push(0x3A);
                let v: i64 = *i;
                if v < 0 {
                    r.push(0x2D);
                    let m: u64 = if v == i64::MIN {
                        0x8000_0000_0000_0000u64
                    } else {
                        (-v) as u64
                    };
                    let digits = u64_to_dec(m);
                    push_bytes(&mut r, digits.as_slice());
                    r.push(13);
                    r.push(10);
                    proof {
                        assert(r@ =~= seq![0x3Au8] + (seq![0x2Du8] + spec_dec_digits(
                            (-(v as int)) as nat,
                        )) + crlf());
                    }
                    r
                } else {
                    let digits = u64_to_dec(v as u64);
                    push_bytes(&mut r, digits.as_slice());
                    r.push(13);
                    r.push(10);
                    proof {
                        assert(r@ =~= seq![0x3Au8] + spec_dec_digits(v as nat) + crlf());
                    }
                    r
                }
            },
            Message::Null => {
                let mut r: Vec<u8> = Vec::new();
                r.push(0x24);
                r.push(0x2D);
                r.push(0x31);
                r.push(13);
                r.push(10);
                proof {
                    assert(r@ =~= seq![0x24u8, 0x2Du8, 0x31u8, 13u8, 10u8]);
                }
                r
            },
            Message::Array(items) => {
                let mut r: Vec<u8> = Vec::new();
                r.push(0x2A);
                let digits = u64_to_dec(items.len() as u64);
                push_bytes(&mut r, digits.as_slice());
                r.push(13);
                r.push(10);
                let ghost header = seq![0x2Au8] + spec_dec_digits(items@.len()) + crlf();
                proof {
                    lemma_msgs_view_index(items@);
                    assert(r@ =~= header);
                }
                let mut i: usize = 0;
                while i < items.len()
                    invariant
                        *self == Message::Array(*items),
                        0 <= i <= items@.len(),
                        header == seq![0x2Au8] + spec_dec_digits(items@.len()) + crlf(),
                        r@ == header + spec_serialize_items(msgs_view(items@).take(i as int)),
                        msgs_view(items@).len() == items@.len(),
                        forall|j: int|
                            0 <= j < items@.len() ==> msgs_view(items@)[j] == msg_view(items@[j]),
                    decreases items@.len() - i,
                {
                    proof {
                        assert(decreases_to!(*self => self->Array_0));
                        assert(decreases_to!(*items => items[i as int]));
                    }
                    let piece = items[i].serialize();
                    push_bytes(&mut r, piece.as_slice());
                    proof {
                        let vs = msgs_view(items@);
                        assert(vs.take(i + 1) =~= vs.take(i as int).push(vs[i as int]));
                        lemma_serialize_items_push(vs.take(i as int), vs[i as int]);
                    }
                    i += 1;
                }
                proof {
                    let vs = msgs_view(items@);
                    assert(vs.take(vs.len() as int) =~= vs);
                }
                r
            },
        }
    }
}


/// `Some(i)`: the first CRLF pair of `s` starts at index `i`.
pub open spec fn spec_find_crlf(s: Seq<u8>) -> Option<int>
    decreases s.len(),
{
    if s.len() < 2 {
        None
    } else if s[0] == 13 && s[1] == 10 {
        Some(0)
    } else {
        match spec_find_crlf(s.drop_first()) {
            Some(i) => Some(i + 1),
            None => None,
        }
    }
}

/// No CRLF pair occurs anywhere in `s`; such payloads survive the codec.
pub open spec fn crlf_free(s: Seq<u8>) -> bool {
    forall|j: int| 0 <= j && j + 1 < s.len() ==> !(#[trigger] s[j] == 13 && s[j + 1] == 10)
}

pub proof fn lemma_find_crlf_some(t: Seq<u8>, i: int)
    requires
        0 <= i,
        i + 1 < t.len(),
        t[i] == 13,
        t[i + 1] == 10,
        forall|j: int| 0 <= j < i ==> !(#[trigger] t[j] == 13 && t[j + 1] == 10),
    ensures
        spec_find_crlf(t) == Some(i),
    decreases i,
{
    if i == 0 {
    } else {
        let d = t.drop_first();
        assert forall|j: int| 0 <= j < i - 1 implies !(#[trigger] d[j] == 13 && d[j + 1] == 10) by {
            assert(d[j] == t[j + 1]);
            assert(d[j + 1] == t[j + 2]);
        }
        assert(d[i - 1] == t[i] && d[i] == t[i + 1]);
        lemma_find_crlf_some(d, i - 1);
        assert(!(t[0] == 13 && t[1] == 10));
    }
}

pub proof fn lemma_find_crlf_none(t: Seq<u8>)
    requires
        crlf_free(t),
    ensures
        spec_find_crlf(t) is None,
    decreases t.len(),
{
    if t.len() >= 2 {
        let d = t.drop_first();
        assert forall|j: int| 0 <= j && j + 1 < d.len() implies !(#[trigger] d[j] == 13 && d[j + 1]
            == 10) by {
            assert(d[j] == t[j + 1]);
            assert(d[j + 1] == t[j + 2]);
        }
        lemma_find_crlf_none(d);
    }
}

/// Facts every successful scan gives: the pair is there, nothing earlier.
pub proof fn lemma_find_crlf_props(t: Seq<u8>)
    ensures
        match spec_find_crlf(t) {
            Some(i) => 0 <= i && i + 1 < t.len() && t[i] == 13 && t[i + 1] == 10 && forall|j: int|
                0 <= j < i ==> !(#[trigger] t[j] == 13 && t[j + 1] == 10),
            None => true,
        },
    decreases t.len(),
{
    if t.len() < 2 {
    } else if t[0] == 13 && t[1] == 10 {
    } else {
        let d = t.drop_first();
        lemma_find_crlf_props(d);
        if spec_find_crlf(d) is Some {
            let i = spec_find_crlf(d)->Some_0;
            assert forall|j: int| 0 <= j < i + 1 implies !(#[trigger] t[j] == 13 && t[j + 1] == 10)
                by {
                if j > 0 {
                    assert(d[j - 1] == t[j]);
                    assert(d[j] == t[j + 1]);
                }
            }
        }
    }
}

/// A CRLF-free payload followed by CRLF scans to exactly the payload.
pub proof fn lemma_find_crlf_prefix(c: Seq<u8>, rest: Seq<u8>)
    requires
        crlf_free(c),
    ensures
        spec_find_crlf(c + crlf() + rest) == Some(c.len() as int),
{
    let t = c + crlf() + rest;
    assert(t[c.len() as int] == 13);
    assert(t[c.len() as int + 1] == 10);
    assert forall|j: int| 0 <= j < c.len() implies !(#[trigger] t[j] == 13 && t[j + 1] == 10) by {
        if j + 1 < c.len() {
            assert(t[j] == c[j]);
            assert(t[j + 1] == c[j + 1]);
        } else {
            assert(t[j + 1] == 13);
        }
    }
    lemma_find_crlf_some(t, c.len() as int);
}

/// Scan for the first CRLF at or after `from`; `Some(k)` is its absolute index.
pub fn find_crlf(s: &[u8], from: usize) -> (r: Option<usize>)
    requires
        from <= s@.len(),
    ensures
        match r {
            Some(k) => from <= k && k + 1 < s@.len() && spec_find_crlf(s@.skip(from as int))
                == Some((k - from) as int),
            None => spec_find_crlf(s@.skip(from as int)) is None,
        },
{
    let ghost t = s@.skip(from as int);
    let mut i: usize = from;
    loop
        invariant
            from <= i <= s@.len(),
            t == s@.skip(from as int),
            forall|j: int|
                from <= j < i ==> !(#[trigger] s@[j] == 13 && j + 1 < s@.len() && s@[j + 1] == 10),
        decreases s@.len() - i,
    {
        if s.len() - i < 2 {
            proof {
                assert forall|j: int| 0 <= j && j + 1 < t.len() implies !(#[trigger] t[j] == 13
                    && t[j + 1] == 10) by {
                    assert(t[j] == s@[j + from]);
                    assert(t[j + 1] == s@[j + from + 1]);
                }
                lemma_find_crlf_none(t);
            }
            return None;
        }
        if s[i] == 13 && s[i + 1] == 10 {
            proof {
                assert(t[i - from] == s@[i as int]);
                assert(t[i - from + 1] == s@[i + 1]);
                assert forall|j: int| 0 <= j < i - from implies !(#[trigger] t[j] == 13 && t[j + 1]
                    == 10) by {
                    assert(t[j] == s@[j + from]);
                    assert(t[j + 1] == s@[j + from + 1]);
                }
                lemma_find_crlf_some(t, i - from);
            }
            return Some(i);
        }
        i += 1;
    }
}

pub open spec fn is_utf8_cont(b: u8) -> bool {
    0x80 <= b < 0xC0
}

/// `s` is well-formed UTF-8: the shortest-form, surrogate-free byte grammar.
pub open spec fn spec_is_utf8(s: Seq<u8>) -> bool
    decreases s.len(),
{
    if s.len() == 0 {
        true
    } else {
        let b0 = s[0];
        if b0 < 0x80 {
            spec_is_utf8(s.skip(1))
        } else if b0 < 0xC2 {
            false
        } else if b0 <= 0xDF {
            s.len() >= 2 && is_utf8_cont(s[1]) && spec_is_utf8(s.skip(2))
        } else if b0 == 0xE0 {
            s.len() >= 3 && 0xA0 <= s[1] <= 0xBF && is_utf8_cont(s[2]) && spec_is_utf8(s.skip(3))
        } else if b0 == 0xED {
            s.len() >= 3 && 0x80 <= s[1] <= 0x9F && is_utf8_cont(s[2]) && spec_is_utf8(s.skip(3))
        } else if b0 <= 0xEF {
            s.len() >= 3 && is_utf8_cont(s[1]) && is_utf8_cont(s[2]) && spec_is_utf8(s.skip(3))
        } else if b0 == 0xF0 {
            s.len() >= 4 && 0x90 <= s[1] <= 0xBF && is_utf8_cont(s[2]) && is_utf8_cont(s[3])
                && spec_is_utf8(s.skip(4))
        } else if b0 <= 0xF3 {
            s.len() >= 4 && is_utf8_cont(s[1]) && is_utf8_cont(s[2]) && is_utf8_cont(s[3])
                && spec_is_utf8(s.skip(4))
        } else if b0 == 0xF4 {
            s.len() >= 4 && 0x80 <= s[1] <= 0x8F && is_utf8_cont(s[2]) && is_utf8_cont(s[3])
                && spec_is_utf8(s.skip(4))
        } else {
            false
        }
    }
}

/// Pure ASCII is UTF-8.
pub proof fn lemma_ascii_is_utf8(s: Seq<u8>)
    requires
        forall|j: int| 0 <= j < s.len() ==> #[trigger] s[j] < 0x80,
    ensures
        spec_is_utf8(s),
    decreases s.len(),
{
    if s.len() > 0 {
        lemma_ascii_is_utf8(s.skip(1));
    }
}

pub fn is_utf8(s: &[u8]) -> (r: bool)
    ensures
        r == spec_is_utf8(s@),
{
    let n = s.len();
    let mut i: usize = 0;
    proof {
        assert(s@.skip(0) =~= s@);
    }
    while i < n
        invariant
            0 <= i <= n,
            n == s@.len(),
            spec_is_utf8(s@) == spec_is_utf8(s@.skip(i as int)),
        decreases n - i,
    {
        let ghost t = s@.skip(i as int);
        let b0 = s[i];
        proof {
            assert(t[0] == s@[i as int]);
        }
        let width: usize = if b0 < 0x80 {
            1
        } else if b0 < 0xC2 {
            return false;
        } else if b0 <= 0xDF {
            if n - i < 2 || !(0x80 <= s[i + 1] && s[i + 1] < 0xC0) {
                proof {
                    if i + 1 < n {
                        assert(t[1] == s@[i + 1]);
                    }
                }
                return false;
            }
            proof {
                assert(t[1] == s@[i + 1]);
            }
            2
        } else if b0 == 0xE0 {
            if n - i < 3 || !(0xA0 <= s[i + 1] && s[i + 1] <= 0xBF) || !(0x80 <= s[i + 2] && s[i
                + 2] < 0xC0) {
                proof {
                    if i + 1 < n {
                        assert(t[1] == s@[i + 1]);
                    }
                    if i + 2 < n {
                        assert(t[2] == s@[i + 2]);
                    }
                }
                return false;
            }
            proof {
                assert(t[1] == s@[i + 1]);
                assert(t[2] == s@[i + 2]);
            }
            3
        } else if b0 == 0xED {
            if n - i < 3 || !(0x80 <= s[i + 1] && s[i + 1] <= 0x9F) || !(0x80 <= s[i + 2] && s[i
                + 2] < 0xC0) {
                proof {
                    if i + 1 < n {
                        assert(t[1] == s@[i + 1]);
                    }
                    if i + 2 < n {
                        assert(t[2] == s@[i + 2]);
                    }
                }
                return false;
            }
            proof {
                assert(t[1] == s@[i + 1]);
                assert(t[2] == s@[i + 2]);
            }
            3
        } else if b0 <= 0xEF {
            if n - i < 3 || !(0x80 <= s[i + 1] && s[i + 1] < 0xC0) || !(0x80 <= s[i + 2] && s[i
                + 2] < 0xC0) {
                proof {
                    if i + 1 < n {
                        assert(t[1] == s@[i + 1]);
                    }
                    if i + 2 < n {
                        assert(t[2] == s@[i + 2]);
                    }
                }
                return false;
            }
            proof {
                assert(t[1] == s@[i + 1]);
                assert(t[2] == s@[i + 2]);
            }
            3
        } else if b0 == 0xF0 {
            if n - i < 4 || !(0x90 <= s[i + 1] && s[i + 1] <= 0xBF) || !(0x80 <= s[i + 2] && s[i
                + 2] < 0xC0) || !(0x80 <= s[i + 3] && s[i + 3] < 0xC0) {
                proof {
                    if i + 1 < n {
                        assert(t[1] == s@[i + 1]);
                    }
                    if i + 2 < n {
                        assert(t[2] == s@[i + 2]);
                    }
                    if i + 3 < n {
                        assert(t[3] == s@[i + 3]);
                    }
                }
                return false;
            }
            proof {
                assert(t[1] == s@[i + 1]);
                assert(t[2] == s@[i + 2]);
                assert(t[3] == s@[i + 3]);
            }
            4
        } else if b0 <= 0xF3 {
            if n - i < 4 || !(0x80 <= s[i + 1] && s[i + 1] < 0xC0) || !(0x80 <= s[i + 2] && s[i
                + 2] < 0xC0) || !(0x80 <= s[i + 3] && s[i + 3] < 0xC0) {
                proof {
                    if i + 1 < n {
                        assert(t[1] == s@[i + 1]);
                    }
                    if i + 2 < n {
                        assert(t[2] == s@[i + 2]);
                    }
                    if i + 3 < n {
                        assert(t[3] == s@[i + 3]);
                    }
                }
                return false;
            }
            proof {
                assert(t[1] == s@[i + 1]);
                assert(t[2] == s@[i + 2]);
                assert(t[3] == s@[i + 3]);
            }
            4
        } else if b0 == 0xF4 {
            if n - i < 4 || !(0x80 <= s[i + 1] && s[i + 1] <= 0x8F) || !(0x80 <= s[i + 2] && s[i
                + 2] < 0xC0) || !(0x80 <= s[i + 3] && s[i + 3] < 0xC0) {
                proof {
                    if i + 1 < n {
                        assert(t[1] == s@[i + 1]);
                    }
                    if i + 2 < n {
                        assert(t[2] == s@[i + 2]);
                    }
                    if i + 3 < n {
                        assert(t[3] == s@[i + 3]);
                    }
                }
                return false;
            }
            proof {
                assert(t[1] == s@[i + 1]);
                assert(t[2] == s@[i + 2]);
                assert(t[3] == s@[i + 3]);
            }
            4
        } else {
            return false;
        };
        proof {
            assert(s@.skip(i as int).skip(width as int) =~= s@.skip(i + width));
        }
        i += width;
    }
    proof {
        assert(s@.skip(n as int) =~= Seq::<u8>::empty());
    }
    true
}

#[derive(Debug, Clone, Copy, PartialEq, Eq)]
pub enum MessageError {
    MalformedFrame,
}

/// What a prefix of `s` decodes to, with the exact number of bytes consumed.
/// `None` is a malformed frame: premature end, a bad length or integer,
/// invalid UTF-8 in a textual variant, or an unknown tag byte.
pub open spec fn spec_parse(s: Seq<u8>) -> Option<(MessageVal, int)>
    decreases s.len(), 0int, 0int,
{
    if s.len() == 0 {
        None
    } else {
        let tag = s[0];
        if tag == 0x2B || tag == 0x2D {
            match spec_find_crlf(s.skip(1)) {
                Some(k) => {
                    let line = s.skip(1).take(k);
                    if spec_is_utf8(line) {
                        if tag == 0x2B {
                            Some((MessageVal::SimpleString(line), 3 + k))
                        } else {
                            Some((MessageVal::Error(line), 3 + k))
                        }
                    } else {
                        None
                    }
                },
                None => None,
            }
        } else if tag == 0x3A {
            match spec_find_crlf(s.skip(1)) {
                Some(k) => match spec_parse_i64(s.skip(1).take(k)) {
                    Some(v) => Some((MessageVal::Integer(v as int), 3 + k)),
                    None => None,
                },
                None => None,
            }
        } else if tag == 0x24 {
            match spec_find_crlf(s.skip(1)) {
                Some(k) => match spec_parse_i64(s.skip(1).take(k)) {
                    Some(n) => if n == -1 {
                        Some((MessageVal::Null, 3 + k))
                    } else if n >= 0 {
                        let start = 3 + k;
                        if start + n + 2 <= s.len() && s[start + n] == 13 && s[start + n + 1]
                            == 10 {
                            Some((MessageVal::BulkString(s.subrange(start, start + n)), start + n
                                + 2))
                        } else {
                            None
                        }
                    } else {
                        None
                    },
                    None => None,
                },
                None => None,
            }
        } else if tag == 0x2A {
            match spec_find_crlf(s.skip(1)) {
                Some(k) => match spec_parse_i64(s.skip(1).take(k)) {
                    Some(n) => if n >= 0 && 0 <= k && 3 + k <= s.len() {
                        let start = 3 + k;
                        match spec_parse_items(s.skip(start), n as int) {
                            Some((vs, used)) => Some((MessageVal::Array(vs), start + used)),
                            None => None,
                        }
                    } else {
                        None
                    },
                    None => None,
                },
                None => None,
            }
        } else {
            None
        }
    }
}

/// `n` consecutive messages from the front of `s`, with the bytes they use.
pub open spec fn spec_parse_items(s: Seq<u8>, n: int) -> Option<(Seq<MessageVal>, int)>
    decreases s.len(), n, 1int,
{
    if n <= 0 {
        Some((Seq::empty(), 0))
    } else {
        match spec_parse(s) {
            Some((v, used)) => {
                if 1 <= used <= s.len() {
                    match spec_parse_items(s.skip(used), n - 1) {
                        Some((vs, used2)) => Some((seq![v] + vs, used + used2)),
                        None => None,
                    }
                } else {
                    None
                }
            },
            None => None,
        }
    }
}

/// Whatever parses consumes at least one and at most all of the bytes.
pub proof fn lemma_parse_bounds(s: Seq<u8>)
    ensures
        match spec_parse(s) {
            Some((v, used)) => 1 <= used <= s.len(),
            None => true,
        },
    decreases s.len(), 0int, 0int,
{
    if s.len() > 0 {
        let tag = s[0];
        if tag == 0x2B || tag == 0x2D || tag == 0x3A || tag == 0x24 || tag == 0x2A {
            lemma_find_crlf_props(s.skip(1));
            match spec_find_crlf(s.skip(1)) {
                Some(k) => {
                    if tag == 0x2A {
                        match spec_parse_i64(s.skip(1).take(k)) {
                            Some(n) => {
                                if n >= 0 && 0 <= k && 3 + k <= s.len() {
                                    lemma_parse_items_bounds(s.skip(3 + k), n as int);
                                }
                            },
                            None => {},
                        }
                    }
                },
                None => {},
            }
        }
    }
}

pub proof fn lemma_parse_items_bounds(s: Seq<u8>, n: int)
    ensures
        match spec_parse_items(s, n) {
            Some((vs, used)) => 0 <= used <= s.len() && vs.len() == n >= 0 || (n <= 0 && used == 0
                && vs.len() == 0),
            None => true,
        },
    decreases s.len(), n, 1int,
{
    if n > 0 {
        lemma_parse_bounds(s);
        match spec_parse(s) {
            Some((v, used)) => {
                if 1 <= used <= s.len() {
                    lemma_parse_items_bounds(s.skip(used), n - 1);
                }
            },
            None => {},
        }
    }
}

fn parse_line(s: &[u8], pos: usize) -> (r: Option<(usize, usize)>)
    requires
        pos < s@.len(),
    ensures
        match r {
            Some((k, end)) => {
                &&& pos < k
                &&& k + 1 < s@.len()
                &&& end == k + 2
                &&& spec_find_crlf(s@.skip(pos + 1)) == Some((k - pos - 1) as int)
                &&& s@.skip(pos + 1).take((k - pos - 1) as int) == s@.subrange(pos + 1, k as int)
            },
            None => spec_find_crlf(s@.skip(pos + 1)) is None,
        },
{
    let n = s.len();
    match find_crlf(s, pos + 1) {
        Some(k) => {
            proof {
                assert(s@.skip(pos + 1).take((k - pos - 1) as int) =~= s@.subrange(
                    pos + 1,
                    k as int,
                ));
            }
            Some((k, k + 2))
        },
        None => None,
    }
}

impl Message {
    /// Decode one message from the front of `bytes`; `Ok` also returns how
    /// many bytes it used, so pipelined input can be split.
    pub fn parse(bytes: &[u8]) -> (r: Result<(Message, usize), MessageError>)
        ensures
            match r {
                Ok(p) => spec_parse(bytes@) == Some((p.0@, p.1 as int)) && 1 <= p.1 <= bytes@.len(),
                Err(e) => spec_parse(bytes@) is None,
            },
    {
        proof {
            assert(bytes@.skip(0) =~= bytes@);
        }
        match parse_message_at(bytes, 0) {
            Ok((m, end)) => Ok((m, end)),
            Err(e) => Err(e),
        }
    }
}

/// Decode the message that starts at `pos`; `Ok` carries the index just past it.
#[verifier::rlimit(100)]
#[verifier::spinoff_prover]
fn parse_message_at(s: &[u8], pos: usize) -> (r: Result<(Message, usize), MessageError>)
    requires
        pos <= s@.len(),
    ensures
        match r {
            Ok(p) => {
                &&& spec_parse(s@.skip(pos as int)) == Some((p.0@, p.1 - pos as int))
                &&& pos < p.1 <= s@.len()
            },
            Err(e) => spec_parse(s@.skip(pos as int)) is None,
        },
    decreases s@.len() - pos,
{
    let ghost suf = s@.skip(pos as int);
    if pos == s.len() {
        return Err(MessageError::MalformedFrame);
    }
    let tag = s[pos];
    proof {
        assert(suf[0] == s@[pos as int]);
        assert(suf.skip(1) =~= s@.skip(pos + 1));
    }
    if tag == 0x2B || tag == 0x2D {
        match parse_line(s, pos) {
            Some((k, end)) => {
                let line = vstd::slice::slice_subrange(s, pos + 1, k);
                if is_utf8(line) {
                    let content = vstd::slice::slice_to_vec(line);
                    proof {
                        assert(suf.skip(1).take((k - pos - 1) as int) == line@);
                    }
                    if tag == 0x2B {
                        Ok((Message::SimpleString(content), end))
                    } else {
                        Ok((Message::Error(content), end))
                    }
                } else {
                    proof {
                        assert(suf.skip(1).take((k - pos - 1) as int) == line@);
                    }
                    Err(MessageError::MalformedFrame)
                }
            },
            None => Err(MessageError::MalformedFrame),
        }
    } else if tag == 0x3A {
        match parse_line(s, pos) {
            Some((k, end)) => {
                let line = vstd::slice::slice_subrange(s, pos + 1, k);
                proof {
                    assert(suf.skip(1).take((k - pos - 1) as int) == line@);
                }
                match crate::num::parse_i64(line) {
                    Some(v) => Ok((Message::Integer(v), end)),
                    None => Err(MessageError::MalformedFrame),
                }
            },
            None => Err(MessageError::MalformedFrame),
        }
    } else if tag == 0x24 {
        match parse_line(s, pos) {
            Some((k, end)) => {
                let line = vstd::slice::slice_subrange(s, pos + 1, k);
                proof {
                    assert(suf.skip(1).take((k - pos - 1) as int) == line@);
                }
                match crate::num::parse_i64(line) {
                    Some(n) => {
                        if n == -1 {
                            Ok((Message::Null, end))
                        } else if n >= 0 {
                            let remaining = s.len() - end;
                            if remaining >= 2 && (n as u64) <= (remaining - 2) as u64 {
                                let nlen = n as usize;
                                if s[end + nlen] == 13 && s[end + nlen + 1] == 10 {
                                    let content = vstd::slice::slice_to_vec(
                                        vstd::slice::slice_subrange(s, end, end + nlen),
                                    );
                                    proof {
                                        let start = (end - pos) as int;
                                        assert(suf[start + n] == s@[end + nlen]);
                                        assert(suf[start + n + 1] == s@[end + nlen + 1]);
                                        assert(suf.subrange(start, start + n) =~= s@.subrange(
                                            end as int,
                                            end + nlen,
                                        ));
                                    }
                                    Ok((Message::BulkString(content), end + nlen + 2))
                                } else {
                                    proof {
                                        let start = (end - pos) as int;
                                        assert(suf[start + n] == s@[end + nlen]);
                                        assert(suf[start + n + 1] == s@[end + nlen + 1]);
                                    }
                                    Err(MessageError::MalformedFrame)
                                }
                            } else {
                                Err(MessageError::MalformedFrame)
                            }
                        } else {
                            Err(MessageError::MalformedFrame)
                        }
                    },
                    None => Err(MessageError::MalformedFrame),
                }
            },
            None => Err(MessageError::MalformedFrame),
        }
    } else if tag == 0x2A {
        match parse_line(s, pos) {
            Some((k, end)) => {
                let line = vstd::slice::slice_subrange(s, pos + 1, k);
                proof {
                    assert(suf.skip(1).take((k - pos - 1) as int) == line@);
                }
                match crate::num::parse_i64(line) {
                    Some(n) => {
                        if n >= 0 {
                            let ghost start = (end - pos) as int;
                            let mut items: Vec<Message> = Vec::new();
                            let mut cur: usize = end;
                            let mut j: u64 = 0;
                            let count: u64 = n as u64;
                            proof {
                                assert(suf.skip(start) =~= s@.skip(end as int));
                                assert(spec_parse_items(suf.skip(start), n as int) == join_items(
                                    msgs_view(items@),
                                    0,
                                    spec_parse_items(s@.skip(cur as int), n as int),
                                ));
                            }
                            while j < count
                                invariant
                                    0 <= j <= count,
                                    pos < end <= cur <= s@.len(),
                                    count == n,
                                    n >= 0,
                                    start == (end - pos) as int,
                                    suf == s@.skip(pos as int),
                                    spec_parse(suf) == (match spec_parse_items(
                                        suf.skip(start),
                                        n as int,
                                    ) {
                                        Some(p) => Some((MessageVal::Array(p.0), start + p.1)),
                                        None => None::<(MessageVal, int)>,
                                    }),
                                    spec_parse_items(suf.skip(start), n as int) == join_items(
                                        msgs_view(items@),
                                        cur - end,
                                        spec_parse_items(s@.skip(cur as int), (n - j) as int),
                                    ),
                                decreases count - j,
                            {
                                match parse_message_at(s, cur) {
                                    Ok((m, iend)) => {
                                        proof {
                                            lemma_msgs_view_push(items@, m);
                                            assert(s@.skip(cur as int).skip((iend - cur) as int)
                                                =~= s@.skip(iend as int));
                                            lemma_join_items_step(
                                                msgs_view(items@),
                                                cur - end,
                                                s@.skip(cur as int),
                                                m@,
                                                (iend - cur) as int,
                                                (n - j) as int,
                                            );
                                        }
                                        items.push(m);
                                        cur = iend;
                                        j = j + 1;
                                    },
                                    Err(e) => {
                                        proof {
                                            assert(spec_parse_items(
                                                s@.skip(cur as int),
                                                (n - j) as int,
                                            ) is None);
                                            assert(spec_parse_items(suf.skip(start), n as int)
                                                is None);
                                        }
                                        return Err(MessageError::MalformedFrame);
                                    },
                                }
                            }
                            proof {
                                assert(spec_parse_items(s@.skip(cur as int), 0int) == Some((
                                    Seq::<MessageVal>::empty(),
                                    0int,
                                )));
                                assert(msgs_view(items@) + Seq::<MessageVal>::empty() =~= msgs_view(
                                    items@,
                                ));
                            }
                            Ok((Message::Array(items), cur))
                        } else {
                            Err(MessageError::MalformedFrame)
                        }
                    },
                    None => Err(MessageError::MalformedFrame),
                }
            },
            None => Err(MessageError::MalformedFrame),
        }
    } else {
        Err(MessageError::MalformedFrame)
    }
}

/// Glue for the array loop: a parsed prefix joined with what remains.
pub open spec fn join_items(
    prefix: Seq<MessageVal>,
    used: int,
    rest: Option<(Seq<MessageVal>, int)>,
) -> Option<(Seq<MessageVal>, int)> {
    match rest {
        Some((vs, u2)) => Some((prefix + vs, used + u2)),
        None => None,
    }
}

proof fn lemma_join_items_step(
    prefix: Seq<MessageVal>,
    used: int,
    s: Seq<u8>,
    v: MessageVal,
    vused: int,
    n: int,
)
    requires
        n >= 1,
        1 <= vused <= s.len(),
        spec_parse(s) == Some((v, vused)),
    ensures
        join_items(prefix, used, spec_parse_items(s, n)) == join_items(
            prefix.push(v),
            used + vused,
            spec_parse_items(s.skip(vused), n - 1),
        ),
{
    match spec_parse_items(s.skip(vused), n - 1) {
        Some((vs, u2)) => {
            assert(prefix + (seq![v] + vs) =~= prefix.push(v) + vs);
        },
        None => {},
    }
}

/// Messages the codec round-trips: textual payloads carry no CRLF and are
/// UTF-8, and every length-prefixed count fits the integer grammar.
pub open spec fn msg_valid(v: MessageVal) -> bool
    decreases v,
{
    match v {
        MessageVal::Error(s) => crlf_free(s) && spec_is_utf8(s),
        MessageVal::SimpleString(s) => crlf_free(s) && spec_is_utf8(s),
        MessageVal::BulkString(s) => s.len() <= i64::MAX,
        MessageVal::Array(items) => items.len() <= i64::MAX && msgs_valid(items),
        MessageVal::Integer(i) => i64::MIN <= i <= i64::MAX,
        MessageVal::Null => true,
    }
}

pub open spec fn msgs_valid(items: Seq<MessageVal>) -> bool
    decreases items,
{
    if items.len() == 0 {
        true
    } else {
        msg_valid(items[0]) && msgs_valid(items.drop_first())
    }
}

pub proof fn lemma_digits_crlf_free(s: Seq<u8>)
    requires
        all_digits(s),
    ensures
        crlf_free(s),
{
    assert forall|j: int| 0 <= j && j + 1 < s.len() implies !(#[trigger] s[j] == 13 && s[j + 1]
        == 10) by {
        assert(is_digit(s[j]));
    }
}

pub proof fn lemma_int_digits_crlf_free(i: int)
    ensures
        crlf_free(spec_int_digits(i)),
{
    if i < 0 {
        lemma_dec_digits_wf((-i) as nat);
        let t = spec_int_digits(i);
        assert forall|j: int| 0 <= j && j + 1 < t.len() implies !(#[trigger] t[j] == 13 && t[j + 1]
            == 10) by {
            if j > 0 {
                assert(t[j] == spec_dec_digits((-i) as nat)[j - 1]);
                assert(is_digit(t[j]));
            }
        }
    } else {
        lemma_dec_digits_wf(i as nat);
        lemma_digits_crlf_free(spec_dec_digits(i as nat));
    }
}

/// The canonical digits of an in-range integer parse back to it.
pub proof fn lemma_parse_int_digits(i: int)
    requires
        i64::MIN <= i <= i64::MAX,
    ensures
        spec_parse_i64(spec_int_digits(i)) == Some(i as i64),
{
    if i < 0 {
        lemma_dec_digits_wf((-i) as nat);
        let t = spec_int_digits(i);
        assert(t[0] == 0x2D);
        assert(t.drop_first() =~= spec_dec_digits((-i) as nat));
        assert(spec_digits_val(spec_dec_digits((-i) as nat)) == (-i) as nat);
    } else {
        lemma_dec_digits_wf(i as nat);
        let t = spec_int_digits(i);
        assert(t =~= spec_dec_digits(i as nat));
        assert(is_digit(t[0]));
        assert(t[0] != 0x2D && t[0] != 0x2B);
    }
}

pub proof fn lemma_serialize_len_pos(v: MessageVal)
    ensures
        1 <= spec_serialize(v).len(),
{
}

/// The codec round-trip law: serializing any valid message and parsing the result, with
/// any trailing bytes, yields the same message and consumes exactly its
/// serialized length.
#[verifier::rlimit(100)]
pub proof fn lemma_parse_serialize(v: MessageVal, rest: Seq<u8>)
    requires
        msg_valid(v),
    ensures
        spec_parse(spec_serialize(v) + rest) == Some((
            v,
            spec_serialize(v).len() as int,
        )),
    decreases v, 0int,
{
    let ser = spec_serialize(v);
    let t = ser + rest;
    match v {
        MessageVal::SimpleString(c) => {
            assert(t[0] == 0x2B);
            assert(t.skip(1) =~= c + crlf() + rest);
            lemma_find_crlf_prefix(c, rest);
            assert(t.skip(1).take(c.len() as int) =~= c);
        },
        MessageVal::Error(c) => {
            assert(t[0] == 0x2D);
            assert(t.skip(1) =~= c + crlf() + rest);
            lemma_find_crlf_prefix(c, rest);
            assert(t.skip(1).take(c.len() as int) =~= c);
        },
        MessageVal::Integer(i) => {
            assert(t[0] == 0x3A);
            let digits = spec_int_digits(i);
            assert(t.skip(1) =~= digits + crlf() + rest);
            lemma_int_digits_crlf_free(i);
            lemma_find_crlf_prefix(digits, rest);
            assert(t.skip(1).take(digits.len() as int) =~= digits);
            lemma_parse_int_digits(i);
            assert(spec_parse(t) == Some((MessageVal::Integer((i as i64) as int), 3
                + digits.len() as int)));
        },
        MessageVal::Null => {
            assert(t[0] == 0x24);
            assert(t.skip(1) =~= seq![0x2Du8, 0x31u8] + crlf() + rest);
            assert(crlf_free(seq![0x2Du8, 0x31u8]));
            lemma_find_crlf_prefix(seq![0x2Du8, 0x31u8], rest);
            let line = t.skip(1).take(2);
            assert(line =~= seq![0x2Du8, 0x31u8]);
            assert(line[0] == 0x2D);
            assert(line.drop_first() =~= seq![0x31u8]);
            assert(all_digits(seq![0x31u8]));
            assert(seq![0x31u8].drop_last() =~= Seq::<u8>::empty());
            assert(spec_digits_val(Seq::<u8>::empty()) == 0);
            assert(seq![0x31u8].last() == 0x31);
            assert(spec_digits_val(seq![0x31u8]) == spec_digits_val(seq![0x31u8].drop_last()) * 10
                + (seq![0x31u8].last() - 0x30) as nat);
            assert(spec_digits_val(seq![0x31u8]) == 1);
            assert(spec_parse_i64(line) == Some(-1i64));
        },
        MessageVal::BulkString(b) => {
            assert(t[0] == 0x24);
            let digits = spec_dec_digits(b.len());
            lemma_dec_digits_wf(b.len());
            lemma_digits_crlf_free(digits);
            assert(t.skip(1) =~= digits + crlf() + (b + crlf() + rest));
            lemma_find_crlf_prefix(digits, b + crlf() + rest);
            assert(t.skip(1).take(digits.len() as int) =~= digits);
            lemma_parse_int_digits(b.len() as int);
            assert(spec_int_digits(b.len() as int) == digits);
            let n = b.len() as int;
            let start = 3 + digits.len() as int;
            assert(start + n + 2 <= t.len());
            assert(t[start + n] == 13) by {
                assert(t[start + n] == (b + crlf())[n]);
            }
            assert(t[start + n + 1] == 10) by {
                assert(t[start + n + 1] == (b + crlf())[n + 1]);
            }
            assert(t.subrange(start, start + n) =~= b);
        },
        MessageVal::Array(items) => {
            assert(t[0] == 0x2A);
            let digits = spec_dec_digits(items.len());
            lemma_dec_digits_wf(items.len());
            lemma_digits_crlf_free(digits);
            let body = spec_serialize_items(items);
            assert(t.skip(1) =~= digits + crlf() + (body + rest));
            lemma_find_crlf_prefix(digits, body + rest);
            assert(t.skip(1).take(digits.len() as int) =~= digits);
            lemma_parse_int_digits(items.len() as int);
            assert(spec_int_digits(items.len() as int) == digits);
            let start = 3 + digits.len() as int;
            assert(start <= t.len());
            assert(t.skip(start) =~= body + rest);
            assert(decreases_to!(v => v->Array_0));
            lemma_parse_serialize_items(items, rest);
            assert(spec_parse_items(t.skip(start), items.len() as int) == Some((
                items,
                body.len() as int,
            )));
        },
    }
}

pub proof fn lemma_parse_serialize_items(items: Seq<MessageVal>, rest: Seq<u8>)
    requires
        msgs_valid(items),
    ensures
        spec_parse_items(spec_serialize_items(items) + rest, items.len() as int) == Some((
            items,
            spec_serialize_items(items).len() as int,
        )),
    decreases items, 1int,
{
    if items.len() == 0 {
        assert(spec_serialize_items(items) =~= Seq::<u8>::empty());
    } else {
        let head = items[0];
        let tail = items.drop_first();
        let hs = spec_serialize(head);
        let ts = spec_serialize_items(tail);
        let t = spec_serialize_items(items) + rest;
        assert(spec_serialize_items(items) == hs + ts);
        assert(t =~= hs + (ts + rest));
        assert(decreases_to!(items => items[0]));
        lemma_parse_serialize(head, ts + rest);
        lemma_serialize_len_pos(head);
        assert(spec_parse(t) == Some((head, hs.len() as int)));
        assert(t.skip(hs.len() as int) =~= ts + rest);
        lemma_parse_serialize_items(tail, rest);
        assert(seq![head] + tail =~= items);
    }
}

/// The codec law with nothing after the message.
pub proof fn lemma_round_trip(v: MessageVal)
    requires
        msg_valid(v),
    ensures
        spec_parse(spec_serialize(v)) == Some((v, spec_serialize(v).len() as int)),
{
    assert(spec_serialize(v) + Seq::<u8>::empty() =~= spec_serialize(v));
    lemma_parse_serialize(v, Seq::empty());
}

/// The text inside a simple or bulk string, the only unpackable variants.
pub fn unpack_string(message: &Message) -> (r: Result<Vec<u8>, MessageError>)
    ensures
        match r {
            Ok(v) => (message@ matches MessageVal::SimpleString(c) && v@ == c) || (message@
                matches MessageVal::BulkString(c) && v@ == c),
            Err(e) => !(message@ is SimpleString) && !(message@ is BulkString),
        },
{
    match message {
        Message::SimpleString(c) => Ok(copy_bytes(c)),
        Message::BulkString(c) => Ok(copy_bytes(c)),
        _ => Err(MessageError::MalformedFrame),
    }
}

/// Every message a buffer holds, in order, up to the first malformed or
/// incomplete frame; what follows that frame is dropped.
pub open spec fn spec_split_messages(s: Seq<u8>) -> Seq<MessageVal>
    decreases s.len(),
{
    match spec_parse(s) {
        Some((v, used)) => if 1 <= used <= s.len() {
            seq![v] + spec_split_messages(s.skip(used))
        } else {
            seq![v]
        },
        None => Seq::empty(),
    }
}

/// Split one socket read into the messages it pipelines.
pub fn split_messages(data: &[u8]) -> (r: Vec<Message>)
    ensures
        msgs_view(r@) == spec_split_messages(data@),
{
    let mut items: Vec<Message> = Vec::new();
    let mut pos: usize = 0;
    proof {
        assert(data@.skip(0) =~= data@);
    }
    loop
        invariant
            0 <= pos <= data@.len(),
            spec_split_messages(data@) == msgs_view(items@) + spec_split_messages(
                data@.skip(pos as int),
            ),
        decreases data@.len() - pos,
    {
        match parse_message_at(data, pos) {
            Ok((m, end)) => {
                proof {
                    lemma_msgs_view_push(items@, m);
                    assert(data@.skip(pos as int).skip((end - pos) as int) =~= data@.skip(
                        end as int,
                    ));
                    assert(msgs_view(items@) + (seq![m@] + spec_split_messages(
                        data@.skip(end as int),
                    )) =~= msgs_view(items@).push(m@) + spec_split_messages(data@.skip(end as int)));
                }
                items.push(m);
                pos = end;
            },
            Err(e) => {
                proof {
                    assert(spec_split_messages(data@.skip(pos as int)) =~= Seq::<MessageVal>::empty());
                    assert(msgs_view(items@) + Seq::<MessageVal>::empty() =~= msgs_view(items@));
                }
                return items;
            },
        }
    }
}

impl Message {
    /// A structurally equal copy.
    pub fn duplicate(&self) -> (r: Message)
        ensures
            r@ == self@,
        decreases *self,
    {
        match self {
            Message::Error(s) => Message::Error(copy_bytes(s)),
            Message::SimpleString(s) => Message::SimpleString(copy_bytes(s)),
            Message::BulkString(s) => Message::BulkString(copy_bytes(s)),
            Message::Integer(i) => Message::Integer(*i),
            Message::Null => Message::Null,
            Message::Array(items) => {
                let mut out: Vec<Message> = Vec::new();
                let mut i: usize = 0;
                proof {
                    lemma_msgs_view_index(items@);
                    assert(msgs_view(out@) =~= msgs_view(items@).take(0));
                }
                while i < items.len()
                    invariant
                        *self == Message::Array(*items),
                        0 <= i <= items@.len(),
                        msgs_view(items@).len() == items@.len(),
                        forall|j: int|
                            0 <= j < items@.len() ==> msgs_view(items@)[j] == msg_view(items@[j]),
                        msgs_view(out@) == msgs_view(items@).take(i as int),
                    decreases items@.len() - i,
                {
                    proof {
                        assert(decreases_to!(*self => self->Array_0));
                        assert(decreases_to!(*items => items[i as int]));
                    }
                    let copy = items[i].duplicate();
                    proof {
                        lemma_msgs_view_push(out@, copy);
                        assert(msgs_view(items@).take(i as int).push(msg_view(items@[i as int]))
                            =~= msgs_view(items@).take(i + 1));
                    }
                    out.push(copy);
                    i += 1;
                }
                proof {
                    assert(msgs_view(items@).take(items@.len() as int) =~= msgs_view(items@));
                }
                Message::Array(out)
            },
        }
    }
}

/// Views pass through suffixing.
pub proof fn lemma_msgs_view_skip(s: Seq<Message>, n: int)
    requires
        0 <= n <= s.len(),
    ensures
        msgs_view(s.skip(n)) == msgs_view(s).skip(n),
{
    lemma_msgs_view_index(s);
    lemma_msgs_view_index(s.skip(n));
    assert(msgs_view(s.skip(n)) =~= msgs_view(s).skip(n));
}

} // verus!
