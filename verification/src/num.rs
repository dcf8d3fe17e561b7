//! Decimal and little-endian integer codecs shared by the wire protocol,
//! the stream-id grammar and the snapshot format.

use vstd::prelude::*;

verus! {

pub open spec fn is_digit(b: u8) -> bool {
    0x30 <= b <= 0x39
}

pub open spec fn all_digits(s: Seq<u8>) -> bool {
    forall|i: int| 0 <= i < s.len() ==> is_digit(s[i])
}

/// Decimal digits of `n`, most significant first, no leading zeros.
pub open spec fn spec_dec_digits(n: nat) -> Seq<u8>
    decreases n,
{
    if n < 10 {
        seq![(n + 0x30) as u8]
    } else {
        spec_dec_digits(n / 10).push((n % 10 + 0x30) as u8)
    }
}

/// Numeric value of a digit string (most significant first).
pub open spec fn spec_digits_val(s: Seq<u8>) -> nat
    decreases s.len(),
{
    if s.len() == 0 {
        0
    } else {
        spec_digits_val(s.drop_last()) * 10 + (s.last() - 0x30) as nat
    }
}

pub proof fn lemma_dec_digits_wf(n: nat)
    ensures
        spec_dec_digits(n).len() >= 1,
        all_digits(spec_dec_digits(n)),
        spec_digits_val(spec_dec_digits(n)) == n,
    decreases n,
{
    if n < 10 {
        assert(spec_dec_digits(n) =~= seq![(n + 0x30) as u8]);
        assert(spec_digits_val(seq![(n + 0x30) as u8]) == spec_digits_val(
            seq![(n + 0x30) as u8].drop_last(),
        ) * 10 + n);
        assert(seq![(n + 0x30) as u8].drop_last() =~= Seq::<u8>::empty());
    } else {
        lemma_dec_digits_wf(n / 10);
        let s = spec_dec_digits(n / 10).push((n % 10 + 0x30) as u8);
        assert(s.drop_last() =~= spec_dec_digits(n / 10));
        assert forall|i: int| 0 <= i < s.len() implies is_digit(#[trigger] s[i]) by {
            if i < s.len() - 1 {
                assert(s[i] == spec_dec_digits(n / 10)[i]);
            }
        }
    }
}

/// Render an unsigned integer as ASCII decimal digits.
pub fn u64_to_dec(n: u64) -> (r: Vec<u8>)
    ensures
        r@ == spec_dec_digits(n as nat),
{
    let mut digits: Vec<u8> = Vec::new();
    let mut m: u64 = n;
    while m >= 10
        invariant
            spec_dec_digits(n as nat) == spec_dec_digits(m as nat) + digits@,
        decreases m,
    {
        let d: u8 = (m % 10) as u8;
        proof {
            assert(spec_dec_digits(m as nat) == spec_dec_digits((m / 10) as nat).push(
                (m % 10 + 0x30) as u8,
            ));
            assert(spec_dec_digits((m / 10) as nat).push((m % 10 + 0x30) as u8) + digits@
                =~= spec_dec_digits((m / 10) as nat) + (seq![(m % 10 + 0x30) as u8] + digits@));
        }
        let mut nd: Vec<u8> = Vec::new();
        nd.push(d + 0x30);
        nd.append(&mut digits);
        digits = nd;
        m = m / 10;
    }
    let ghost dg = digits@;
    let mut r: Vec<u8> = Vec::new();
    r.push((m as u8) + 0x30);
    r.append(&mut digits);
    proof {
        assert(spec_dec_digits(m as nat) =~= seq![((m + 0x30) as u8)]);
        assert(r@ =~= seq![((m + 0x30) as u8)] + dg);
    }
    r
}

/// `Some(v)` iff `s` is one or more digits whose value `v` fits in `u64`.
pub open spec fn spec_parse_u64(s: Seq<u8>) -> Option<u64> {
    if s.len() >= 1 && all_digits(s) && spec_digits_val(s) <= u64::MAX {
        Some(spec_digits_val(s) as u64)
    } else {
        None
    }
}

/// Once a digit prefix exceeds the `u64` range, appending digits keeps it out.
proof fn lemma_digits_val_grows(s: Seq<u8>, more: nat)
    requires
        spec_digits_val(s) > u64::MAX,
    ensures
        spec_digits_val(s) * 10 + more > u64::MAX,
{
}

pub fn parse_u64(s: &[u8]) -> (r: Option<u64>)
    ensures
        r == spec_parse_u64(s@),
{
    if s.len() == 0 {
        return None;
    }
    let ghost sv = s@;
    let mut acc: u64 = 0;
    let mut over: bool = false;
    let mut i: usize = 0;
    while i < s.len()
        invariant
            0 <= i <= sv.len(),
            sv == s@,
            all_digits(sv.take(i as int)),
            !over ==> acc == spec_digits_val(sv.take(i as int)),
            over ==> spec_digits_val(sv.take(i as int)) > u64::MAX,
        decreases s.len() - i,
    {
        let b = s[i];
        if b < 0x30 || b > 0x39 {
            proof {
                assert(!is_digit(sv[i as int]));
            }
            return None;
        }
        let d: u64 = (b - 0x30) as u64;
        proof {
            assert(sv.take(i + 1).drop_last() =~= sv.take(i as int));
            assert(sv.take(i + 1).last() == sv[i as int]);
        }
        if over {
            proof {
                lemma_digits_val_grows(sv.take(i as int), d as nat);
            }
        } else {
            if acc > 0xFFFF_FFFF_FFFF_FFFF / 10 {
                over = true;
                proof {
                    assert(spec_digits_val(sv.take(i + 1)) == acc * 10 + d);
                }
            } else {
                let shifted: u64 = acc * 10;
                if d > u64::MAX - shifted {
                    over = true;
                } else {
                    acc = shifted + d;
                }
            }
        }
        i += 1;
    }
    proof {
        assert(sv.take(sv.len() as int) =~= sv);
    }
    if over {
        None
    } else {
        Some(acc)
    }
}

/// `Some(v)` iff `s` is an optional sign followed by one or more digits, and
/// the signed value fits in `i64`.
pub open spec fn spec_parse_i64(s: Seq<u8>) -> Option<i64> {
    if s.len() == 0 {
        None
    } else if s[0] == 0x2D {
        let d = s.drop_first();
        if d.len() >= 1 && all_digits(d) && spec_digits_val(d) <= 0x8000_0000_0000_0000 {
            Some((-(spec_digits_val(d) as int)) as i64)
        } else {
            None
        }
    } else if s[0] == 0x2B {
        let d = s.drop_first();
        if d.len() >= 1 && all_digits(d) && spec_digits_val(d) <= i64::MAX {
            Some(spec_digits_val(d) as i64)
        } else {
            None
        }
    } else {
        if all_digits(s) && spec_digits_val(s) <= i64::MAX {
            Some(spec_digits_val(s) as i64)
        } else {
            None
        }
    }
}

fn parse_u64_range(s: &[u8], from: usize) -> (r: Option<u64>)
    requires
        from <= s@.len(),
    ensures
        r == spec_parse_u64(s@.skip(from as int)),
{
    let sub = vstd::slice::slice_subrange(s, from, s.len());
    parse_u64(sub)
}

pub fn parse_i64(s: &[u8]) -> (r: Option<i64>)
    ensures
        r == spec_parse_i64(s@),
{
    if s.len() == 0 {
        return None;
    }
    let b0 = s[0];
    if b0 == 0x2D {
        match parse_u64_range(s, 1) {
            Some(m) => {
                if m <= 0x8000_0000_0000_0000 {
                    if m == 0x8000_0000_0000_0000 {
                        Some(i64::MIN)
                    } else {
                        Some(-(m as i64))
                    }
                } else {
                    None
                }
            },
            None => {
                proof {
                    let d = s@.drop_first();
                    assert(d =~= s@.skip(1));
                }
                None
            },
        }
    } else if b0 == 0x2B {
        match parse_u64_range(s, 1) {
            Some(m) => {
                proof {
                    assert(s@.drop_first() =~= s@.skip(1));
                }
                if m <= i64::MAX as u64 {
                    Some(m as i64)
                } else {
                    None
                }
            },
            None => {
                proof {
                    assert(s@.drop_first() =~= s@.skip(1));
                }
                None
            },
        }
    } else {
        match parse_u64(s) {
            Some(m) => {
                if m <= i64::MAX as u64 {
                    Some(m as i64)
                } else {
                    None
                }
            },
            None => None,
        }
    }
}

/// The eight little-endian bytes of `v`.
pub open spec fn spec_le8(v: u64) -> Seq<u8> {
    seq![
        (v % 256) as u8,
        (v / 256 % 256) as u8,
        (v / 0x10000 % 256) as u8,
        (v / 0x1000000 % 256) as u8,
        (v / 0x100000000 % 256) as u8,
        (v / 0x10000000000 % 256) as u8,
        (v / 0x1000000000000 % 256) as u8,
        (v / 0x100000000000000 % 256) as u8,
    ]
}

pub fn u64_to_le8(v: u64) -> (r: Vec<u8>)
    ensures
        r@ == spec_le8(v),
        r@.len() == 8,
{
    let mut r: Vec<u8> = Vec::new();
    r.push((v % 256) as u8);
    r.push((v / 256 % 256) as u8);
    r.push((v / 0x10000 % 256) as u8);
    r.push((v / 0x1000000 % 256) as u8);
    r.push((v / 0x100000000 % 256) as u8);
    r.push((v / 0x10000000000 % 256) as u8);
    r.push((v / 0x1000000000000 % 256) as u8);
    r.push((v / 0x100000000000000 % 256) as u8);
    proof {
        assert(r@ =~= spec_le8(v));
    }
    r
}

/// Value of eight little-endian bytes.
pub open spec fn spec_le8_val(s: Seq<u8>) -> u64
    recommends
        s.len() == 8,
{
    (s[0] + s[1] * 256 + s[2] * 0x10000 + s[3] * 0x1000000 + s[4] * 0x100000000 + s[5]
        * 0x10000000000 + s[6] * 0x1000000000000 + s[7] * 0x100000000000000) as u64
}

pub proof fn lemma_le8_round_trip(v: u64)
    ensures
        spec_le8_val(spec_le8(v)) == v,
{
    assert((v % 256) + (v / 256 % 256) * 256 + (v / 0x10000 % 256) * 0x10000 + (v / 0x1000000
        % 256) * 0x1000000 + (v / 0x100000000 % 256) * 0x100000000 + (v / 0x10000000000 % 256)
        * 0x10000000000 + (v / 0x1000000000000 % 256) * 0x1000000000000 + (v / 0x100000000000000
        % 256) * 0x100000000000000 == v) by (bit_vector);
}

pub fn le8_to_u64(s: &[u8], at: usize) -> (r: u64)
    requires
        at + 8 <= s@.len(),
    ensures
        r == spec_le8_val(s@.subrange(at as int, at + 8)),
{
    let b0 = s[at] as u64;
    let b1 = s[at + 1] as u64;
    let b2 = s[at + 2] as u64;
    let b3 = s[at + 3] as u64;
    let b4 = s[at + 4] as u64;
    let b5 = s[at + 5] as u64;
    let b6 = s[at + 6] as u64;
    let b7 = s[at + 7] as u64;
    b0 + b1 * 256 + b2 * 0x10000 + b3 * 0x1000000 + b4 * 0x100000000 + b5 * 0x10000000000 + b6
        * 0x1000000000000 + b7 * 0x100000000000000
}

} // verus!
