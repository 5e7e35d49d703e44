//! Wire framing for the multiplexer.
//!
//! Every outgoing and incoming message is text of the form
//! `"<id>|<payload>"`: the correlation ID in decimal, the first `|` as the
//! separator, and the payload (which may itself contain `|`) after it.
//! There is no other framing, length prefix or checksum.

use vstd::prelude::*;

verus! {

/// The separator between the decimal ID and the payload: `'|'`.
pub const SEP: u8 = 124;

/// Whether `b` is an ASCII decimal digit.
pub open spec fn is_digit(b: u8) -> bool {
    48 <= b && b <= 57
}

/// Whether every byte of `s` is an ASCII decimal digit.
pub open spec fn all_digits(s: Seq<u8>) -> bool {
    forall|i: int| 0 <= i < s.len() ==> is_digit(s[i])
}

/// The number written in decimal by `s` (most significant digit first).
pub open spec fn dec_val(s: Seq<u8>) -> nat
    decreases s.len(),
{
    if s.len() == 0 {
        0
    } else {
        dec_val(s.drop_last()) * 10 + (s.last() - 48) as nat
    }
}

/// The canonical decimal digits of `n`: no sign, no leading zero (except
/// for `n == 0` itself).
pub open spec fn dec_digits(n: nat) -> Seq<u8>
    decreases n,
{
    if n < 10 {
        seq![(48 + n) as u8]
    } else {
        dec_digits(n / 10).push((48 + n % 10) as u8)
    }
}

/// Whether `s` is a decimal numeral that a `u64` ID can carry: non-empty,
/// all digits, value in range.
pub open spec fn is_dec_u64(s: Seq<u8>) -> bool {
    &&& s.len() > 0
    &&& all_digits(s)
    &&& dec_val(s) <= u64::MAX
}

/// Index of the first separator at or after `i`, if any.
pub open spec fn find_sep_from(s: Seq<u8>, i: int) -> Option<int>
    decreases s.len() - i,
{
    if i < 0 || i >= s.len() {
        None
    } else if s[i] == SEP {
        Some(i)
    } else {
        find_sep_from(s, i + 1)
    }
}

/// Index of the first separator in `s`, if any.
pub open spec fn find_sep(s: Seq<u8>) -> Option<int> {
    find_sep_from(s, 0)
}

/// The frame for correlation ID `id` and `payload`: decimal ID, separator,
/// payload.
pub open spec fn frame_spec(id: u64, payload: Seq<u8>) -> Seq<u8> {
    dec_digits(id as nat) + seq![SEP] + payload
}

/// What parsing an inbound frame yields: the ID before the first separator
/// and the content after it, or nothing when the separator is absent or
/// the prefix is not a valid `u64` numeral.
pub open spec fn parse_spec(s: Seq<u8>) -> Option<(u64, Seq<u8>)> {
    match find_sep(s) {
        None => None,
        Some(j) => {
            let digits = s.take(j);
            if is_dec_u64(digits) {
                Some(((dec_val(digits) as u64), s.skip(j + 1)))
            } else {
                None
            }
        },
    }
}

/// A longer numeral never has a smaller value: dropping trailing digits
/// cannot increase `dec_val`.
proof fn lemma_dec_val_take_le(s: Seq<u8>, k: int)
    requires
        0 <= k <= s.len(),
    ensures
        dec_val(s.take(k)) <= dec_val(s),
    decreases s.len() - k,
{
    if k < s.len() {
        assert(s.take(k + 1).drop_last() =~= s.take(k));
        assert(s.take(k + 1).last() == s[k]);
        assert(dec_val(s.take(k)) <= dec_val(s.take(k + 1)));
        lemma_dec_val_take_le(s, k + 1);
    } else {
        assert(s.take(k) =~= s);
    }
}

/// Appends the decimal digits of `n` to `out`.
pub fn push_dec(n: u64, out: &mut Vec<u8>)
    ensures
        final(out)@ == old(out)@ + dec_digits(n as nat),
    decreases n,
{
    if n < 10 {
        out.push(48 + n as u8);
        proof {
            assert(old(out)@ + dec_digits(n as nat) =~= old(out)@.push((48 + n) as u8));
        }
    } else {
        push_dec(n / 10, out);
        out.push(48 + (n % 10) as u8);
        proof {
            assert(old(out)@ + dec_digits(n as nat) =~= (old(out)@ + dec_digits(
                (n / 10) as nat,
            )).push((48 + n % 10) as u8));
        }
    }
}

/// Builds the outgoing frame `"<id>|<payload>"`.
pub fn frame(id: u64, payload: &Vec<u8>) -> (r: Vec<u8>)
    ensures
        r@ == frame_spec(id, payload@),
{
    let mut out: Vec<u8> = Vec::new();
    proof {
        assert(out@ =~= Seq::<u8>::empty());
        assert(Seq::<u8>::empty() + dec_digits(id as nat) =~= dec_digits(id as nat));
    }
    push_dec(id, &mut out);
    out.push(SEP);
    proof {
        assert(out@ =~= dec_digits(id as nat) + seq![SEP]);
    }
    crate::bytes::append_bytes(&mut out, payload);
    proof {
        assert(out@ =~= frame_spec(id, payload@));
    }
    out
}

/// Parses the digits `v[0..end]` as a `u64`, reporting exactly whether they
/// form a valid numeral in range.
fn parse_dec(v: &Vec<u8>, end: usize) -> (r: Option<u64>)
    requires
        end <= v@.len(),
    ensures
        match r {
            Some(x) => is_dec_u64(v@.take(end as int)) && x as nat == dec_val(
                v@.take(end as int),
            ),
            None => !is_dec_u64(v@.take(end as int)),
        },
{
    if end == 0 {
        return None;
    }
    let ghost digits = v@.take(end as int);
    let mut val: u64 = 0;
    let mut i: usize = 0;
    proof {
        assert(v@.take(0) =~= Seq::<u8>::empty());
    }
    while i < end
        invariant
            i <= end,
            end <= v@.len(),
            digits == v@.take(end as int),
            all_digits(v@.take(i as int)),
            val as nat == dec_val(v@.take(i as int)),
        decreases end - i,
    {
        let b = v[i];
        proof {
            assert(v@.take(i + 1 as int).drop_last() =~= v@.take(i as int));
            assert(v@.take(i + 1 as int).last() == v@[i as int]);
        }
        if b < 48 || b > 57 {
            proof {
                assert(digits[i as int] == b);
                assert(!all_digits(digits));
            }
            return None;
        }
        let d = b - 48;
        // val * 10 + d would exceed u64::MAX exactly in these two cases
        // (u64::MAX / 10 == 1844674407370955161, u64::MAX % 10 == 5).
        if val > 1844674407370955161u64 || (val == 1844674407370955161u64 && d > 5) {
            proof {
                assert(dec_val(v@.take(i + 1 as int)) == (val as nat) * 10 + d);
                assert((val as nat) * 10 + d > u64::MAX);
                lemma_dec_val_take_le(digits, i + 1 as int);
                assert(digits.take(i + 1 as int) =~= v@.take(i + 1 as int));
                assert(dec_val(digits) > u64::MAX);
            }
            return None;
        }
        val = val * 10 + d as u64;
        i = i + 1;
    }
    proof {
        assert(v@.take(end as int) =~= digits);
    }
    Some(val)
}

/// Finds the first separator byte, if any.
fn find_sep_exec(v: &Vec<u8>) -> (r: Option<usize>)
    ensures
        match r {
            Some(j) => j < v@.len() && find_sep(v@) == Some(j as int),
            None => find_sep(v@) is None,
        },
{
    let mut j: usize = 0;
    while j < v.len()
        invariant
            j <= v@.len(),
            find_sep(v@) == find_sep_from(v@, j as int),
        decreases v@.len() - j,
    {
        if v[j] == SEP {
            return Some(j);
        }
        j = j + 1;
    }
    None
}

/// Parses an inbound frame into its correlation ID and content.
///
/// Returns `None` exactly when the separator is absent or the prefix
/// before it is not a valid `u64` numeral — the protocol violations of the
/// wire format.
pub fn parse_frame(v: &Vec<u8>) -> (r: Option<(u64, Vec<u8>)>)
    ensures
        match r {
            Some(p) => parse_spec(v@) == Some((p.0, p.1@)),
            None => parse_spec(v@) is None,
        },
{
    let j = match find_sep_exec(v) {
        Some(j) => j,
        None => {
            return None;
        },
    };
    let id = match parse_dec(v, j) {
        Some(id) => id,
        None => {
            return None;
        },
    };
    let n = v.len();
    assert(j < n);
    let mut content: Vec<u8> = Vec::new();
    let mut k: usize = j + 1;
    proof {
        assert(content@ =~= v@.subrange(j + 1 as int, j + 1 as int));
    }
    while k < v.len()
        invariant
            j < k <= v@.len(),
            content@ == v@.subrange(j + 1 as int, k as int),
        decreases v@.len() - k,
    {
        content.push(v[k]);
        proof {
            assert(v@.subrange(j + 1 as int, k + 1 as int) =~= v@.subrange(
                j + 1 as int,
                k as int,
            ).push(v@[k as int]));
        }
        k = k + 1;
    }
    proof {
        assert(content@ =~= v@.skip(j + 1 as int));
    }
    Some((id, content))
}

} // verus!
