use crate::decimal::{
    decimal, digits_value, is_digits, lemma_decimal_len_u64, lemma_decimal_reads_back,
    lemma_digits_value_prefix, push_decimal,
};
use crate::object::{kind_name, lemma_kind_name, Kind, ObjectError};
use vstd::prelude::*;

verus! {

/// How far into a decompressed stream the NUL that ends the header is looked for.
pub const MAX_HEADER_LEN: usize = 64;

/// The header that precedes a payload of `n` bytes: `<kind> <n>\0`.
pub open spec fn header(k: Kind, n: nat) -> Seq<u8> {
    kind_name(k) + seq![32u8] + decimal(n) + seq![0u8]
}

/// The framed byte stream of an object: its header, then its payload.
pub open spec fn framed(k: Kind, payload: Seq<u8>) -> Seq<u8> {
    header(k, payload.len()) + payload
}

/// `s` starts with a well-formed header for kind `k` and size `n` whose NUL
/// stands at index `end`.
pub open spec fn header_at(s: Seq<u8>, k: Kind, n: nat, end: int) -> bool {
    let kl = kind_name(k).len() as int;
    &&& kl < end < s.len()
    &&& end < MAX_HEADER_LEN
    &&& s[end] == 0
    &&& forall|i: int| 0 <= i < end ==> s[i] != 0
    &&& s.subrange(0, kl) == kind_name(k)
    &&& s[kl] == 32
    &&& is_digits(s.subrange(kl + 1, end))
    &&& digits_value(s.subrange(kl + 1, end)) == n
    &&& n <= usize::MAX
}

/// `s` is a decompressed object file that holds object `(k, payload)`: a
/// header for `k` and the payload's length, then the payload; bytes after it
/// are ignored.
pub open spec fn stored_object(s: Seq<u8>, k: Kind, payload: Seq<u8>) -> bool {
    exists|end: int|
        header_at(s, k, payload.len(), end) && end + 1 + payload.len() <= s.len()
            && #[trigger] s.subrange(end + 1, end + 1 + payload.len()) == payload
}

/// A stream holds at most one header.
pub proof fn lemma_header_unique(s: Seq<u8>, k1: Kind, n1: nat, e1: int, k2: Kind, n2: nat, e2: int)
    requires
        header_at(s, k1, n1, e1),
        header_at(s, k2, n2, e2),
    ensures
        k1 == k2,
        n1 == n2,
        e1 == e2,
{
    lemma_kind_name(k1);
    lemma_kind_name(k2);
    assert(s.subrange(0, kind_name(k1).len() as int)[0] == s[0]);
    assert(s.subrange(0, kind_name(k2).len() as int)[0] == s[0]);
    if e1 < e2 {
        assert(s[e1] != 0);
    }
    if e2 < e1 {
        assert(s[e2] != 0);
    }
}

/// Reading back what was written for an object gives that object: the framed
/// stream of a kind and a payload holds exactly that kind and that payload.
pub proof fn lemma_round_trip(k: Kind, payload: Seq<u8>)
    requires
        payload.len() <= usize::MAX,
    ensures
        stored_object(framed(k, payload), k, payload),
        forall|k2: Kind, q: Seq<u8>|
            stored_object(framed(k, payload), k2, q) ==> k2 == k && q == payload,
{
    let n = payload.len();
    let s = framed(k, payload);
    let kl = kind_name(k).len() as int;
    let d = decimal(n);
    let end = kl + 1 + d.len();
    lemma_kind_name(k);
    lemma_decimal_reads_back(n);
    lemma_decimal_len_u64(n);
    assert(s.subrange(0, kl) =~= kind_name(k));
    assert(s.subrange(kl + 1, end) =~= d);
    assert(s[end] == 0);
    assert forall|i: int| 0 <= i < end implies s[i] != 0 by {
        if i < kl {
            assert(s[i] == kind_name(k)[i]);
        } else if i > kl {
            assert(s[i] == d[i - kl - 1]);
        }
    }
    assert(header_at(s, k, n, end));
    assert(s.subrange(end + 1, end + 1 + n) =~= payload);
    assert forall|k2: Kind, q: Seq<u8>|
        stored_object(s, k2, q) implies k2 == k && q == payload by {
        let e2 = choose|e2: int|
            header_at(s, k2, q.len(), e2) && e2 + 1 + q.len() <= s.len()
                && #[trigger] s.subrange(e2 + 1, e2 + 1 + q.len()) == q;
        lemma_header_unique(s, k, n, end, k2, q.len(), e2);
    }
}

/// Appends the header for kind `k` and size `n` to `out`.
pub fn push_header(out: &mut Vec<u8>, k: Kind, n: usize)
    ensures
        final(out)@ == old(out)@ + header(k, n as nat),
{
    let name = k.name();
    out.extend_from_slice(name.as_slice());
    out.push(32u8);
    push_decimal(out, n as u128);
    out.push(0u8);
    assert(final(out)@ =~= old(out)@ + header(k, n as nat));
}

/// Parses the header at the start of a decompressed object stream, giving the
/// kind, the payload size and the index of the payload's first byte.
pub fn parse_header(s: &[u8]) -> (r: Result<(Kind, usize, usize), ObjectError>)
    ensures
        r matches Ok((k, n, start)) ==> start >= 1 && header_at(s@, k, n as nat, start - 1),
        r is Err ==> r == Err::<(Kind, usize, usize), ObjectError>(ObjectError::Format) && forall|
            k: Kind,
            n: nat,
            end: int,
        | !#[trigger] header_at(s@, k, n, end),
{
    let lim: usize = if s.len() < MAX_HEADER_LEN {
        s.len()
    } else {
        MAX_HEADER_LEN
    };
    let mut end: usize = 0;
    while end < lim && s[end] != 0
        invariant
            end <= lim <= s@.len(),
            lim <= MAX_HEADER_LEN,
            forall|i: int| 0 <= i < end ==> s@[i] != 0,
        decreases lim - end,
    {
        end = end + 1;
    }
    if end == lim {
        assert forall|k: Kind, n: nat, e: int| !#[trigger] header_at(s@, k, n, e) by {
            if header_at(s@, k, n, e) {
                assert(s@[e] == 0);
            }
        }
        return Err(ObjectError::Format);
    }
    let mut sp: usize = 0;
    while sp < end && s[sp] != 32
        invariant
            sp <= end < s@.len(),
            forall|i: int| 0 <= i < sp ==> s@[i] != 32,
        decreases end - sp,
    {
        sp = sp + 1;
    }
    proof {
        // any header found would end at `end`, with its space at `sp`
        assert forall|k: Kind, n: nat, e: int| #[trigger] header_at(s@, k, n, e) implies e
            == end && kind_name(k).len() == sp && kind_name(k) == s@.subrange(0, sp as int) by {
            lemma_kind_name(k);
            if e < end {
                assert(s@[e] != 0);
            }
            if end < e {
                assert(s@[end as int] != 0);
            }
            let kl = kind_name(k).len() as int;
            if sp < kl {
                assert(s@.subrange(0, kl)[sp as int] == s@[sp as int]);
            }
            if kl < sp {
                assert(s@[kl] != 32);
            }
        }
    }
    if sp == end {
        return Err(ObjectError::Format);
    }
    let kind = match Kind::from_name(s, 0, sp) {
        Some(k) => k,
        None => {
            return Err(ObjectError::Format);
        },
    };
    if sp + 1 == end {
        return Err(ObjectError::Format);
    }
    let mut acc: usize = 0;
    let mut i: usize = sp + 1;
    while i < end
        invariant
            sp + 1 <= i <= end < s@.len(),
            is_digits(s@.subrange(sp + 1, i as int)) || i == sp + 1,
            acc == digits_value(s@.subrange(sp + 1, i as int)),
            forall|k: Kind, n: nat, e: int| #[trigger] header_at(s@, k, n, e) ==> e == end
                && kind_name(k).len() == sp,
        decreases end - i,
    {
        let d = s[i];
        assert(s@.subrange(sp + 1, i + 1).drop_last() =~= s@.subrange(sp + 1, i as int));
        if d < 48 || d > 57 {
            proof {
                assert forall|k: Kind, n: nat, e: int| !#[trigger] header_at(s@, k, n, e) by {
                    if header_at(s@, k, n, e) {
                        assert(e == end && kind_name(k).len() == sp);
                        let tok = s@.subrange(sp + 1, end as int);
                        assert(tok[i - sp - 1] == d);
                    }
                }
            }
            return Err(ObjectError::Format);
        }
        let next = match acc.checked_mul(10) {
            Some(m) => m.checked_add((d - 48) as usize),
            None => None,
        };
        match next {
            Some(v) => {
                acc = v;
            },
            None => {
                proof {
                    let tok = s@.subrange(sp + 1, end as int);
                    lemma_digits_value_prefix(tok, i + 1 - sp - 1);
                    assert(tok.subrange(0, i + 1 - sp - 1) =~= s@.subrange(sp + 1, i + 1));
                    let pre = s@.subrange(sp + 1, i + 1);
                    assert(digits_value(pre) == acc * 10 + (d - 48));
                    assert(digits_value(tok) > usize::MAX);
                    assert forall|k: Kind, n: nat, e: int| !#[trigger] header_at(s@, k, n, e) by {
                        if header_at(s@, k, n, e) {
                            assert(e == end && kind_name(k).len() == sp);
                        }
                    }
                }
                return Err(ObjectError::Format);
            },
        }
        i = i + 1;
    }
    Ok((kind, acc, end + 1))
}

} // verus!
