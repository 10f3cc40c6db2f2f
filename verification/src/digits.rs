use vstd::prelude::*;

verus! {

/// The decimal rendering of `n` as ASCII bytes, most significant digit first,
/// with no leading zeros (a single `b'0'` for zero).
pub open spec fn dec_digits(n: nat) -> Seq<u8>
    decreases n,
{
    if n < 10 {
        seq![(48 + n) as u8]
    } else {
        dec_digits(n / 10).push((48 + n % 10) as u8)
    }
}

/// `k` ASCII `'0'` bytes.
pub open spec fn zero_bytes(k: nat) -> Seq<u8> {
    Seq::new(k, |i: int| 48u8)
}

/// The decimal rendering of `n` left-padded with `'0'` to at least four
/// bytes: the discriminator format `{:04}`.
pub open spec fn pad4_digits(n: nat) -> Seq<u8> {
    if dec_digits(n).len() >= 4 {
        dec_digits(n)
    } else {
        zero_bytes((4 - dec_digits(n).len()) as nat) + dec_digits(n)
    }
}

pub proof fn lemma_dec_digits_len(n: nat)
    ensures
        1 <= dec_digits(n).len(),
        n < 10 <==> dec_digits(n).len() == 1,
    decreases n,
{
    if n >= 10 {
        lemma_dec_digits_len(n / 10);
    }
}

/// Distinct numbers have distinct decimal renderings.
pub proof fn lemma_dec_digits_injective(a: nat, b: nat)
    requires
        dec_digits(a) == dec_digits(b),
    ensures
        a == b,
    decreases a,
{
    lemma_dec_digits_len(a);
    lemma_dec_digits_len(b);
    if a < 10 && b < 10 {
        assert(dec_digits(a)[0] == (48 + a) as u8);
        assert(dec_digits(b)[0] == (48 + b) as u8);
    } else if a < 10 || b < 10 {
        assert(dec_digits(a).len() == dec_digits(b).len());
        assert(false);
    } else {
        assert(dec_digits(a).last() == (48 + a % 10) as u8);
        assert(dec_digits(b).last() == (48 + b % 10) as u8);
        assert(dec_digits(a).drop_last() =~= dec_digits(a / 10));
        assert(dec_digits(b).drop_last() =~= dec_digits(b / 10));
        lemma_dec_digits_injective(a / 10, b / 10);
    }
}

/// Renders `n` in decimal, matching `dec_digits`.
pub fn dec_bytes(n: u64) -> (r: Vec<u8>)
    ensures
        r@ == dec_digits(n as nat),
    decreases n,
{
    if n < 10 {
        let mut v: Vec<u8> = Vec::new();
        v.push(48 + n as u8);
        proof {
            assert(v@ =~= dec_digits(n as nat));
        }
        v
    } else {
        let mut v = dec_bytes(n / 10);
        v.push(48 + (n % 10) as u8);
        v
    }
}

/// Renders `n` in decimal, left-padded with `'0'` to at least four digits:
/// the `{:04}` form used for author discriminators.
pub fn pad4_bytes(n: u64) -> (r: Vec<u8>)
    ensures
        r@ == pad4_digits(n as nat),
{
    let d = dec_bytes(n);
    if d.len() >= 4 {
        d
    } else {
        let mut v: Vec<u8> = Vec::new();
        let pad: usize = 4 - d.len();
        let mut i: usize = 0;
        while i < pad
            invariant
                i <= pad,
                pad == 4 - d@.len(),
                d@.len() < 4,
                v@ =~= zero_bytes(i as nat),
            decreases pad - i,
        {
            v.push(48);
            proof {
                assert(v@ =~= zero_bytes((i + 1) as nat));
            }
            i = i + 1;
        }
        let mut j: usize = 0;
        while j < d.len()
            invariant
                j <= d@.len(),
                d@.len() < 4,
                v@ =~= zero_bytes((4 - d@.len()) as nat) + d@.take(j as int),
            decreases d@.len() - j,
        {
            let byte = d[j];
            v.push(byte);
            proof {
                assert(v@ =~= zero_bytes((4 - d@.len()) as nat) + d@.take(j as int + 1));
            }
            j = j + 1;
        }
        proof {
            assert(d@.take(d@.len() as int) =~= d@);
            assert(v@ =~= pad4_digits(n as nat));
        }
        v
    }
}

} // verus!
