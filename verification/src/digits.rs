//! Decimal digit strings: the 20-digit zero-padded segment names and the
//! numbers inside JSON records are all built from and parsed back to `u64`
//! values through the spec functions here.

use vstd::prelude::*;

verus! {

/// An ASCII decimal digit.
pub open spec fn is_digit(b: u8) -> bool {
    48 <= b <= 57
}

/// Minimal decimal representation of `n`, most significant digit first.
pub open spec fn dec_seq(n: nat) -> Seq<u8>
    decreases n,
{
    if n < 10 {
        seq![(48 + n) as u8]
    } else {
        dec_seq(n / 10).push((48 + n % 10) as u8)
    }
}

/// Numeric value of a digit string (leading zeros allowed).
pub open spec fn dec_val(s: Seq<u8>) -> nat
    decreases s.len(),
{
    if s.len() == 0 {
        0
    } else {
        (dec_val(s.drop_last()) * 10 + (s.last() - 48)) as nat
    }
}

pub open spec fn all_digits(s: Seq<u8>) -> bool {
    forall|j: int| 0 <= j < s.len() ==> is_digit(s[j])
}

/// `10^k`.
pub open spec fn pow10(k: nat) -> nat
    decreases k,
{
    if k == 0 {
        1
    } else {
        10 * pow10((k - 1) as nat)
    }
}

pub proof fn lemma_dec_seq_digits(n: nat)
    ensures
        dec_seq(n).len() >= 1,
        all_digits(dec_seq(n)),
    decreases n,
{
    if n >= 10 {
        lemma_dec_seq_digits(n / 10);
        assert forall|j: int| 0 <= j < dec_seq(n).len() implies is_digit(dec_seq(n)[j]) by {
            if j < dec_seq(n / 10).len() {
                assert(dec_seq(n)[j] == dec_seq(n / 10)[j]);
            }
        }
    }
}

pub proof fn lemma_dec_roundtrip(n: nat)
    ensures
        dec_val(dec_seq(n)) == n,
    decreases n,
{
    if n < 10 {
        let s = dec_seq(n);
        assert(s.drop_last() =~= Seq::<u8>::empty());
        assert(dec_val(Seq::<u8>::empty()) == 0);
        assert(s.last() == (48 + n) as u8);
        assert((48 + n) as u8 == 48 + n);
        assert(dec_val(s) == (dec_val(s.drop_last()) * 10 + (s.last() - 48)) as nat);
    } else {
        lemma_dec_roundtrip(n / 10);
        let s = dec_seq(n);
        assert(s.drop_last() =~= dec_seq(n / 10));
        assert(0 <= n % 10 < 10);
        assert(s.last() == (48 + n % 10) as u8);
        assert((48 + n % 10) as u8 == 48 + n % 10);
        vstd::arithmetic::div_mod::lemma_fundamental_div_mod(n as int, 10);
    }
}

/// A number below `10^k` prints in at most `k` digits.
pub proof fn lemma_dec_seq_len(n: nat, k: nat)
    requires
        k >= 1,
        n < pow10(k),
    ensures
        dec_seq(n).len() <= k,
    decreases n,
{
    if n >= 10 {
        vstd::arithmetic::div_mod::lemma_fundamental_div_mod(n as int, 10);
        assert(n / 10 < pow10((k - 1) as nat));
        lemma_dec_seq_len(n / 10, (k - 1) as nat);
    }
}

pub proof fn lemma_u64_max_below_pow10_20()
    ensures
        u64::MAX < pow10(20),
{
    reveal_with_fuel(pow10, 21);
    assert(pow10(20) == 100000000000000000000);
}

/// Leading zeros do not change the value of a digit string.
pub proof fn lemma_dec_val_zeros_prefix(z: Seq<u8>, s: Seq<u8>)
    requires
        forall|j: int| 0 <= j < z.len() ==> z[j] == 48u8,
    ensures
        dec_val(z + s) == dec_val(s),
    decreases s.len(),
{
    if s.len() == 0 {
        assert(z + s =~= z);
        lemma_dec_val_zeros(z);
    } else {
        assert((z + s).drop_last() =~= z + s.drop_last());
        lemma_dec_val_zeros_prefix(z, s.drop_last());
        assert((z + s).last() == s.last());
    }
}

pub proof fn lemma_dec_val_zeros(z: Seq<u8>)
    requires
        forall|j: int| 0 <= j < z.len() ==> z[j] == 48u8,
    ensures
        dec_val(z) == 0,
    decreases z.len(),
{
    if z.len() > 0 {
        lemma_dec_val_zeros(z.drop_last());
    }
}

/// Peeling one more digit off the front of a scan: the value of `s.take(j+1)`
/// in terms of the value of `s.take(j)`.
pub proof fn lemma_dec_val_step(s: Seq<u8>, j: int)
    requires
        0 <= j < s.len(),
        is_digit(s[j]),
    ensures
        dec_val(s.take(j + 1)) == dec_val(s.take(j)) * 10 + (s[j] - 48),
{
    assert(s.take(j + 1).drop_last() =~= s.take(j));
    assert(s.take(j + 1).last() == s[j]);
}

/// Extending a digit string on the right never decreases its value.
pub proof fn lemma_dec_val_take_le(s: Seq<u8>, j: int)
    requires
        0 <= j <= s.len(),
        all_digits(s),
    ensures
        dec_val(s.take(j)) <= dec_val(s),
    decreases s.len() - j,
{
    if j < s.len() {
        lemma_dec_val_step(s, j);
        lemma_dec_val_take_le(s, j + 1);
    } else {
        assert(s.take(j) =~= s);
    }
}

/// The 20-digit zero-padded decimal name of a segment index.
pub open spec fn pad20(n: u64) -> Seq<u8> {
    Seq::new((20 - dec_seq(n as nat).len()) as nat, |i: int| 48u8) + dec_seq(n as nat)
}

pub proof fn lemma_pad20_props(n: u64)
    ensures
        pad20(n).len() == 20,
        all_digits(pad20(n)),
        dec_val(pad20(n)) == n,
{
    lemma_dec_seq_digits(n as nat);
    lemma_u64_max_below_pow10_20();
    lemma_dec_seq_len(n as nat, 20);
    lemma_dec_roundtrip(n as nat);
    let z = Seq::new((20 - dec_seq(n as nat).len()) as nat, |i: int| 48u8);
    lemma_dec_val_zeros_prefix(z, dec_seq(n as nat));
    assert forall|j: int| 0 <= j < pad20(n).len() implies is_digit(pad20(n)[j]) by {
        if j >= z.len() {
            assert(pad20(n)[j] == dec_seq(n as nat)[j - z.len()]);
        }
    }
}

/// Append all of `b` to `out`.
pub fn push_bytes(out: &mut Vec<u8>, b: &[u8])
    ensures
        final(out)@ == old(out)@ + b@,
{
    let mut j: usize = 0;
    proof {
        assert(out@ =~= old(out)@ + b@.take(0));
    }
    while j < b.len()
        invariant
            j <= b@.len(),
            out@ == old(out)@ + b@.take(j as int),
        decreases b@.len() - j,
    {
        out.push(b[j]);
        j = j + 1;
        proof {
            assert(out@ =~= old(out)@ + b@.take(j as int));
        }
    }
    proof {
        assert(b@.take(b@.len() as int) =~= b@);
    }
}

/// Append the decimal digits of `x` to `out`.
pub fn push_dec(out: &mut Vec<u8>, x: u64)
    ensures
        final(out)@ == old(out)@ + dec_seq(x as nat),
    decreases x,
{
    if x < 10 {
        out.push(48 + x as u8);
        assert(out@ =~= old(out)@ + dec_seq(x as nat));
    } else {
        let ghost mid = out@;
        push_dec(out, x / 10);
        out.push(48 + (x % 10) as u8);
        assert(48 + (x % 10) as u8 == (48 + (x as nat) % 10) as u8);
        assert(out@ =~= old(out)@ + dec_seq(x as nat));
    }
}

/// Value of the digit run `b[start..end)`, or `None` when it does not fit in
/// a `u64`.
pub fn parse_digits_val(b: &Vec<u8>, start: usize, end: usize) -> (r: Option<u64>)
    requires
        start <= end <= b@.len(),
        all_digits(b@.subrange(start as int, end as int)),
    ensures
        match r {
            Some(v) => v == dec_val(b@.subrange(start as int, end as int)),
            None => dec_val(b@.subrange(start as int, end as int)) > u64::MAX,
        },
{
    let ghost s = b@.subrange(start as int, end as int);
    let mut val: u64 = 0;
    let mut j: usize = start;
    proof {
        assert(s.take(0) =~= Seq::<u8>::empty());
    }
    while j < end
        invariant
            start <= j <= end <= b@.len(),
            s == b@.subrange(start as int, end as int),
            all_digits(s),
            val == dec_val(s.take(j - start)),
        decreases end - j,
    {
        let d = b[j];
        proof {
            assert(s[j - start] == d);
            assert(is_digit(d));
            lemma_dec_val_step(s, j - start);
        }
        let dd: u64 = (d - 48) as u64;
        let q = u64::MAX / 10;
        let rr = u64::MAX % 10;
        proof {
            vstd::arithmetic::div_mod::lemma_fundamental_div_mod(u64::MAX as int, 10);
        }
        if val > q || (val == q && dd > rr) {
            proof {
                lemma_dec_val_take_le(s, j - start + 1);
            }
            return None;
        }
        val = val * 10 + dd;
        j = j + 1;
    }
    proof {
        assert(s.take(end - start) =~= s);
    }
    Some(val)
}

/// The 20-digit zero-padded decimal name of a segment, as bytes.
pub fn pad20_bytes(index: u64) -> (r: Vec<u8>)
    ensures
        r@ == pad20(index),
{
    let mut digits: Vec<u8> = Vec::new();
    push_dec(&mut digits, index);
    proof {
        lemma_u64_max_below_pow10_20();
        lemma_dec_seq_len(index as nat, 20);
    }
    let mut r: Vec<u8> = Vec::new();
    let pad = 20 - digits.len();
    let mut j: usize = 0;
    while j < pad
        invariant
            j <= pad,
            pad == 20 - dec_seq(index as nat).len(),
            r@ =~= Seq::new(j as nat, |i: int| 48u8),
        decreases pad - j,
    {
        r.push(48);
        j = j + 1;
        proof {
            assert(r@ =~= Seq::new(j as nat, |i: int| 48u8));
        }
    }
    push_bytes(&mut r, digits.as_slice());
    proof {
        assert(r@ =~= pad20(index));
    }
    r
}

/// Characters of an ASCII byte string.
pub open spec fn chars_of(s: Seq<u8>) -> Seq<char> {
    Seq::new(s.len(), |i: int| s[i] as char)
}

/// Relies on `String::from_utf8`: ASCII bytes are valid UTF-8 and convert to
/// the string of exactly those characters; the call cannot fail on them.
#[verifier::external_body]
pub fn ascii_to_string(v: Vec<u8>) -> (r: String)
    requires
        forall|i: int| 0 <= i < v@.len() ==> v@[i] < 128,
    ensures
        r@ == chars_of(v@),
{
    String::from_utf8(v).unwrap()
}

} // verus!
