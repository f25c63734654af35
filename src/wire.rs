//! The field codec and the shared byte-level model of the wire format.
use vstd::prelude::*;

verus! {

/// The byte that ends every field of a frame.
pub const SOH: u8 = 0x01;

/// The byte between a field's tag and its value.
pub const EQ: u8 = 0x3d;

/// The first index `i` in `[0, n)` where `p(i)` holds, if any.
pub open spec fn first_in(p: spec_fn(int) -> bool, n: int) -> Option<int>
    decreases n,
{
    if n <= 0 {
        None
    } else {
        match first_in(p, n - 1) {
            Some(k) => Some(k),
            None => if p(n - 1) {
                Some(n - 1)
            } else {
                None
            },
        }
    }
}

/// `first_in` returns the least index in range where the predicate holds.
pub proof fn lemma_first_in(p: spec_fn(int) -> bool, n: int)
    ensures
        match first_in(p, n) {
            Some(k) => 0 <= k < n && p(k) && forall|j: int| 0 <= j < k ==> !#[trigger] p(j),
            None => forall|j: int| 0 <= j < n ==> !#[trigger] p(j),
        },
    decreases n,
{
    if n > 0 {
        lemma_first_in(p, n - 1);
    }
}

/// `first_in` is determined by the least index where the predicate holds.
pub proof fn lemma_first_in_is(p: spec_fn(int) -> bool, n: int, k: int)
    requires
        0 <= k < n,
        p(k),
        forall|j: int| 0 <= j < k ==> !#[trigger] p(j),
    ensures
        first_in(p, n) == Some(k),
{
    lemma_first_in(p, n);
}

/// `first_in` is `None` when the predicate holds nowhere in range.
pub proof fn lemma_first_in_none(p: spec_fn(int) -> bool, n: int)
    requires
        forall|j: int| 0 <= j < n ==> !#[trigger] p(j),
    ensures
        first_in(p, n) == None::<int>,
{
    lemma_first_in(p, n);
}

/// A delimiter at index `j`, at or after `from`.
pub open spec fn soh_from_pred(s: Seq<u8>, from: int) -> spec_fn(int) -> bool {
    |j: int| from <= j && j < s.len() && s[j] == SOH
}

/// The decimal rendering of a natural number, most significant digit first.
pub open spec fn dec(n: nat) -> Seq<u8>
    decreases n,
{
    if n < 10 {
        seq![(48 + n) as u8]
    } else {
        dec(n / 10) + seq![(48 + n % 10) as u8]
    }
}

pub open spec fn is_digit(b: u8) -> bool {
    48 <= b <= 57
}

pub open spec fn all_digits(s: Seq<u8>) -> bool {
    forall|i: int| 0 <= i < s.len() ==> is_digit(#[trigger] s[i])
}

/// The value of a string of decimal digits, read most significant first.
pub open spec fn digits_value(s: Seq<u8>) -> int
    decreases s.len(),
{
    if s.len() == 0 {
        0
    } else {
        digits_value(s.drop_last()) * 10 + (s.last() - 48)
    }
}

/// A decimal rendering is made of digits and reads back as the number.
pub proof fn lemma_dec(n: nat)
    ensures
        all_digits(dec(n)),
        digits_value(dec(n)) == n,
        1 <= dec(n).len(),
    decreases n,
{
    let d = dec(n);
    if n < 10 {
        assert(d.drop_last() =~= Seq::<u8>::empty());
        assert(digits_value(d) == digits_value(d.drop_last()) * 10 + (d.last() - 48));
    } else {
        lemma_dec(n / 10);
        assert(d.drop_last() == dec(n / 10));
        assert(d.last() == (48 + n % 10) as u8);
        assert(n == (n / 10) * 10 + n % 10);
        assert(digits_value(d) == digits_value(d.drop_last()) * 10 + (d.last() - 48));
        assert(all_digits(d)) by {
            assert forall|i: int| 0 <= i < d.len() implies is_digit(#[trigger] d[i]) by {
                if i < d.len() - 1 {
                    assert(d[i] == dec(n / 10)[i]);
                }
            }
        }
    }
}

/// The bytes of one field: `<tag>=<value>` and the delimiter.
pub open spec fn field(tag: nat, value: Seq<u8>) -> Seq<u8> {
    dec(tag) + seq![EQ] + value + seq![SOH]
}

/// Appends the decimal rendering of `n` to `buf`.
pub fn push_decimal(buf: &mut Vec<u8>, n: u64)
    ensures
        final(buf)@ == old(buf)@ + dec(n as nat),
    decreases n,
{
    if n >= 10 {
        push_decimal(buf, n / 10);
    }
    buf.push((48 + n % 10) as u8);
}

/// Appends one field `<tag>=<value>` and its delimiter to `buf`.
pub fn push_fix_field(buf: &mut Vec<u8>, tag: u32, value: &[u8])
    ensures
        final(buf)@ == old(buf)@ + field(tag as nat, value@),
{
    push_decimal(buf, tag as u64);
    buf.push(EQ);
    let mut i: usize = 0;
    while i < value.len()
        invariant
            i <= value@.len(),
            buf@ == old(buf)@ + dec(tag as nat) + seq![EQ] + value@.subrange(0, i as int),
        decreases value@.len() - i,
    {
        buf.push(value[i]);
        i = i + 1;
        assert(value@.subrange(0, i as int) == value@.subrange(0, i - 1) + seq![value@[i - 1]]);
    }
    buf.push(SOH);
    assert(value@.subrange(0, value@.len() as int) == value@);
}

} // verus!
