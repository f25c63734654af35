//! Building an outbound spike frame: header, custom fields, trailer,
//! body length and checksum.
use vstd::prelude::*;
use vstd::string::StringSliceAdditionalSpecFns;
use vstd::utf8::encode_utf8;
use crate::clock::{current_fix_timestamp, is_timestamp_char};
use crate::wire::{lemma_dec, all_digits, digits_value, is_digit, soh_from_pred, dec, field, first_in, lemma_first_in_is, lemma_first_in, push_decimal, push_fix_field, EQ, SOH};

verus! {

/// The protocol-version value, `FIX.4.2`.
pub open spec fn begin_string() -> Seq<u8> {
    seq![70u8, 73, 88, 46, 52, 46, 50]
}

/// The message-type value that the encoder writes, `SPK`.
pub open spec fn spike_msg_type() -> Seq<u8> {
    seq![83u8, 80, 75]
}

/// The body of a spike frame: message type, spike id, actor, note, sending time.
pub open spec fn spike_body(spike_id: nat, who: Seq<u8>, note: Seq<u8>, ts: Seq<u8>) -> Seq<u8> {
    field(35, spike_msg_type()) + field(100, dec(spike_id)) + field(101, who) + field(102, note)
        + field(52, ts)
}

/// Everything that precedes the checksum field: the header and the body.
pub open spec fn spike_unsealed(spike_id: nat, who: Seq<u8>, note: Seq<u8>, ts: Seq<u8>) -> Seq<u8> {
    let body = spike_body(spike_id, who, note, ts);
    field(8, begin_string()) + field(9, dec(body.len())) + body
}

/// The sum of all bytes of `s`.
pub open spec fn byte_sum(s: Seq<u8>) -> nat
    decreases s.len(),
{
    if s.len() == 0 {
        0
    } else {
        byte_sum(s.drop_last()) + s.last() as nat
    }
}

/// `n` (below 1000) as exactly three zero-padded decimal digits.
pub open spec fn pad3(n: nat) -> Seq<u8> {
    seq![(48 + n / 100) as u8, (48 + (n / 10) % 10) as u8, (48 + n % 10) as u8]
}

/// The complete frame for a spike: header, body, and the checksum trailer.
pub open spec fn spike_frame(spike_id: nat, who: Seq<u8>, note: Seq<u8>, ts: Seq<u8>) -> Seq<u8> {
    let pre = spike_unsealed(spike_id, who, note, ts);
    pre + field(10, pad3(byte_sum(pre) % 256))
}

/// A `9=` at index `i`.
pub open spec fn bodylen_tag_at(s: Seq<u8>, i: int) -> bool {
    0 <= i && i + 2 <= s.len() && s[i] == 57 && s[i + 1] == EQ
}

pub open spec fn bodylen_tag_pred(s: Seq<u8>) -> spec_fn(int) -> bool {
    |i: int| bodylen_tag_at(s, i)
}

/// The value region `[start, end)` of the first `9=` field of `s`, ended by
/// the first delimiter after it.
pub open spec fn bodylen_span(s: Seq<u8>) -> Option<(int, int)> {
    match first_in(bodylen_tag_pred(s), s.len() as int) {
        Some(i) => match first_in(soh_from_pred(s, i + 2), s.len() as int) {
            Some(j) => Some((i + 2, j)),
            None => None,
        },
        None => None,
    }
}

/// Locates the value region of the body-length field.
fn find_bodylen_value(buf: &[u8]) -> (r: Option<(usize, usize)>)
    ensures
        match bodylen_span(buf@) {
            Some(p) => r matches Some(x) && x.0 as int == p.0 && x.1 as int == p.1,
            None => r is None,
        },
        r matches Some(p) ==> p.0 <= p.1 < buf.len(),
{
    let ghost s = buf@;
    let mut i: usize = 0;
    while i < buf.len() && buf.len() - i >= 2
        invariant
            s == buf@,
            i <= buf.len(),
            first_in(bodylen_tag_pred(s), i as int) == None::<int>,
        decreases buf.len() - i,
    {
        if buf[i] == 57 && buf[i + 1] == EQ {
            assert(bodylen_tag_pred(s)(i as int));
            assert(first_in(bodylen_tag_pred(s), i + 1) == Some(i as int));
            proof {
                lemma_first_in(bodylen_tag_pred(s), i as int);
                lemma_first_in_is(bodylen_tag_pred(s), s.len() as int, i as int);
            }
            let mut j: usize = i + 2;
            while j < buf.len() && buf[j] != SOH
                invariant
                    s == buf@,
                    i + 2 <= j <= buf.len(),
                    forall|k: int| 0 <= k < j ==> !#[trigger] soh_from_pred(s, i + 2)(k),
                decreases buf.len() - j,
            {
                assert(!soh_from_pred(s, i + 2)(j as int));
                j = j + 1;
            }
            proof {
                lemma_first_in(soh_from_pred(s, i + 2), s.len() as int);
            }
            if j < buf.len() {
                proof {
                    lemma_first_in_is(soh_from_pred(s, i + 2), s.len() as int, j as int);
                }
                return Some((i + 2, j));
            }
            return None;
        }
        i = i + 1;
    }
    proof {
        lemma_first_in(bodylen_tag_pred(s), i as int);
        assert forall|k: int| 0 <= k < s.len() implies !#[trigger] bodylen_tag_pred(s)(k) by {
            if k >= i {
                assert(k + 2 > s.len());
            }
        }
        crate::wire::lemma_first_in_none(bodylen_tag_pred(s), s.len() as int);
    }
    None
}

/// The index just past the delimiter that ends the body-length field.
pub fn find_after_bodylen(buf: &[u8]) -> (r: Option<usize>)
    ensures
        match bodylen_span(buf@) {
            Some(p) => r matches Some(x) && x as int == p.1 + 1,
            None => r is None,
        },
{
    let found = find_bodylen_value(buf);
    match found {
        Some(p) => {
            assert(p.1 < buf@.len());
            Some(p.1 + 1)
        },
        None => None,
    }
}

/// Replaces the value of the body-length field with the decimal rendering of `len`.
pub fn write_bodylen_in_place(buf: &mut Vec<u8>, len: usize) -> (r: Option<()>)
    ensures
        match bodylen_span(old(buf)@) {
            Some(p) => r is Some && final(buf)@ == old(buf)@.subrange(0, p.0) + dec(len as nat)
                + old(buf)@.subrange(p.1, old(buf)@.len() as int),
            None => r is None && final(buf)@ == old(buf)@,
        },
{
    match find_bodylen_value(buf.as_slice()) {
        Some(p) => {
            let ghost before = buf@;
            let mut tail = buf.split_off(p.1);
            buf.truncate(p.0);
            assert(buf@ =~= before.subrange(0, p.0 as int));
            push_decimal(buf, len as u64);
            buf.append(&mut tail);
            Some(())
        },
        None => None,
    }
}

/// The sum of all bytes of `buf`, modulo 256.
pub fn checksum(buf: &[u8]) -> (r: u32)
    ensures
        r == byte_sum(buf@) % 256,
{
    let mut acc: u32 = 0;
    let mut i: usize = 0;
    while i < buf.len()
        invariant
            i <= buf@.len(),
            acc == byte_sum(buf@.subrange(0, i as int)) % 256,
        decreases buf@.len() - i,
    {
        let ghost prev = acc;
        acc = (acc + buf[i] as u32) % 256;
        proof {
            let p = buf@.subrange(0, i + 1);
            assert(p.drop_last() == buf@.subrange(0, i as int));
            vstd::arithmetic::div_mod::lemma_add_mod_noop(
                byte_sum(p.drop_last()) as int,
                buf@[i as int] as int,
                256,
            );
            vstd::arithmetic::div_mod::lemma_small_mod(buf@[i as int] as nat, 256);
            vstd::arithmetic::div_mod::lemma_small_mod(prev as nat, 256);
        }
        i = i + 1;
    }
    assert(buf@.subrange(0, buf@.len() as int) == buf@);
    acc
}

/// In a buffer that starts with the protocol-version field and a body-length
/// field whose value is digits, the body-length value is found where it stands.
proof fn lemma_header_span(d: Seq<u8>, rest: Seq<u8>)
    requires
        all_digits(d),
    ensures
        bodylen_span(field(8, begin_string()) + field(9, d) + rest) == Some(
            (12int, 12 + d.len() as int),
        ),
{
    let s = field(8, begin_string()) + field(9, d) + rest;
    assert(dec(8) == seq![56u8]);
    assert(dec(9) == seq![57u8]);
    let h = seq![56u8, 61, 70, 73, 88, 46, 52, 46, 50, 1, 57, 61];
    assert(s =~= h + d + seq![SOH] + rest);
    assert forall|j: int| 0 <= j < 10 implies !#[trigger] bodylen_tag_pred(s)(j) by {
        assert(s[j] == h[j]);
    }
    assert(s[10] == 57 && s[11] == EQ);
    assert(bodylen_tag_pred(s)(10));
    lemma_first_in_is(bodylen_tag_pred(s), s.len() as int, 10);
    let e = 12 + d.len() as int;
    assert forall|j: int| 0 <= j < e implies !#[trigger] soh_from_pred(s, 12)(j) by {
        if 12 <= j {
            assert(s[j] == d[j - 12]);
            assert(is_digit(d[j - 12]));
        }
    }
    assert(s[e] == SOH);
    assert(soh_from_pred(s, 12)(e));
    lemma_first_in_is(soh_from_pred(s, 12), s.len() as int, e);
}

/// Three zero-padded digits read back as the number.
proof fn lemma_pad3(n: nat)
    requires
        n < 1000,
    ensures
        all_digits(pad3(n)),
        digits_value(pad3(n)) == n,
        pad3(n).len() == 3,
{
    let p = pad3(n);
    assert(p.drop_last().drop_last().drop_last() =~= Seq::<u8>::empty());
    assert(p.drop_last().drop_last() =~= seq![(48 + n / 100) as u8]);
    assert(p.drop_last() =~= seq![(48 + n / 100) as u8, (48 + (n / 10) % 10) as u8]);
    assert(n / 100 <= 9);
    let q = p.drop_last().drop_last();
    assert(digits_value(q) == digits_value(q.drop_last()) * 10 + (q.last() - 48));
    assert(digits_value(p.drop_last().drop_last()) == n / 100);
    assert(digits_value(p.drop_last()) == (n / 100) * 10 + (n / 10) % 10);
    assert(n == ((n / 100) * 10 + (n / 10) % 10) * 10 + n % 10);
}

/// Builds the spike frame for `spike_id`, `who` and `note`, stamped with
/// `sending_time`: header (protocol version, body length, message type), the
/// custom fields, the sending time, and the checksum trailer.
pub fn build_spike_message_at(spike_id: u32, who: &str, note: &str, sending_time: &str) -> (r: Vec<
    u8,
>)
    ensures
        r@ == spike_frame(
            spike_id as nat,
            who.spec_bytes(),
            note.spec_bytes(),
            sending_time.spec_bytes(),
        ),
{
    let ghost body = spike_body(
        spike_id as nat,
        who.spec_bytes(),
        note.spec_bytes(),
        sending_time.spec_bytes(),
    );
    let mut out: Vec<u8> = Vec::with_capacity(256);
    push_fix_field(&mut out, 8, vec![70u8, 73, 88, 46, 52, 46, 50].as_slice());
    push_fix_field(&mut out, 9, vec![48u8, 48, 48].as_slice());
    let ghost draft = field(8, begin_string()) + field(9, seq![48u8, 48, 48]);
    assert(out@ =~= draft);
    push_fix_field(&mut out, 35, vec![83u8, 80, 75].as_slice());
    let mut id_text: Vec<u8> = Vec::new();
    push_decimal(&mut id_text, spike_id as u64);
    assert(id_text@ =~= dec(spike_id as nat));
    push_fix_field(&mut out, 100, id_text.as_slice());
    push_fix_field(&mut out, 101, who.as_bytes());
    push_fix_field(&mut out, 102, note.as_bytes());
    push_fix_field(&mut out, 52, sending_time.as_bytes());
    proof {
        assert(out@ =~= field(8, begin_string()) + field(9, seq![48u8, 48, 48]) + body);
        lemma_header_span(seq![48u8, 48, 48], body);
    }
    let body_start = match find_after_bodylen(out.as_slice()) {
        Some(k) => k,
        None => {
            proof {
                assert(false);
            }
            0
        },
    };
    let body_len = out.len() - body_start;
    assert(body_len == body.len());
    let rewritten = write_bodylen_in_place(&mut out, body_len);
    proof {
        assert(rewritten is Some);
        assert(dec(8) == seq![56u8]);
        assert(dec(9) == seq![57u8]);
        assert(out@ =~= spike_unsealed(
            spike_id as nat,
            who.spec_bytes(),
            note.spec_bytes(),
            sending_time.spec_bytes(),
        ));
    }
    let cksum = checksum(out.as_slice());
    let digits: Vec<u8> = vec![
        (48 + cksum / 100) as u8,
        (48 + (cksum / 10) % 10) as u8,
        (48 + cksum % 10) as u8,
    ];
    assert(digits@ =~= pad3(cksum as nat));
    push_fix_field(&mut out, 10, digits.as_slice());
    out
}

/// Builds the spike frame for `spike_id`, `who` and `note`, stamped with the
/// current UTC time as `YYYYMMDD-HH:MM:SS`.
pub fn build_spike_message(spike_id: u32, who: &str, note: &str) -> (r: Vec<u8>)
    ensures
        exists|ts: Seq<char>|
            (forall|i: int| 0 <= i < ts.len() ==> is_timestamp_char(#[trigger] ts[i]))
                && r@ == spike_frame(
                spike_id as nat,
                who.spec_bytes(),
                note.spec_bytes(),
                encode_utf8(ts),
            ),
{
    let ts = current_fix_timestamp();
    let r = build_spike_message_at(spike_id, who, note, ts.as_str());
    assert(r@ == spike_frame(spike_id as nat, who.spec_bytes(), note.spec_bytes(), encode_utf8(ts@)));
    r
}

/// Checksum law: the last field of a frame is the checksum field, whose value
/// is three decimal digits that read as the sum of all bytes before that
/// field, modulo 256.
pub proof fn lemma_checksum_law(spike_id: nat, who: Seq<u8>, note: Seq<u8>, ts: Seq<u8>)
    ensures
        ({
            let f = spike_frame(spike_id, who, note, ts);
            let pre = f.subrange(0, f.len() - 8);
            let value = f.subrange(f.len() - 4, f.len() - 1);
            &&& f.len() >= 8
            &&& f.subrange(f.len() - 8, f.len() - 4) == seq![SOH, 49u8, 48, EQ]
            &&& f.last() == SOH
            &&& value.len() == 3
            &&& all_digits(value)
            &&& digits_value(value) == byte_sum(pre.push(SOH)) % 256
        }),
{
    let pre = spike_unsealed(spike_id, who, note, ts);
    let c = byte_sum(pre) % 256;
    let f = spike_frame(spike_id, who, note, ts);
    assert(dec(10) == seq![49u8, 48]) by {
        assert(dec(1) == seq![49u8]);
    }
    assert(f =~= pre + seq![49u8, 48, EQ] + pad3(c) + seq![SOH]);
    lemma_pad3(c);
    assert(pre.len() >= 1 && pre.last() == SOH) by {
        let body = spike_body(spike_id, who, note, ts);
        assert(pre =~= (field(8, begin_string()) + field(9, dec(body.len())) + field(35, spike_msg_type())
            + field(100, dec(spike_id)) + field(101, who) + field(102, note) + field(52, ts).drop_last())
            + seq![SOH]);
    }
    assert(f.subrange(0, f.len() - 8).push(SOH) =~= pre);
    assert(f.subrange(f.len() - 4, f.len() - 1) =~= pad3(c));
    assert(f.subrange(f.len() - 8, f.len() - 4) =~= seq![SOH, 49u8, 48, EQ]);
}

/// Body-length law: the body-length field's value reads as the number of bytes
/// from just after its delimiter up to the checksum field.
pub proof fn lemma_body_length_law(spike_id: nat, who: Seq<u8>, note: Seq<u8>, ts: Seq<u8>)
    ensures
        ({
            let f = spike_frame(spike_id, who, note, ts);
            bodylen_span(f) matches Some(p) && all_digits(f.subrange(p.0, p.1)) && digits_value(
                f.subrange(p.0, p.1),
            ) == (f.len() - 7) - (p.1 + 1) && f.subrange(f.len() - 7, f.len() - 4) == seq![
                49u8,
                48,
                EQ,
            ]
        }),
{
    let body = spike_body(spike_id, who, note, ts);
    let pre = spike_unsealed(spike_id, who, note, ts);
    let d = dec(body.len());
    let f = spike_frame(spike_id, who, note, ts);
    let tail = body + field(10, pad3(byte_sum(pre) % 256));
    lemma_dec(body.len());
    assert(f =~= field(8, begin_string()) + field(9, d) + tail);
    lemma_header_span(d, tail);
    assert(f.subrange(12, 12 + d.len() as int) =~= d);
    assert(dec(10) == seq![49u8, 48]) by {
        assert(dec(1) == seq![49u8]);
    }
    lemma_pad3(byte_sum(pre) % 256);
    assert(f.subrange(f.len() - 7, f.len() - 4) =~= seq![49u8, 48, EQ]);
}

} // verus!
