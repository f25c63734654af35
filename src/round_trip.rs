//! What an encoded spike frame looks like to the receiving side: one frame
//! for the reassembler, and a field map that carries the actor and the note.
use vstd::prelude::*;
use vstd::utf8::{decode_utf8, valid_utf8};
use crate::decoder::{eq_pred, frame_fields, lookup, piece_field, tag_value};
use crate::encoder::{begin_string, byte_sum, pad3, spike_body, spike_frame, spike_msg_type, spike_unsealed};
use crate::reassembler::{checksum_key_at, checksum_key_pred, frame_end, split_frames};
use crate::wire::{all_digits, dec, field, is_digit, lemma_dec, lemma_first_in_is, soh_from_pred, EQ, SOH};

verus! {

/// A field value as the codec requires it: no delimiter and no `=`.
pub open spec fn plain_value(v: Seq<u8>) -> bool {
    forall|i: int| 0 <= i < v.len() ==> #[trigger] v[i] != SOH && v[i] != EQ
}

/// ASCII bytes are valid UTF-8.
proof fn lemma_ascii_valid_utf8(b: Seq<u8>)
    requires
        forall|i: int| 0 <= i < b.len() ==> #[trigger] b[i] < 128,
    ensures
        valid_utf8(b),
    decreases b.len(),
{
    if b.len() > 0 {
        let rest = b.subrange(1, b.len() as int);
        lemma_ascii_valid_utf8(rest);
        assert(vstd::utf8::pop_first_scalar(b) == rest);
    }
}

/// A key that starts inside a buffer ending with a delimiter lies wholly in it.
proof fn lemma_key_within(a: Seq<u8>, b: Seq<u8>, i: int)
    requires
        a.len() > 0,
        a.last() == SOH,
        0 <= i < a.len(),
        checksum_key_at(a + b, i),
    ensures
        checksum_key_at(a, i),
{
    let s = a + b;
    assert(s[a.len() - 1] == SOH);
    assert(i + 3 < a.len());
    assert(s[i] == a[i] && s[i + 1] == a[i + 1] && s[i + 2] == a[i + 2]);
    if i > 0 {
        assert(s[i - 1] == a[i - 1]);
    }
}

/// Two pieces without a checksum key, the first ending with a delimiter, make
/// a whole without one.
proof fn lemma_no_key_concat(a: Seq<u8>, b: Seq<u8>)
    requires
        a.len() > 0,
        a.last() == SOH,
        forall|i: int| !#[trigger] checksum_key_at(a, i),
        forall|i: int| !#[trigger] checksum_key_at(b, i),
        b.len() > 0,
        b.last() == SOH,
    ensures
        forall|i: int| !#[trigger] checksum_key_at(a + b, i),
        (a + b).len() > 0,
        (a + b).last() == SOH,
{
    let s = a + b;
    assert forall|i: int| !#[trigger] checksum_key_at(s, i) by {
        if checksum_key_at(s, i) {
            if i < a.len() {
                lemma_key_within(a, b, i);
            } else {
                let j = i - a.len();
                assert(s[i] == b[j] && s[i + 1] == b[j + 1] && s[i + 2] == b[j + 2]);
                if j > 0 {
                    assert(s[i - 1] == b[j - 1]);
                }
                assert(checksum_key_at(b, j));
            }
        }
    }
}

/// A field whose tag is not `10` and whose value is plain holds no checksum key.
proof fn lemma_field_no_key(t: nat, v: Seq<u8>)
    requires
        plain_value(v),
        dec(t) != seq![49u8, 48],
    ensures
        forall|i: int| !#[trigger] checksum_key_at(field(t, v), i),
        field(t, v).len() > 0 && field(t, v).last() == SOH,
{
    let s = field(t, v);
    let d = dec(t);
    lemma_dec(t);
    assert forall|i: int| !#[trigger] checksum_key_at(s, i) by {
        if checksum_key_at(s, i) {
            if i > 0 {
                let j = i - 1;
                if j < d.len() {
                    assert(s[j] == d[j]);
                    assert(is_digit(d[j]));
                } else if j > d.len() && j < d.len() + 1 + v.len() {
                    assert(s[j] == v[j - d.len() - 1]);
                }
            } else {
                if d.len() == 1 {
                    assert(s[1] == EQ);
                } else if d.len() == 2 {
                    assert(d =~= seq![s[0], s[1]]);
                } else {
                    assert(s[2] == d[2]);
                    assert(is_digit(d[2]));
                }
            }
        }
    }
}

/// A well-formed field in front of fields that read adds itself in front.
proof fn lemma_frame_fields_cons(t: nat, v: Seq<u8>, rest: Seq<u8>, fs: Seq<(int, Seq<char>)>)
    requires
        t <= i32::MAX,
        plain_value(v),
        valid_utf8(v),
        frame_fields(rest) == Some(fs),
    ensures
        frame_fields(field(t, v) + rest) == Some(seq![(t as int, decode_utf8(v))] + fs),
{
    lemma_frame_fields_field(t, v, rest);
}

/// The fields of a frame that starts with one well-formed field are that
/// field followed by the fields of the rest.
proof fn lemma_frame_fields_field(t: nat, v: Seq<u8>, rest: Seq<u8>)
    requires
        t <= i32::MAX,
        forall|i: int| 0 <= i < v.len() ==> #[trigger] v[i] != SOH,
        valid_utf8(v),
    ensures
        frame_fields(field(t, v) + rest) == match frame_fields(rest) {
            Some(fs) => Some(seq![(t as int, decode_utf8(v))] + fs),
            None => None::<Seq<(int, Seq<char>)>>,
        },
{
    let s = field(t, v) + rest;
    let d = dec(t);
    lemma_dec(t);
    let k = d.len() + 1 + v.len() as int;
    assert forall|j: int| 0 <= j < k implies !#[trigger] soh_from_pred(s, 0)(j) by {
        if j < d.len() {
            assert(s[j] == d[j]);
            assert(is_digit(d[j]));
        } else if j > d.len() {
            assert(s[j] == v[j - d.len() - 1]);
        }
    }
    assert(soh_from_pred(s, 0)(k));
    lemma_first_in_is(soh_from_pred(s, 0), s.len() as int, k);
    let piece = s.subrange(0, k);
    assert(piece =~= d + seq![EQ] + v);
    assert(s.subrange(k + 1, s.len() as int) =~= rest);
    assert forall|j: int| 0 <= j < d.len() implies !#[trigger] eq_pred(piece)(j) by {
        assert(piece[j] == d[j]);
        assert(is_digit(d[j]));
    }
    assert(eq_pred(piece)(d.len() as int));
    lemma_first_in_is(eq_pred(piece), piece.len() as int, d.len() as int);
    assert(piece.subrange(0, d.len() as int) =~= d);
    assert(piece.subrange(d.len() as int + 1, piece.len() as int) =~= v);
    assert(is_digit(d[0]));
    assert(tag_value(d) == Some(t as int));
    assert(piece_field(piece) == Some(Some((t as int, decode_utf8(v)))));
}

/// The decimal rendering and zero-padded digits are ASCII.
proof fn lemma_digits_ascii(d: Seq<u8>)
    requires
        all_digits(d),
    ensures
        valid_utf8(d),
        forall|i: int| 0 <= i < d.len() ==> #[trigger] d[i] != SOH && d[i] != EQ,
{
    assert forall|i: int| 0 <= i < d.len() implies #[trigger] d[i] < 128 by {
        assert(is_digit(d[i]));
    }
    lemma_ascii_valid_utf8(d);
    assert forall|i: int| 0 <= i < d.len() implies #[trigger] d[i] != SOH && d[i] != EQ by {
        assert(is_digit(d[i]));
    }
}

/// The decimal renderings of the tags that a spike frame uses.
proof fn lemma_tag_texts()
    ensures
        dec(8) == seq![56u8],
        dec(9) == seq![57u8],
        dec(35) == seq![51u8, 53],
        dec(52) == seq![53u8, 50],
        dec(10) == seq![49u8, 48],
        dec(100) == seq![49u8, 48, 48],
        dec(101) == seq![49u8, 48, 49],
        dec(102) == seq![49u8, 48, 50],
{
    assert(dec(3) == seq![51u8]);
    assert(dec(5) == seq![53u8]);
    assert(dec(1) == seq![49u8]);
    assert(dec(10) == seq![49u8, 48]);
}

/// The checksum digits of a frame are ASCII digits.
proof fn lemma_checksum_digits(n: nat)
    requires
        n < 256,
    ensures
        all_digits(pad3(n)),
        valid_utf8(pad3(n)),
        forall|i: int| 0 <= i < pad3(n).len() ==> #[trigger] pad3(n)[i] != SOH && pad3(n)[i] != EQ,
{
    let c = pad3(n);
    assert forall|i: int| 0 <= i < c.len() implies is_digit(#[trigger] c[i]) by {}
    lemma_digits_ascii(c);
}

/// An encoded frame, with plain values, is one whole frame for the reassembler.
proof fn lemma_single_frame(spike_id: nat, who: Seq<u8>, note: Seq<u8>, ts: Seq<u8>)
    requires
        plain_value(who),
        plain_value(note),
        plain_value(ts),
    ensures
        ({
            let f = spike_frame(spike_id, who, note, ts);
            split_frames(f) == (seq![f], Seq::<u8>::empty())
        }),
{
    let body = spike_body(spike_id, who, note, ts);
    let pre = spike_unsealed(spike_id, who, note, ts);
    let f = spike_frame(spike_id, who, note, ts);
    let c = pad3(byte_sum(pre) % 256);
    let dl = dec(body.len());
    let di = dec(spike_id);
    lemma_dec(body.len());
    lemma_dec(spike_id);
    lemma_checksum_digits(byte_sum(pre) % 256);
    lemma_digits_ascii(dl);
    lemma_digits_ascii(di);
    lemma_tag_texts();
    let b = begin_string();
    let m = spike_msg_type();
    assert(plain_value(b));
    assert(plain_value(m));
    let f8 = field(8, b);
    let f9 = field(9, dl);
    let f35 = field(35, m);
    let f100 = field(100, di);
    let f101 = field(101, who);
    let f102 = field(102, note);
    let f52 = field(52, ts);
    let f10 = field(10, c);
    lemma_field_no_key(8, b);
    lemma_field_no_key(9, dl);
    lemma_field_no_key(35, m);
    lemma_field_no_key(100, di);
    lemma_field_no_key(101, who);
    lemma_field_no_key(102, note);
    lemma_field_no_key(52, ts);
    lemma_no_key_concat(f8, f9);
    lemma_no_key_concat(f8 + f9, f35);
    lemma_no_key_concat(f8 + f9 + f35, f100);
    lemma_no_key_concat(f8 + f9 + f35 + f100, f101);
    lemma_no_key_concat(f8 + f9 + f35 + f100 + f101, f102);
    lemma_no_key_concat(f8 + f9 + f35 + f100 + f101 + f102, f52);
    assert(pre =~= f8 + f9 + f35 + f100 + f101 + f102 + f52);
    assert(f =~= pre + f10);
    let p = pre.len() as int;
    assert(f10 =~= seq![49u8, 48, EQ] + c + seq![SOH]);
    assert(f.len() == p + 7);
    assert forall|j: int| 0 <= j < p implies !#[trigger] checksum_key_pred(f)(j) by {
        if checksum_key_at(f, j) {
            lemma_key_within(pre, f10, j);
        }
    }
    assert(f[p - 1] == SOH);
    assert(checksum_key_pred(f)(p));
    lemma_first_in_is(checksum_key_pred(f), f.len() as int, p);
    assert forall|j: int| 0 <= j < p + 6 implies !#[trigger] soh_from_pred(f, p + 3)(j) by {
        if p + 3 <= j {
            assert(f[j] == c[j - p - 3]);
        }
    }
    assert(soh_from_pred(f, p + 3)(p + 6));
    lemma_first_in_is(soh_from_pred(f, p + 3), f.len() as int, p + 6);
    assert(frame_end(f) == Some(p + 6));
    assert(f.subrange(0, p + 7) == f);
    let empty = f.subrange(p + 7, p + 7);
    assert(empty =~= Seq::<u8>::empty());
    assert(frame_end(empty) is None);
    assert(split_frames(empty) == (Seq::<Seq<u8>>::empty(), empty));
    assert(split_frames(f) =~= (seq![f], Seq::<u8>::empty()));
}

/// The fields of eight well-formed fields in a row, with the tags of a spike
/// frame.
#[verifier::rlimit(50)]
proof fn lemma_fields_of_eight(
    b: Seq<u8>,
    dl: Seq<u8>,
    m: Seq<u8>,
    di: Seq<u8>,
    who: Seq<u8>,
    note: Seq<u8>,
    ts: Seq<u8>,
    c: Seq<u8>,
)
    requires
        valid_utf8(b) && valid_utf8(dl) && valid_utf8(m) && valid_utf8(di),
        valid_utf8(who) && valid_utf8(note) && valid_utf8(ts) && valid_utf8(c),
        plain_value(b) && plain_value(dl) && plain_value(m) && plain_value(di),
        plain_value(who) && plain_value(note) && plain_value(ts) && plain_value(c),
    ensures
        frame_fields(
            field(8, b) + (field(9, dl) + (field(35, m) + (field(100, di) + (field(101, who) + (
            field(102, note) + (field(52, ts) + (field(10, c) + Seq::<u8>::empty()))))))),
        ) == Some(
            seq![
                (8int, decode_utf8(b)),
                (9int, decode_utf8(dl)),
                (35int, decode_utf8(m)),
                (100int, decode_utf8(di)),
                (101int, decode_utf8(who)),
                (102int, decode_utf8(note)),
                (52int, decode_utf8(ts)),
                (10int, decode_utf8(c)),
            ],
        ),
{
    let f8 = field(8, b);
    let f9 = field(9, dl);
    let f35 = field(35, m);
    let f100 = field(100, di);
    let f101 = field(101, who);
    let f102 = field(102, note);
    let f52 = field(52, ts);
    let f10 = field(10, c);
    let e = Seq::<u8>::empty();
    let r10 = f10 + e;
    let r52 = f52 + r10;
    let r102 = f102 + r52;
    let r101 = f101 + r102;
    let r100 = f100 + r101;
    let r35 = f35 + r100;
    let r9 = f9 + r35;
    let r8 = f8 + r9;
    let l10 = seq![(10int, decode_utf8(c))];
    let l52 = seq![(52int, decode_utf8(ts))] + l10;
    let l102 = seq![(102int, decode_utf8(note))] + l52;
    let l101 = seq![(101int, decode_utf8(who))] + l102;
    let l100 = seq![(100int, decode_utf8(di))] + l101;
    let l35 = seq![(35int, decode_utf8(m))] + l100;
    let l9 = seq![(9int, decode_utf8(dl))] + l35;
    let l8 = seq![(8int, decode_utf8(b))] + l9;
    assert(frame_fields(r10) == Some(l10)) by {
        assert(frame_fields(e) == Some(Seq::<(int, Seq<char>)>::empty()));
        lemma_frame_fields_cons(10, c, e, Seq::<(int, Seq<char>)>::empty());
        assert(l10 =~= seq![(10int, decode_utf8(c))] + Seq::<(int, Seq<char>)>::empty());
    }
    assert(frame_fields(r52) == Some(l52)) by {
        lemma_frame_fields_cons(52, ts, r10, l10);
    }
    assert(frame_fields(r102) == Some(l102)) by {
        lemma_frame_fields_cons(102, note, r52, l52);
    }
    assert(frame_fields(r101) == Some(l101)) by {
        lemma_frame_fields_cons(101, who, r102, l102);
    }
    assert(frame_fields(r100) == Some(l100)) by {
        lemma_frame_fields_cons(100, di, r101, l101);
    }
    assert(frame_fields(r35) == Some(l35)) by {
        lemma_frame_fields_cons(35, m, r100, l100);
    }
    assert(frame_fields(r9) == Some(l9)) by {
        lemma_frame_fields_cons(9, dl, r35, l35);
    }
    assert(frame_fields(r8) == Some(l8)) by {
        lemma_frame_fields_cons(8, b, r9, l9);
    }
    assert(l8 =~= seq![
        (8int, decode_utf8(b)),
        (9int, decode_utf8(dl)),
        (35int, decode_utf8(m)),
        (100int, decode_utf8(di)),
        (101int, decode_utf8(who)),
        (102int, decode_utf8(note)),
        (52int, decode_utf8(ts)),
        (10int, decode_utf8(c)),
    ]);
}

/// The field map of an encoded frame carries the actor under tag 101 and the
/// note under tag 102.
#[verifier::rlimit(60)]
proof fn lemma_frame_carries(spike_id: nat, who: Seq<u8>, note: Seq<u8>, ts: Seq<u8>)
    requires
        spike_id <= i32::MAX,
        valid_utf8(who),
        valid_utf8(note),
        valid_utf8(ts),
        plain_value(who),
        plain_value(note),
        plain_value(ts),
    ensures
        frame_fields(spike_frame(spike_id, who, note, ts)) matches Some(fs) && lookup(fs, 101)
            == Some(decode_utf8(who)) && lookup(fs, 102) == Some(decode_utf8(note)),
{
    let body = spike_body(spike_id, who, note, ts);
    let pre = spike_unsealed(spike_id, who, note, ts);
    let f = spike_frame(spike_id, who, note, ts);
    let c = pad3(byte_sum(pre) % 256);
    let dl = dec(body.len());
    let di = dec(spike_id);
    lemma_dec(body.len());
    lemma_dec(spike_id);
    lemma_checksum_digits(byte_sum(pre) % 256);
    lemma_digits_ascii(dl);
    lemma_digits_ascii(di);
    let b = begin_string();
    let m = spike_msg_type();
    assert forall|i: int| 0 <= i < b.len() implies #[trigger] b[i] < 128 by {}
    assert forall|i: int| 0 <= i < m.len() implies #[trigger] m[i] < 128 by {}
    lemma_ascii_valid_utf8(b);
    lemma_ascii_valid_utf8(m);
    assert(plain_value(b));
    assert(plain_value(m));
    let f8 = field(8, b);
    let f9 = field(9, dl);
    let f35 = field(35, m);
    let f100 = field(100, di);
    let f101 = field(101, who);
    let f102 = field(102, note);
    let f52 = field(52, ts);
    let f10 = field(10, c);
    lemma_fields_of_eight(b, dl, m, di, who, note, ts, c);
    let e = Seq::<u8>::empty();
    let r8 = f8 + (f9 + (f35 + (f100 + (f101 + (f102 + (f52 + (f10 + e)))))));
    let l8 = seq![
        (8int, decode_utf8(b)),
        (9int, decode_utf8(dl)),
        (35int, decode_utf8(m)),
        (100int, decode_utf8(di)),
        (101int, decode_utf8(who)),
        (102int, decode_utf8(note)),
        (52int, decode_utf8(ts)),
        (10int, decode_utf8(c)),
    ];
    assert(pre =~= f8 + f9 + f35 + f100 + f101 + f102 + f52);
    assert(f =~= r8);
    lemma_lookup_entries(
        decode_utf8(b),
        decode_utf8(dl),
        decode_utf8(m),
        decode_utf8(di),
        decode_utf8(who),
        decode_utf8(note),
        decode_utf8(ts),
        decode_utf8(c),
    );
}

/// Looking up the actor and the note among the fields of a spike frame.
proof fn lemma_lookup_entries(
    v8: Seq<char>,
    v9: Seq<char>,
    v35: Seq<char>,
    v100: Seq<char>,
    v101: Seq<char>,
    v102: Seq<char>,
    v52: Seq<char>,
    v10: Seq<char>,
)
    ensures
        ({
            let l = seq![
                (8int, v8),
                (9int, v9),
                (35int, v35),
                (100int, v100),
                (101int, v101),
                (102int, v102),
                (52int, v52),
                (10int, v10),
            ];
            lookup(l, 101) == Some(v101) && lookup(l, 102) == Some(v102)
        }),
{
    let l = seq![
        (8int, v8),
        (9int, v9),
        (35int, v35),
        (100int, v100),
        (101int, v101),
        (102int, v102),
        (52int, v52),
        (10int, v10),
    ];
    let l1 = l.drop_last();
    let l2 = l1.drop_last();
    let l3 = l2.drop_last();
    assert(l1.last() == (52int, v52));
    assert(l2.last() == (102int, v102));
    assert(l3.last() == (101int, v101));
    assert(lookup(l3, 101) == Some(v101));
    assert(lookup(l2, 101) == lookup(l3, 101));
    assert(lookup(l1, 101) == lookup(l2, 101));
    assert(lookup(l, 101) == lookup(l1, 101));
    assert(lookup(l2, 102) == Some(v102));
    assert(lookup(l1, 102) == lookup(l2, 102));
    assert(lookup(l, 102) == lookup(l1, 102));
}

/// Round trip, as far as the receiving side reads an encoded frame: for an
/// actor, a note and a sending time that are UTF-8 text without a delimiter or
/// `=`, the reassembler yields the frame as one whole frame with nothing left
/// over, and the frame's field map gives back the actor under tag 101 and the
/// note under tag 102.
pub proof fn lemma_round_trip(spike_id: nat, who: Seq<u8>, note: Seq<u8>, ts: Seq<u8>)
    requires
        spike_id <= i32::MAX,
        valid_utf8(who),
        valid_utf8(note),
        valid_utf8(ts),
        plain_value(who),
        plain_value(note),
        plain_value(ts),
    ensures
        ({
            let f = spike_frame(spike_id, who, note, ts);
            &&& split_frames(f) == (seq![f], Seq::<u8>::empty())
            &&& frame_fields(f) matches Some(fs) && lookup(fs, 101) == Some(decode_utf8(who))
                && lookup(fs, 102) == Some(decode_utf8(note))
        }),
{
    lemma_single_frame(spike_id, who, note, ts);
    lemma_frame_carries(spike_id, who, note, ts);
}

} // verus!
