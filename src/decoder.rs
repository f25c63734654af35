//! Decoding one complete frame: fields, the tag map, and the spike it carries.
use vstd::prelude::*;
use vstd::utf8::{decode_utf8, valid_utf8};
use crate::clock::{parse_rfc3339, rfc3339_instant};
use crate::wire::{all_digits, digits_value, first_in, is_digit, lemma_first_in, lemma_first_in_is, lemma_first_in_none, soh_from_pred, EQ};

verus! {

/// The tag that a field's key text denotes, read as a signed 32-bit integer:
/// an optional `+` or `-`, then one or more decimal digits.
pub open spec fn tag_value(k: Seq<u8>) -> Option<int> {
    let signed = k.len() > 0 && (k[0] == 45 || k[0] == 43);
    let digits = if signed {
        k.drop_first()
    } else {
        k
    };
    if digits.len() == 0 || !all_digits(digits) {
        None
    } else {
        let v = if k[0] == 45 {
            -digits_value(digits)
        } else {
            digits_value(digits)
        };
        if i32::MIN <= v <= i32::MAX {
            Some(v)
        } else {
            None
        }
    }
}

/// A digit string reads at least as large as any of its prefixes.
proof fn lemma_digits_value_prefix(s: Seq<u8>, i: int)
    requires
        all_digits(s),
        0 <= i <= s.len(),
    ensures
        digits_value(s.subrange(0, i)) <= digits_value(s),
    decreases s.len(),
{
    if i < s.len() {
        let t = s.drop_last();
        assert(all_digits(t)) by {
            assert forall|j: int| 0 <= j < t.len() implies is_digit(#[trigger] t[j]) by {
                assert(t[j] == s[j]);
            }
        }
        lemma_digits_value_prefix(t, i);
        assert(t.subrange(0, i) == s.subrange(0, i));
        assert(is_digit(s[s.len() - 1]));
        assert(digits_value(t) >= 0) by {
            lemma_digits_value_nonneg(t);
        }
    } else {
        assert(s.subrange(0, i) == s);
    }
}

proof fn lemma_digits_value_nonneg(s: Seq<u8>)
    requires
        all_digits(s),
    ensures
        digits_value(s) >= 0,
    decreases s.len(),
{
    if s.len() > 0 {
        let t = s.drop_last();
        assert(all_digits(t)) by {
            assert forall|j: int| 0 <= j < t.len() implies is_digit(#[trigger] t[j]) by {
                assert(t[j] == s[j]);
            }
        }
        lemma_digits_value_nonneg(t);
        assert(is_digit(s[s.len() - 1]));
    }
}

/// Reads a field's key text as a tag.
pub fn parse_tag(k: &[u8]) -> (r: Option<i32>)
    ensures
        match tag_value(k@) {
            Some(v) => r matches Some(x) && x as int == v,
            None => r is None,
        },
{
    let n = k.len();
    if n == 0 {
        return None;
    }
    let start: usize = if k[0] == 45 || k[0] == 43 {
        1
    } else {
        0
    };
    let ghost digits = k@.subrange(start as int, n as int);
    assert(digits == if start == 1 { k@.drop_first() } else { k@ });
    assert(digits == if k@.len() > 0 && (k@[0] == 45 || k@[0] == 43) {
        k@.drop_first()
    } else {
        k@
    });
    if start == n {
        return None;
    }
    let mut acc: u64 = 0;
    let mut i: usize = start;
    while i < n
        invariant
            n == k@.len(),
            start <= i <= n,
            digits == k@.subrange(start as int, n as int),
            digits == if k@.len() > 0 && (k@[0] == 45 || k@[0] == 43) {
                k@.drop_first()
            } else {
                k@
            },
            acc as int == digits_value(k@.subrange(start as int, i as int)),
            acc <= 2147483648,
            all_digits(k@.subrange(start as int, i as int)),
        decreases n - i,
    {
        let b = k[i];
        if b < 48 || b > 57 {
            assert(!is_digit(digits[i - start]));
            assert(!all_digits(digits));
            assert(tag_value(k@) is None);
            return None;
        }
        let ghost pre = k@.subrange(start as int, i + 1);
        assert(pre.drop_last() == k@.subrange(start as int, i as int));
        acc = acc * 10 + (b - 48) as u64;
        assert(all_digits(pre)) by {
            assert forall|j: int| 0 <= j < pre.len() implies is_digit(#[trigger] pre[j]) by {
                if j < pre.len() - 1 {
                    assert(pre[j] == k@.subrange(start as int, i as int)[j]);
                }
            }
        }
        if acc > 2147483648 {
            proof {
                if all_digits(digits) {
                    assert(digits.subrange(0, i + 1 - start) == pre);
                    lemma_digits_value_prefix(digits, i + 1 - start);
                    assert(digits_value(digits) > 2147483648);
                }
                assert(tag_value(k@) is None);
            }
            return None;
        }
        i = i + 1;
    }
    if k[0] == 45 {
        Some((0 - acc as i64) as i32)
    } else if acc > 2147483647 {
        None
    } else {
        Some(acc as i32)
    }
}

/// Relies on `std::str::from_utf8`: it accepts exactly the valid UTF-8 byte
/// strings, and the text it returns is their decoding.
#[verifier::external_body]
fn utf8_text(b: &[u8]) -> (r: Option<String>)
    ensures
        r is Some <==> valid_utf8(b@),
        r matches Some(t) ==> t@ == decode_utf8(b@),
{
    match std::str::from_utf8(b) {
        Ok(t) => Some(t.to_string()),
        Err(_) => None,
    }
}

/// An `=` at index `i`.
pub open spec fn eq_pred(p: Seq<u8>) -> spec_fn(int) -> bool {
    |i: int| 0 <= i < p.len() && p[i] == EQ
}

/// One delimited piece of a frame: `Some(None)` where it is skipped (empty,
/// or with no `=`), `Some(Some((tag, value)))` where it is a field, and `None`
/// where its key is not a tag or its value not UTF-8, which rejects the frame.
pub open spec fn piece_field(p: Seq<u8>) -> Option<Option<(int, Seq<char>)>> {
    match first_in(eq_pred(p), p.len() as int) {
        None => Some(None),
        Some(e) => {
            let value = p.subrange(e + 1, p.len() as int);
            match tag_value(p.subrange(0, e)) {
                None => None,
                Some(t) => if valid_utf8(value) {
                    Some(Some((t, decode_utf8(value))))
                } else {
                    None
                },
            }
        },
    }
}

/// The fields of a frame, in order: the pieces between delimiters, each read
/// by `piece_field`; `None` if any piece rejects the frame.
pub open spec fn frame_fields(s: Seq<u8>) -> Option<Seq<(int, Seq<char>)>>
    decreases s.len(),
{
    if s.len() == 0 {
        Some(seq![])
    } else {
        let k = match first_in(soh_from_pred(s, 0), s.len() as int) {
            Some(k) => if 0 <= k < s.len() {
                k
            } else {
                s.len() as int
            },
            None => s.len() as int,
        };
        let rest = if k < s.len() {
            s.subrange(k + 1, s.len() as int)
        } else {
            seq![]
        };
        match piece_field(s.subrange(0, k)) {
            None => None,
            Some(None) => frame_fields(rest),
            Some(Some(f)) => match frame_fields(rest) {
                Some(fs) => Some(seq![f] + fs),
                None => None,
            },
        }
    }
}

/// The fields of a decoded frame, as tags and texts.
pub open spec fn fields_view(v: Seq<(i32, String)>) -> Seq<(int, Seq<char>)> {
    v.map_values(|f: (i32, String)| (f.0 as int, f.1@))
}

/// Reads one delimited piece of a frame.
fn decode_piece(p: &[u8]) -> (r: Option<Option<(i32, String)>>)
    ensures
        match piece_field(p@) {
            None => r is None,
            Some(None) => r matches Some(x) && x is None,
            Some(Some(f)) => r matches Some(x) && x matches Some(g) && g.0 as int == f.0 && g.1@
                == f.1,
        },
{
    let mut e: usize = 0;
    while e < p.len() && p[e] != EQ
        invariant
            e <= p@.len(),
            forall|j: int| 0 <= j < e ==> !#[trigger] eq_pred(p@)(j),
        decreases p@.len() - e,
    {
        assert(!eq_pred(p@)(e as int));
        e = e + 1;
    }
    if e == p.len() {
        proof {
            lemma_first_in_none(eq_pred(p@), p@.len() as int);
        }
        return Some(None);
    }
    proof {
        lemma_first_in_is(eq_pred(p@), p@.len() as int, e as int);
    }
    let key = vstd::slice::slice_subrange(p, 0, e);
    let value = vstd::slice::slice_subrange(p, e + 1, p.len());
    match parse_tag(key) {
        None => None,
        Some(t) => match utf8_text(value) {
            None => None,
            Some(text) => Some(Some((t, text))),
        },
    }
}

/// Splits a frame into its fields, in order. Pieces that are empty or hold no
/// `=` are skipped; a key that is not a 32-bit tag, or a value that is not
/// UTF-8, rejects the whole frame.
pub fn parse_fix_fields(raw: &[u8]) -> (r: Option<Vec<(i32, String)>>)
    ensures
        match frame_fields(raw@) {
            Some(fs) => r matches Some(v) && fields_view(v@) == fs,
            None => r is None,
        },
{
    let ghost s = raw@;
    let n = raw.len();
    let mut out: Vec<(i32, String)> = Vec::new();
    let mut pos: usize = 0;
    proof {
        assert(s.subrange(0, n as int) == s);
        if let Some(fs) = frame_fields(s) {
            assert(fields_view(out@) + fs =~= fs);
        }
    }
    while pos < n
        invariant
            s == raw@,
            n == s.len(),
            pos <= n,
            frame_fields(s) == match frame_fields(s.subrange(pos as int, n as int)) {
                Some(fs) => Some(fields_view(out@) + fs),
                None => None::<Seq<(int, Seq<char>)>>,
            },
        decreases n - pos,
    {
        let ghost sub = s.subrange(pos as int, n as int);
        let mut j: usize = pos;
        while j < n && raw[j] != crate::wire::SOH
            invariant
                s == raw@,
                n == s.len(),
                sub == s.subrange(pos as int, n as int),
                pos <= j <= n,
                forall|k: int| 0 <= k < j - pos ==> !#[trigger] soh_from_pred(sub, 0)(k),
            decreases n - j,
        {
            assert(!soh_from_pred(sub, 0)((j - pos) as int));
            j = j + 1;
        }
        let ghost k = (j - pos) as int;
        proof {
            if j < n {
                assert(soh_from_pred(sub, 0)(k));
                lemma_first_in_is(soh_from_pred(sub, 0), sub.len() as int, k);
            } else {
                lemma_first_in_none(soh_from_pred(sub, 0), sub.len() as int);
            }
        }
        let piece = vstd::slice::slice_subrange(raw, pos, j);
        assert(piece@ == sub.subrange(0, k));
        let next: usize = if j < n {
            j + 1
        } else {
            n
        };
        assert(s.subrange(next as int, n as int) == if k < sub.len() {
            sub.subrange(k + 1, sub.len() as int)
        } else {
            seq![]
        });
        let ghost prev = fields_view(out@);
        match decode_piece(piece) {
            None => {
                return None;
            },
            Some(None) => {},
            Some(Some(f)) => {
                out.push(f);
                assert(fields_view(out@) =~= prev + seq![(f.0 as int, f.1@)]);
                proof {
                    if let Some(fs) = frame_fields(s.subrange(next as int, n as int)) {
                        assert(fields_view(out@) + fs =~= prev + (seq![(f.0 as int, f.1@)] + fs));
                    }
                }
            },
        }
        pos = next;
    }
    assert(s.subrange(n as int, n as int) =~= Seq::<u8>::empty());
    assert(fields_view(out@) + Seq::<(int, Seq<char>)>::empty() =~= fields_view(out@));
    Some(out)
}

/// The value of the last field with tag `tag`: a later field overwrites an
/// earlier one.
pub open spec fn lookup(fs: Seq<(int, Seq<char>)>, tag: int) -> Option<Seq<char>>
    decreases fs.len(),
{
    if fs.len() == 0 {
        None
    } else if fs.last().0 == tag {
        Some(fs.last().1)
    } else {
        lookup(fs.drop_last(), tag)
    }
}

/// Message type of a spike event frame.
pub const TAG_MSG_TYPE: i32 = 35;
/// The event stream's symbol.
pub const TAG_SYMBOL: i32 = 55;
/// Who triggered the spike.
pub const TAG_WHO: i32 = 448;
/// Horizontal position.
pub const TAG_POS_X: i32 = 6010;
/// Vertical position.
pub const TAG_POS_Y: i32 = 6011;
/// Free-text message.
pub const TAG_TEXT: i32 = 58;
/// Transaction time, RFC 3339.
pub const TAG_TRANSACT_TIME: i32 = 60;

/// The message type of a spike event, `U1`.
pub open spec fn spike_event_type() -> Seq<char> {
    seq!['U', '1']
}

/// The symbol of this event stream, `NKISI`.
pub open spec fn nkisi_symbol() -> Seq<char> {
    seq!['N', 'K', 'I', 'S', 'I']
}

/// The texts of a spike event, as carried by a frame.
pub ghost struct SpikeFieldsView {
    pub who: Seq<char>,
    pub pos_x: Seq<char>,
    pub pos_y: Seq<char>,
    pub message: Option<Seq<char>>,
    pub when: Option<(i64, u32)>,
}

/// The spike event that the fields `fs` carry: `None` unless the message type
/// is `U1`, the symbol is `NKISI`, and who and both positions are present.
pub open spec fn spike_of_fields(fs: Seq<(int, Seq<char>)>) -> Option<SpikeFieldsView> {
    if lookup(fs, 35) != Some(spike_event_type()) || lookup(fs, 55) != Some(nkisi_symbol()) {
        None
    } else if lookup(fs, 448) is None || lookup(fs, 6010) is None || lookup(fs, 6011) is None {
        None
    } else {
        Some(
            SpikeFieldsView {
                who: lookup(fs, 448)->Some_0,
                pos_x: lookup(fs, 6010)->Some_0,
                pos_y: lookup(fs, 6011)->Some_0,
                message: lookup(fs, 58),
                when: match lookup(fs, 60) {
                    Some(t) => rfc3339_instant(t),
                    None => None,
                },
            },
        )
    }
}

/// The spike event that a complete frame carries, if any.
pub open spec fn spike_of_frame(raw: Seq<u8>) -> Option<SpikeFieldsView> {
    match frame_fields(raw) {
        Some(fs) => spike_of_fields(fs),
        None => None,
    }
}

/// The fields of a spike event as texts; the positions are decimal numbers
/// that the consumer reads and clamps, and `when` is the transaction time as
/// seconds since the Unix epoch and nanoseconds past them.
pub struct SpikeFields {
    pub who: String,
    pub pos_x: String,
    pub pos_y: String,
    pub message: Option<String>,
    pub when: Option<(i64, u32)>,
}

impl View for SpikeFields {
    type V = SpikeFieldsView;

    open spec fn view(&self) -> SpikeFieldsView {
        SpikeFieldsView {
            who: self.who@,
            pos_x: self.pos_x@,
            pos_y: self.pos_y@,
            message: match self.message {
                Some(m) => Some(m@),
                None => None,
            },
            when: self.when,
        }
    }
}

/// The index of the last field with tag `tag`.
pub fn find_field(fields: &Vec<(i32, String)>, tag: i32) -> (r: Option<usize>)
    ensures
        match lookup(fields_view(fields@), tag as int) {
            Some(v) => r matches Some(i) && i < fields@.len() && fields@[i as int].1@ == v,
            None => r is None,
        },
{
    let mut i: usize = fields.len();
    assert(fields@.subrange(0, i as int) == fields@);
    while i > 0
        invariant
            i <= fields@.len(),
            lookup(fields_view(fields@), tag as int) == lookup(
                fields_view(fields@.subrange(0, i as int)),
                tag as int,
            ),
        decreases i,
    {
        let ghost fv = fields_view(fields@.subrange(0, i as int));
        assert(fv.drop_last() =~= fields_view(fields@.subrange(0, i - 1)));
        if fields[i - 1].0 == tag {
            return Some(i - 1);
        }
        i = i - 1;
    }
    None
}

/// A copy of the text of the last field with tag `tag`.
fn field_text(fields: &Vec<(i32, String)>, tag: i32) -> (r: Option<String>)
    ensures
        match lookup(fields_view(fields@), tag as int) {
            Some(v) => r matches Some(t) && t@ == v,
            None => r is None,
        },
{
    match find_field(fields, tag) {
        Some(i) => Some(fields[i].1.clone()),
        None => None,
    }
}

/// Decodes a complete frame into the spike event it carries: `None` unless
/// every field reads, the message type is `U1`, the symbol is `NKISI`, and
/// who and both positions are present. The message is optional, and the
/// transaction time is absent where missing or not RFC 3339.
pub fn parse_fix_spike(raw: &[u8]) -> (r: Option<SpikeFields>)
    ensures
        match spike_of_frame(raw@) {
            Some(v) => r matches Some(f) && f@ == v,
            None => r is None,
        },
{
    let fields = match parse_fix_fields(raw) {
        Some(f) => f,
        None => return None,
    };
    let spike_type = "U1".to_owned();
    let symbol = "NKISI".to_owned();
    proof {
        reveal_strlit("U1");
        reveal_strlit("NKISI");
        assert(spike_type@ =~= spike_event_type());
        assert(symbol@ =~= nkisi_symbol());
    }
    match field_text(&fields, TAG_MSG_TYPE) {
        Some(t) => {
            if !(t == spike_type) {
                return None;
            }
        },
        None => return None,
    }
    match field_text(&fields, TAG_SYMBOL) {
        Some(t) => {
            if !(t == symbol) {
                return None;
            }
        },
        None => return None,
    }
    let who = match field_text(&fields, TAG_WHO) {
        Some(t) => t,
        None => return None,
    };
    let pos_x = match field_text(&fields, TAG_POS_X) {
        Some(t) => t,
        None => return None,
    };
    let pos_y = match field_text(&fields, TAG_POS_Y) {
        Some(t) => t,
        None => return None,
    };
    let message = field_text(&fields, TAG_TEXT);
    let when = match field_text(&fields, TAG_TRANSACT_TIME) {
        Some(t) => parse_rfc3339(t.as_str()),
        None => None,
    };
    Some(SpikeFields { who, pos_x, pos_y, message, when })
}

} // verus!
