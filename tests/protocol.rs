use nkisi_fix::decoder::{find_field, parse_fix_fields, parse_fix_spike, parse_tag, SpikeFields};
use nkisi_fix::domain::Outcome;
use nkisi_fix::encoder::{
    build_spike_message, build_spike_message_at, checksum, find_after_bodylen, write_bodylen_in_place,
};
use nkisi_fix::wire::{push_decimal, push_fix_field};
use nkisi_fix::reassembler::{find_fix_end, FixReassembler};

fn text(fields: &Vec<(i32, String)>, tag: i32) -> Option<String> {
    find_field(fields, tag).map(|i| fields[i].1.clone())
}

fn spike_frame(who: &str, x: &str, y: &str, extra: &str) -> Vec<u8> {
    let s = format!(
        "8=FIX.4.2\u{1}9=0\u{1}35=U1\u{1}55=NKISI\u{1}448={who}\u{1}6010={x}\u{1}6011={y}\u{1}{extra}10=000\u{1}"
    );
    s.into_bytes()
}

#[test]
fn encoded_frame_has_exact_layout() {
    let f = build_spike_message_at(7, "alice", "test", "20240101-12:00:00");
    let body = "35=SPK\u{1}100=7\u{1}101=alice\u{1}102=test\u{1}52=20240101-12:00:00\u{1}";
    assert_eq!(body.len(), 53);
    let pre = format!("8=FIX.4.2\u{1}9=53\u{1}{body}");
    let sum: u32 = pre.bytes().map(|b| b as u32).sum::<u32>() % 256;
    let expected = format!("{pre}10={:03}\u{1}", sum);
    assert_eq!(f, expected.into_bytes());
}

#[test]
fn encoded_actor_and_note_round_trip_through_fields() {
    let f = build_spike_message(7, "alice", "test");
    let fields = parse_fix_fields(&f).expect("fields");
    assert_eq!(text(&fields, 101), Some("alice".to_string()));
    assert_eq!(text(&fields, 102), Some("test".to_string()));
    assert_eq!(text(&fields, 100), Some("7".to_string()));
    let ck = text(&fields, 10).expect("checksum field");
    assert_eq!(ck.len(), 3);
    assert!(ck.bytes().all(|b| b.is_ascii_digit()));
}

#[test]
fn checksum_is_sum_of_preceding_bytes() {
    let f = build_spike_message(123, "bob", "hello world");
    let n = f.len();
    assert_eq!(&f[n - 8..n - 4], b"\x0110=");
    let sum: u32 = f[..n - 7].iter().map(|b| *b as u32).sum::<u32>() % 256;
    assert_eq!(&f[n - 4..n - 1], format!("{:03}", sum).as_bytes());
}

#[test]
fn body_length_counts_the_body() {
    let f = build_spike_message(42, "carol", "a note");
    let s = String::from_utf8(f.clone()).unwrap();
    let start = s.find("\u{1}9=").unwrap() + 3;
    let end = start + s[start..].find('\u{1}').unwrap();
    let declared: usize = s[start..end].parse().unwrap();
    let checksum_at = f.len() - 7;
    assert_eq!(declared, checksum_at - (end + 1));
}

#[test]
fn encoded_frame_is_one_frame_for_the_reassembler() {
    let f = build_spike_message(9, "dave", "note");
    let mut r = FixReassembler::new();
    let frames = r.feed(&f);
    assert_eq!(frames, vec![f.clone()]);
    assert!(r.pending().is_empty());
}

#[test]
fn two_frames_in_one_chunk_decode_in_order() {
    let mut stream = spike_frame("alice", "10", "20", "");
    stream.extend(spike_frame("bob", "30", "40", ""));
    let mut r = FixReassembler::new();
    let frames = r.feed(&stream);
    assert_eq!(frames.len(), 2);
    let events: Vec<SpikeFields> = frames.iter().filter_map(|f| parse_fix_spike(f)).collect();
    assert_eq!(events.len(), 2);
    assert_eq!(events[0].who, "alice");
    assert_eq!(events[0].pos_x, "10");
    assert_eq!(events[1].who, "bob");
    assert_eq!(events[1].pos_y, "40");
}

#[test]
fn chunking_does_not_change_frames() {
    let mut stream = spike_frame("alice", "10", "20", "");
    stream.extend(spike_frame("bob", "30", "40", "58=hi\u{1}"));
    stream.extend(b"8=FIX.4.2\x0135=U1");
    let mut whole = FixReassembler::new();
    let at_once = whole.feed(&stream);
    for size in [1usize, 2, 3, 7, 13] {
        let mut r = FixReassembler::new();
        let mut got = Vec::new();
        for chunk in stream.chunks(size) {
            got.extend(r.feed(chunk));
        }
        assert_eq!(got, at_once);
        assert_eq!(r.pending(), whole.pending());
    }
    assert_eq!(at_once.len(), 2);
    assert_eq!(whole.pending(), b"8=FIX.4.2\x0135=U1");
}

#[test]
fn incomplete_frame_stays_buffered() {
    let mut r = FixReassembler::new();
    assert!(r.feed(b"35=U1\x0110=12").is_empty());
    assert_eq!(r.pending(), b"35=U1\x0110=12");
    let frames = r.feed(b"3\x01rest");
    assert_eq!(frames, vec![b"35=U1\x0110=123\x01".to_vec()]);
    assert_eq!(r.pending(), b"rest");
}

#[test]
fn find_fix_end_positions() {
    assert_eq!(find_fix_end(b"a=1\x0110=000\x01"), Some(10));
    assert_eq!(find_fix_end(b"a=1\x0110=000"), None);
    assert_eq!(find_fix_end(b"a=1\x0110="), None);
    assert_eq!(find_fix_end(b""), None);
    assert_eq!(find_fix_end(b"10=1\x01"), Some(4));
}

#[test]
fn checksum_key_inside_a_tag_does_not_end_a_frame() {
    assert_eq!(find_fix_end(b"6010=5\x01110=2\x0110=000\x01"), Some(19));
}

#[test]
fn wrong_message_type_is_rejected() {
    let f = String::from_utf8(spike_frame("alice", "1", "2", "")).unwrap();
    let f = f.replace("35=U1", "35=SPK");
    assert!(parse_fix_spike(f.as_bytes()).is_none());
}

#[test]
fn wrong_symbol_is_rejected() {
    let f = String::from_utf8(spike_frame("alice", "1", "2", "")).unwrap();
    let f = f.replace("55=NKISI", "55=OTHER");
    assert!(parse_fix_spike(f.as_bytes()).is_none());
}

#[test]
fn missing_actor_or_position_is_rejected() {
    let f = String::from_utf8(spike_frame("alice", "1", "2", "")).unwrap();
    assert!(parse_fix_spike(f.replace("448=alice\u{1}", "").as_bytes()).is_none());
    assert!(parse_fix_spike(f.replace("6010=1\u{1}", "").as_bytes()).is_none());
    assert!(parse_fix_spike(f.replace("6011=2\u{1}", "").as_bytes()).is_none());
}

#[test]
fn encoder_output_is_not_a_spike_event() {
    let f = build_spike_message(7, "alice", "test");
    assert!(parse_fix_spike(&f).is_none());
}

#[test]
fn optional_fields_are_read() {
    let f = spike_frame("alice", "150", "-10", "58=hello\u{1}60=2024-01-01T00:00:00Z\u{1}");
    let e = parse_fix_spike(&f).expect("event");
    assert_eq!(e.who, "alice");
    assert_eq!(e.pos_x, "150");
    assert_eq!(e.pos_y, "-10");
    assert_eq!(e.message, Some("hello".to_string()));
    assert_eq!(e.when, Some((1704067200, 0)));
}

#[test]
fn offset_time_is_taken_to_utc() {
    let f = spike_frame("alice", "1", "2", "60=2024-01-01T01:00:00.5+01:00\u{1}");
    let e = parse_fix_spike(&f).expect("event");
    assert_eq!(e.when, Some((1704067200, 500_000_000)));
}

#[test]
fn bad_time_leaves_time_unset() {
    let f = spike_frame("alice", "1", "2", "60=yesterday\u{1}");
    let e = parse_fix_spike(&f).expect("event");
    assert_eq!(e.when, None);
    assert_eq!(e.message, None);
}

#[test]
fn last_duplicate_tag_wins() {
    let f = spike_frame("alice", "1", "2", "448=zoe\u{1}");
    let e = parse_fix_spike(&f).expect("event");
    assert_eq!(e.who, "zoe");
}

#[test]
fn bad_tag_rejects_frame() {
    let f = spike_frame("alice", "1", "2", "x1=oops\u{1}");
    assert!(parse_fix_spike(&f).is_none());
    assert!(parse_fix_fields(b"99999999999=a\x01").is_none());
}

#[test]
fn non_utf8_value_rejects_frame() {
    assert!(parse_fix_fields(b"1=a\x012=\xff\x01").is_none());
}

#[test]
fn utf8_values_are_decoded() {
    let fields = parse_fix_fields("1=caf\u{e9}\u{1}".as_bytes()).expect("fields");
    assert_eq!(fields, vec![(1, "caf\u{e9}".to_string())]);
}

#[test]
fn pieces_without_equals_are_skipped() {
    let fields = parse_fix_fields(b"junk\x01\x01-3=v\x01+4=w=x").expect("fields");
    assert_eq!(fields, vec![(-3, "v".to_string()), (4, "w=x".to_string())]);
}

#[test]
fn tags_read_as_signed_integers() {
    assert_eq!(parse_tag(b"35"), Some(35));
    assert_eq!(parse_tag(b"+5"), Some(5));
    assert_eq!(parse_tag(b"-2147483648"), Some(i32::MIN));
    assert_eq!(parse_tag(b"2147483647"), Some(i32::MAX));
    assert_eq!(parse_tag(b"2147483648"), None);
    assert_eq!(parse_tag(b"000000000000012"), Some(12));
    assert_eq!(parse_tag(b""), None);
    assert_eq!(parse_tag(b"-"), None);
    assert_eq!(parse_tag(b"1a"), None);
}

#[test]
fn outcomes_compare() {
    assert_eq!(Outcome::Pending, Outcome::Pending);
    assert_ne!(Outcome::Resolved, Outcome::Failed);
}

#[test]
fn checksum_sums_modulo_256() {
    assert_eq!(checksum(b""), 0);
    assert_eq!(checksum(b"A"), 65);
    assert_eq!(checksum(&[200u8, 100]), 44);
    assert_eq!(checksum(&[255u8; 256]), 0);
}

#[test]
fn body_length_field_is_located() {
    assert_eq!(find_after_bodylen(b"8=FIX.4.2\x019=000\x0135=SPK\x01"), Some(16));
    assert_eq!(find_after_bodylen(b"8=FIX.4.2\x019=000"), None);
    assert_eq!(find_after_bodylen(b"8=FIX.4.2\x01"), None);
}

#[test]
fn body_length_is_rewritten_in_place() {
    let mut grow = b"8=X\x019=0\x01rest".to_vec();
    assert_eq!(write_bodylen_in_place(&mut grow, 1234), Some(()));
    assert_eq!(grow, b"8=X\x019=1234\x01rest".to_vec());
    let mut shrink = b"9=000\x01a".to_vec();
    assert_eq!(write_bodylen_in_place(&mut shrink, 7), Some(()));
    assert_eq!(shrink, b"9=7\x01a".to_vec());
    let mut missing = b"8=X\x01".to_vec();
    assert_eq!(write_bodylen_in_place(&mut missing, 7), None);
    assert_eq!(missing, b"8=X\x01".to_vec());
}

#[test]
fn fields_and_numbers_render() {
    let mut buf = Vec::new();
    push_fix_field(&mut buf, 101, b"alice");
    assert_eq!(buf, b"101=alice\x01".to_vec());
    let mut n = Vec::new();
    push_decimal(&mut n, 0);
    push_decimal(&mut n, 4294967295);
    assert_eq!(n, b"04294967295".to_vec());
}

#[test]
fn large_spike_id_and_empty_note_encode() {
    let f = build_spike_message_at(u32::MAX, "x", "", "20240101-00:00:00");
    let fields = parse_fix_fields(&f).expect("fields");
    assert_eq!(text(&fields, 100), Some("4294967295".to_string()));
    assert_eq!(text(&fields, 102), Some(String::new()));
    assert_eq!(text(&fields, 9), Some("54".to_string()));
}
