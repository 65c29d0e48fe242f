use ais_forwarder::ais_reformatter::{process_chunk_at, process_complete_chunk};

const SAMPLE: &[u8] = b"!AIVDM,1,1,,B,ABC\r\n\n!AIVDM,2,1,,B,DEF\n";

#[test]
fn lines_without_prefix() {
    let out = process_chunk_at(SAMPLE, None);
    assert_eq!(
        out,
        vec![b"!AIVDM,1,1,,B,ABC\n".to_vec(), b"!AIVDM,2,1,,B,DEF\n".to_vec()]
    );
}

#[test]
fn lines_with_time_prefix() {
    let out = process_chunk_at(SAMPLE, Some(1700000000));
    assert_eq!(
        out,
        vec![
            b"1700000000,!AIVDM,1,1,,B,ABC\n".to_vec(),
            b"1700000000,!AIVDM,2,1,,B,DEF\n".to_vec()
        ]
    );
}

#[test]
fn small_times_have_no_leading_zero() {
    assert_eq!(process_chunk_at(b"x", Some(0)), vec![b"0,x\n".to_vec()]);
    assert_eq!(process_chunk_at(b"x", Some(7)), vec![b"7,x\n".to_vec()]);
    assert_eq!(process_chunk_at(b"x", Some(10)), vec![b"10,x\n".to_vec()]);
}

#[test]
fn largest_time_prefix() {
    assert_eq!(
        process_chunk_at(b"a", Some(u64::MAX)),
        vec![b"18446744073709551615,a\n".to_vec()]
    );
}

#[test]
fn empty_input_gives_nothing() {
    assert!(process_chunk_at(b"", None).is_empty());
    assert!(process_chunk_at(b"", Some(5)).is_empty());
}

#[test]
fn empty_and_carriage_return_lines_are_dropped() {
    assert!(process_chunk_at(b"\n\r\n\n\r", None).is_empty());
}

#[test]
fn only_one_carriage_return_is_stripped() {
    assert_eq!(process_chunk_at(b"a\r\r\n", None), vec![b"a\r\n".to_vec()]);
}

#[test]
fn unterminated_last_line_is_kept() {
    assert_eq!(
        process_chunk_at(b"one\ntwo", None),
        vec![b"one\n".to_vec(), b"two\n".to_vec()]
    );
}

#[test]
fn every_message_ends_in_exactly_one_newline() {
    let out = process_chunk_at(b"\r\n\na\n\n\nb\r\n\r\nc", Some(12));
    assert_eq!(out.len(), 3);
    for m in &out {
        assert!(m.starts_with(b"12,"));
        assert_eq!(m[m.len() - 1], b'\n');
        assert_ne!(m[m.len() - 2], b'\n');
        assert!(m.len() > 4);
    }
}

#[test]
fn without_prefix_the_clock_is_not_needed() {
    let out = process_complete_chunk(SAMPLE, false).unwrap();
    assert_eq!(
        out,
        vec![b"!AIVDM,1,1,,B,ABC\n".to_vec(), b"!AIVDM,2,1,,B,DEF\n".to_vec()]
    );
}

#[test]
fn prefix_uses_the_current_time() {
    let before = std::time::UNIX_EPOCH.elapsed().unwrap().as_secs();
    let out = process_complete_chunk(b"a\nb\n", true).unwrap();
    let after = std::time::UNIX_EPOCH.elapsed().unwrap().as_secs();
    assert_eq!(out.len(), 2);
    let first = String::from_utf8(out[0].clone()).unwrap();
    let (secs, rest) = first.split_once(',').unwrap();
    let secs: u64 = secs.parse().unwrap();
    assert!(before <= secs && secs <= after);
    assert_eq!(rest, "a\n");
    assert!(out[1].starts_with(format!("{secs},").as_bytes()));
    assert!(out[1].ends_with(b",b\n"));
}
