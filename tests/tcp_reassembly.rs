use ais_forwarder::ais_reformatter::process_chunk_at;
use ais_forwarder::tcp_reassembly::{ReadOutcome, TcpReassembler, BUFFER_CAPACITY};

fn feed(reads: &[&[u8]]) -> Vec<Vec<u8>> {
    let mut r = TcpReassembler::new();
    let mut out = Vec::new();
    for data in reads {
        match r.on_read(data) {
            ReadOutcome::Complete(region) => out.extend(process_chunk_at(&region, None)),
            ReadOutcome::Pending => {}
            ReadOutcome::Overflow => panic!("overflow"),
            ReadOutcome::Closed => break,
        }
    }
    out
}

#[test]
fn split_reads_give_the_same_messages() {
    let whole: &[u8] = b"!AIVDM,1\r\n\nsecond line\nthird\r\n";
    let expected = process_chunk_at(whole, None);
    assert_eq!(expected.len(), 3);
    for cut in 1..whole.len() {
        assert_eq!(feed(&[&whole[..cut], &whole[cut..]]), expected);
    }
    let bytes: Vec<&[u8]> = whole.chunks(1).collect();
    assert_eq!(feed(&bytes), expected);
    let threes: Vec<&[u8]> = whole.chunks(3).collect();
    assert_eq!(feed(&threes), expected);
}

#[test]
fn tail_waits_for_its_newline() {
    let mut r = TcpReassembler::new();
    match r.on_read(b"ab\ncd") {
        ReadOutcome::Complete(region) => assert_eq!(region, b"ab\n".to_vec()),
        _ => panic!("expected a complete region"),
    }
    assert_eq!(r.free_space(), BUFFER_CAPACITY - 2);
    assert!(matches!(r.on_read(b"e"), ReadOutcome::Pending));
    match r.on_read(b"f\ng\nh") {
        ReadOutcome::Complete(region) => assert_eq!(region, b"cdef\ng\n".to_vec()),
        _ => panic!("expected a complete region"),
    }
    assert_eq!(r.free_space(), BUFFER_CAPACITY - 1);
}

#[test]
fn empty_read_means_closed() {
    let mut r = TcpReassembler::new();
    assert!(matches!(r.on_read(b"abc"), ReadOutcome::Pending));
    assert!(matches!(r.on_read(b""), ReadOutcome::Closed));
    assert_eq!(r.free_space(), BUFFER_CAPACITY - 3);
}

#[test]
fn full_buffer_without_newline_aborts() {
    let mut r = TcpReassembler::new();
    let half = vec![b'x'; BUFFER_CAPACITY / 2];
    assert!(matches!(r.on_read(&half), ReadOutcome::Pending));
    assert!(matches!(r.on_read(&half), ReadOutcome::Overflow));
    assert_eq!(r.free_space(), 0);
}

#[test]
fn full_buffer_ending_in_newline_completes() {
    let mut r = TcpReassembler::new();
    let mut data = vec![b'x'; BUFFER_CAPACITY - 1];
    data.push(b'\n');
    match r.on_read(&data) {
        ReadOutcome::Complete(region) => assert_eq!(region.len(), BUFFER_CAPACITY),
        _ => panic!("expected a complete region"),
    }
    assert_eq!(r.free_space(), BUFFER_CAPACITY);
}
