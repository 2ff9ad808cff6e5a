//! Tests for the pieces of the byte-by-byte encoder.

use corncobs::lazy::encode_len;
use corncobs::lazy::take_run;
use corncobs::lazy::EncodeState;

#[test]
fn take_run_empty() {
    assert_eq!(take_run(&[]), (&[][..], None));
}

#[test]
fn take_run_zero() {
    assert_eq!(take_run(&[0]), (&[][..], Some(&[][..])));
}

#[test]
fn take_run_one() {
    assert_eq!(take_run(&[1]), (&[1][..], None));
}

#[test]
fn take_run_stops_at_zero() {
    assert_eq!(take_run(&[7, 8, 0, 9]), (&[7, 8][..], Some(&[9][..])));
    assert_eq!(take_run(&[7, 8, 0]), (&[7, 8][..], Some(&[][..])));
}

#[test]
fn take_run_full_chunk_keeps_zero() {
    let mut bytes: Vec<u8> = vec![5; 254];
    let (run, rest) = take_run(&bytes);
    assert_eq!(run.len(), 254);
    assert_eq!(rest, None);

    bytes.push(0);
    bytes.push(6);
    let (run, rest) = take_run(&bytes);
    assert_eq!(run, &bytes[..254]);
    assert_eq!(rest, Some(&[0, 6][..]));

    let longer: Vec<u8> = vec![5; 300];
    let (run, rest) = take_run(&longer);
    assert_eq!(run.len(), 254);
    assert_eq!(rest.map(|r| r.len()), Some(46));
}

#[test]
fn encode_len_is_one_more() {
    assert_eq!(encode_len(0), 1);
    assert_eq!(encode_len(1), 2);
    assert_eq!(encode_len(253), 254);
    assert_eq!(encode_len(254), 255);
}

#[test]
fn encode_state_steps() {
    let message: [u8; 3] = [0x11, 0x00, 0x22];
    let (b, s) = EncodeState::Begin(&message).next();
    assert_eq!(b, 2);
    let (b, s) = s.unwrap().next();
    assert_eq!(b, 0x11);
    let (b, s) = s.unwrap().next();
    assert_eq!(b, 2);
    let (b, s) = s.unwrap().next();
    assert_eq!(b, 0x22);
    let (b, s) = s.unwrap().next();
    assert_eq!(b, 0);
    assert!(s.is_none());
}

#[test]
fn encode_state_end_gives_zero_once() {
    let (b, s) = EncodeState::End.next();
    assert_eq!(b, 0);
    assert!(s.is_none());
}

#[test]
fn encode_state_builders() {
    let run: [u8; 2] = [3, 4];
    let rest: [u8; 1] = [9];
    match EncodeState::next_run_state(&run, Some(&rest)) {
        EncodeState::Run(b, others, behind) => {
            assert_eq!(b, 3);
            assert_eq!(others, &[4][..]);
            assert_eq!(behind, Some(&[9][..]));
        }
        other => panic!("{:?}", other),
    }
    assert!(matches!(EncodeState::next_run_state(&[], None), EncodeState::End));
    assert!(matches!(EncodeState::new_run_state(None), EncodeState::End));
    match EncodeState::new_run_state(Some(&rest)) {
        EncodeState::Begin(bytes) => assert_eq!(bytes, &[9][..]),
        other => panic!("{:?}", other),
    }
}
