use payload_forwarder::fragmenter::fragment;
use payload_forwarder::header::MAX_FRAME_LEN;

#[test]
fn test_single_seq() {
    let mut buf = vec![];
    for idx in 1..99 {
        buf.push(idx);
    }
    let res = fragment(&buf);
    println!("{:?}", res);
    assert_eq!(res.len(), 1);
}

#[test]
fn test_multiple_seq() {
    let mut buf = vec![];
    for idx in 1..254 {
        buf.push(idx);
    }
    let res = fragment(&buf);
    println!("{:?}", res);
    assert_eq!(res.len(), 2);
}

#[test]
fn test_full_length() {
    let mut buf = vec![];
    for idx in 1..255 {
        buf.push(idx);
    }
    for idx in 1..255 {
        buf.push(idx);
    }
    for idx in 1..255 {
        buf.push(idx);
    }
    let res = fragment(&buf[..MAX_FRAME_LEN]);
    println!("{:?}", res[0]);
    println!("{:?}", res[1]);
    println!("{:?}", res[2]);
    assert_eq!(res.len(), 3);
}

#[test]
fn test_ping() {
    let buf = [
        0, 0, 8, 6, 255, 255, 255, 255, 255, 255, 54, 181, 4, 231, 234, 212, 8, 6, 0, 1, 8, 0, 6,
        4, 0, 1, 54, 181, 4, 231, 234, 212, 192, 168, 69, 1, 0, 0, 0, 0, 0, 0, 192, 168, 69, 2,
    ];
    let res = fragment(&buf);
    println!("res={:?}", res);
    assert_eq!(res.len(), 1);
}

fn frame_of_len(n: usize) -> Vec<u8> {
    (0..n).map(|i| (i % 251) as u8).collect()
}

#[test]
fn single_fragment_has_header_zero() {
    let frame = frame_of_len(97);
    let res = fragment(&frame);
    assert_eq!(res.len(), 1);
    assert_eq!(res[0][0], 0);
    assert_eq!(&res[0][1..], &frame[..]);
}

#[test]
fn two_fragments_of_252_bytes() {
    let frame = frame_of_len(252);
    let res = fragment(&frame);
    assert_eq!(res.len(), 2);
    assert_eq!(res[0][0], 128);
    assert_eq!(res[1][0], 1);
    assert_eq!(res[0].len(), 245);
    assert_eq!(&res[0][1..], &frame[..244]);
    assert_eq!(&res[1][1..], &frame[244..]);
}

#[test]
fn three_fragments_of_575_bytes() {
    let frame = frame_of_len(575);
    let res = fragment(&frame);
    let headers: Vec<u8> = res.iter().map(|f| f[0]).collect();
    assert_eq!(headers, vec![128, 129, 2]);
    assert_eq!(res[2].len(), 1 + 575 - 488);
}

#[test]
fn boundary_between_one_and_two_fragments() {
    assert_eq!(fragment(&frame_of_len(244)).len(), 1);
    assert_eq!(fragment(&frame_of_len(245)).len(), 2);
    let res = fragment(&frame_of_len(245));
    assert_eq!(res[1], vec![1, (244 % 251) as u8]);
    assert_eq!(fragment(&frame_of_len(253)).len(), 2);
    assert_eq!(fragment(&frame_of_len(600)).len(), 3);
}

#[test]
fn one_byte_frame() {
    let res = fragment(&[42]);
    assert_eq!(res, vec![vec![0, 42]]);
}
