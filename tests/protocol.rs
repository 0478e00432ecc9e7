use kvs::connection::FrameBuffer;
use kvs::error::KvsError;
use kvs::message::{
    decode_command, decode_request, decode_response, encode_command, encode_request,
    encode_response, Command, Request, Response,
};

#[test]
fn removal_record_has_its_exact_bytes() {
    let bytes = encode_command(&Command::Remove { key: "a".to_string() });
    assert_eq!(bytes, vec![1u8, 0, 0, 0, 0, 0, 0, 0, 1, 97]);
}

#[test]
fn put_record_has_its_exact_bytes() {
    let bytes = encode_command(&Command::Put { key: "k".to_string(), value: "é".to_string() });
    assert_eq!(bytes, vec![0u8, 0, 0, 0, 0, 0, 0, 0, 1, 107, 0, 0, 0, 0, 0, 0, 0, 2, 0xc3, 0xa9]);
}

#[test]
fn command_round_trip_with_trailing_bytes() {
    let cmd = Command::Put { key: "key".to_string(), value: "value".to_string() };
    let mut bytes = encode_command(&cmd);
    let n = bytes.len();
    bytes.extend_from_slice(&[7, 7, 7]);
    assert_eq!(decode_command(&bytes), Ok(Some((cmd, n))));
}

#[test]
fn every_strict_prefix_of_a_command_is_incomplete() {
    let bytes = encode_command(&Command::Put { key: "ab".to_string(), value: "cd".to_string() });
    for j in 0..bytes.len() {
        assert_eq!(decode_command(&bytes[..j]), Ok(None));
    }
}

#[test]
fn unknown_tag_is_malformed() {
    assert_eq!(decode_command(&[2u8]), Err(KvsError::Serialization));
    assert_eq!(decode_request(&[3u8]), Err(KvsError::Serialization));
    assert_eq!(decode_response(&[5u8]), Err(KvsError::Serialization));
}

#[test]
fn invalid_utf8_field_is_malformed() {
    let bytes = [1u8, 0, 0, 0, 0, 0, 0, 0, 1, 0xff];
    assert_eq!(decode_command(&bytes), Err(KvsError::Serialization));
}

#[test]
fn requests_round_trip() {
    let reqs = vec![
        Request::Get { key: "k".to_string() },
        Request::Put { key: "k".to_string(), value: "v".to_string() },
        Request::Remove { key: "".to_string() },
    ];
    for q in reqs {
        let bytes = encode_request(&q);
        let n = bytes.len();
        assert_eq!(decode_request(&bytes), Ok(Some((q, n))));
    }
}

#[test]
fn responses_round_trip() {
    let resps = vec![
        Response::Get(None),
        Response::Get(Some("v".to_string())),
        Response::Put,
        Response::Remove,
        Response::Failure("Key not found".to_string()),
    ];
    for p in resps {
        let bytes = encode_response(&p);
        let n = bytes.len();
        assert_eq!(decode_response(&bytes), Ok(Some((p, n))));
    }
    assert_eq!(encode_response(&Response::Put), vec![2u8]);
}

#[test]
fn response_split_across_reads_parses_the_same() {
    let resp = Response::Get(Some("a longer value".to_string()));
    let bytes = encode_response(&resp);
    let mut buf = FrameBuffer::new();
    let mut got = None;
    for chunk in bytes.chunks(3) {
        assert!(got.is_none());
        buf.fill(chunk);
        got = buf.next_response().unwrap();
    }
    assert_eq!(got, Some(resp));
    assert_eq!(buf.bytes().len(), 0);
}

#[test]
fn back_to_back_requests_are_taken_one_by_one() {
    let a = Request::Get { key: "a".to_string() };
    let b = Request::Remove { key: "b".to_string() };
    let mut buf = FrameBuffer::new();
    let mut bytes = encode_request(&a);
    bytes.extend_from_slice(&encode_request(&b));
    bytes.push(0);
    buf.fill(&bytes);
    assert_eq!(buf.next_request(), Ok(Some(a)));
    assert_eq!(buf.next_request(), Ok(Some(b)));
    assert_eq!(buf.next_request(), Ok(None));
    assert_eq!(buf.bytes(), &[0u8][..]);
}

#[test]
fn malformed_request_leaves_the_buffer() {
    let mut buf = FrameBuffer::new();
    buf.fill(&[9u8, 1]);
    assert_eq!(buf.next_request(), Err(KvsError::Serialization));
    assert_eq!(buf.bytes(), &[9u8, 1][..]);
}
