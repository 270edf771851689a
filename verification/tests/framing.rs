use eventbus_client::framing::{frame_payload, FrameDecoder};

#[test]
fn frame_has_big_endian_length_prefix() {
    let f = frame_payload(b"hello").unwrap();
    assert_eq!(vec![0u8, 0, 0, 5, b'h', b'e', b'l', b'l', b'o'], f);
}

#[test]
fn frame_of_empty_payload() {
    let f = frame_payload(b"").unwrap();
    assert_eq!(vec![0u8, 0, 0, 0], f);
}

#[test]
fn decoder_waits_for_a_whole_frame() {
    let mut d = FrameDecoder::new();
    d.feed(&[0, 0, 0, 3, b'a']);
    assert_eq!(None, d.next_frame());
    d.feed(&[b'b']);
    assert_eq!(None, d.next_frame());
    d.feed(&[b'c']);
    assert_eq!(Some(b"abc".to_vec()), d.next_frame());
    assert_eq!(None, d.next_frame());
}

#[test]
fn decoder_reconstructs_frames_fed_byte_by_byte() {
    let payloads: Vec<&[u8]> = vec![b"first", b"", b"third payload"];
    let mut stream: Vec<u8> = Vec::new();
    for p in &payloads {
        stream.extend_from_slice(&frame_payload(p).unwrap());
    }
    let mut d = FrameDecoder::new();
    let mut out: Vec<Vec<u8>> = Vec::new();
    for b in stream {
        d.feed(&[b]);
        while let Some(p) = d.next_frame() {
            out.push(p);
        }
    }
    assert_eq!(3, out.len());
    assert_eq!(b"first".to_vec(), out[0]);
    assert_eq!(b"".to_vec(), out[1]);
    assert_eq!(b"third payload".to_vec(), out[2]);
}

#[test]
fn decoder_handles_many_frames_in_one_chunk() {
    let mut stream: Vec<u8> = Vec::new();
    stream.extend_from_slice(&frame_payload(b"one").unwrap());
    stream.extend_from_slice(&frame_payload(b"two").unwrap());
    let mut d = FrameDecoder::new();
    d.feed(&stream);
    assert_eq!(Some(b"one".to_vec()), d.next_frame());
    assert_eq!(Some(b"two".to_vec()), d.next_frame());
    assert_eq!(None, d.next_frame());
}
