use pitop::framing::{frame_message, FrameDecoder, FrameError, MAX_MESSAGE_LEN};

const STREAM: &[u8] = b"{\"cpu_temp\":1.0}\n{\"cpu_temp\":2.0}\n";

fn feed_in_chunks(bytes: &[u8], size: usize) -> Result<Vec<Vec<u8>>, FrameError> {
    let mut decoder = FrameDecoder::new();
    let mut out = Vec::new();
    for chunk in bytes.chunks(size) {
        out.extend(decoder.feed(chunk)?);
    }
    Ok(out)
}

#[test]
fn two_messages_whatever_the_chunk_size() {
    for size in 1..=STREAM.len() {
        let frames = feed_in_chunks(STREAM, size).unwrap();
        assert_eq!(frames.len(), 2);
        assert_eq!(frames[0], b"{\"cpu_temp\":1.0}".to_vec());
        assert_eq!(frames[1], b"{\"cpu_temp\":2.0}".to_vec());
    }
}

#[test]
fn remainder_after_delimiter_is_kept() {
    let mut decoder = FrameDecoder::new();
    let first = decoder.feed(b"ab\ncd").unwrap();
    assert_eq!(first, vec![b"ab".to_vec()]);
    assert_eq!(decoder.pending_len(), 2);
    let second = decoder.feed(b"e\n").unwrap();
    assert_eq!(second, vec![b"cde".to_vec()]);
    assert_eq!(decoder.pending_len(), 0);
}

#[test]
fn no_delimiter_no_message() {
    let mut decoder = FrameDecoder::new();
    assert!(decoder.feed(b"{\"partial\":").unwrap().is_empty());
    assert_eq!(decoder.pending_len(), 11);
    assert!(decoder.feed(b"").unwrap().is_empty());
}

#[test]
fn empty_lines_are_empty_messages() {
    let mut decoder = FrameDecoder::new();
    let frames = decoder.feed(b"\n\nx\n").unwrap();
    assert_eq!(frames, vec![Vec::new(), Vec::new(), b"x".to_vec()]);
}

#[test]
fn oversize_message_is_rejected_without_output() {
    let big = vec![b'a'; MAX_MESSAGE_LEN + 1];
    let mut decoder = FrameDecoder::new();
    let mut produced = 0;
    let mut rejected = false;
    for chunk in big.chunks(1024) {
        match decoder.feed(chunk) {
            Ok(frames) => produced += frames.len(),
            Err(e) => {
                assert_eq!(e, FrameError::Oversize);
                rejected = true;
                break;
            }
        }
    }
    assert!(rejected);
    assert_eq!(produced, 0);
    assert_eq!(decoder.pending_len(), 0);
}

#[test]
fn oversize_message_with_its_delimiter_in_one_chunk_is_rejected() {
    let mut big = vec![b'a'; MAX_MESSAGE_LEN + 1];
    big.push(b'\n');
    let mut decoder = FrameDecoder::new();
    assert_eq!(decoder.feed(&big), Err(FrameError::Oversize));
}

#[test]
fn message_at_the_limit_is_accepted() {
    let mut exact = vec![b'a'; MAX_MESSAGE_LEN];
    let mut decoder = FrameDecoder::new();
    assert!(decoder.feed(&exact).unwrap().is_empty());
    assert_eq!(decoder.pending_len(), MAX_MESSAGE_LEN);
    let frames = decoder.feed(b"\n").unwrap();
    assert_eq!(frames.len(), 1);
    exact.truncate(3);
    assert_eq!(frames[0][..3], exact[..]);
    assert_eq!(frames[0].len(), MAX_MESSAGE_LEN);
}

#[test]
fn framed_message_decodes_back() {
    let wire = frame_message(b"{\"mem_used\":5}");
    assert_eq!(wire, b"{\"mem_used\":5}\n".to_vec());
    let mut decoder = FrameDecoder::new();
    assert_eq!(decoder.feed(&wire).unwrap(), vec![b"{\"mem_used\":5}".to_vec()]);
    assert_eq!(decoder.pending_len(), 0);
}
