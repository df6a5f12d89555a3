use taskclock::decode::StreamDecoder;

#[test]
fn utf8_chunk_is_decoded_losslessly() {
    let mut dec = StreamDecoder::new();
    let chunk = "héllo, wörld".as_bytes().to_vec();
    assert_eq!(dec.feed(&chunk), "héllo, wörld");
    assert_eq!(dec.finish(), "");
}

#[test]
fn gbk_chunk_falls_back() {
    // "你好" in GBK; neither valid UTF-8 nor a truncated character.
    let mut dec = StreamDecoder::new();
    let chunk = vec![0xC4, 0xE3, 0xBA, 0xC3];
    assert_eq!(dec.feed(&chunk), "你好");
    assert_eq!(dec.finish(), "");
}

#[test]
fn undecodable_bytes_become_replacements() {
    let mut dec = StreamDecoder::new();
    let msg = dec.feed(&vec![0xFF, 0x80]);
    assert!(msg.contains('\u{FFFD}'));
}

#[test]
fn split_character_is_reassembled() {
    // "é" (0xC3 0xA9) split across two reads decodes losslessly.
    let mut dec = StreamDecoder::new();
    assert_eq!(dec.feed(&vec![b'a', 0xC3]), "a");
    assert_eq!(dec.feed(&vec![0xA9, b'b']), "éb");
    assert_eq!(dec.finish(), "");
}

#[test]
fn three_byte_character_split_three_ways() {
    // "€" (0xE2 0x82 0xAC) arriving one byte per read.
    let mut dec = StreamDecoder::new();
    assert_eq!(dec.feed(&vec![0xE2]), "");
    assert_eq!(dec.feed(&vec![0x82]), "");
    assert_eq!(dec.feed(&vec![0xAC]), "€");
    assert_eq!(dec.finish(), "");
}

#[test]
fn truncated_character_at_end_of_stream_is_flushed_lossily() {
    let mut dec = StreamDecoder::new();
    assert_eq!(dec.feed(&vec![b'x', 0xE2, 0x82]), "x");
    assert_eq!(dec.finish(), "\u{FFFD}");
}

#[test]
fn clean_stream_concatenates_losslessly() {
    let text = "héllo wörld — 你好!";
    let raw = text.as_bytes();
    // Feed in awkward 3-byte slices that split multi-byte characters.
    let mut dec = StreamDecoder::new();
    let mut emitted = String::new();
    for chunk in raw.chunks(3) {
        emitted.push_str(&dec.feed(&chunk.to_vec()));
    }
    emitted.push_str(&dec.finish());
    assert_eq!(emitted, text);
}
