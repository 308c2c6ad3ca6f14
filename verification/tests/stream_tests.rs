use rover::json::decode_batch;
use rover::stream::SentenceCollector;
use rover::text::trim_chars;

fn drained(c: &mut SentenceCollector) -> Vec<String> {
    c.drain_sentences()
}

#[test]
fn complete_lines_become_trimmed_sentences() {
    let mut c = SentenceCollector::new();
    c.push_text("$GPGGA,1,2\r\n$GPRMC,3\r\n$GPG");
    assert_eq!(drained(&mut c), vec!["$GPGGA,1,2".to_string(), "$GPRMC,3".to_string()]);
    c.push_text("SV,4\n");
    assert_eq!(drained(&mut c), vec!["$GPGSV,4".to_string()]);
}

#[test]
fn blank_lines_are_dropped() {
    let mut c = SentenceCollector::new();
    c.push_text("\r\n  \n\t\r\n$A\n\n");
    assert_eq!(drained(&mut c), vec!["$A".to_string()]);
}

#[test]
fn chunking_does_not_matter_on_concrete_text() {
    let text = "$GPGGA,a\r\n $GPGSA,b \r\n\r\n$GPGST,c\n$tail";
    let mut whole = SentenceCollector::new();
    whole.push_text(text);
    for split in 0..text.len() {
        if !text.is_char_boundary(split) {
            continue;
        }
        let mut parts = SentenceCollector::new();
        parts.push_text(&text[..split]);
        parts.push_text(&text[split..]);
        let mut w = SentenceCollector::new();
        w.push_text(text);
        assert_eq!(parts.drain_sentences(), w.drain_sentences());
        parts.push_text("\n");
        w.push_text("\n");
        assert_eq!(parts.drain_sentences(), vec!["$tail".to_string()]);
        assert_eq!(w.drain_sentences(), vec!["$tail".to_string()]);
    }
    assert_eq!(whole.drain_sentences().len(), 3);
}

#[test]
fn invalid_utf8_chunk_is_dropped_whole() {
    let mut c = SentenceCollector::new();
    c.push_bytes(b"$GPGGA,1\n");
    c.push_bytes(&[b'$', b'X', 0xff, b'\n']);
    c.push_bytes(b"$GPRMC,2\n");
    assert_eq!(
        c.drain_sentences(),
        vec!["$GPGGA,1".to_string(), "$GPRMC,2".to_string()]
    );
}

#[test]
fn utf8_split_across_chunks_loses_both_halves() {
    // "é" is two bytes; each half alone is not valid UTF-8 and is dropped.
    let mut c = SentenceCollector::new();
    c.push_bytes(b"$A\xc3");
    c.push_bytes(b"\xa9B\n");
    assert!(c.drain_sentences().is_empty());
    c.push_bytes("x\u{e9}y\n".as_bytes());
    assert_eq!(c.drain_sentences(), vec!["x\u{e9}y".to_string()]);
}

#[test]
fn batch_is_a_json_array_and_clears() {
    let mut c = SentenceCollector::new();
    assert!(c.take_batch().is_none());
    c.push_text("$GPGGA,\"q\"\n$B\\x\n");
    let batch = c.take_batch().unwrap();
    assert_eq!(batch, r#"["$GPGGA,\"q\"","$B\\x"]"#);
    assert!(c.is_empty());
    assert!(c.take_batch().is_none());
}

#[test]
fn batch_round_trips_through_decoding() {
    let mut c = SentenceCollector::new();
    c.push_text("$GPGGA,1,N,2\r\né\t\"x \n");
    let text = c.take_batch().unwrap();
    let decoded: Vec<String> = serde_json::from_str(&text).unwrap();
    assert_eq!(decoded, vec!["$GPGGA,1,N,2".to_string(), "é\t\"x".to_string()]);
}

#[test]
fn trim_matches_std_trim() {
    let samples = [
        "  a b  ",
        "\u{3000}\u{2028}x\u{85}",
        "\u{200b}x\u{200b}",
        "",
        " \t\n\r ",
        "\u{a0}$GPGGA\u{1680}",
    ];
    for s in samples {
        let chars: Vec<char> = s.chars().collect();
        let t: String = trim_chars(&chars).into_iter().collect();
        assert_eq!(t, s.trim(), "sample {:?}", s);
    }
}

#[test]
fn batches_read_back_and_concatenate_to_the_trimmed_lines() {
    let stream = "  $GPGGA,1\r\n\n$GPRMC,2 \n\t\n$GPGSV,3\n$GPGST,4\r\nunfinished";
    let chunks = ["  $GPG", "GA,1\r\n\n$GPR", "MC,2 \n\t", "\n$GPGSV,3\n", "$GPGST,4\r\nunfin", "ished"];
    let mut c = SentenceCollector::new();
    let mut sent: Vec<String> = Vec::new();
    for chunk in chunks {
        c.push_bytes(chunk.as_bytes());
        if let Some(batch) = c.take_batch() {
            let decoded = decode_batch(&batch).unwrap();
            assert!(!decoded.is_empty());
            sent.extend(decoded);
        }
    }
    let complete = &stream[..stream.rfind('\n').unwrap() + 1];
    let expected: Vec<String> = complete
        .split_inclusive('\n')
        .map(|l| l.trim().to_string())
        .filter(|l| !l.is_empty())
        .collect();
    assert_eq!(sent, expected);
    assert_eq!(decode_batch("not json"), None);
    assert_eq!(decode_batch("[1,2]"), None);
}
