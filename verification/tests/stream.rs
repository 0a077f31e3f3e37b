use utf8::{decode_step, CompleteResult, DecodeStepStatus, REPLACEMENT_CHARACTER};

/// Decodes chunks lossily. An error that swallowed no byte stands at a byte
/// that can lead nothing: that byte is skipped.
fn lossy(chunks: &[&[u8]]) -> String {
    let mut out = String::new();
    let mut pending = None;
    for chunk in chunks {
        let mut input: &[u8] = chunk;
        if let Some(sequence) = pending.take() {
            match utf8::IncompleteSequence::complete(sequence, input) {
                CompleteResult::Complete { code_point, remaining_input } => {
                    out.push_str(&code_point);
                    input = remaining_input;
                }
                CompleteResult::Error { remaining_input_after_error } => {
                    out.push_str(REPLACEMENT_CHARACTER);
                    input = remaining_input_after_error;
                }
                CompleteResult::StillIncomplete(sequence) => {
                    pending = Some(sequence);
                    continue;
                }
            }
        }
        loop {
            let (prefix, status) = decode_step(input);
            out.push_str(prefix);
            match status {
                DecodeStepStatus::WellFormed => break,
                DecodeStepStatus::Incomplete(sequence) => {
                    pending = Some(sequence);
                    break;
                }
                DecodeStepStatus::Error { remaining_input_after_error } => {
                    out.push_str(REPLACEMENT_CHARACTER);
                    let swallowed =
                        input.len() - prefix.len() - remaining_input_after_error.len();
                    input = if swallowed == 0 {
                        &remaining_input_after_error[1..]
                    } else {
                        remaining_input_after_error
                    };
                }
            }
        }
    }
    if pending.is_some() {
        out.push_str(REPLACEMENT_CHARACTER);
    }
    out
}

#[test]
fn well_formed_text_comes_back_whole() {
    for text in ["", "plain", "caf\u{E9}", "\u{20AC}uro", "a\u{1F600}b\u{10FFFF}", "\u{FFFD}"] {
        let (prefix, status) = decode_step(text.as_bytes());
        assert_eq!(prefix, text);
        assert!(matches!(status, DecodeStepStatus::WellFormed));
    }
}

#[test]
fn prefix_is_the_longest_well_formed_one() {
    let inputs: [&[u8]; 6] = [
        &[b'a', 0xC3, 0xA9, 0xFF, b'b'],
        &[0xE2, 0x82, 0xAC, 0xE2, 0x82],
        &[0xF0, 0x9F, 0x98, 0x80, 0xC0, 0x80],
        &[b'x', b'y', 0xED, 0xA0, 0x80],
        &[0x80],
        &[b'q', 0xF4, 0x90, 0x80, 0x80],
    ];
    for input in inputs {
        let (prefix, _) = decode_step(input);
        let n = prefix.len();
        assert_eq!(prefix.as_bytes(), &input[..n]);
        for longer in n + 1..=input.len() {
            assert!(std::str::from_utf8(&input[..longer]).is_err());
        }
    }
}

#[test]
fn status_agrees_with_the_standard_validator() {
    let inputs: [&[u8]; 7] = [
        b"ascii only",
        &[0xC3, 0xA9],
        &[0xC3],
        &[0xC3, 0x28],
        &[0xE2, 0x82, 0xAC],
        &[0xF0, 0x9F, 0x98],
        &[0xF8, 0x88, 0x80, 0x80, 0x80],
    ];
    for input in inputs {
        let (_, status) = decode_step(input);
        let well_formed = std::str::from_utf8(input).is_ok();
        assert_eq!(matches!(status, DecodeStepStatus::WellFormed), well_formed);
    }
}

#[test]
fn a_step_accounts_for_every_byte() {
    let input = [b'a', 0xE2, 0x82, b'b', 0xC3, 0xA9, 0xF0, 0x9F];
    let (prefix, status) = decode_step(&input);
    assert_eq!(prefix, "a");
    let remaining = match status {
        DecodeStepStatus::Error { remaining_input_after_error } => remaining_input_after_error,
        other => panic!("expected an error, got {:?}", other),
    };
    let skipped = input.len() - prefix.len() - remaining.len();
    assert_eq!(skipped, 2);
    assert_eq!(remaining, &input[3..]);

    let (prefix, status) = decode_step(remaining);
    assert_eq!(prefix, "b\u{E9}");
    match status {
        DecodeStepStatus::Incomplete(sequence) => {
            assert!(format!("{:?}", sequence)
                .starts_with("IncompleteSequence { len: 2, first: 240, second: 159, "));
        }
        other => panic!("expected an incomplete sequence, got {:?}", other),
    }
}

#[test]
fn chunk_boundaries_do_not_change_the_text() {
    let stream: &[u8] = &[
        b'a', 0xC3, 0xA9, 0xE2, 0x82, 0xAC, 0xFF, 0xF0, 0x9F, 0x98, 0x80, 0xED, 0xA0, 0x80, b'z',
        0xE2, 0x82,
    ];
    let whole = lossy(&[stream]);
    assert_eq!(whole, "a\u{E9}\u{20AC}\u{FFFD}\u{1F600}\u{FFFD}\u{FFFD}\u{FFFD}z\u{FFFD}");
    assert_eq!(whole, String::from_utf8_lossy(stream));
    for cut in 0..=stream.len() {
        assert_eq!(lossy(&[&stream[..cut], &stream[cut..]]), whole, "cut at {}", cut);
    }
    for first in 0..=stream.len() {
        for second in first..=stream.len() {
            let chunks = [&stream[..first], &stream[first..second], &stream[second..]];
            assert_eq!(lossy(&chunks), whole, "cuts at {} and {}", first, second);
        }
    }
    let single: Vec<&[u8]> = stream.chunks(1).collect();
    assert_eq!(lossy(&single), whole);
}

#[test]
fn an_error_stays_where_it_is_when_more_bytes_follow() {
    let first = [b'a', 0xE2, 0x28];
    let (prefix, status) = decode_step(&first);
    assert_eq!(prefix, "a");
    let remaining = match status {
        DecodeStepStatus::Error { remaining_input_after_error } => remaining_input_after_error,
        other => panic!("expected an error, got {:?}", other),
    };
    assert_eq!(remaining, &[0x28][..]);

    let longer = [b'a', 0xE2, 0x28, b'm', b'n'];
    let (prefix, status) = decode_step(&longer);
    assert_eq!(prefix, "a");
    match status {
        DecodeStepStatus::Error { remaining_input_after_error } => {
            assert_eq!(remaining_input_after_error, &[0x28, b'm', b'n'][..]);
        }
        other => panic!("expected an error, got {:?}", other),
    }
}
