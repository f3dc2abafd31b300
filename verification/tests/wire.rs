//! Failures and frames on the wire.

use pm::report::Report;
use pm::wire::error::{FAILED, TOTAL_BUDGET};
use pm::wire::frame::{
    frame_length, frame_prefix, read_frame, write_frame, ByteReader, MAX_FRAME,
};
use pm::wire::types::Diagnostic;

#[test]
fn a_frame_round_trips_through_write_and_read() {
    let mut buffer = Vec::new();
    write_frame(&mut buffer, b"hello, worker").expect("a small frame must write");
    assert_eq!(&buffer[..4], &[0, 0, 0, 13]);

    let payload =
        read_frame(&mut ByteReader::new(buffer)).expect("a frame just written must read back");

    assert_eq!(payload, b"hello, worker");
}

#[test]
fn an_empty_frame_round_trips() {
    let mut buffer = Vec::new();
    write_frame(&mut buffer, b"").expect("an empty frame must write");

    let payload = read_frame(&mut ByteReader::new(buffer)).expect("an empty frame must read back");

    assert!(payload.is_empty());
}

#[test]
fn a_payload_over_the_limit_is_rejected_on_write() {
    let oversized = vec![0u8; (MAX_FRAME as usize) + 1];
    let mut sink = Vec::new();

    let result = write_frame(&mut sink, &oversized);

    assert!(result.is_err(), "a payload over MAX_FRAME must be rejected");
    assert!(sink.is_empty(), "a rejected frame must not have written a partial length prefix");
    assert_eq!(
        result.unwrap_err().message,
        "frame payload is 16777217 bytes, over the 16777216 byte limit"
    );
}

#[test]
fn a_declared_length_over_the_limit_is_rejected_on_read() {
    let mut bogus = Vec::new();
    bogus.extend_from_slice(&(MAX_FRAME + 1).to_be_bytes());

    let result = read_frame(&mut ByteReader::new(bogus));

    assert!(
        result.is_err(),
        "a frame claiming to be over MAX_FRAME must be rejected before allocating for it"
    );
    assert_eq!(
        result.unwrap_err().message,
        "frame claims to be 16777217 bytes, over the 16777216 byte limit"
    );
}

#[test]
fn reading_past_a_truncated_frame_is_an_error_not_a_panic() {
    let mut truncated = Vec::new();
    truncated.extend_from_slice(&100u32.to_be_bytes());
    truncated.extend_from_slice(b"not enough bytes");

    let result = read_frame(&mut ByteReader::new(truncated));

    assert!(result.is_err(), "a short read must be an error, not a hang or a panic");
    let report = result.unwrap_err();
    assert_eq!(report.message, "failed to read a frame's payload");
    assert_eq!(report.causes, vec!["failed to fill whole buffer"]);
}

#[test]
fn a_truncated_prefix_is_an_error() {
    let report = read_frame(&mut ByteReader::new(vec![0, 0, 1])).unwrap_err();
    assert_eq!(report.message, "failed to read a frame's length prefix");
}

#[test]
fn frames_are_read_one_after_the_other() {
    let mut buffer = Vec::new();
    write_frame(&mut buffer, b"one").unwrap();
    write_frame(&mut buffer, b"two").unwrap();
    let mut reader = ByteReader::new(buffer);
    assert_eq!(read_frame(&mut reader).unwrap(), b"one");
    assert_eq!(read_frame(&mut reader).unwrap(), b"two");
    assert!(read_frame(&mut reader).is_err());
}

#[test]
fn a_prefix_is_big_endian() {
    assert_eq!(frame_prefix(0x123456).unwrap(), 0x123456u32.to_be_bytes());
    assert_eq!(frame_length([0, 0x12, 0x34, 0x56]).unwrap(), 0x123456);
    assert_eq!(frame_length([1, 0, 0, 0]).unwrap(), MAX_FRAME);
    assert!(frame_length([1, 0, 0, 1]).is_err());
    assert_eq!(
        frame_prefix(usize::MAX).unwrap_err().message,
        "frame payload is too large to fit its own length prefix"
    );
}

/// The combined content size a `Diagnostic` is allowed.
fn diagnostic_content_bytes(diagnostic: &Diagnostic) -> usize {
    diagnostic.message.len()
        + diagnostic.help.len()
        + diagnostic.causes.iter().map(String::len).sum::<usize>()
}

#[test]
fn a_long_chain_of_small_causes_is_capped_by_count_not_bytes() {
    let mut report = Report::new(
        "innermost failure, padded out to a realistic build-output length so the maths in this test means something".to_owned(),
    );
    for layer in 0..200 {
        report = report.wrap(format!(
            "layer {layer} failed while wrapping the step below it with a decently long context string"
        ));
    }

    let diagnostic = Diagnostic::from(&report);

    assert!(
        diagnostic_content_bytes(&diagnostic) <= 64 * 1024,
        "message + help + causes must stay within the 64 KiB Diagnostic budget: got {} bytes",
        diagnostic_content_bytes(&diagnostic)
    );
    assert!(
        diagnostic.causes.len() <= 20,
        "causes must be bounded in count, not just truncated per entry: got {} entries",
        diagnostic.causes.len()
    );
    assert!(
        diagnostic.causes.last().is_some_and(|last| last.contains("dropped")),
        "dropping causes from a 200-layer chain must be visible, not silent: {:?}",
        diagnostic.causes.last()
    );
    assert_eq!(
        diagnostic.causes[16],
        "…184 more cause(s) dropped to stay within the 65536-byte Diagnostic budget"
    );
}

#[test]
fn large_causes_are_trimmed_by_the_byte_budget_even_under_the_count_cap() {
    let mut report = Report::new("root cause".to_owned());
    for _ in 0..16 {
        report = report.wrap("x".repeat(4096));
    }

    let diagnostic = Diagnostic::from(&report);

    assert!(
        diagnostic_content_bytes(&diagnostic) <= 64 * 1024,
        "message + help + causes must stay within the 64 KiB Diagnostic budget: got {} bytes",
        diagnostic_content_bytes(&diagnostic)
    );
    assert!(
        diagnostic.causes.last().is_some_and(|last| last.contains("dropped")),
        "large causes must be visibly trimmed by the byte budget, not silently dropped: {:?}",
        diagnostic.causes.last()
    );
}

#[test]
fn sixteen_full_causes_plus_overflow_stays_within_the_64kib_budget() {
    let mut report = Report::new("root cause".to_owned());
    for _ in 0..17 {
        report = report.wrap("x".repeat(4096));
    }
    report = report.wrap(String::new());

    let diagnostic = Diagnostic::from(&report);

    assert_eq!(
        diagnostic.message, "",
        "the empty head must sanitise to empty, not add bytes of its own"
    );
    assert_eq!(diagnostic.help, "");
    assert!(
        diagnostic_content_bytes(&diagnostic) <= 64 * 1024,
        "16 full-cap causes plus a marker must still fit the 64 KiB budget: got {} bytes",
        diagnostic_content_bytes(&diagnostic)
    );
    let full_size_causes = diagnostic.causes.iter().filter(|cause| cause.len() == 4096).count();
    assert!(
        full_size_causes < 16,
        "fitting the marker inside the budget must cost at least one full-size cause: kept {full_size_causes} of the 16"
    );
    assert!(
        diagnostic.causes.last().is_some_and(|last| last.contains("dropped")),
        "the boundary case must still report that causes were dropped: {:?}",
        diagnostic.causes.last()
    );
}

#[test]
fn a_short_chain_crosses_the_wire_whole() {
    let report = Report {
        code: None,
        message: "step build failed".to_owned(),
        help: Some("install a compiler\tfirst".to_owned()),
        causes: vec!["make exited\x1b with 2".to_owned(), "no such file".to_owned()],
    };
    let diagnostic = Diagnostic::from(&report);
    assert_eq!(diagnostic.name, FAILED);
    assert_eq!(diagnostic.message, "step build failed");
    assert_eq!(diagnostic.help, "install a compiler first");
    assert_eq!(diagnostic.causes, vec!["make exited with 2", "no such file"]);
}

#[test]
fn every_field_of_a_diagnostic_is_capped() {
    let report = Report {
        code: Some("c".repeat(200)),
        message: "m".repeat(10_000),
        help: Some("h".repeat(10_000)),
        causes: vec!["é".repeat(10_000)],
    };
    let diagnostic = Diagnostic::from(&report);
    assert_eq!(diagnostic.name.chars().count(), 128);
    assert_eq!(diagnostic.message.chars().count(), 8192);
    assert_eq!(diagnostic.help.chars().count(), 2048);
    assert_eq!(diagnostic.causes[0].chars().count(), 4096);
    assert!(diagnostic.causes[0].ends_with('…'));
    assert!(diagnostic_content_bytes(&diagnostic) <= TOTAL_BUDGET);
}

#[test]
fn of_a_refused_frame_only_the_length_is_read() {
    let mut input = (MAX_FRAME + 1).to_be_bytes().to_vec();
    write_frame(&mut input, b"next").unwrap();
    let mut reader = ByteReader::new(input);
    assert!(read_frame(&mut reader).is_err());
    assert_eq!(reader.position, 4);
    assert_eq!(read_frame(&mut reader).unwrap(), b"next");

    let mut reader = ByteReader::new(vec![0, 0, 0, 9, 1, 2]);
    assert!(read_frame(&mut reader).is_err());
    assert_eq!(reader.position, 6);
}

#[test]
fn a_marker_for_fewer_causes_is_no_longer() {
    let marker = |causes: usize| {
        let report = Report {
            causes: vec!["x".to_owned(); causes],
            ..Report::new("failed".to_owned())
        };
        Diagnostic::from(&report).causes.last().unwrap().clone()
    };
    let all: Vec<String> = (80..300).map(marker).collect();
    assert!(all.iter().all(|text| text.contains("more cause(s) dropped")));
    assert!(all.windows(2).all(|pair| pair[0].len() <= pair[1].len()));
    assert!(all[0].len() < all[all.len() - 1].len());
}
