//! Downloads: what is refused, what is hashed and what is cancelled.

use pm::cancel::Cancel;
use pm::download::{
    begin, check_digest, check_status, complete, content_length, Downloader, Transfer,
    MAX_REDIRECTS,
};
use pm::path::FilePath;

fn dest() -> FilePath {
    FilePath::from_text("/w/source.tar.gz")
}

fn digest_of(chunks: &[&[u8]]) -> String {
    let mut transfer = Transfer::new(Some(3));
    for chunk in chunks {
        Downloader::new().receive::<()>(&mut transfer, chunk, &dest(), None).unwrap();
    }
    assert_eq!(transfer.written, chunks.iter().map(|chunk| chunk.len() as u64).sum::<u64>());
    assert_eq!(transfer.total, Some(3));
    transfer.finish()
}

#[test]
fn a_body_is_hashed_as_it_arrives() {
    let expected = "ba7816bf8f01cfea414140de5dae2223b00361a396177a9cb410ff61f20015ad";
    assert_eq!(digest_of(&[b"abc"]), expected);
    assert_eq!(digest_of(&[b"a", b"", b"bc"]), expected);
    assert_eq!(
        digest_of(&[]),
        "e3b0c44298fc1c149afbf4c8996fb92427ae41e4649b934ca495991b7852b855"
    );
    let whole = vec![b'a'; 200_000];
    let halves: Vec<&[u8]> = whole.chunks(65_536).collect();
    assert_eq!(digest_of(&halves), digest_of(&[&whole]));
}

#[test]
fn a_cancelled_token_stops_a_download_between_chunks() {
    let body = vec![b'a'; 200_000];
    let mut cancel: Cancel = Cancel::new();
    cancel.cancel();
    let downloader = Downloader::new();
    let downloader = downloader.with_cancel(&cancel);

    let mut transfer = Transfer::new(Some(200_000));
    let error = downloader
        .receive(&mut transfer, &body[..65_536], &dest())
        .expect_err("a token already cancelled must stop the transfer");

    assert!(
        error.message.contains("cancel"),
        "the diagnostic must say the download was cancelled, got: {error:?}"
    );
    assert_eq!(
        error.message,
        "download of `/w/source.tar.gz` was cancelled after 65536 bytes"
    );
}

#[test]
fn a_token_that_was_not_tripped_stops_nothing() {
    let downloader = Downloader::new().with_max_redirects(3);
    assert_eq!(downloader.max_redirects, 3);
    assert_eq!(Downloader::default().max_redirects, MAX_REDIRECTS);
    let cancel: Cancel = Cancel::new();
    let mut transfer = Transfer::new(None);
    assert!(downloader.with_cancel(&cancel).receive(&mut transfer, b"x", &dest()).is_ok());
}

#[test]
fn a_token_tripped_part_way_stops_the_next_chunk() {
    let downloader = Downloader::new();
    let mut cancel: Cancel = Cancel::new();
    let mut transfer = Transfer::new(None);
    assert!(downloader.receive(&mut transfer, b"ab", &dest(), Some(&cancel)).is_ok());
    cancel.cancel();
    let error = downloader.receive(&mut transfer, b"c", &dest(), Some(&cancel)).unwrap_err();
    assert_eq!(error.message, "download of `/w/source.tar.gz` was cancelled after 3 bytes");
}

#[test]
fn a_download_begins_only_with_a_success() {
    let headers = vec![("Content-Length".to_owned(), "3".to_owned())];
    let transfer = begin("http://x/", 200, "OK", &headers).ok().expect("a success");
    assert_eq!((transfer.written, transfer.total), (0, Some(3)));
    let report = begin("http://x/", 404, "Not Found", &headers).err().expect("no success");
    assert_eq!(report.message, "Request for `http://x/` failed with HTTP 404 Not Found");
}

#[test]
fn a_download_is_accepted_only_with_the_digest_it_must_have() {
    let arrived = || {
        let mut transfer = Transfer::new(None);
        Downloader::new().receive::<()>(&mut transfer, b"abc", &dest(), None).unwrap();
        transfer
    };
    let expected = "BA7816BF8F01CFEA414140DE5DAE2223B00361A396177A9CB410FF61F20015AD\n";
    assert!(complete(arrived(), "http://x/", expected).is_ok());
    assert_eq!(
        complete(arrived(), "http://x/", " 00 ").unwrap_err().message,
        "Hash mismatch for `http://x/`: expected 00, got \
         ba7816bf8f01cfea414140de5dae2223b00361a396177a9cb410ff61f20015ad"
    );
}

#[test]
fn a_request_follows_as_many_redirects_as_allowed() {
    let url = "http://example.com/source.tar.gz";
    let request = Downloader::new().with_max_redirects(3).request(url);
    assert_eq!(request, minreq::get(url).with_max_redirects(3));
    assert_ne!(request, minreq::get(url));
    assert_ne!(request, Downloader::new().with_max_redirects(3).request("http://example.com/"));
}

#[test]
fn a_token_wakes_whoever_asked_last() {
    let mut cancel: Cancel<&str> = Cancel::default();
    assert!(!cancel.is_cancelled());
    cancel.register_wakeup("first");
    cancel.register_wakeup("second");
    assert!(!cancel.is_cancelled());
    assert_eq!(cancel.cancel(), Some(&"second"));
    assert!(cancel.is_cancelled());
    cancel.clear_wakeup();
    assert!(cancel.is_cancelled());
    assert_eq!(cancel.cancel(), None);
    assert!(cancel.is_cancelled());
}

#[test]
fn only_statuses_from_200_to_299_are_a_success() {
    for status in [200, 206, 299] {
        assert!(check_status("http://x/", status, "").is_ok());
    }
    for status in [199, 300, 404, -1] {
        assert!(check_status("http://x/", status, "").is_err());
    }
    assert_eq!(
        check_status("http://x/y", 404, "Not Found").unwrap_err().message,
        "Request for `http://x/y` failed with HTTP 404 Not Found"
    );
}

#[test]
fn a_digest_may_be_written_in_any_case() {
    assert!(check_digest("u", "ab12", " AB12\n").is_ok());
    assert_eq!(
        check_digest("http://x/", "ab12", " ab13 ").unwrap_err().message,
        "Hash mismatch for `http://x/`: expected ab13, got ab12"
    );
    assert!(check_digest("u", "ab", "abc").is_err());
}

#[test]
fn the_declared_length_is_found_whatever_its_case() {
    let header = |name: &str, value: &str| (name.to_owned(), value.to_owned());
    assert_eq!(content_length(&vec![header("CONTENT-LENGTH", " 42 ")]), Some(42));
    assert_eq!(
        content_length(&vec![header("x", "1"), header("content-Length", "+7")]),
        Some(7)
    );
    assert_eq!(content_length(&vec![header("Content-Length", "x")]), None);
    assert_eq!(content_length(&vec![header("Content-Length", "")]), None);
    assert_eq!(content_length(&vec![header("Content-Length", "-1")]), None);
    assert_eq!(
        content_length(&vec![header("Content-Length", "18446744073709551615")]),
        Some(u64::MAX)
    );
    assert_eq!(
        content_length(&vec![header("Content-Length", "18446744073709551616")]),
        None
    );
    assert_eq!(content_length(&Vec::new()), None);
    // The first header of that name is the one that counts.
    assert_eq!(
        content_length(&vec![header("Content-Length", "x"), header("Content-Length", "3")]),
        None
    );
}
