//! Fetching sources and checking what arrived.
//!
//! Every source a build file names comes with the SHA-256 its bytes must have.
//! The digest is computed as the body streams: the same pass that hashes a chunk
//! also counts it.

use vstd::prelude::*;

use crate::cancel::Cancel;
use crate::path::{lossy, FilePath};
use crate::report::{said, Report};
use crate::text::{
    decimal, eq_ignore_ascii_case, hex_text, parse_number, parsed_number, push_decimal, push_signed,
    same_ignoring_case, signed_decimal, to_hex, trim, trimmed,
};

verus! {

/// How much of the body is hashed and written per pass.
pub const CHUNK: usize = 65536;

/// How many redirects are followed before the download is called a loop.
pub const MAX_REDIRECTS: usize = 10;

/// The first length, in bytes, that a digest cannot be computed for.
pub const DIGEST_LIMIT: u64 = 0x2000_0000_0000_0000;

/// The state of a digest that is being computed.
#[verifier::external_type_specification]
#[verifier::external_body]
pub struct ExDigestContext(ring::digest::Context);

/// The bytes a digest has been given so far, in order.
pub uninterp spec fn absorbed(context: ring::digest::Context) -> Seq<u8>;

/// Whether a digest is a SHA-256 digest.
pub uninterp spec fn is_sha256(context: ring::digest::Context) -> bool;

/// The SHA-256 digest of `bytes`.
pub uninterp spec fn sha256(bytes: Seq<u8>) -> Seq<u8>;

/// `ring::digest::Context::new` for SHA-256: a digest that has been given nothing.
#[verifier::external_body]
fn start_digest() -> (context: ring::digest::Context)
    ensures
        absorbed(context) == Seq::<u8>::empty(),
        is_sha256(context),
{
    ring::digest::Context::new(&ring::digest::SHA256)
}

/// `ring::digest::Context::update`: gives the digest all of `bytes`.
#[verifier::external_body]
fn feed_digest(context: &mut ring::digest::Context, bytes: &[u8])
    ensures
        absorbed(*final(context)) == absorbed(*old(context)) + bytes@,
        is_sha256(*final(context)) == is_sha256(*old(context)),
{
    context.update(bytes);
}

/// `ring::digest::Context::finish`: the 32 bytes of the digest. It fails on an
/// input whose length in bits does not fit into 64 bits.
#[verifier::external_body]
fn finish_digest(context: ring::digest::Context) -> (digest: Vec<u8>)
    requires
        is_sha256(context),
        absorbed(context).len() < DIGEST_LIMIT,
    ensures
        digest@ == sha256(absorbed(context)),
        digest@.len() == 32,
{
    context.finish().as_ref().to_vec()
}

/// A request that has not been sent.
#[verifier::external_type_specification]
#[verifier::external_body]
pub struct ExRequest(minreq::Request);

/// The address a request asks for.
pub uninterp spec fn requested_url(request: minreq::Request) -> Seq<char>;

/// How many redirects a request follows.
pub uninterp spec fn redirect_limit(request: minreq::Request) -> usize;

/// `minreq::get`: a request for `url` that follows up to a hundred redirects.
#[verifier::external_body]
fn start_request(url: &str) -> (request: minreq::Request)
    ensures
        requested_url(request) == url@,
        redirect_limit(request) == 100,
{
    minreq::get(url)
}

/// `minreq::Request::with_max_redirects`: the same request with another limit.
#[verifier::external_body]
fn limit_redirects(request: minreq::Request, limit: usize) -> (limited: minreq::Request)
    ensures
        redirect_limit(limited) == limit,
        requested_url(limited) == requested_url(request),
{
    request.with_max_redirects(limit)
}

/// Fetches sources named by a build file and reports what their bytes hash to.
#[derive(Debug, PartialEq, Eq, Structural)]
pub struct Downloader {
    pub max_redirects: usize,
}

/// A [`Downloader`] together with the token that can stop it.
pub struct Cancellable<'a, W> {
    pub downloader: &'a Downloader,
    /// Checked between chunks so a caller can stop a download in progress.
    pub cancel: &'a Cancel<W>,
}

impl Default for Downloader {
    fn default() -> (r: Self)
        ensures
            r == (Downloader { max_redirects: MAX_REDIRECTS }),
            r.max_redirects == 10,
    {
        Downloader::new()
    }
}

/// A body that is being received: how much has arrived, and its digest so far.
pub struct Transfer {
    pub written: u64,
    /// The length the server declared, if it declared one.
    pub total: Option<u64>,
    pub digest: ring::digest::Context,
}

impl Transfer {
    /// What has been counted is what has been hashed.
    pub open spec fn wf(&self) -> bool {
        &&& is_sha256(self.digest)
        &&& absorbed(self.digest).len() == self.written
    }

    /// Nothing has arrived yet.
    pub fn new(total: Option<u64>) -> (r: Transfer)
        ensures
            r.wf(),
            r.written == 0,
            r.total == total,
            absorbed(r.digest) == Seq::<u8>::empty(),
    {
        Transfer { written: 0, total, digest: start_digest() }
    }

    /// The digest of everything that arrived, in lower-case hexadecimal.
    pub fn finish(self) -> (r: String)
        requires
            self.wf(),
            self.written < DIGEST_LIMIT,
        ensures
            r@ == hex_text(sha256(absorbed(self.digest))),
    {
        let digest = finish_digest(self.digest);
        to_hex(digest.as_slice())
    }
}

/// What is said of a transfer that was cancelled.
pub open spec fn cancelled_text(dest: Seq<u8>, written: nat) -> Seq<char> {
    "download of `"@ + lossy(dest) + "` was cancelled after "@ + decimal(written) + " bytes"@
}

impl Downloader {
    /// A downloader with the default redirect budget and no cancellation.
    pub fn new() -> (r: Downloader)
        ensures
            r == (Downloader { max_redirects: MAX_REDIRECTS }),
            r.max_redirects == 10,
    {
        Downloader { max_redirects: MAX_REDIRECTS }
    }

    /// Follow at most `max_redirects` redirects instead of the default.
    pub fn with_max_redirects(self, max_redirects: usize) -> (r: Downloader)
        ensures
            r == (Downloader { max_redirects }),
    {
        Downloader { max_redirects }
    }

    /// Check `cancel` after every chunk, and stop instead of taking another if it
    /// has been tripped.
    pub fn with_cancel<'a, W>(&'a self, cancel: &'a Cancel<W>) -> (r: Cancellable<'a, W>)
        ensures
            r.downloader == self,
            r.cancel == cancel,
    {
        Cancellable { downloader: self, cancel }
    }

    /// The request for `url`, which follows no more redirects than this downloader
    /// allows.
    pub fn request(&self, url: &str) -> (r: minreq::Request)
        ensures
            requested_url(r) == url@,
            redirect_limit(r) == self.max_redirects,
    {
        limit_redirects(start_request(url), self.max_redirects)
    }

    /// Take the next chunk of a body that goes to `dest`.
    ///
    /// The chunk is hashed and counted in any case; the transfer ends there when
    /// `cancel`, as it is now, has been tripped.
    pub fn receive<W>(
        &self,
        transfer: &mut Transfer,
        chunk: &[u8],
        dest: &FilePath,
        cancel: Option<&Cancel<W>>,
    ) -> (r: Result<(), Report>)
        requires
            old(transfer).wf(),
            old(transfer).written + chunk@.len() <= u64::MAX,
        ensures
            final(transfer).wf(),
            final(transfer).written == old(transfer).written + chunk@.len(),
            final(transfer).total == old(transfer).total,
            absorbed(final(transfer).digest) == absorbed(old(transfer).digest) + chunk@,
            r is Err <==> cancel is Some && cancel->0.cancelled,
            r is Err ==> r->Err_0@ == said(
                cancelled_text(dest@, final(transfer).written as nat),
            ),
    {
        feed_digest(&mut transfer.digest, chunk);
        transfer.written = transfer.written + chunk.len() as u64;
        match cancel {
            Some(cancel) => {
                if cancel.is_cancelled() {
                    let mut message = "download of `".to_owned();
                    message.push_str(dest.display().as_str());
                    message.push_str("` was cancelled after ");
                    push_decimal(&mut message, transfer.written);
                    message.push_str(" bytes");
                    return Err(Report::new(message));
                }
            },
            None => {},
        }
        Ok(())
    }
}

impl<'a, W> Cancellable<'a, W> {
    /// Take the next chunk of a body that goes to `dest`, and stop there if the token
    /// has been tripped.
    pub fn receive(&self, transfer: &mut Transfer, chunk: &[u8], dest: &FilePath) -> (r: Result<
        (),
        Report,
    >)
        requires
            old(transfer).wf(),
            old(transfer).written + chunk@.len() <= u64::MAX,
        ensures
            final(transfer).wf(),
            final(transfer).written == old(transfer).written + chunk@.len(),
            final(transfer).total == old(transfer).total,
            absorbed(final(transfer).digest) == absorbed(old(transfer).digest) + chunk@,
            r is Err <==> self.cancel.cancelled,
            r is Err ==> r->Err_0@ == said(
                cancelled_text(dest@, final(transfer).written as nat),
            ),
    {
        self.downloader.receive(transfer, chunk, dest, Some(self.cancel))
    }
}

/// What is said of an answer that is not a success.
pub open spec fn status_text(url: Seq<char>, status: int, reason: Seq<char>) -> Seq<char> {
    "Request for `"@ + url + "` failed with HTTP "@ + signed_decimal(status) + " "@ + reason
}

/// Whether the server answered with success: a status from 200 to 299.
pub fn check_status(url: &str, status: i32, reason: &str) -> (r: Result<(), Report>)
    ensures
        r is Ok <==> 200 <= status < 300,
        r is Err ==> r->Err_0@ == said(status_text(url@, status as int, reason@)),
{
    if 200 <= status && status < 300 {
        return Ok(());
    }
    let mut message = "Request for `".to_owned();
    message.push_str(url);
    message.push_str("` failed with HTTP ");
    push_signed(&mut message, status);
    message.push_str(" ");
    message.push_str(reason);
    Err(Report::new(message))
}

/// What is said of a body that is not the one that was asked for.
pub open spec fn mismatch_text(url: Seq<char>, expected: Seq<char>, actual: Seq<char>) -> Seq<
    char,
> {
    "Hash mismatch for `"@ + url + "`: expected "@ + trimmed(expected) + ", got "@ + trimmed(actual)
}

/// Whether the bytes that arrived are the bytes that were asked for.
///
/// The case of letters and surrounding white space do not count: a hash copied
/// out of a release page is as likely to be upper-case as lower.
pub fn check_digest(url: &str, actual: &str, expected: &str) -> (r: Result<(), Report>)
    ensures
        r is Ok <==> same_ignoring_case(trimmed(actual@), trimmed(expected@)),
        r is Err ==> r->Err_0@ == said(mismatch_text(url@, expected@, actual@)),
{
    let actual = trim(actual);
    let expected = trim(expected);
    if eq_ignore_ascii_case(actual.as_str(), expected.as_str()) {
        return Ok(());
    }
    let mut message = "Hash mismatch for `".to_owned();
    message.push_str(url);
    message.push_str("`: expected ");
    message.push_str(expected.as_str());
    message.push_str(", got ");
    message.push_str(actual.as_str());
    Err(Report::new(message))
}

/// The value of the first header whose name is `content-length` in any case, from
/// position `i` on.
pub open spec fn declared_from(headers: Seq<(String, String)>, i: int) -> Option<u64>
    decreases headers.len() - i,
{
    if i < 0 || i >= headers.len() {
        None
    } else if same_ignoring_case(headers[i].0@, "content-length"@) {
        parsed_number(trimmed(headers[i].1@))
    } else {
        declared_from(headers, i + 1)
    }
}

/// The declared body length, if the response carried one.
///
/// Header names arrive as the server sent them, so the lookup does not regard
/// their case.
pub fn content_length(headers: &Vec<(String, String)>) -> (r: Option<u64>)
    ensures
        r == declared_from(headers@, 0),
{
    let mut i: usize = 0;
    while i < headers.len()
        invariant
            i <= headers@.len(),
            declared_from(headers@, i as int) == declared_from(headers@, 0),
        decreases headers@.len() - i,
    {
        let (name, value) = &headers[i];
        if eq_ignore_ascii_case(name.as_str(), "content-length") {
            return parse_number(trim(value.as_str()).as_str());
        }
        i += 1;
    }
    None
}

/// Begin to receive the body of an answer, which has to be a success: nothing is
/// created for any other.
pub fn begin(url: &str, status: i32, reason: &str, headers: &Vec<(String, String)>) -> (r: Result<
    Transfer,
    Report,
>)
    ensures
        r is Ok <==> 200 <= status < 300,
        match r {
            Ok(transfer) => {
                &&& transfer.wf()
                &&& transfer.written == 0
                &&& transfer.total == declared_from(headers@, 0)
                &&& absorbed(transfer.digest) == Seq::<u8>::empty()
            },
            Err(report) => report@ == said(status_text(url@, status as int, reason@)),
        },
{
    match check_status(url, status, reason) {
        Ok(()) => Ok(Transfer::new(content_length(headers))),
        Err(report) => Err(report),
    }
}

/// Accept a body that has arrived, if its bytes have the digest they must have.
pub fn complete(transfer: Transfer, url: &str, expected: &str) -> (r: Result<(), Report>)
    requires
        transfer.wf(),
        transfer.written < DIGEST_LIMIT,
    ensures
        ({
            let actual = hex_text(sha256(absorbed(transfer.digest)));
            &&& r is Ok <==> same_ignoring_case(trimmed(actual), trimmed(expected@))
            &&& r is Err ==> r->Err_0@ == said(mismatch_text(url@, expected@, actual))
        }),
{
    let actual = transfer.finish();
    check_digest(url, actual.as_str(), expected)
}

proof fn lemma_header_search(headers: Seq<(String, String)>, i: int)
    requires
        0 <= i <= headers.len(),
    ensures
        (forall|j: int|
            i <= j < headers.len() ==> !same_ignoring_case(
                (#[trigger] headers[j]).0@,
                "content-length"@,
            )) ==> declared_from(headers, i) is None,
        forall|k: int|
            i <= k < headers.len() && same_ignoring_case(
                (#[trigger] headers[k]).0@,
                "content-length"@,
            ) && (forall|j: int|
                i <= j < k ==> !same_ignoring_case(
                    (#[trigger] headers[j]).0@,
                    "content-length"@,
                )) ==> declared_from(headers, i) == parsed_number(trimmed(headers[k].1@)),
    decreases headers.len() - i,
{
    if i < headers.len() {
        lemma_header_search(headers, i + 1);
    }
}

/// The declared length is what the first header of that name says, however the name is
/// capitalised and whatever white space surrounds the value; without such a header there
/// is none.
pub proof fn lemma_first_length_header_counts(headers: Seq<(String, String)>, k: int)
    ensures
        (forall|j: int|
            0 <= j < headers.len() ==> !same_ignoring_case(
                (#[trigger] headers[j]).0@,
                "content-length"@,
            )) ==> declared_from(headers, 0) is None,
        0 <= k < headers.len() && same_ignoring_case(headers[k].0@, "content-length"@) && (forall|
            j: int,
        |
            0 <= j < k ==> !same_ignoring_case((#[trigger] headers[j]).0@, "content-length"@))
            ==> declared_from(headers, 0) == parsed_number(trimmed(headers[k].1@)),
{
    lemma_header_search(headers, 0);
}

/// What is said of a download that was cancelled, of one that was refused and of one that
/// brought something else.
pub proof fn lemma_what_is_said_of_downloads(
    dest: Seq<u8>,
    written: nat,
    url: Seq<char>,
    status: int,
    reason: Seq<char>,
    expected: Seq<char>,
    actual: Seq<char>,
)
    ensures
        cancelled_text(dest, written) == "download of `"@ + lossy(dest)
            + "` was cancelled after "@ + decimal(written) + " bytes"@,
        status_text(url, status, reason) == "Request for `"@ + url + "` failed with HTTP "@
            + signed_decimal(status) + " "@ + reason,
        mismatch_text(url, expected, actual) == "Hash mismatch for `"@ + url + "`: expected "@
            + trimmed(expected) + ", got "@ + trimmed(actual),
{
}

} // verus!
