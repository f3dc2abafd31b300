//! Length-prefixed framing for the worker's socketpair.
//!
//! A frame is a 4-byte big-endian length and then that many bytes.

use vstd::prelude::*;

use crate::report::{said, wrapped, Report, ReportView};
use crate::text::{decimal, push_decimal};

verus! {

/// The largest payload [`read_frame`] will allocate for.
pub const MAX_FRAME: u32 = 0x100_0000;

/// `n` as four bytes, the most significant first.
pub open spec fn big_endian(n: u32) -> Seq<u8> {
    seq![
        (n / 0x100_0000) as u8,
        ((n / 0x1_0000) % 0x100) as u8,
        ((n / 0x100) % 0x100) as u8,
        (n % 0x100) as u8,
    ]
}

/// The number that the first four of `bytes` are, the most significant first.
pub open spec fn from_big_endian(bytes: Seq<u8>) -> nat {
    (bytes[0] as nat) * 0x100_0000 + (bytes[1] as nat) * 0x1_0000 + (bytes[2] as nat) * 0x100 + (
    bytes[3] as nat)
}

/// The frame that carries `payload`.
pub open spec fn framed(payload: Seq<u8>) -> Seq<u8> {
    big_endian(payload.len() as u32) + payload
}

/// What is said of a payload that is too long.
pub open spec fn refused_payload(len: nat) -> ReportView {
    if len > u32::MAX {
        wrapped(
            "frame payload is too large to fit its own length prefix"@,
            said("out of range integral type conversion attempted"@),
        )
    } else {
        said(
            "frame payload is "@ + decimal(len) + " bytes, over the "@ + decimal(MAX_FRAME as nat)
                + " byte limit"@,
        )
    }
}

/// What is said of a frame that declares too much.
pub open spec fn refused_length(len: nat) -> ReportView {
    said(
        "frame claims to be "@ + decimal(len) + " bytes, over the "@ + decimal(MAX_FRAME as nat)
            + " byte limit"@,
    )
}

/// What is said of an input that ends too early.
pub open spec fn cut_short(what: Seq<char>) -> ReportView {
    wrapped(what, said("failed to fill whole buffer"@))
}

/// The length prefix of a frame for a payload of `len` bytes.
pub fn frame_prefix(len: usize) -> (r: Result<[u8; 4], Report>)
    ensures
        r is Ok <==> len <= MAX_FRAME,
        match r {
            Ok(prefix) => prefix@ == big_endian(len as u32),
            Err(report) => report@ == refused_payload(len as nat),
        },
{
    if len > u32::MAX as usize {
        let inner = Report::new("out of range integral type conversion attempted".to_owned());
        return Err(
            inner.wrap("frame payload is too large to fit its own length prefix".to_owned()),
        );
    }
    let count: u32 = len as u32;
    if count > MAX_FRAME {
        let mut message = "frame payload is ".to_owned();
        push_decimal(&mut message, count as u64);
        message.push_str(" bytes, over the ");
        push_decimal(&mut message, MAX_FRAME as u64);
        message.push_str(" byte limit");
        return Err(Report::new(message));
    }
    let prefix = [
        (count / 0x100_0000) as u8,
        ((count / 0x1_0000) % 0x100) as u8,
        ((count / 0x100) % 0x100) as u8,
        (count % 0x100) as u8,
    ];
    assert(prefix@ =~= big_endian(count));
    Ok(prefix)
}

/// The length that a prefix declares.
pub fn frame_length(prefix: [u8; 4]) -> (r: Result<u32, Report>)
    ensures
        r is Ok <==> from_big_endian(prefix@) <= MAX_FRAME,
        match r {
            Ok(len) => len == from_big_endian(prefix@),
            Err(report) => report@ == refused_length(from_big_endian(prefix@)),
        },
{
    let len: u32 = (prefix[0] as u32) * 0x100_0000 + (prefix[1] as u32) * 0x1_0000 + (prefix[2] as u32)
        * 0x100 + (prefix[3] as u32);
    if len > MAX_FRAME {
        let mut message = "frame claims to be ".to_owned();
        push_decimal(&mut message, len as u64);
        message.push_str(" bytes, over the ");
        push_decimal(&mut message, MAX_FRAME as u64);
        message.push_str(" byte limit");
        return Err(Report::new(message));
    }
    Ok(len)
}

/// Write `payload` as one frame.
///
/// A payload over the limit is refused before anything is written.
pub fn write_frame(writer: &mut Vec<u8>, payload: &[u8]) -> (r: Result<(), Report>)
    ensures
        r is Ok <==> payload@.len() <= MAX_FRAME,
        r is Ok ==> final(writer)@ == old(writer)@ + framed(payload@),
        r is Err ==> final(writer)@ == old(writer)@ && r->Err_0@ == refused_payload(
            payload@.len(),
        ),
{
    match frame_prefix(payload.len()) {
        Err(report) => Err(report),
        Ok(prefix) => {
            writer.push(prefix[0]);
            writer.push(prefix[1]);
            writer.push(prefix[2]);
            writer.push(prefix[3]);
            writer.extend_from_slice(payload);
            assert(writer@ =~= old(writer)@ + framed(payload@));
            Ok(())
        },
    }
}

/// Bytes that are read from the front.
#[derive(Debug)]
pub struct ByteReader {
    pub bytes: Vec<u8>,
    /// How many of them have been read.
    pub position: usize,
}

/// What has not been read yet.
pub open spec fn unread(reader: ByteReader) -> Seq<u8> {
    reader.bytes@.skip(reader.position as int)
}

impl ByteReader {
    /// Nothing has been read that is not there.
    pub open spec fn wf(&self) -> bool {
        self.position <= self.bytes@.len()
    }

    /// A reader at the front of `bytes`.
    pub fn new(bytes: Vec<u8>) -> (r: ByteReader)
        ensures
            r.wf(),
            unread(r) == bytes@,
    {
        let r = ByteReader { bytes, position: 0 };
        assert(unread(r) =~= bytes@);
        r
    }

    /// Read exactly `count` bytes; where there are fewer left, they are skipped.
    fn read_exact(&mut self, count: usize) -> (r: Option<Vec<u8>>)
        requires
            old(self).wf(),
        ensures
            final(self).wf(),
            r is Some <==> unread(*old(self)).len() >= count,
            r is Some ==> r->0@ == unread(*old(self)).take(count as int) && unread(*final(self))
                == unread(*old(self)).skip(count as int),
            r is None ==> unread(*final(self)) == Seq::<u8>::empty(),
    {
        let ghost rest = unread(*self);
        if self.bytes.len() - self.position < count {
            self.position = self.bytes.len();
            assert(unread(*self) =~= Seq::<u8>::empty());
            return None;
        }
        let from: usize = self.position;
        let mut out: Vec<u8> = Vec::new();
        out.extend_from_slice(&self.bytes.as_slice()[from..from + count]);
        self.position = from + count;
        assert(out@ =~= rest.take(count as int));
        assert(unread(*self) =~= rest.skip(count as int));
        Some(out)
    }
}

/// Whether the input starts with a whole frame of an acceptable length.
pub open spec fn starts_with_frame(input: Seq<u8>) -> bool {
    input.len() >= 4 && from_big_endian(input) <= MAX_FRAME && input.len() >= 4 + from_big_endian(
        input,
    )
}

/// Read one frame written by [`write_frame`].
///
/// Of a frame that declares too much only the length is read: what follows it is left
/// where it is. An input that ends too early is read to its end.
pub fn read_frame(reader: &mut ByteReader) -> (r: Result<Vec<u8>, Report>)
    requires
        old(reader).wf(),
    ensures
        final(reader).wf(),
        r is Ok <==> starts_with_frame(unread(*old(reader))),
        match r {
            Ok(payload) => {
                let input = unread(*old(reader));
                let end = 4 + from_big_endian(input);
                &&& payload@ == input.subrange(4, end as int)
                &&& unread(*final(reader)) == input.skip(end as int)
            },
            Err(report) => {
                let input = unread(*old(reader));
                if input.len() < 4 {
                    &&& report@ == cut_short("failed to read a frame's length prefix"@)
                    &&& unread(*final(reader)) == Seq::<u8>::empty()
                } else if from_big_endian(input) > MAX_FRAME {
                    &&& report@ == refused_length(from_big_endian(input))
                    &&& unread(*final(reader)) == input.skip(4)
                } else {
                    &&& report@ == cut_short("failed to read a frame's payload"@)
                    &&& unread(*final(reader)) == Seq::<u8>::empty()
                }
            },
        },
{
    let ghost input = unread(*reader);
    match reader.read_exact(4) {
        None => {
            let inner = Report::new("failed to fill whole buffer".to_owned());
            Err(inner.wrap("failed to read a frame's length prefix".to_owned()))
        },
        Some(head) => {
            let prefix = [head[0], head[1], head[2], head[3]];
            assert(prefix@[0] == input[0] && prefix@[1] == input[1] && prefix@[2] == input[2]
                && prefix@[3] == input[3]);
            match frame_length(prefix) {
                Err(report) => Err(report),
                Ok(len) => match reader.read_exact(len as usize) {
                    None => {
                        let inner = Report::new("failed to fill whole buffer".to_owned());
                        Err(inner.wrap("failed to read a frame's payload".to_owned()))
                    },
                    Some(payload) => {
                        assert(payload@ =~= input.subrange(4, 4 + len as int));
                        assert(unread(*reader) =~= input.skip(4 + len as int));
                        Ok(payload)
                    },
                },
            }
        },
    }
}

/// Reading gives back what writing wrote, and leaves what follows it unread.
pub proof fn lemma_read_gives_back_what_was_written(payload: Seq<u8>, rest: Seq<u8>)
    requires
        payload.len() <= MAX_FRAME,
    ensures
        starts_with_frame(framed(payload) + rest),
        (framed(payload) + rest).subrange(4, 4 + from_big_endian(framed(payload) + rest) as int)
            == payload,
        (framed(payload) + rest).skip(4 + from_big_endian(framed(payload) + rest) as int) == rest,
{
    let input = framed(payload) + rest;
    let n = payload.len() as u32;
    assert(input[0] == (n / 0x100_0000) as u8);
    assert(input[1] == ((n / 0x1_0000) % 0x100) as u8);
    assert(input[2] == ((n / 0x100) % 0x100) as u8);
    assert(input[3] == (n % 0x100) as u8);
    assert(from_big_endian(input) == n);
    assert(input.subrange(4, 4 + n as int) =~= payload);
    assert(input.skip(4 + n as int) =~= rest);
}

/// A frame is four bytes that spell the length of its payload, the most significant first,
/// and then the payload.
pub proof fn lemma_shape_of_a_frame(payload: Seq<u8>)
    requires
        payload.len() <= 0xffff_ffff,
    ensures
        framed(payload).len() == 4 + payload.len(),
        framed(payload).skip(4) == payload,
        framed(payload)[0] * 0x100_0000 + framed(payload)[1] * 0x1_0000 + framed(payload)[2] * 0x100
            + framed(payload)[3] == payload.len(),
{
    let n = payload.len() as u32;
    assert(framed(payload).skip(4) =~= payload);
    assert(framed(payload)[0] == (n / 0x100_0000) as u8);
    assert(framed(payload)[1] == ((n / 0x1_0000) % 0x100) as u8);
    assert(framed(payload)[2] == ((n / 0x100) % 0x100) as u8);
    assert(framed(payload)[3] == (n % 0x100) as u8);
}

/// A prefix spells a length whose first byte counts for most: the length grows by
/// 16777216, 65536, 256 and 1 with each of the four.
pub proof fn lemma_what_a_prefix_spells(input: Seq<u8>)
    ensures
        from_big_endian(input) == 256 * (256 * (256 * input[0] + input[1]) + input[2]) + input[3],
        starts_with_frame(input) <==> input.len() >= 4 && from_big_endian(input) <= 16777216
            && input.len() - 4 >= from_big_endian(input),
{
}

/// What is said of frames and payloads that are too long, and of those that break off.
pub proof fn lemma_what_is_said_of_frames(len: nat, what: Seq<char>)
    ensures
        len <= 0xffff_ffff ==> refused_payload(len) == said(
            "frame payload is "@ + decimal(len) + " bytes, over the "@ + decimal(16777216)
                + " byte limit"@,
        ),
        len > 0xffff_ffff ==> refused_payload(len) == wrapped(
            "frame payload is too large to fit its own length prefix"@,
            said("out of range integral type conversion attempted"@),
        ),
        refused_length(len) == said(
            "frame claims to be "@ + decimal(len) + " bytes, over the "@ + decimal(16777216)
                + " byte limit"@,
        ),
        cut_short(what).message == what,
        cut_short(what).causes == seq!["failed to fill whole buffer"@],
{
    assert(cut_short(what).causes =~= seq!["failed to fill whole buffer"@]);
}

} // verus!
