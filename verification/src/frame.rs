//! Length-prefixed frames.
//!
//! Each frame is a big-endian 32-bit length followed by exactly that many bytes. The declared
//! length is checked against the maximum before the body is waited for, so a hostile peer cannot
//! force a large allocation.

use vstd::prelude::*;
use vstd::string::*;
use crate::gitpack;
use crate::text;

verus! {

/// Bytes of the length that precedes a body.
pub const LENGTH_PREFIX_BYTES: usize = 4;

/// Errors reading or writing a frame.
#[derive(Debug)]
pub enum FrameError {
    /// The declared (or actual) frame length exceeded the configured maximum.
    TooLarge {
        /// Declared frame length.
        len: u32,
        /// Configured maximum.
        max: u32,
    },
    /// An underlying I/O error.
    Io(String),
}

impl FrameError {
    /// What the error says.
    pub open spec fn says(&self) -> Seq<char> {
        match self {
            FrameError::TooLarge { len, max } => too_large_text(*len, *max),
            FrameError::Io(e) => e@,
        }
    }

    /// What the error says.
    pub fn message(&self) -> (r: String)
        ensures
            r@ == self.says(),
    {
        match self {
            FrameError::TooLarge { len, max } => too_large(*len, *max),
            FrameError::Io(e) => e.clone(),
        }
    }
}

/// How an oversized frame is described.
pub open spec fn too_large_text(len: u32, max: u32) -> Seq<char> {
    "frame length "@ + text::decimal(len as nat) + " exceeds maximum "@ + text::decimal(max as nat)
}

/// Describe an oversized frame.
pub fn too_large(len: u32, max: u32) -> (r: String)
    ensures
        r@ == too_large_text(len, max),
{
    let mut out: String = "frame length ".to_owned();
    out.append(text::dec(len as u64).as_str());
    out.append(" exceeds maximum ");
    out.append(text::dec(max as u64).as_str());
    out
}

/// The length that precedes a body: four bytes, the most significant first.
pub open spec fn prefix(len: nat) -> Seq<u8> {
    seq![
        (len / 16777216) as u8,
        (len / 65536 % 256) as u8,
        (len / 256 % 256) as u8,
        (len % 256) as u8,
    ]
}

/// A body as it goes over the wire.
pub open spec fn framed(body: Seq<u8>) -> Seq<u8> {
    prefix(body.len()) + body
}

/// Bodies as they go over the wire, one behind the other.
pub open spec fn framed_all(bodies: Seq<Seq<u8>>) -> Seq<u8>
    decreases bodies.len(),
{
    if bodies.len() == 0 {
        Seq::empty()
    } else {
        framed(bodies[0]) + framed_all(bodies.drop_first())
    }
}

proof fn lemma_prefix_value(len: nat)
    requires
        len <= u32::MAX,
    ensures
        gitpack::big_endian(prefix(len)) == len,
{
    let b = prefix(len);
    lemma_value_of_four(b);
}

proof fn lemma_value_of_four(b: Seq<u8>)
    requires
        b.len() == 4,
    ensures
        gitpack::big_endian(b) == ((b[0] * 256 + b[1]) * 256 + b[2]) * 256 + b[3],
{
    reveal_with_fuel(gitpack::big_endian, 5);
    assert(b.drop_last().drop_last().drop_last().drop_last() =~= Seq::empty());
    assert(b.drop_last().last() == b[2]);
    assert(b.drop_last().drop_last().last() == b[1]);
    assert(b.drop_last().drop_last().drop_last().last() == b[0]);
}

/// Frame one body: its length, then the body.
pub fn write_frame(body: &[u8], max_frame_bytes: u32) -> (r: Result<Vec<u8>, FrameError>)
    ensures
        match r {
            Ok(bytes) => body@.len() <= max_frame_bytes && bytes@ == framed(body@),
            Err(FrameError::TooLarge { len, max }) => {
                &&& body@.len() > max_frame_bytes
                &&& max == max_frame_bytes
                &&& len == if body@.len() <= u32::MAX {
                    body@.len()
                } else {
                    u32::MAX as nat
                }
            },
            Err(_) => false,
        },
{
    let n: usize = body.len();
    if n > u32::MAX as usize {
        return Err(FrameError::TooLarge { len: u32::MAX, max: max_frame_bytes });
    }
    let len: u32 = n as u32;
    if len > max_frame_bytes {
        return Err(FrameError::TooLarge { len, max: max_frame_bytes });
    }
    let mut out: Vec<u8> = Vec::new();
    out.push((len / 16777216) as u8);
    out.push((len / 65536 % 256) as u8);
    out.push((len / 256 % 256) as u8);
    out.push((len % 256) as u8);
    assert(out@ =~= prefix(body@.len()));
    out.extend_from_slice(body);
    assert(out@ =~= framed(body@));
    Ok(out)
}

/// The body length that four bytes declare, unless it is over the maximum.
pub fn declared_length(head: &[u8], max_frame_bytes: u32) -> (r: Result<u32, FrameError>)
    requires
        head@.len() == 4,
    ensures
        match r {
            Ok(len) => len == gitpack::big_endian(head@) && len <= max_frame_bytes,
            Err(FrameError::TooLarge { len, max }) => len == gitpack::big_endian(head@) && max
                == max_frame_bytes && len > max,
            Err(_) => false,
        },
{
    proof {
        lemma_value_of_four(head@);
    }
    let len: u32 = ((head[0] as u32 * 256 + head[1] as u32) * 256 + head[2] as u32) * 256
        + head[3] as u32;
    if len > max_frame_bytes {
        return Err(FrameError::TooLarge { len, max: max_frame_bytes });
    }
    Ok(len)
}

/// What a reader makes of the bytes that it has.
#[derive(Debug, PartialEq, Eq)]
pub enum FrameRead {
    /// The stream ended at a frame boundary.
    End,
    /// This many bytes are missing before more can be said.
    More(usize),
    /// A body. It and the length before it are used up.
    Body(Vec<u8>),
}

/// The length that the stream declares for its first frame.
pub open spec fn declared(stream: Seq<u8>) -> nat {
    gitpack::big_endian(stream.take(4))
}

/// Read the first frame of a stream of which these are the bytes so far; `ended` says that none
/// will follow. An end inside a frame is an error; an oversized frame is one as soon as its length
/// is there, whatever of its body is.
pub fn read_frame(stream: &[u8], ended: bool, max_frame_bytes: u32) -> (r: Result<
    FrameRead,
    FrameError,
>)
    ensures
        match r {
            Ok(FrameRead::End) => stream@.len() == 0 && ended,
            Ok(FrameRead::More(n)) => {
                &&& !ended
                &&& n > 0
                &&& stream@.len() < 4 ==> n == 4 - stream@.len()
                &&& stream@.len() >= 4 ==> declared(stream@) <= max_frame_bytes && n == 4
                    + declared(stream@) - stream@.len()
            },
            Ok(FrameRead::Body(body)) => {
                &&& stream@.len() >= 4 + declared(stream@)
                &&& declared(stream@) <= max_frame_bytes
                &&& body@ == stream@.subrange(4, 4 + declared(stream@) as int)
            },
            Err(FrameError::TooLarge { len, max }) => {
                &&& stream@.len() >= 4
                &&& len == declared(stream@)
                &&& max == max_frame_bytes
                &&& len > max
            },
            Err(FrameError::Io(e)) => {
                &&& ended
                &&& e@ == "early eof"@
                &&& stream@.len() > 0
                &&& stream@.len() < 4 || (declared(stream@) <= max_frame_bytes && stream@.len() < 4
                    + declared(stream@))
            },
        },
{
    let n: usize = stream.len();
    if n == 0 && ended {
        return Ok(FrameRead::End);
    }
    if n < 4 {
        if ended {
            return Err(FrameError::Io("early eof".to_owned()));
        }
        return Ok(FrameRead::More(4 - n));
    }
    let head: &[u8] = vstd::slice::slice_subrange(stream, 0, 4);
    assert(head@ =~= stream@.take(4));
    let len: u32 = match declared_length(head, max_frame_bytes) {
        Ok(len) => len,
        Err(e) => {
            return Err(e);
        },
    };
    let want: usize = len as usize;
    if n - 4 < want {
        if ended {
            return Err(FrameError::Io("early eof".to_owned()));
        }
        return Ok(FrameRead::More(want - (n - 4)));
    }
    let body: Vec<u8> = vstd::slice::slice_to_vec(
        vstd::slice::slice_subrange(stream, 4, 4 + want),
    );
    Ok(FrameRead::Body(body))
}

/// What a read gives back of a write: of a stream of frames, whatever follows them, the first read
/// gives the first body, and what it leaves is the stream of the rest.
pub proof fn law_frames_read_back_in_order(bodies: Seq<Seq<u8>>, after: Seq<u8>)
    requires
        bodies.len() > 0,
        bodies[0].len() <= u32::MAX,
    ensures
        ({
            let stream = framed_all(bodies) + after;
            let used = 4 + bodies[0].len() as int;
            &&& declared(stream) == bodies[0].len()
            &&& stream.len() >= used
            &&& stream.subrange(4, used) == bodies[0]
            &&& stream.skip(used) == framed_all(bodies.drop_first()) + after
        }),
{
    let first = bodies[0];
    let stream = framed_all(bodies) + after;
    let used = 4 + first.len() as int;
    lemma_prefix_value(first.len());
    assert(stream.take(4) =~= prefix(first.len()));
    assert(stream.subrange(4, used) =~= first);
    assert(stream.skip(used) =~= framed_all(bodies.drop_first()) + after);
}

/// An empty stream and a stream that was cut are told apart: while a frame is incomplete no read
/// gives a body, and an end there is no clean end.
pub proof fn law_a_cut_frame_is_no_frame(body: Seq<u8>, cut: int)
    requires
        body.len() <= u32::MAX,
        0 < cut < framed(body).len(),
    ensures
        ({
            let stream = framed(body).take(cut);
            stream.len() > 0 && (stream.len() < 4 || stream.len() < 4 + declared(stream))
        }),
{
    let stream = framed(body).take(cut);
    if cut >= 4 {
        lemma_prefix_value(body.len());
        assert(stream.take(4) =~= prefix(body.len()));
    }
}

/// A frame that was written is read back as it was, whatever follows it; one that is longer than the
/// maximum is neither written nor read.
pub proof fn law_a_written_frame_is_read_back(
    body: &[u8],
    max: u32,
    written: Result<Vec<u8>, FrameError>,
    stream: &[u8],
    after: Seq<u8>,
    ended: bool,
    read: Result<FrameRead, FrameError>,
)
    requires
        call_ensures(write_frame, (body, max), written),
        written is Ok ==> stream@ == written->Ok_0@ + after,
        call_ensures(read_frame, (stream, ended, max), read),
    ensures
        written is Ok <==> body@.len() <= max,
        written is Err ==> written->Err_0 is TooLarge && written->Err_0->max == max,
        written is Ok ==> (read matches Ok(FrameRead::Body(b)) && b@ == body@),
        written is Ok ==> written->Ok_0@.len() == body@.len() + 4,
{
    if written is Ok {
        lemma_prefix_value(body@.len());
        assert(stream@.take(4) =~= prefix(body@.len()));
        assert(stream@.subrange(4, 4 + body@.len() as int) =~= body@);
    }
}

/// An incomplete frame is never taken for a whole one: while the stream goes on just what is missing
/// is asked for, and once it has ended that is an error, unless it ended between frames. A length
/// over the maximum is refused as soon as it is read.
pub proof fn law_an_incomplete_frame_is_waited_for(
    body: &[u8],
    max: u32,
    written: Vec<u8>,
    cut: int,
    stream: &[u8],
    ended: bool,
    read: Result<FrameRead, FrameError>,
    small: u32,
    refused: Result<FrameRead, FrameError>,
)
    requires
        call_ensures(write_frame, (body, max), Ok(written)),
        0 <= cut < written@.len(),
        stream@ == written@.take(cut),
        call_ensures(read_frame, (stream, ended, max), read),
        small < body@.len(),
        call_ensures(read_frame, (stream, ended, small), refused),
    ensures
        !ended ==> (read matches Ok(FrameRead::More(n)) && n > 0 && cut + n <= written@.len()),
        !ended && cut >= 4 ==> (read matches Ok(FrameRead::More(n)) && cut + n == written@.len()),
        ended && cut == 0 ==> read matches Ok(FrameRead::End),
        ended && cut > 0 ==> read is Err,
        cut >= 4 ==> refused is Err && refused->Err_0 is TooLarge,
{
    if cut >= 4 {
        lemma_prefix_value(body@.len());
        assert(stream@.take(4) =~= prefix(body@.len()));
    }
}

} // verus!
