//! Length-prefixed frames of the peer and the local control protocol.

use vstd::prelude::*;

verus! {

/// The largest frame of the peer protocol.
pub const MAX_PEER_FRAME_BYTES: usize = 33_554_432;

/// The largest frame of the local control protocol.
pub const MAX_LOCAL_FRAME_BYTES: usize = 1_048_576;

/// Which frames a protocol admits.
#[derive(Clone, Copy, Debug, PartialEq, Eq, Structural)]
pub enum FrameKind {
    /// At most 32 MiB; an empty frame is refused when it is read.
    Peer,
    /// At most 1 MiB.
    Local,
}

/// The largest payload of a kind of frame.
pub open spec fn frame_limit(kind: FrameKind) -> nat {
    match kind {
        FrameKind::Peer => MAX_PEER_FRAME_BYTES as nat,
        FrameKind::Local => MAX_LOCAL_FRAME_BYTES as nat,
    }
}

/// A payload of so many bytes may be read.
pub open spec fn readable(kind: FrameKind, length: nat) -> bool {
    length <= frame_limit(kind) && (kind == FrameKind::Peer ==> length != 0)
}

fn limit_of(kind: FrameKind) -> (limit: usize)
    ensures
        limit == frame_limit(kind),
{
    match kind {
        FrameKind::Peer => MAX_PEER_FRAME_BYTES,
        FrameKind::Local => MAX_LOCAL_FRAME_BYTES,
    }
}

/// The four bytes of a length, most significant first.
pub open spec fn length_bytes(length: nat) -> Seq<u8> {
    seq![
        ((length / 16_777_216) % 256) as u8,
        ((length / 65_536) % 256) as u8,
        ((length / 256) % 256) as u8,
        (length % 256) as u8,
    ]
}

/// The length that four bytes spell.
pub open spec fn length_of(header: Seq<u8>) -> nat {
    (header[0] * 16_777_216 + header[1] * 65_536 + header[2] * 256 + header[3]) as nat
}

/// A length that fits four bytes is read back as it was written.
pub proof fn length_round_trips(length: nat)
    requires
        length < 4_294_967_296,
    ensures
        length_of(length_bytes(length)) == length,
{
    let a = length / 16_777_216;
    let b = length / 65_536;
    let c = length / 256;
    assert(length == c * 256 + length % 256);
    assert(c == b * 256 + c % 256) by {
        assert(b == c / 256) by (nonlinear_arith)
            requires
                b == length / 65_536,
                c == length / 256,
        ;
    }
    assert(b == a * 256 + b % 256) by {
        assert(a == b / 256) by (nonlinear_arith)
            requires
                a == length / 16_777_216,
                b == length / 65_536,
        ;
    }
    assert(a < 256);
}

/// A payload with its length before it.
pub open spec fn framed(payload: Seq<u8>) -> Seq<u8> {
    length_bytes(payload.len()) + payload
}

/// Frames a payload; a payload over the limit has no frame.
pub fn encode_frame(kind: FrameKind, payload: &Vec<u8>) -> (frame: Option<Vec<u8>>)
    ensures
        frame is Some == (payload@.len() <= frame_limit(kind)),
        frame matches Some(frame) ==> frame@ == framed(payload@),
{
    let length: usize = payload.len();
    if length > limit_of(kind) {
        return None;
    }
    let mut frame: Vec<u8> = Vec::new();
    frame.push(((length / 16_777_216) % 256) as u8);
    frame.push(((length / 65_536) % 256) as u8);
    frame.push(((length / 256) % 256) as u8);
    frame.push((length % 256) as u8);
    assert(frame@ =~= length_bytes(payload@.len()));
    let mut i: usize = 0;
    assert(frame@ =~= length_bytes(payload@.len()) + payload@.take(0));
    while i < payload.len()
        invariant
            i <= payload@.len(),
            frame@ == length_bytes(payload@.len()) + payload@.take(i as int),
        decreases payload@.len() - i,
    {
        frame.push(payload[i]);
        assert(payload@.take(i + 1) =~= payload@.take(i as int).push(payload@[i as int]));
        assert(frame@ =~= length_bytes(payload@.len()) + payload@.take(i + 1));
        i += 1;
    }
    assert(payload@.take(i as int) =~= payload@);
    Some(frame)
}

/// The length that a frame header announces; none where no such payload may
/// be read.
pub fn decode_length(kind: FrameKind, header: &[u8; 4]) -> (length: Option<usize>)
    ensures
        length is Some == readable(kind, length_of(header@)),
        length matches Some(length) ==> length == length_of(header@),
{
    let announced: u64 = header[0] as u64 * 16_777_216 + header[1] as u64 * 65_536 + header[2] as u64
        * 256 + header[3] as u64;
    if announced > limit_of(kind) as u64 {
        return None;
    }
    match kind {
        FrameKind::Peer => {
            if announced == 0 {
                return None;
            }
        },
        FrameKind::Local => {},
    }
    Some(announced as usize)
}

/// What the start of a byte stream holds.
#[derive(Debug)]
pub enum FrameRead {
    /// More bytes are needed.
    Incomplete,
    /// The announced length may not be read.
    Refused,
    /// One whole frame; the count of bytes that it takes.
    Frame(Vec<u8>, usize),
}

/// Reads one frame from the start of a byte stream.
pub fn decode_frame(kind: FrameKind, stream: &Vec<u8>) -> (read: FrameRead)
    ensures
        match read {
            FrameRead::Incomplete => stream@.len() < 4 || readable(kind, length_of(stream@))
                && stream@.len() < 4 + length_of(stream@),
            FrameRead::Refused => stream@.len() >= 4 && !readable(kind, length_of(stream@)),
            FrameRead::Frame(payload, used) => {
                &&& stream@.len() >= 4
                &&& readable(kind, length_of(stream@))
                &&& used == 4 + length_of(stream@)
                &&& used <= stream@.len()
                &&& payload@ == stream@.subrange(4, used as int)
            },
        },
{
    if stream.len() < 4 {
        return FrameRead::Incomplete;
    }
    let header: [u8; 4] = [stream[0], stream[1], stream[2], stream[3]];
    assert(length_of(header@) == length_of(stream@));
    let length: usize = match decode_length(kind, &header) {
        Some(length) => length,
        None => {
            return FrameRead::Refused;
        },
    };
    if stream.len() - 4 < length {
        return FrameRead::Incomplete;
    }
    let mut payload: Vec<u8> = Vec::new();
    let mut i: usize = 0;
    assert(payload@ =~= stream@.subrange(4, 4));
    while i < length
        invariant
            i <= length,
            4 + length <= stream.len(),
            payload@ == stream@.subrange(4, 4 + i),
        decreases length - i,
    {
        payload.push(stream[4 + i]);
        assert(stream@.subrange(4, 4 + i + 1) =~= stream@.subrange(4, 4 + i).push(
            stream@[4 + i],
        ));
        i += 1;
    }
    FrameRead::Frame(payload, 4 + length)
}

/// A frame that was written is read back whole, whatever follows it. An empty
/// payload of the peer protocol is written and refused when read.
pub proof fn frames_round_trip(kind: FrameKind, payload: Seq<u8>, rest: Seq<u8>)
    requires
        payload.len() <= frame_limit(kind),
        kind == FrameKind::Peer ==> payload.len() > 0,
    ensures
        ({
            let stream = framed(payload) + rest;
            &&& stream.len() >= 4
            &&& length_of(stream) == payload.len()
            &&& readable(kind, length_of(stream))
            &&& 4 + length_of(stream) <= stream.len()
            &&& stream.subrange(4, 4 + length_of(stream) as int) == payload
        }),
{
    let stream = framed(payload) + rest;
    length_round_trips(payload.len());
    assert(stream[0] == length_bytes(payload.len())[0]);
    assert(stream[1] == length_bytes(payload.len())[1]);
    assert(stream[2] == length_bytes(payload.len())[2]);
    assert(stream[3] == length_bytes(payload.len())[3]);
    assert(length_of(stream) == length_of(length_bytes(payload.len())));
    assert(stream.subrange(4, 4 + payload.len() as int) =~= payload);
}

} // verus!
