//! The frame and its layout on the wire: a header of four bytes, then the payload.

use vstd::prelude::*;

verus! {

/// Largest frame on the wire, header included.
pub const MAX_FRAME_SIZE: usize = 504;

/// Bytes of header in front of every payload.
pub const HEADER_SIZE: usize = 4;

/// Largest payload that one frame carries.
pub const MAX_PAYLOAD_SIZE: usize = MAX_FRAME_SIZE - HEADER_SIZE;

/// Bit 7 of the flag byte: this frame ends the message.
pub const FIN_BIT: u8 = 0b1000_0000;

/// Bit 6 of the flag byte: the grapheme cluster at the end of this payload goes
/// on in the next frame.
pub const EMOJI_CROSS_BIT: u8 = 0b0100_0000;

/// One unit of transmission.
#[derive(Debug, Clone, PartialEq, Eq)]
pub struct Frame {
    /// Set on the last frame of a message, and on no other.
    pub fin: bool,
    /// Set when bytes that follow this payload still belong to its last cluster.
    pub emoji_cross: bool,
    /// How many such bytes follow; zero unless `emoji_cross` is set.
    pub cross_size: u8,
    /// The bytes carried.
    pub payload: Vec<u8>,
}

/// What a frame is to the contracts: its flags, its count, its payload as a sequence.
pub struct FrameView {
    pub fin: bool,
    pub cross: bool,
    pub cross_size: u8,
    pub payload: Seq<u8>,
}

impl View for Frame {
    type V = FrameView;

    open spec fn view(&self) -> FrameView {
        FrameView {
            fin: self.fin,
            cross: self.emoji_cross,
            cross_size: self.cross_size,
            payload: self.payload@,
        }
    }
}

impl DeepView for Frame {
    type V = FrameView;

    open spec fn deep_view(&self) -> FrameView {
        self@
    }
}

impl FrameView {
    /// The frame keeps the protocol's invariants for payloads of at most `capacity` bytes.
    pub open spec fn well_formed(self, capacity: int) -> bool {
        &&& self.payload.len() <= capacity
        &&& !self.cross ==> self.cross_size == 0
    }
}

/// The fields of a frame's header.
#[derive(Debug, Clone, Copy, PartialEq, Eq)]
pub struct FrameHeader {
    /// The frame ends its message.
    pub fin: bool,
    /// The frame announces a continuation.
    pub emoji_cross: bool,
    /// The count that goes with the continuation flag.
    pub cross_size: u8,
    /// How many payload bytes follow the header.
    pub payload_len: u16,
}

/// Why no frame could be taken from a stream.
#[derive(Debug, Clone, Copy, PartialEq, Eq)]
pub enum DecodeError {
    /// The stream ended before the first byte of a header: the peer has left.
    Disconnected,
    /// The stream ended inside a header or inside the payload that the header
    /// announced.
    UnexpectedEof,
}

impl DecodeError {
    /// The error in words.
    pub fn message(&self) -> (text: &'static str)
        ensures
            text@ == match *self {
                DecodeError::Disconnected => "Connection closed by peer"@,
                DecodeError::UnexpectedEof => "Unexpected end of stream"@,
            },
    {
        match self {
            DecodeError::Disconnected => "Connection closed by peer",
            DecodeError::UnexpectedEof => "Unexpected end of stream",
        }
    }
}

/// Byte 0 of a header: FIN in bit 7, CROSS in bit 6, the six reserved bits zero.
pub open spec fn flag_byte(fin: bool, cross: bool) -> u8 {
    ((if fin { 128int } else { 0int }) + (if cross { 64int } else { 0int })) as u8
}

/// The four header bytes of a frame. The length is written big-endian in sixteen
/// bits; of a payload too long for them, the low sixteen bits are written.
pub open spec fn wire_header(frame: FrameView) -> Seq<u8> {
    seq![
        flag_byte(frame.fin, frame.cross),
        frame.cross_size,
        ((frame.payload.len() / 256) % 256) as u8,
        (frame.payload.len() % 256) as u8,
    ]
}

/// A frame as it travels: header, then payload, nothing else.
pub open spec fn wire_image(frame: FrameView) -> Seq<u8> {
    wire_header(frame) + frame.payload
}

/// The fields that the first four bytes of `bytes` hold. The reserved bits are
/// not looked at.
pub open spec fn header_fields(bytes: Seq<u8>) -> FrameHeader {
    FrameHeader {
        fin: bytes[0] >= 128,
        emoji_cross: (bytes[0] / 64) % 2 == 1,
        cross_size: bytes[1],
        payload_len: (bytes[2] * 256 + bytes[3]) as u16,
    }
}

/// The frame at the front of `bytes` and the number of bytes it takes, or the
/// reason why there is none.
pub open spec fn decode_spec(bytes: Seq<u8>) -> Result<(FrameView, int), DecodeError> {
    if bytes.len() == 0 {
        Err(DecodeError::Disconnected)
    } else if bytes.len() < HEADER_SIZE {
        Err(DecodeError::UnexpectedEof)
    } else {
        let header = header_fields(bytes);
        let end = HEADER_SIZE + header.payload_len;
        if bytes.len() < end {
            Err(DecodeError::UnexpectedEof)
        } else {
            Ok((frame_of(header, bytes.subrange(HEADER_SIZE as int, end)), end))
        }
    }
}

/// The frame with the fields of `header` and the given payload.
pub open spec fn frame_of(header: FrameHeader, payload: Seq<u8>) -> FrameView {
    FrameView {
        fin: header.fin,
        cross: header.emoji_cross,
        cross_size: header.cross_size,
        payload,
    }
}

/// What a read for a header amounts to when `got` bytes of it arrived before
/// the stream ended or the header was whole: nothing at all is the peer
/// leaving between frames, a part of a header is a broken stream.
pub open spec fn header_arrival(got: int) -> Result<(), DecodeError> {
    if got >= HEADER_SIZE {
        Ok(())
    } else if got == 0 {
        Err(DecodeError::Disconnected)
    } else {
        Err(DecodeError::UnexpectedEof)
    }
}

/// What a read for a payload of `wanted` bytes amounts to when `got` of them
/// arrived: a payload is whole or the stream is broken.
pub open spec fn payload_arrival(got: int, wanted: int) -> Result<(), DecodeError> {
    if got >= wanted {
        Ok(())
    } else {
        Err(DecodeError::UnexpectedEof)
    }
}

/// Judges a read for a header that brought `got` bytes.
pub fn header_arrived(got: usize) -> (result: Result<(), DecodeError>)
    ensures
        result == header_arrival(got as int),
{
    if got >= HEADER_SIZE {
        Ok(())
    } else if got == 0 {
        Err(DecodeError::Disconnected)
    } else {
        Err(DecodeError::UnexpectedEof)
    }
}

/// Judges a read for a payload of `wanted` bytes that brought `got` bytes.
pub fn payload_arrived(got: usize, wanted: usize) -> (result: Result<(), DecodeError>)
    ensures
        result == payload_arrival(got as int, wanted as int),
{
    if got >= wanted {
        Ok(())
    } else {
        Err(DecodeError::UnexpectedEof)
    }
}

/// Reads the fields of a header.
pub fn parse_header(bytes: &[u8; 4]) -> (header: FrameHeader)
    ensures
        header == header_fields(bytes@),
{
    let flags = bytes[0];
    let high = bytes[2];
    let low = bytes[3];
    assert((flags & 128 != 0) == (flags >= 128)) by (bit_vector);
    assert((flags & 64 != 0) == ((flags / 64) % 2 == 1)) by (bit_vector);
    assert(((high as u16) << 8 | (low as u16)) == high * 256 + low) by (bit_vector);
    FrameHeader {
        fin: (flags & FIN_BIT) != 0,
        emoji_cross: (flags & EMOJI_CROSS_BIT) != 0,
        cross_size: bytes[1],
        payload_len: ((high as u16) << 8) | (low as u16),
    }
}

impl Frame {
    /// A frame without continuation that carries `payload`.
    pub fn new(payload: Vec<u8>, fin: bool) -> (frame: Frame)
        ensures
            frame@ == (FrameView { fin, cross: false, cross_size: 0, payload: payload@ }),
    {
        Frame { fin, emoji_cross: false, cross_size: 0, payload }
    }

    /// The frame that a header and the payload read after it make.
    pub fn from_parts(header: FrameHeader, payload: Vec<u8>) -> (frame: Frame)
        ensures
            frame@ == frame_of(header, payload@),
    {
        Frame {
            fin: header.fin,
            emoji_cross: header.emoji_cross,
            cross_size: header.cross_size,
            payload,
        }
    }

    /// The bytes that put this frame on the wire: `HEADER_SIZE` of header, then
    /// the payload as it is.
    pub fn encode(&self) -> (bytes: Vec<u8>)
        ensures
            bytes@ == wire_image(self@),
    {
        let mut buffer: Vec<u8> = Vec::new();
        let mut flags: u8 = 0;
        if self.fin {
            flags = flags | FIN_BIT;
        }
        if self.emoji_cross {
            flags = flags | EMOJI_CROSS_BIT;
        }
        assert(0u8 | 128 == 128 && 0u8 | 64 == 64 && 128u8 | 64 == 192) by (bit_vector);
        buffer.push(flags);
        buffer.push(self.cross_size);
        let n: usize = self.payload.len();
        let len: u16 = #[verifier::truncate] (n as u16);
        let high: u8 = #[verifier::truncate] ((len >> 8) as u8);
        let low: u8 = #[verifier::truncate] ((len & 0xFF) as u8);
        assert((((n as u16) >> 8) as u8) == (n / 256) % 256) by (bit_vector);
        assert((((n as u16) & 0xFF) as u8) == n % 256) by (bit_vector);
        buffer.push(high);
        buffer.push(low);
        buffer.extend_from_slice(self.payload.as_slice());
        assert(buffer@ =~= wire_image(self@));
        buffer
    }

    /// Takes the frame at the front of `bytes`, which is all that the stream
    /// still holds, and says how many bytes the frame took.
    pub fn decode(bytes: &[u8]) -> (result: Result<(Frame, usize), DecodeError>)
        ensures
            match result {
                Ok((frame, taken)) => decode_spec(bytes@) == Ok::<(FrameView, int), DecodeError>(
                    (frame@, taken as int),
                ),
                Err(e) => decode_spec(bytes@) == Err::<(FrameView, int), DecodeError>(e),
            },
    {
        let got: usize = if bytes.len() < HEADER_SIZE {
            bytes.len()
        } else {
            HEADER_SIZE
        };
        match header_arrived(got) {
            Err(e) => {
                return Err(e);
            },
            Ok(()) => {},
        }
        let head: [u8; 4] = [bytes[0], bytes[1], bytes[2], bytes[3]];
        let header = parse_header(&head);
        assert(header == header_fields(bytes@));
        let wanted: usize = header.payload_len as usize;
        match payload_arrived(bytes.len() - HEADER_SIZE, wanted) {
            Err(e) => {
                return Err(e);
            },
            Ok(()) => {},
        }
        let end: usize = HEADER_SIZE + wanted;
        let mut payload: Vec<u8> = Vec::new();
        payload.extend_from_slice(&bytes[HEADER_SIZE..end]);
        assert(payload@ =~= bytes@.subrange(HEADER_SIZE as int, end as int));
        Ok((Frame::from_parts(header, payload), end))
    }
}

/// Decoding undoes encoding: a frame whose payload length fits the header's
/// sixteen bits comes back as it was, whatever follows it in the stream, and
/// takes exactly the bytes of its image.
pub proof fn lemma_decode_encode(frame: FrameView, rest: Seq<u8>)
    requires
        frame.payload.len() <= u16::MAX,
    ensures
        decode_spec(wire_image(frame) + rest) == Ok::<(FrameView, int), DecodeError>(
            (frame, HEADER_SIZE + frame.payload.len()),
        ),
{
    let bytes = wire_image(frame) + rest;
    let n = frame.payload.len();
    assert(bytes[0] == flag_byte(frame.fin, frame.cross));
    assert(bytes[1] == frame.cross_size);
    assert(bytes[2] == n / 256);
    assert(bytes[3] == n % 256);
    let header = header_fields(bytes);
    assert(header.payload_len == n);
    assert(bytes.subrange(HEADER_SIZE as int, HEADER_SIZE + n) =~= frame.payload);
}

} // verus!
