//! The RCON wire format.
//!
//! A packet travels as `size | id | type | body | 0x00 0x00`, where the three
//! integers are little-endian `i32` and `size` counts every byte after itself.
use vstd::prelude::*;
use vstd::slice::slice_subrange;
use vstd::string::StringSliceAdditionalSpecFns;
use vstd::utf8::{
    decode_utf8, encode_utf8, encode_utf8_decode_utf8, encode_utf8_valid_utf8, valid_utf8,
};

verus! {

/// Packet type sent by the client to log in.
pub const SERVERDATA_AUTH: i32 = 3;

/// Packet type of the server's answer to a login.
pub const SERVERDATA_AUTH_RESPONSE: i32 = 2;

/// Packet type sent by the client to run a console command.
pub const SERVERDATA_EXECCOMMAND: i32 = 2;

/// Packet type of the server's answer to a command.
pub const SERVERDATA_RESPONSE_VALUE: i32 = 0;

/// Bytes of a payload that are not body: id, type and the two-byte terminator.
pub const PAYLOAD_OVERHEAD: i32 = 10;

/// Why a payload could not be read as a packet.
#[derive(Debug, Clone, Copy, PartialEq, Eq, Structural)]
pub enum Malformed {
    /// Fewer than ten payload bytes: no room for id, type and terminator.
    TooShort,
    /// The last two payload bytes are not both zero.
    BadTerminator,
    /// The body bytes are not valid UTF-8.
    InvalidUtf8,
}

/// A well-formed packet that does not fit the exchange in progress.
#[derive(Debug, Clone, Copy, PartialEq, Eq, Structural)]
pub enum Violation {
    /// The `size` field is negative.
    BadSize,
    /// The packet's type is not the one the exchange expects.
    UnexpectedType,
    /// The packet's id matches no request of the exchange.
    UnexpectedId,
}

/// Every failure of the codec and of the session protocol.
#[derive(Debug, Clone, Copy, PartialEq, Eq, Structural)]
pub enum RconError {
    /// The encoded packet's size would not fit in an `i32`.
    EncodingOverflow,
    /// The bytes received do not form a packet.
    MalformedPacket(Malformed),
    /// The packet received breaks the protocol.
    ProtocolViolation(Violation),
    /// The byte buffer ends before the packet it announces.
    Truncated,
}

/// One RCON packet.
#[derive(Debug)]
pub struct Packet {
    /// Correlation tag; the server echoes it, or answers `-1`.
    pub id: i32,
    /// One of the `SERVERDATA_*` codes.
    pub typ: i32,
    /// Text carried by the packet, without the terminator.
    pub body: String,
}

/// What a packet holds, with its body as characters.
pub ghost struct PacketModel {
    pub id: i32,
    pub typ: i32,
    pub body: Seq<char>,
}

impl View for Packet {
    type V = PacketModel;

    open spec fn view(&self) -> PacketModel {
        PacketModel { id: self.id, typ: self.typ, body: self.body@ }
    }
}

/// Little-endian value of four bytes, read as a two's-complement `i32`.
pub open spec fn le_i32(b: Seq<u8>) -> int {
    let u = b[0] as int + 256 * (b[1] as int + 256 * (b[2] as int + 256 * (b[3] as int)));
    if u >= 0x8000_0000 {
        u - 0x1_0000_0000
    } else {
        u
    }
}

/// The four little-endian bytes of `x` in two's complement.
pub open spec fn le_bytes(x: int) -> Seq<u8> {
    let u = if x < 0 {
        x + 0x1_0000_0000
    } else {
        x
    };
    seq![
        (u % 256) as u8,
        (u / 256 % 256) as u8,
        (u / 256 / 256 % 256) as u8,
        (u / 256 / 256 / 256) as u8,
    ]
}

/// The wire bytes of a packet whose body has the bytes `body`.
pub open spec fn frame_bytes(id: i32, typ: i32, body: Seq<u8>) -> Seq<u8> {
    le_bytes(PAYLOAD_OVERHEAD + body.len()) + le_bytes(id as int) + le_bytes(typ as int) + body
        + seq![0u8, 0u8]
}

/// Whether a packet with a body of `n` bytes can be encoded.
pub open spec fn encodable(n: nat) -> bool {
    PAYLOAD_OVERHEAD + n <= i32::MAX
}

/// The body bytes of a payload: all but id, type and terminator.
pub open spec fn body_of(p: Seq<u8>) -> Seq<u8> {
    p.subrange(8, p.len() - 2)
}

/// What the payload `p` (the bytes after the size field) decodes to.
pub open spec fn spec_decode_payload(p: Seq<u8>) -> Result<PacketModel, RconError> {
    if p.len() < PAYLOAD_OVERHEAD {
        Err(RconError::MalformedPacket(Malformed::TooShort))
    } else if p[p.len() - 2] != 0 || p[p.len() - 1] != 0 {
        Err(RconError::MalformedPacket(Malformed::BadTerminator))
    } else if !valid_utf8(body_of(p)) {
        Err(RconError::MalformedPacket(Malformed::InvalidUtf8))
    } else {
        Ok(
            PacketModel {
                id: le_i32(p.subrange(0, 4)) as i32,
                typ: le_i32(p.subrange(4, 8)) as i32,
                body: decode_utf8(body_of(p)),
            },
        )
    }
}

/// The payload length that the size field `h` announces.
pub open spec fn spec_frame_size(h: Seq<u8>) -> Result<nat, RconError> {
    let s = le_i32(h);
    if s < 0 {
        Err(RconError::ProtocolViolation(Violation::BadSize))
    } else if s < PAYLOAD_OVERHEAD {
        Err(RconError::MalformedPacket(Malformed::TooShort))
    } else {
        Ok(s as nat)
    }
}

/// The packet at the start of `b`, with the number of bytes it takes.
pub open spec fn spec_decode_frame(b: Seq<u8>) -> Result<(PacketModel, nat), RconError> {
    if b.len() < 4 {
        Err(RconError::Truncated)
    } else {
        match spec_frame_size(b.subrange(0, 4)) {
            Err(e) => Err(e),
            Ok(n) => if b.len() < 4 + n {
                Err(RconError::Truncated)
            } else {
                match spec_decode_payload(b.subrange(4, 4 + n as int)) {
                    Err(e) => Err(e),
                    Ok(p) => Ok((p, 4 + n)),
                }
            },
        }
    }
}

/// Relies on `String::from_utf8`: it succeeds exactly on valid UTF-8, and
/// the string it returns holds the characters those bytes encode.
#[verifier::external_body]
fn utf8_to_string(b: &[u8]) -> (r: Option<String>)
    ensures
        r is Some <==> valid_utf8(b@),
        r is Some ==> r->Some_0@ == decode_utf8(b@),
{
    String::from_utf8(b.to_vec()).ok()
}

/// Appends the four little-endian bytes of `x`.
pub fn push_i32_le(out: &mut Vec<u8>, x: i32)
    ensures
        final(out)@ == old(out)@ + le_bytes(x as int),
{
    let u: u32 = if x < 0 {
        (x as i64 + 0x1_0000_0000i64) as u32
    } else {
        x as u32
    };
    let ghost before = out@;
    out.push((u % 256) as u8);
    out.push((u / 256 % 256) as u8);
    out.push((u / 256 / 256 % 256) as u8);
    out.push((u / 256 / 256 / 256) as u8);
    assert(out@ =~= before + le_bytes(x as int));
}

/// Reads the little-endian `i32` at `b[at..at + 4]`.
pub fn read_i32_le(b: &[u8], at: usize) -> (r: i32)
    requires
        at + 4 <= b@.len(),
    ensures
        r as int == le_i32(b@.subrange(at as int, at + 4)),
{
    let u: u32 = b[at] as u32 + 256 * (b[at + 1] as u32 + 256 * (b[at + 2] as u32 + 256 * (
    b[at + 3] as u32)));
    let ghost sub = b@.subrange(at as int, at + 4);
    assert(sub[0] == b@[at as int] && sub[1] == b@[at + 1] && sub[2] == b@[at + 2] && sub[3]
        == b@[at + 3]);
    if u >= 0x8000_0000 {
        (u as i64 - 0x1_0000_0000i64) as i32
    } else {
        u as i32
    }
}

/// Reading back the bytes of an `i32` gives the `i32`.
pub proof fn lemma_le_round_trip(x: int)
    requires
        i32::MIN <= x <= i32::MAX,
    ensures
        le_i32(le_bytes(x)) == x,
        le_bytes(x).len() == 4,
{
    let u = if x < 0 {
        x + 0x1_0000_0000
    } else {
        x
    };
    let q1 = u / 256;
    let q2 = q1 / 256;
    let q3 = q2 / 256;
    assert(u == 256 * q1 + u % 256);
    assert(q1 == 256 * q2 + q1 % 256);
    assert(q2 == 256 * q3 + q2 % 256);
    assert(0 <= q3 < 256);
    let b = le_bytes(x);
    assert(b[0] as int == u % 256);
    assert(b[1] as int == q1 % 256);
    assert(b[2] as int == q2 % 256);
    assert(b[3] as int == q3);
}

/// Encodes a packet for the wire.
///
/// Fails with `EncodingOverflow` exactly when the size field would not fit
/// in an `i32`.
pub fn encode_packet(id: i32, typ: i32, body: &str) -> (r: Result<Vec<u8>, RconError>)
    ensures
        match r {
            Ok(bytes) => encodable(body.spec_bytes().len()) && bytes@ == frame_bytes(
                id,
                typ,
                body.spec_bytes(),
            ),
            Err(e) => !encodable(body.spec_bytes().len()) && e == RconError::EncodingOverflow,
        },
{
    let b = body.as_bytes();
    if b.len() > (i32::MAX - PAYLOAD_OVERHEAD) as usize {
        return Err(RconError::EncodingOverflow);
    }
    let size = PAYLOAD_OVERHEAD + b.len() as i32;
    let mut out: Vec<u8> = Vec::new();
    push_i32_le(&mut out, size);
    push_i32_le(&mut out, id);
    push_i32_le(&mut out, typ);
    let ghost head = out@;
    out.extend_from_slice(b);
    out.push(0u8);
    out.push(0u8);
    assert(out@ =~= head + b@ + seq![0u8, 0u8]);
    Ok(out)
}

/// Reads the size field of a packet and checks it.
///
/// A negative size is a protocol violation; one below ten leaves no room for
/// id, type and terminator. The protocol sets no upper bound: a caller that
/// must limit what it allocates checks the size it gets back.
pub fn frame_size(header: &[u8]) -> (r: Result<usize, RconError>)
    requires
        header@.len() == 4,
    ensures
        match r {
            Ok(n) => spec_frame_size(header@) == Ok::<nat, RconError>(n as nat),
            Err(e) => spec_frame_size(header@) == Err::<nat, RconError>(e),
        },
{
    let s = read_i32_le(header, 0);
    assert(header@.subrange(0, 4) =~= header@);
    if s < 0 {
        Err(RconError::ProtocolViolation(Violation::BadSize))
    } else if s < PAYLOAD_OVERHEAD {
        Err(RconError::MalformedPacket(Malformed::TooShort))
    } else {
        Ok(s as usize)
    }
}

/// Decodes the payload of a packet: the `size` bytes after the size field.
///
/// A body that is not valid UTF-8 is refused, never repaired.
pub fn decode_payload(payload: &[u8]) -> (r: Result<Packet, RconError>)
    ensures
        match r {
            Ok(p) => spec_decode_payload(payload@) == Ok::<PacketModel, RconError>(p@),
            Err(e) => spec_decode_payload(payload@) == Err::<PacketModel, RconError>(e),
        },
{
    let n = payload.len();
    if n < PAYLOAD_OVERHEAD as usize {
        return Err(RconError::MalformedPacket(Malformed::TooShort));
    }
    if payload[n - 2] != 0 || payload[n - 1] != 0 {
        return Err(RconError::MalformedPacket(Malformed::BadTerminator));
    }
    let id = read_i32_le(payload, 0);
    let typ = read_i32_le(payload, 4);
    match utf8_to_string(slice_subrange(payload, 8, n - 2)) {
        None => Err(RconError::MalformedPacket(Malformed::InvalidUtf8)),
        Some(body) => Ok(Packet { id, typ, body }),
    }
}

/// Decodes the packet at `b[at..]`, returning it with the number of bytes
/// it takes, size field included.
pub fn decode_frame(b: &[u8], at: usize) -> (r: Result<(Packet, usize), RconError>)
    requires
        at <= b@.len(),
    ensures
        match r {
            Ok((p, n)) => spec_decode_frame(b@.subrange(at as int, b@.len() as int)) == Ok::<
                (PacketModel, nat),
                RconError,
            >((p@, n as nat)),
            Err(e) => spec_decode_frame(b@.subrange(at as int, b@.len() as int)) == Err::<
                (PacketModel, nat),
                RconError,
            >(e),
        },
{
    let ghost rest = b@.subrange(at as int, b@.len() as int);
    if b.len() - at < 4 {
        return Err(RconError::Truncated);
    }
    let header = slice_subrange(b, at, at + 4);
    assert(header@ =~= rest.subrange(0, 4));
    let n = match frame_size(header) {
        Ok(n) => n,
        Err(e) => return Err(e),
    };
    if b.len() - at - 4 < n {
        return Err(RconError::Truncated);
    }
    let payload = slice_subrange(b, at + 4, at + 4 + n);
    assert(payload@ =~= rest.subrange(4, 4 + n as int));
    match decode_payload(payload) {
        Ok(p) => Ok((p, 4 + n)),
        Err(e) => Err(e),
    }
}

/// The size field of an encoded packet counts exactly the bytes after it.
pub proof fn lemma_size_field(id: i32, typ: i32, body: Seq<u8>)
    requires
        encodable(body.len()),
    ensures
        le_i32(frame_bytes(id, typ, body).subrange(0, 4)) == frame_bytes(id, typ, body).len() - 4,
{
    let f = frame_bytes(id, typ, body);
    lemma_le_round_trip(PAYLOAD_OVERHEAD + body.len());
    lemma_le_round_trip(id as int);
    lemma_le_round_trip(typ as int);
    assert(f.subrange(0, 4) =~= le_bytes(PAYLOAD_OVERHEAD + body.len()));
}

/// Decoding the bytes of an encoded packet gives the packet back and takes
/// exactly its bytes, whatever follows them.
pub proof fn lemma_round_trip(id: i32, typ: i32, body: Seq<char>, rest: Seq<u8>)
    requires
        encodable(encode_utf8(body).len()),
    ensures
        spec_decode_frame(frame_bytes(id, typ, encode_utf8(body)) + rest) == Ok::<
            (PacketModel, nat),
            RconError,
        >((PacketModel { id, typ, body }, frame_bytes(id, typ, encode_utf8(body)).len())),
{
    let bytes = encode_utf8(body);
    let f = frame_bytes(id, typ, bytes);
    let b = f + rest;
    let n = PAYLOAD_OVERHEAD + bytes.len();
    lemma_size_field(id, typ, bytes);
    lemma_le_round_trip(id as int);
    lemma_le_round_trip(typ as int);
    assert(b.subrange(0, 4) =~= f.subrange(0, 4));
    let payload = b.subrange(4, 4 + n);
    assert(payload =~= le_bytes(id as int) + le_bytes(typ as int) + bytes + seq![0u8, 0u8]);
    assert(payload.subrange(0, 4) =~= le_bytes(id as int));
    assert(payload.subrange(4, 8) =~= le_bytes(typ as int));
    assert(body_of(payload) =~= bytes);
    encode_utf8_valid_utf8(body);
    encode_utf8_decode_utf8(body);
}

/// A payload is refused as malformed when it is under ten bytes, when its
/// last two bytes are not both zero, or when its body is not valid UTF-8.
pub proof fn lemma_malformed_payload(p: Seq<u8>)
    ensures
        p.len() < PAYLOAD_OVERHEAD ==> spec_decode_payload(p) == Err::<PacketModel, RconError>(
            RconError::MalformedPacket(Malformed::TooShort),
        ),
        p.len() >= PAYLOAD_OVERHEAD && (p[p.len() - 2] != 0 || p[p.len() - 1] != 0)
            ==> spec_decode_payload(p) == Err::<PacketModel, RconError>(
            RconError::MalformedPacket(Malformed::BadTerminator),
        ),
        p.len() >= PAYLOAD_OVERHEAD && !valid_utf8(body_of(p)) ==> spec_decode_payload(p) is Err,
        spec_decode_payload(p) is Ok <==> p.len() >= PAYLOAD_OVERHEAD && p[p.len() - 2] == 0
            && p[p.len() - 1] == 0 && valid_utf8(body_of(p)),
{
}

} // verus!
