//! The two RCON exchanges: logging in, and running a command whose output
//! may come back in several packets.
//!
//! These functions make the requests and judge the replies; moving bytes over
//! the connection is the caller's part. The caller sends one request at a
//! time and waits for its whole reply before the next.
use vstd::prelude::*;
use vstd::string::{StringExecFns, StringSliceAdditionalSpecFns};
use vstd::utf8::encode_utf8;

use crate::codec::{
    decode_frame, encodable, encode_packet, frame_bytes, lemma_round_trip, spec_decode_frame,
    Packet, PacketModel, RconError, Violation, PAYLOAD_OVERHEAD,
    SERVERDATA_AUTH, SERVERDATA_AUTH_RESPONSE, SERVERDATA_EXECCOMMAND,
    SERVERDATA_RESPONSE_VALUE,
};

verus! {

/// The id the client gives the login request and the command request.
pub const REQUEST_ID: i32 = 1;

/// The id of the marker request, echoed after the last fragment of a command's
/// output; the server also answers a refused login with it.
pub const MARKER_ID: i32 = -1;

/// How the server's answer to a login request ends the login.
pub open spec fn spec_auth_outcome(reply: PacketModel) -> Result<bool, RconError> {
    if reply.typ != SERVERDATA_AUTH_RESPONSE {
        Err(RconError::ProtocolViolation(Violation::UnexpectedType))
    } else if reply.id == REQUEST_ID {
        Ok(true)
    } else if reply.id == MARKER_ID {
        Ok(false)
    } else {
        Err(RconError::ProtocolViolation(Violation::UnexpectedId))
    }
}

/// What a reply to a command is: `Ok(true)` for the marker's echo, which ends
/// the output, `Ok(false)` for a fragment of the output.
pub open spec fn spec_reply_kind(reply: PacketModel) -> Result<bool, RconError> {
    if reply.typ != SERVERDATA_RESPONSE_VALUE {
        Err(RconError::ProtocolViolation(Violation::UnexpectedType))
    } else if reply.id == MARKER_ID {
        Ok(true)
    } else if reply.id == REQUEST_ID {
        Ok(false)
    } else {
        Err(RconError::ProtocolViolation(Violation::UnexpectedId))
    }
}

/// The bytes a client sends to run `command`: the command itself, then the
/// empty marker request.
pub open spec fn command_request_bytes(command: Seq<u8>) -> Seq<u8> {
    frame_bytes(REQUEST_ID, SERVERDATA_EXECCOMMAND, command) + frame_bytes(
        MARKER_ID,
        SERVERDATA_RESPONSE_VALUE,
        Seq::empty(),
    )
}

/// How a login ends when the server's replies are the bytes `b`, with the
/// number of bytes its answer takes.
pub open spec fn spec_auth_reply(b: Seq<u8>) -> Result<(bool, nat), RconError> {
    match spec_decode_frame(b) {
        Err(e) => Err(e),
        Ok((p, n)) => match spec_auth_outcome(p) {
            Err(e) => Err(e),
            Ok(ok) => Ok((ok, n)),
        },
    }
}

/// The output of a command when the server's replies are the bytes `b`:
/// the fragments' bodies up to the marker's echo, joined, with the number
/// of bytes up to the end of that echo.
pub open spec fn spec_command_reply(b: Seq<u8>) -> Result<(Seq<char>, nat), RconError>
    decreases b.len(),
    via command_reply_decreases
{
    match spec_decode_frame(b) {
        Err(e) => Err(e),
        Ok((p, n)) => match spec_reply_kind(p) {
            Err(e) => Err(e),
            Ok(true) => Ok((Seq::empty(), n)),
            Ok(false) => match spec_command_reply(b.subrange(n as int, b.len() as int)) {
                Err(e) => Err(e),
                Ok((text, m)) => Ok((p.body + text, n + m)),
            },
        },
    }
}

/// A decoded frame takes at least one byte and no more than there are.
pub proof fn lemma_frame_len(b: Seq<u8>)
    ensures
        spec_decode_frame(b) matches Ok((p, n)) ==> PAYLOAD_OVERHEAD + 4 <= n <= b.len(),
{
}

#[via_fn]
proof fn command_reply_decreases(b: Seq<u8>) {
    lemma_frame_len(b);
}

/// Encodes the login request for `password`.
pub fn auth_request(password: &str) -> (r: Result<Vec<u8>, RconError>)
    ensures
        match r {
            Ok(bytes) => encodable(password.spec_bytes().len()) && bytes@ == frame_bytes(
                REQUEST_ID,
                SERVERDATA_AUTH,
                password.spec_bytes(),
            ),
            Err(e) => !encodable(password.spec_bytes().len()) && e == RconError::EncodingOverflow,
        },
{
    encode_packet(REQUEST_ID, SERVERDATA_AUTH, password)
}

/// Judges the server's answer to a login request: `true` when the password
/// was accepted, `false` when it was refused.
pub fn auth_outcome(reply: &Packet) -> (r: Result<bool, RconError>)
    ensures
        r == spec_auth_outcome(reply@),
{
    if reply.typ != SERVERDATA_AUTH_RESPONSE {
        Err(RconError::ProtocolViolation(Violation::UnexpectedType))
    } else if reply.id == REQUEST_ID {
        Ok(true)
    } else if reply.id == MARKER_ID {
        Ok(false)
    } else {
        Err(RconError::ProtocolViolation(Violation::UnexpectedId))
    }
}

/// Reads the server's answer to a login request from `b[at..]`, and returns
/// how the login ends with the number of bytes the answer takes.
pub fn auth_reply(b: &[u8], at: usize) -> (r: Result<(bool, usize), RconError>)
    requires
        at <= b@.len(),
    ensures
        match r {
            Ok((ok, n)) => spec_auth_reply(b@.subrange(at as int, b@.len() as int)) == Ok::<
                (bool, nat),
                RconError,
            >((ok, n as nat)),
            Err(e) => spec_auth_reply(b@.subrange(at as int, b@.len() as int)) == Err::<
                (bool, nat),
                RconError,
            >(e),
        },
{
    match decode_frame(b, at) {
        Err(e) => Err(e),
        Ok((p, n)) => match auth_outcome(&p) {
            Err(e) => Err(e),
            Ok(ok) => Ok((ok, n)),
        },
    }
}

/// Encodes the requests that run `command`: the command, then the marker.
pub fn command_request(command: &str) -> (r: Result<Vec<u8>, RconError>)
    ensures
        match r {
            Ok(bytes) => encodable(command.spec_bytes().len()) && bytes@ == command_request_bytes(
                command.spec_bytes(),
            ),
            Err(e) => !encodable(command.spec_bytes().len()) && e == RconError::EncodingOverflow,
        },
{
    let mut out = match encode_packet(REQUEST_ID, SERVERDATA_EXECCOMMAND, command) {
        Ok(bytes) => bytes,
        Err(e) => return Err(e),
    };
    let marker = encode_packet(MARKER_ID, SERVERDATA_RESPONSE_VALUE, "");
    proof {
        reveal_strlit("");
    }
    match marker {
        Ok(mut m) => {
            assert("".spec_bytes() =~= Seq::<u8>::empty());
            out.append(&mut m);
            Ok(out)
        },
        Err(e) => Err(e),
    }
}

/// Takes one reply to a command. A fragment's body is appended to `text`
/// and `false` returned; the marker's echo returns `true`, leaving `text`
/// as it is: the output is then complete.
pub fn accept_reply(text: &mut String, reply: &Packet) -> (r: Result<bool, RconError>)
    ensures
        r == spec_reply_kind(reply@),
        r == Ok::<bool, RconError>(false) ==> final(text)@ == old(text)@ + reply.body@,
        r != Ok::<bool, RconError>(false) ==> final(text)@ == old(text)@,
{
    if reply.typ != SERVERDATA_RESPONSE_VALUE {
        Err(RconError::ProtocolViolation(Violation::UnexpectedType))
    } else if reply.id == MARKER_ID {
        Ok(true)
    } else if reply.id == REQUEST_ID {
        text.append(reply.body.as_str());
        Ok(false)
    } else {
        Err(RconError::ProtocolViolation(Violation::UnexpectedId))
    }
}

/// Reads the replies to a command from `b[at..]` up to the marker's echo,
/// and returns the command's output with the number of bytes read.
pub fn command_reply(b: &[u8], at: usize) -> (r: Result<(String, usize), RconError>)
    requires
        at <= b@.len(),
    ensures
        match r {
            Ok((text, n)) => spec_command_reply(b@.subrange(at as int, b@.len() as int)) == Ok::<
                (Seq<char>, nat),
                RconError,
            >((text@, n as nat)),
            Err(e) => spec_command_reply(b@.subrange(at as int, b@.len() as int)) == Err::<
                (Seq<char>, nat),
                RconError,
            >(e),
        },
{
    let ghost whole = b@.subrange(at as int, b@.len() as int);
    let mut text = String::new();
    let mut pos = at;
    let len = b.len();
    loop
        invariant
            len == b@.len(),
            whole == b@.subrange(at as int, b@.len() as int),
            at <= pos <= b@.len(),
            spec_command_reply(whole) == match spec_command_reply(
                b@.subrange(pos as int, b@.len() as int),
            ) {
                Err(e) => Err(e),
                Ok((rest, m)) => Ok((text@ + rest, ((pos - at) + m) as nat)),
            },
        decreases b@.len() - pos,
    {
        let ghost here = b@.subrange(pos as int, b@.len() as int);
        let ghost before = text@;
        proof {
            lemma_frame_len(here);
        }
        let (p, n) = match decode_frame(b, pos) {
            Ok(frame) => frame,
            Err(e) => return Err(e),
        };
        match accept_reply(&mut text, &p) {
            Err(e) => return Err(e),
            Ok(true) => {
                assert(text@ + Seq::<char>::empty() =~= text@);
                return Ok((text, pos + n - at));
            },
            Ok(false) => {
                assert(b@.subrange(pos + n, b@.len() as int) =~= here.subrange(
                    n as int,
                    here.len() as int,
                ));
                assert forall|rest: Seq<char>| #[trigger] (before + (p.body@ + rest)) == text@ + rest by {
                    assert(before + (p.body@ + rest) =~= text@ + rest);
                }
                pos = pos + n;
            },
        }
    }
}

/// The bytes of a run of command-output fragments with the given bodies.
pub open spec fn fragments_bytes(bodies: Seq<Seq<char>>) -> Seq<u8>
    decreases bodies.len(),
{
    if bodies.len() == 0 {
        Seq::empty()
    } else {
        frame_bytes(REQUEST_ID, SERVERDATA_RESPONSE_VALUE, encode_utf8(bodies[0])) + fragments_bytes(
            bodies.drop_first(),
        )
    }
}

/// Whether a packet with these body characters can be encoded.
pub open spec fn fits(body: Seq<char>) -> bool {
    encodable(encode_utf8(body).len())
}

/// A login ends in `true` when the server echoes the request id, in `false`
/// when it answers `-1`, and in a protocol violation when the answer has
/// another type or another id.
pub proof fn lemma_auth_reply(id: i32, typ: i32, body: Seq<char>, rest: Seq<u8>)
    requires
        fits(body),
    ensures
        ({
            let f = frame_bytes(id, typ, encode_utf8(body));
            let r = spec_auth_reply(f + rest);
            &&& typ != SERVERDATA_AUTH_RESPONSE ==> r == Err::<(bool, nat), RconError>(
                RconError::ProtocolViolation(Violation::UnexpectedType),
            )
            &&& typ == SERVERDATA_AUTH_RESPONSE && id == REQUEST_ID ==> r == Ok::<
                (bool, nat),
                RconError,
            >((true, f.len()))
            &&& typ == SERVERDATA_AUTH_RESPONSE && id == MARKER_ID ==> r == Ok::<
                (bool, nat),
                RconError,
            >((false, f.len()))
            &&& typ == SERVERDATA_AUTH_RESPONSE && id != REQUEST_ID && id != MARKER_ID ==> r
                == Err::<(bool, nat), RconError>(
                RconError::ProtocolViolation(Violation::UnexpectedId),
            )
        }),
{
    lemma_round_trip(id, typ, body, rest);
}

/// The marker's echo ends a command's output at once: with no fragment
/// before it the output is empty.
pub proof fn lemma_marker_reply(body: Seq<char>, rest: Seq<u8>)
    requires
        fits(body),
    ensures
        ({
            let f = frame_bytes(MARKER_ID, SERVERDATA_RESPONSE_VALUE, encode_utf8(body));
            spec_command_reply(f + rest) == Ok::<(Seq<char>, nat), RconError>(
                (Seq::empty(), f.len()),
            )
        }),
{
    lemma_round_trip(MARKER_ID, SERVERDATA_RESPONSE_VALUE, body, rest);
}

/// A reply to a command with an id other than the request's and the marker's,
/// or a type other than `SERVERDATA_RESPONSE_VALUE`, is a protocol violation.
pub proof fn lemma_stray_reply(id: i32, typ: i32, body: Seq<char>, rest: Seq<u8>)
    requires
        fits(body),
    ensures
        ({
            let r = spec_command_reply(frame_bytes(id, typ, encode_utf8(body)) + rest);
            &&& typ != SERVERDATA_RESPONSE_VALUE ==> r == Err::<(Seq<char>, nat), RconError>(
                RconError::ProtocolViolation(Violation::UnexpectedType),
            )
            &&& typ == SERVERDATA_RESPONSE_VALUE && id != REQUEST_ID && id != MARKER_ID ==> r
                == Err::<(Seq<char>, nat), RconError>(
                RconError::ProtocolViolation(Violation::UnexpectedId),
            )
        }),
{
    lemma_round_trip(id, typ, body, rest);
}

/// Fragments followed by the marker's echo give the fragments' bodies joined
/// in order, and take exactly their bytes.
pub proof fn lemma_fragments_reply(bodies: Seq<Seq<char>>, marker: Seq<char>, rest: Seq<u8>)
    requires
        forall|i: int| 0 <= i < bodies.len() ==> fits(#[trigger] bodies[i]),
        fits(marker),
    ensures
        ({
            let m = frame_bytes(MARKER_ID, SERVERDATA_RESPONSE_VALUE, encode_utf8(marker));
            spec_command_reply(fragments_bytes(bodies) + m + rest) == Ok::<
                (Seq<char>, nat),
                RconError,
            >((bodies.flatten(), fragments_bytes(bodies).len() + m.len()))
        }),
    decreases bodies.len(),
{
    let m = frame_bytes(MARKER_ID, SERVERDATA_RESPONSE_VALUE, encode_utf8(marker));
    if bodies.len() == 0 {
        assert(fragments_bytes(bodies) + m + rest =~= m + rest);
        lemma_marker_reply(marker, rest);
    } else {
        let tail = bodies.drop_first();
        let f = frame_bytes(REQUEST_ID, SERVERDATA_RESPONSE_VALUE, encode_utf8(bodies[0]));
        let after = fragments_bytes(tail) + m + rest;
        let b = fragments_bytes(bodies) + m + rest;
        assert(b =~= f + after);
        assert(fits(bodies[0]));
        lemma_round_trip(REQUEST_ID, SERVERDATA_RESPONSE_VALUE, bodies[0], after);
        assert(b.subrange(f.len() as int, b.len() as int) =~= after);
        assert forall|i: int| 0 <= i < tail.len() implies fits(#[trigger] tail[i]) by {
            assert(tail[i] == bodies[i + 1]);
        }
        lemma_fragments_reply(tail, marker, rest);
    }
}

} // verus!
