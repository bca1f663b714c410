//! Shared pieces of the format: the error type, the chunk tags and file
//! kinds, and the reading of NUL-terminated text.

use crate::support::bytes::be_u32;
use crate::support::reader::{run_before, ByteReader};
use std::string::FromUtf8Error;
use vstd::prelude::*;
use vstd::utf8::{decode_utf8, valid_utf8};

pub mod bytes;
pub mod mesh;
pub mod model;
pub mod reader;
pub mod resource;
pub mod tree;

verus! {

/// A corner of a mesh. Each coordinate is kept as the 32 bits that the
/// stream holds for it, an IEEE 754 single-precision number.
#[derive(Copy, Clone, Debug, Default, PartialEq, Eq)]
pub struct Vertex {
    pub position: [u32; 3],
    pub normal: [u32; 3],
    pub tex_coords: [u32; 2],
}

/// The vertex that the first twelve bytes of `s` hold: its position, with
/// nothing yet known of its normal and texture coordinate.
pub open spec fn vertex_at(s: Seq<u8>) -> Vertex
    recommends
        s.len() >= 12,
{
    Vertex {
        position: [be_u32(s), be_u32(s.skip(4)), be_u32(s.skip(8))],
        normal: [0u32, 0u32, 0u32],
        tex_coords: [0u32, 0u32],
    }
}

impl Vertex {
    /// Reads a vertex position: three numbers of four bytes each.
    pub fn load(rdr: &mut ByteReader) -> (r: Result<Vertex, Error>)
        ensures
            old(rdr)@.len() >= 12 ==> r == Ok::<Vertex, Error>(vertex_at(old(rdr)@)),
            old(rdr)@.len() >= 12 ==> final(rdr).follows(*old(rdr), 12),
            old(rdr)@.len() < 12 ==> r == Err::<Vertex, Error>(Error::IO),
            old(rdr)@.len() < 12 ==> final(rdr).follows(*old(rdr), 0),
    {
        assert(rdr@.skip(0) =~= rdr@);
        if rdr.remaining() < 12 {
            return Err(Error::IO);
        }
        let x: u32 = match rdr.read_u32() { Ok(v) => v, Err(e) => { return Err(e); } };
        assert(rdr@ =~= old(rdr)@.skip(4));
        let y: u32 = match rdr.read_u32() { Ok(v) => v, Err(e) => { return Err(e); } };
        assert(rdr@ =~= old(rdr)@.skip(8));
        let z: u32 = match rdr.read_u32() { Ok(v) => v, Err(e) => { return Err(e); } };
        assert(rdr@ =~= old(rdr)@.skip(12));
        Ok(Vertex { position: [x, y, z], normal: [0, 0, 0], tex_coords: [0, 0] })
    }
}

/// Why decoding stopped.
#[derive(Debug, Clone, Copy, PartialEq, Eq, Structural)]
pub enum Error {
    /// The bytes ended inside a record.
    IO,
    /// A text field is not UTF-8.
    FromUtf8,
    /// The record's tag has no decoder.
    UnsupportedChunk { tag: u32, size: u32 },
    /// The record is well formed but has no place in the kind of file
    /// that is being assembled.
    UnexpectedChunk { tag: u32 },
    /// The file header names another kind of file than the one asked for.
    InvalidFileType { file_type: u32 },
}

/// What one pass of a frame loop asks for.
#[derive(Debug, Clone, Copy, PartialEq, Eq, Structural)]
pub enum Action {
    Stop,
    Continue,
}

/// The length of a frame in nanoseconds: a sixtieth of a second.
pub const FRAME_NANOS: u64 = 16_666_667;

/// How a frame loop goes on after a pass: the time that is carried over
/// to the next pass and the time to sleep before it, in nanoseconds.
#[derive(Debug, Clone, Copy, PartialEq, Eq, Structural)]
pub struct Pace {
    pub accumulator: u64,
    pub sleep: u64,
}

/// The pace after a pass that took `elapsed` nanoseconds, with
/// `accumulator` nanoseconds carried over from the pass before: whole
/// frames are dropped from the sum of the two, what is left is carried
/// over, and the loop sleeps for the rest of the frame.
pub open spec fn pace_after(accumulator: u64, elapsed: u64) -> Pace {
    let left = (accumulator + elapsed) % (FRAME_NANOS as int);
    Pace { accumulator: left as u64, sleep: (FRAME_NANOS - left) as u64 }
}

/// What a frame loop does after a pass: it ends on `Stop`, and goes on at
/// the pace that the times give on `Continue`.
pub fn next_frame(action: Action, accumulator: u64, elapsed: u64) -> (r: Option<Pace>)
    ensures
        action == Action::Stop ==> r is None,
        action == Action::Continue ==> r == Some(pace_after(accumulator, elapsed)),
        r is Some ==> r.unwrap().accumulator < FRAME_NANOS && r.unwrap().accumulator
            + r.unwrap().sleep == FRAME_NANOS,
{
    match action {
        Action::Stop => None,
        Action::Continue => {
            let sum: u128 = accumulator as u128 + elapsed as u128;
            let left: u64 = (sum % (FRAME_NANOS as u128)) as u64;
            Some(Pace { accumulator: left, sleep: FRAME_NANOS - left })
        },
    }
}

pub const NULL_CHUNK: u32 = 0x0;
pub const PIXELMAP_HEADER_CHUNK: u32 = 0x3;
pub const MATERIAL_DESC_CHUNK: u32 = 0x4;
pub const FILE_HEADER_CHUNK: u32 = 0x12;
pub const MATERIAL_LIST_CHUNK: u32 = 0x16;
pub const VERTEX_LIST_CHUNK: u32 = 0x17;
pub const UVMAP_LIST_CHUNK: u32 = 0x18;
pub const FACE_MAT_LIST_CHUNK: u32 = 0x1a;
pub const PIXELMAP_REF_CHUNK: u32 = 0x1c;
pub const RENDERTAB_REF_CHUNK: u32 = 0x1f;
pub const PIXELMAP_DATA_CHUNK: u32 = 0x21;
pub const ACTOR_NAME_CHUNK: u32 = 0x23;
pub const UNKNOWN_25_CHUNK: u32 = 0x25;
pub const MESHFILE_REF_CHUNK: u32 = 0x24;
pub const MATERIAL_REF_CHUNK: u32 = 0x26;
pub const UNKNOWN_29_CHUNK: u32 = 0x29;
pub const UNKNOWN_2A_CHUNK: u32 = 0x2a;
pub const ACTOR_TRANSFORM_CHUNK: u32 = 0x2b;
pub const MAP_BOUNDINGBOX_CHUNK: u32 = 0x32;
pub const FACE_LIST_CHUNK: u32 = 0x35;
pub const FILE_NAME_CHUNK: u32 = 0x36;

pub const ACTOR_FILE_TYPE: u32 = 0x1;
pub const PIXELMAP_FILE_TYPE: u32 = 0x2;
pub const MATERIAL_FILE_TYPE: u32 = 0x5;
pub const MESH_FILE_TYPE: u32 = 0xface;

pub const MODEL_FILE_SUBTYPE: u32 = 0x3;

/// What `String::from_utf8` says of bytes that are not UTF-8. Opaque here.
#[verifier::external_type_specification]
#[verifier::external_body]
pub struct ExFromUtf8Error(FromUtf8Error);

/// `String::from_utf8` of std. Trusted: it accepts exactly the byte
/// sequences that are UTF-8, and the text it returns is their decoding.
pub assume_specification[ String::from_utf8 ](vec: Vec<u8>) -> (r: Result<String, FromUtf8Error>)
    ensures
        r is Ok <==> valid_utf8(vec@),
        r is Ok ==> r.unwrap()@ == decode_utf8(vec@),
;

/// The NUL-terminated text at the start of `s`, with the number of bytes
/// it takes up, terminator included. Where `s` holds no terminator the
/// bytes end too early; where the bytes in front of the terminator are
/// not UTF-8 they are no text.
pub open spec fn c_string(s: Seq<u8>) -> Result<(Seq<char>, nat), Error> {
    let n = run_before(s, 0);
    if n >= s.len() {
        Err(Error::IO)
    } else if !valid_utf8(s.take(n as int)) {
        Err(Error::FromUtf8)
    } else {
        Ok((decode_utf8(s.take(n as int)), n + 1))
    }
}

/// A text takes up at least its terminator and no more than there is.
pub proof fn lemma_c_string_size(s: Seq<u8>)
    ensures
        c_string(s) is Ok ==> 1 <= c_string(s).unwrap().1 <= s.len(),
{
}

/// How many bytes the reading of the text at the start of `s` passes:
/// the text and its terminator, whether or not the text is UTF-8, and
/// none where `s` holds no terminator.
pub open spec fn c_string_span(s: Seq<u8>) -> nat {
    if run_before(s, 0) < s.len() {
        run_before(s, 0) + 1
    } else {
        0
    }
}

/// Reads a NUL-terminated text. The terminator is read and left out of
/// the result. Text that is not UTF-8 is refused after it has been read:
/// the reader is then behind its terminator. Where the bytes end before a
/// terminator nothing is read.
pub fn read_c_string(reader: &mut ByteReader) -> (r: Result<String, Error>)
    ensures
        match c_string(old(reader)@) {
            Ok((text, size)) => r is Ok && r.unwrap()@ == text && size == c_string_span(
                old(reader)@,
            ),
            Err(e) => r == Err::<String, Error>(e),
        },
        final(reader).follows(*old(reader), c_string_span(old(reader)@)),
{
    let n: usize = match reader.find(0) {
        Some(n) => n,
        None => {
            proof {
                reader.lemma_follows_none(*old(reader));
            }
            return Err(Error::IO);
        },
    };
    let buf: Vec<u8> = match reader.read_bytes(n) {
        Ok(buf) => buf,
        Err(e) => { return Err(e); },
    };
    let ghost text_read = *reader;
    let _ = reader.read_u8();
    proof {
        reader.lemma_follows_twice(*old(reader), text_read, n as nat, 1);
    }
    match String::from_utf8(buf) {
        Ok(text) => Ok(text),
        Err(_) => Err(Error::FromUtf8),
    }
}

} // verus!
