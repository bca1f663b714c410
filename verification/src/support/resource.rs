//! The chunk decoder: one record of the stream at a time.
//!
//! A record is a tag of four bytes, a size of four bytes and a payload
//! whose layout the tag decides. All numbers are big-endian. The size is
//! carried along and decides nothing.
//!
//! A record is read whole or not at all. Whatever the error, a short
//! read, a tag without decoder or a text that is not UTF-8, the reader
//! is put back to where the record starts. That holds of a text inside a
//! record too, which `read_c_string` by itself would leave read.

use crate::support::bytes::{be_u16, be_u32};
use crate::support::mesh::{face_at, uv_at, Face, UvCoord};
use crate::support::reader::ByteReader;
use crate::support::{c_string, lemma_c_string_size, read_c_string, vertex_at, Error, Vertex};
use crate::support::{
    ACTOR_NAME_CHUNK, ACTOR_TRANSFORM_CHUNK, FACE_LIST_CHUNK, FACE_MAT_LIST_CHUNK,
    FILE_HEADER_CHUNK, FILE_NAME_CHUNK, MATERIAL_LIST_CHUNK, MATERIAL_REF_CHUNK,
    MESHFILE_REF_CHUNK, NULL_CHUNK, UNKNOWN_29_CHUNK, UNKNOWN_2A_CHUNK, UVMAP_LIST_CHUNK,
    VERTEX_LIST_CHUNK,
};
use vstd::prelude::*;

verus! {

/// One decoded record.
#[derive(Debug, Clone, PartialEq, Eq)]
pub enum Chunk {
    /// Opens a file and names its kind.
    FileHeader { file_type: u32 },
    FileName(String),
    VertexList(Vec<Vertex>),
    UvMapList(Vec<UvCoord>),
    FaceList(Vec<Face>),
    MaterialList(Vec<String>),
    /// For each face, in order, the index of its material.
    FaceMatList(Vec<u16>),
    ActorName { name: String, visible: bool },
    /// Twelve numbers, each kept as the 32 bits of an IEEE 754
    /// single-precision number: a 3x3 block, then an offset.
    ActorTransform([u32; 12]),
    MeshFileRef(String),
    MaterialRef(String),
    /// What follows hangs under the actor named last.
    ActorNodeDown(),
    /// What follows hangs one level higher again.
    ActorNodeUp(),
    /// Ends a mesh or an actor tree.
    Null(),
}

/// What a `Chunk` holds, as mathematical values.
pub enum ChunkView {
    FileHeader { file_type: u32 },
    FileName(Seq<char>),
    VertexList(Seq<Vertex>),
    UvMapList(Seq<UvCoord>),
    FaceList(Seq<Face>),
    MaterialList(Seq<Seq<char>>),
    FaceMatList(Seq<u16>),
    ActorName { name: Seq<char>, visible: bool },
    ActorTransform(Seq<u32>),
    MeshFileRef(Seq<char>),
    MaterialRef(Seq<char>),
    ActorNodeDown,
    ActorNodeUp,
    Null,
}

impl View for Chunk {
    type V = ChunkView;

    open spec fn view(&self) -> ChunkView {
        match *self {
            Chunk::FileHeader { file_type } => ChunkView::FileHeader { file_type },
            Chunk::FileName(s) => ChunkView::FileName(s@),
            Chunk::VertexList(v) => ChunkView::VertexList(v@),
            Chunk::UvMapList(v) => ChunkView::UvMapList(v@),
            Chunk::FaceList(v) => ChunkView::FaceList(v@),
            Chunk::MaterialList(v) => ChunkView::MaterialList(v.deep_view()),
            Chunk::FaceMatList(v) => ChunkView::FaceMatList(v@),
            Chunk::ActorName { name, visible } => ChunkView::ActorName { name: name@, visible },
            Chunk::ActorTransform(m) => ChunkView::ActorTransform(m@),
            Chunk::MeshFileRef(s) => ChunkView::MeshFileRef(s@),
            Chunk::MaterialRef(s) => ChunkView::MaterialRef(s@),
            Chunk::ActorNodeDown() => ChunkView::ActorNodeDown,
            Chunk::ActorNodeUp() => ChunkView::ActorNodeUp,
            Chunk::Null() => ChunkView::Null,
        }
    }
}

impl ChunkView {
    /// The tag under which the stream carries such a record.
    pub open spec fn tag(self) -> u32 {
        match self {
            ChunkView::FileHeader { .. } => FILE_HEADER_CHUNK,
            ChunkView::FileName(_) => FILE_NAME_CHUNK,
            ChunkView::VertexList(_) => VERTEX_LIST_CHUNK,
            ChunkView::UvMapList(_) => UVMAP_LIST_CHUNK,
            ChunkView::FaceList(_) => FACE_LIST_CHUNK,
            ChunkView::MaterialList(_) => MATERIAL_LIST_CHUNK,
            ChunkView::FaceMatList(_) => FACE_MAT_LIST_CHUNK,
            ChunkView::ActorName { .. } => ACTOR_NAME_CHUNK,
            ChunkView::ActorTransform(_) => ACTOR_TRANSFORM_CHUNK,
            ChunkView::MeshFileRef(_) => MESHFILE_REF_CHUNK,
            ChunkView::MaterialRef(_) => MATERIAL_REF_CHUNK,
            ChunkView::ActorNodeDown => UNKNOWN_29_CHUNK,
            ChunkView::ActorNodeUp => UNKNOWN_2A_CHUNK,
            ChunkView::Null => NULL_CHUNK,
        }
    }
}

/// The `n` vertices that stand one after another at the start of `s`.
pub open spec fn vertices_at(s: Seq<u8>, n: nat) -> Seq<Vertex> {
    Seq::new(n, |i: int| vertex_at(s.skip(12 * i)))
}

/// The `n` texture coordinates that stand one after another at the start
/// of `s`.
pub open spec fn uvs_at(s: Seq<u8>, n: nat) -> Seq<UvCoord> {
    Seq::new(n, |i: int| uv_at(s.skip(8 * i)))
}

/// The `n` faces that stand one after another at the start of `s`.
pub open spec fn faces_at(s: Seq<u8>, n: nat) -> Seq<Face> {
    Seq::new(n, |i: int| face_at(s.skip(9 * i)))
}

/// The `n` 16-bit numbers that stand one after another at the start of
/// `s`.
pub open spec fn shorts_at(s: Seq<u8>, n: nat) -> Seq<u16> {
    Seq::new(n, |i: int| be_u16(s.skip(2 * i)))
}

/// The `n` 32-bit numbers that stand one after another at the start of
/// `s`.
pub open spec fn words_at(s: Seq<u8>, n: nat) -> Seq<u32> {
    Seq::new(n, |i: int| be_u32(s.skip(4 * i)))
}

/// The `n` NUL-terminated texts that stand one after another at the start
/// of `s`, with the number of bytes they take up together; or what is
/// wrong with the first of them that cannot be read.
pub open spec fn texts_at(s: Seq<u8>, n: nat) -> Result<(Seq<Seq<char>>, nat), Error>
    decreases n,
{
    if n == 0 {
        Ok((Seq::empty(), 0))
    } else {
        match texts_at(s, (n - 1) as nat) {
            Err(e) => Err(e),
            Ok((texts, size)) => match c_string(s.skip(size as int)) {
                Err(e) => Err(e),
                Ok((text, k)) => Ok((texts.push(text), size + k)),
            },
        }
    }
}

/// The payload of a record with the given tag and size that starts at
/// the start of `p`, with the number of bytes it takes up; or why there
/// is none.
pub open spec fn payload_at(tag: u32, size: u32, p: Seq<u8>) -> Result<(ChunkView, nat), Error> {
    if tag == NULL_CHUNK {
        Ok((ChunkView::Null, 0))
    } else if tag == UNKNOWN_29_CHUNK {
        Ok((ChunkView::ActorNodeDown, 0))
    } else if tag == UNKNOWN_2A_CHUNK {
        Ok((ChunkView::ActorNodeUp, 0))
    } else if tag == FILE_HEADER_CHUNK {
        // The kind of file, then a word that is passed over.
        if p.len() < 8 {
            Err(Error::IO)
        } else {
            Ok((ChunkView::FileHeader { file_type: be_u32(p) }, 8))
        }
    } else if tag == FILE_NAME_CHUNK {
        // Two bytes that are passed over, then the name.
        if p.len() < 2 {
            Err(Error::IO)
        } else {
            match c_string(p.skip(2)) {
                Err(e) => Err(e),
                Ok((name, k)) => Ok((ChunkView::FileName(name), 2 + k)),
            }
        }
    } else if tag == ACTOR_NAME_CHUNK {
        // A byte that is 1 for a visible actor, a byte that is passed
        // over, then the name.
        if p.len() < 2 {
            Err(Error::IO)
        } else {
            match c_string(p.skip(2)) {
                Err(e) => Err(e),
                Ok((name, k)) => Ok((ChunkView::ActorName { name, visible: p[0] == 1 }, 2 + k)),
            }
        }
    } else if tag == MESHFILE_REF_CHUNK {
        match c_string(p) {
            Err(e) => Err(e),
            Ok((name, k)) => Ok((ChunkView::MeshFileRef(name), k)),
        }
    } else if tag == MATERIAL_REF_CHUNK {
        match c_string(p) {
            Err(e) => Err(e),
            Ok((name, k)) => Ok((ChunkView::MaterialRef(name), k)),
        }
    } else if tag == ACTOR_TRANSFORM_CHUNK {
        if p.len() < 48 {
            Err(Error::IO)
        } else {
            Ok((ChunkView::ActorTransform(words_at(p, 12)), 48))
        }
    } else if tag == VERTEX_LIST_CHUNK {
        // A count, then so many vertices.
        if p.len() < 4 || p.len() - 4 < 12 * be_u32(p) {
            Err(Error::IO)
        } else {
            let n = be_u32(p) as nat;
            Ok((ChunkView::VertexList(vertices_at(p.skip(4), n)), 4 + 12 * n))
        }
    } else if tag == UVMAP_LIST_CHUNK {
        if p.len() < 4 || p.len() - 4 < 8 * be_u32(p) {
            Err(Error::IO)
        } else {
            let n = be_u32(p) as nat;
            Ok((ChunkView::UvMapList(uvs_at(p.skip(4), n)), 4 + 8 * n))
        }
    } else if tag == FACE_LIST_CHUNK {
        if p.len() < 4 || p.len() - 4 < 9 * be_u32(p) {
            Err(Error::IO)
        } else {
            let n = be_u32(p) as nat;
            Ok((ChunkView::FaceList(faces_at(p.skip(4), n)), 4 + 9 * n))
        }
    } else if tag == FACE_MAT_LIST_CHUNK {
        // A count, a word that is passed over, then so many indices.
        if p.len() < 8 || p.len() - 8 < 2 * be_u32(p) {
            Err(Error::IO)
        } else {
            let n = be_u32(p) as nat;
            Ok((ChunkView::FaceMatList(shorts_at(p.skip(8), n)), 8 + 2 * n))
        }
    } else if tag == MATERIAL_LIST_CHUNK {
        // A count, then so many names.
        if p.len() < 4 {
            Err(Error::IO)
        } else {
            match texts_at(p.skip(4), be_u32(p) as nat) {
                Err(e) => Err(e),
                Ok((names, k)) => Ok((ChunkView::MaterialList(names), 4 + k)),
            }
        }
    } else {
        Err(Error::UnsupportedChunk { tag, size })
    }
}

/// Whether records with this tag have a decoder.
pub open spec fn is_decoded_tag(tag: u32) -> bool {
    ||| tag == NULL_CHUNK
    ||| tag == FILE_HEADER_CHUNK
    ||| tag == FILE_NAME_CHUNK
    ||| tag == VERTEX_LIST_CHUNK
    ||| tag == UVMAP_LIST_CHUNK
    ||| tag == FACE_LIST_CHUNK
    ||| tag == MATERIAL_LIST_CHUNK
    ||| tag == FACE_MAT_LIST_CHUNK
    ||| tag == ACTOR_NAME_CHUNK
    ||| tag == ACTOR_TRANSFORM_CHUNK
    ||| tag == MESHFILE_REF_CHUNK
    ||| tag == MATERIAL_REF_CHUNK
    ||| tag == UNKNOWN_29_CHUNK
    ||| tag == UNKNOWN_2A_CHUNK
}

/// The record at the start of `s`, with the number of bytes it takes up;
/// or why there is none.
pub open spec fn chunk_at(s: Seq<u8>) -> Result<(ChunkView, nat), Error> {
    if s.len() < 8 {
        Err(Error::IO)
    } else {
        match payload_at(be_u32(s), be_u32(s.skip(4)), s.skip(8)) {
            Err(e) => Err(e),
            Ok((chunk, k)) => Ok((chunk, 8 + k)),
        }
    }
}

/// An error among the first texts is the error of any longer run of
/// them.
pub proof fn lemma_texts_at_err(s: Seq<u8>, m: nat, n: nat)
    requires
        m <= n,
        texts_at(s, m) is Err,
    ensures
        texts_at(s, n) == texts_at(s, m),
    decreases n,
{
    if m < n {
        lemma_texts_at_err(s, m, (n - 1) as nat);
    }
}

/// A run of texts takes up no more than there is.
pub proof fn lemma_texts_at_size(s: Seq<u8>, n: nat)
    ensures
        texts_at(s, n) is Ok ==> texts_at(s, n).unwrap().1 <= s.len(),
        texts_at(s, n) is Ok ==> texts_at(s, n).unwrap().0.len() == n,
    decreases n,
{
    if n > 0 {
        lemma_texts_at_size(s, (n - 1) as nat);
        if texts_at(s, (n - 1) as nat) is Ok {
            let size = texts_at(s, (n - 1) as nat).unwrap().1;
            lemma_c_string_size(s.skip(size as int));
        }
    }
}

/// A record takes up its tag and size at least, and no more than there
/// is.
pub proof fn lemma_chunk_at_size(s: Seq<u8>)
    ensures
        chunk_at(s) is Ok ==> 8 <= chunk_at(s).unwrap().1 <= s.len(),
{
    if s.len() >= 8 {
        let tag = be_u32(s);
        let p = s.skip(8);
        lemma_c_string_size(p);
        if p.len() >= 2 {
            lemma_c_string_size(p.skip(2));
        }
        if p.len() >= 4 {
            lemma_texts_at_size(p.skip(4), be_u32(p) as nat);
        }
    }
}

/// A record whose tag has no decoder is refused, whatever its size says
/// and whatever follows it; every other error comes from a record whose
/// tag has one.
pub proof fn lemma_undecoded_tag_refused(s: Seq<u8>)
    requires
        s.len() >= 8,
    ensures
        !is_decoded_tag(be_u32(s)) <==> chunk_at(s) == Err::<(ChunkView, nat), Error>(
            Error::UnsupportedChunk { tag: be_u32(s), size: be_u32(s.skip(4)) },
        ),
        chunk_at(s) is Ok ==> chunk_at(s)->Ok_0.0.tag() == be_u32(s),
{
    let p = s.skip(8);
    lemma_c_string_kinds(p);
    lemma_c_string_kinds(p.skip(2));
    lemma_texts_at_kinds(p.skip(4), be_u32(p) as nat);
}

/// A text fails for want of a terminator or of UTF-8, and for nothing
/// else.
pub proof fn lemma_c_string_kinds(s: Seq<u8>)
    ensures
        c_string(s) is Err ==> c_string(s)->Err_0 == Error::IO || c_string(s)->Err_0
            == Error::FromUtf8,
{
}

/// A run of texts fails as a text does.
pub proof fn lemma_texts_at_kinds(s: Seq<u8>, n: nat)
    ensures
        texts_at(s, n) is Err ==> texts_at(s, n)->Err_0 == Error::IO || texts_at(s, n)->Err_0
            == Error::FromUtf8,
    decreases n,
{
    if n > 0 {
        lemma_texts_at_kinds(s, (n - 1) as nat);
        if let Ok((texts, size)) = texts_at(s, (n - 1) as nat) {
            lemma_c_string_kinds(s.skip(size as int));
        }
    }
}

/// Whether `count` items of `width` bytes each are still to be read.
fn holds(rdr: &ByteReader, count: u32, width: u64) -> (b: bool)
    requires
        width <= 16,
    ensures
        b == (rdr@.len() >= count * width),
{
    assert(count * width <= 0xffff_ffff * 16) by (nonlinear_arith)
        requires
            count <= 0xffff_ffff,
            width <= 16,
    ;
    rdr.remaining() as u64 >= count as u64 * width
}

fn read_vertices(rdr: &mut ByteReader, n: u32) -> (r: Result<Vec<Vertex>, Error>)
    ensures
        final(rdr).source() == old(rdr).source(),
        old(rdr)@.len() >= 12 * n ==> r is Ok && r.unwrap()@ == vertices_at(old(rdr)@, n as nat),
        old(rdr)@.len() >= 12 * n ==> final(rdr).follows(*old(rdr), 12 * n as nat),
        old(rdr)@.len() < 12 * n ==> r == Err::<Vec<Vertex>, Error>(Error::IO),
{
    if !holds(rdr, n, 12) {
        return Err(Error::IO);
    }
    let ghost before = *rdr;
    let mut out: Vec<Vertex> = Vec::new();
    let mut i: u32 = 0;
    assert(rdr@ =~= before@.skip(0));
    while i < n
        invariant
            i <= n,
            before@.len() >= 12 * n,
            rdr.follows(before, 12 * i as nat),
            out@ == vertices_at(before@, i as nat),
        decreases n - i,
    {
        let ghost here = *rdr;
        let v: Vertex = match Vertex::load(rdr) {
            Ok(v) => v,
            Err(e) => { return Err(e); },
        };
        out.push(v);
        i = i + 1;
        proof {
            rdr.lemma_follows_twice(before, here, (12 * (i - 1)) as nat, 12);
            assert(out@ =~= vertices_at(before@, i as nat));
        }
    }
    Ok(out)
}

fn read_uvs(rdr: &mut ByteReader, n: u32) -> (r: Result<Vec<UvCoord>, Error>)
    ensures
        final(rdr).source() == old(rdr).source(),
        old(rdr)@.len() >= 8 * n ==> r is Ok && r.unwrap()@ == uvs_at(old(rdr)@, n as nat),
        old(rdr)@.len() >= 8 * n ==> final(rdr).follows(*old(rdr), 8 * n as nat),
        old(rdr)@.len() < 8 * n ==> r == Err::<Vec<UvCoord>, Error>(Error::IO),
{
    if !holds(rdr, n, 8) {
        return Err(Error::IO);
    }
    let ghost before = *rdr;
    let mut out: Vec<UvCoord> = Vec::new();
    let mut i: u32 = 0;
    assert(rdr@ =~= before@.skip(0));
    while i < n
        invariant
            i <= n,
            before@.len() >= 8 * n,
            rdr.follows(before, 8 * i as nat),
            out@ == uvs_at(before@, i as nat),
        decreases n - i,
    {
        let ghost here = *rdr;
        let v: UvCoord = match UvCoord::load(rdr) {
            Ok(v) => v,
            Err(e) => { return Err(e); },
        };
        out.push(v);
        i = i + 1;
        proof {
            rdr.lemma_follows_twice(before, here, (8 * (i - 1)) as nat, 8);
            assert(out@ =~= uvs_at(before@, i as nat));
        }
    }
    Ok(out)
}

fn read_faces(rdr: &mut ByteReader, n: u32) -> (r: Result<Vec<Face>, Error>)
    ensures
        final(rdr).source() == old(rdr).source(),
        old(rdr)@.len() >= 9 * n ==> r is Ok && r.unwrap()@ == faces_at(old(rdr)@, n as nat),
        old(rdr)@.len() >= 9 * n ==> final(rdr).follows(*old(rdr), 9 * n as nat),
        old(rdr)@.len() < 9 * n ==> r == Err::<Vec<Face>, Error>(Error::IO),
{
    if !holds(rdr, n, 9) {
        return Err(Error::IO);
    }
    let ghost before = *rdr;
    let mut out: Vec<Face> = Vec::new();
    let mut i: u32 = 0;
    assert(rdr@ =~= before@.skip(0));
    while i < n
        invariant
            i <= n,
            before@.len() >= 9 * n,
            rdr.follows(before, 9 * i as nat),
            out@ == faces_at(before@, i as nat),
        decreases n - i,
    {
        let ghost here = *rdr;
        let v: Face = match Face::load(rdr) {
            Ok(v) => v,
            Err(e) => { return Err(e); },
        };
        out.push(v);
        i = i + 1;
        proof {
            rdr.lemma_follows_twice(before, here, (9 * (i - 1)) as nat, 9);
            assert(out@ =~= faces_at(before@, i as nat));
        }
    }
    Ok(out)
}

fn read_shorts(rdr: &mut ByteReader, n: u32) -> (r: Result<Vec<u16>, Error>)
    ensures
        final(rdr).source() == old(rdr).source(),
        old(rdr)@.len() >= 2 * n ==> r is Ok && r.unwrap()@ == shorts_at(old(rdr)@, n as nat),
        old(rdr)@.len() >= 2 * n ==> final(rdr).follows(*old(rdr), 2 * n as nat),
        old(rdr)@.len() < 2 * n ==> r == Err::<Vec<u16>, Error>(Error::IO),
{
    if !holds(rdr, n, 2) {
        return Err(Error::IO);
    }
    let ghost before = *rdr;
    let mut out: Vec<u16> = Vec::new();
    let mut i: u32 = 0;
    assert(rdr@ =~= before@.skip(0));
    while i < n
        invariant
            i <= n,
            before@.len() >= 2 * n,
            rdr.follows(before, 2 * i as nat),
            out@ == shorts_at(before@, i as nat),
        decreases n - i,
    {
        let ghost here = *rdr;
        let v: u16 = match rdr.read_u16() {
            Ok(v) => v,
            Err(e) => { return Err(e); },
        };
        out.push(v);
        i = i + 1;
        proof {
            rdr.lemma_follows_twice(before, here, (2 * (i - 1)) as nat, 2);
            assert(out@ =~= shorts_at(before@, i as nat));
        }
    }
    Ok(out)
}

fn read_transform(rdr: &mut ByteReader) -> (r: Result<[u32; 12], Error>)
    ensures
        final(rdr).source() == old(rdr).source(),
        old(rdr)@.len() >= 48 ==> r is Ok && r.unwrap()@ == words_at(old(rdr)@, 12),
        old(rdr)@.len() >= 48 ==> final(rdr).follows(*old(rdr), 48),
        old(rdr)@.len() < 48 ==> r == Err::<[u32; 12], Error>(Error::IO),
{
    if !holds(rdr, 12, 4) {
        return Err(Error::IO);
    }
    let ghost before = *rdr;
    let mut out: [u32; 12] = [0;12];
    let mut i: usize = 0;
    assert(rdr@ =~= before@.skip(0));
    while i < 12
        invariant
            i <= 12,
            before@.len() >= 48,
            rdr.follows(before, 4 * i as nat),
            forall|j: int| 0 <= j < i ==> out@[j] == be_u32(before@.skip(4 * j)),
        decreases 12 - i,
    {
        let ghost here = *rdr;
        let v: u32 = match rdr.read_u32() {
            Ok(v) => v,
            Err(e) => { return Err(e); },
        };
        out[i] = v;
        i = i + 1;
        proof {
            rdr.lemma_follows_twice(before, here, (4 * (i - 1)) as nat, 4);
        }
    }
    assert(out@ =~= words_at(before@, 12));
    Ok(out)
}

fn read_texts(rdr: &mut ByteReader, n: u32) -> (r: Result<Vec<String>, Error>)
    ensures
        final(rdr).source() == old(rdr).source(),
        match texts_at(old(rdr)@, n as nat) {
            Ok((texts, size)) => r is Ok && r.unwrap().deep_view() == texts && final(rdr).follows(
                *old(rdr),
                size,
            ),
            Err(e) => r == Err::<Vec<String>, Error>(e),
        },
{
    let ghost before = *rdr;
    let ghost mut size: nat = 0;
    let mut out: Vec<String> = Vec::new();
    let mut i: u32 = 0;
    assert(rdr@ =~= before@.skip(0));
    assert(out.deep_view() =~= Seq::<Seq<char>>::empty());
    while i < n
        invariant
            i <= n,
            before == *old(rdr),
            rdr.follows(before, size),
            texts_at(before@, i as nat) == Ok::<(Seq<Seq<char>>, nat), Error>(
                (out.deep_view(), size),
            ),
        decreases n - i,
    {
        let ghost here = *rdr;
        let ghost texts = out.deep_view();
        match read_c_string(rdr) {
            Ok(text) => {
                proof {
                    let k = c_string(here@).unwrap().1;
                    rdr.lemma_follows_twice(before, here, size, k);
                    size = size + k;
                }
                out.push(text);
                assert(out.deep_view() =~= texts.push(text@));
            },
            Err(e) => {
                proof {
                    lemma_texts_at_err(before@, (i + 1) as nat, n as nat);
                }
                return Err(e);
            },
        }
        i = i + 1;
    }
    Ok(out)
}

impl Chunk {
    /// The tag under which the stream carries this record.
    pub fn tag(&self) -> (t: u32)
        ensures
            t == self@.tag(),
    {
        match self {
            Chunk::FileHeader { .. } => FILE_HEADER_CHUNK,
            Chunk::FileName(_) => FILE_NAME_CHUNK,
            Chunk::VertexList(_) => VERTEX_LIST_CHUNK,
            Chunk::UvMapList(_) => UVMAP_LIST_CHUNK,
            Chunk::FaceList(_) => FACE_LIST_CHUNK,
            Chunk::MaterialList(_) => MATERIAL_LIST_CHUNK,
            Chunk::FaceMatList(_) => FACE_MAT_LIST_CHUNK,
            Chunk::ActorName { .. } => ACTOR_NAME_CHUNK,
            Chunk::ActorTransform(_) => ACTOR_TRANSFORM_CHUNK,
            Chunk::MeshFileRef(_) => MESHFILE_REF_CHUNK,
            Chunk::MaterialRef(_) => MATERIAL_REF_CHUNK,
            Chunk::ActorNodeDown() => UNKNOWN_29_CHUNK,
            Chunk::ActorNodeUp() => UNKNOWN_2A_CHUNK,
            Chunk::Null() => NULL_CHUNK,
        }
    }

    /// Decodes the record at the read position. On an error, a text
    /// that is not UTF-8 included, the reader is put back to the start of
    /// the record.
    pub fn load(rdr: &mut ByteReader) -> (r: Result<Chunk, Error>)
        ensures
            match chunk_at(old(rdr)@) {
                Ok((chunk, size)) => r is Ok && r.unwrap()@ == chunk && final(rdr).follows(
                    *old(rdr),
                    size,
                ),
                Err(e) => r == Err::<Chunk, Error>(e) && final(rdr).follows(*old(rdr), 0),
            },
    {
        let start: usize = rdr.position();
        assert(rdr@.skip(0) =~= rdr@);
        if rdr.remaining() < 8 {
            return Err(Error::IO);
        }
        let tag: u32 = match rdr.read_u32() {
            Ok(v) => v,
            Err(e) => { return Err(e); },
        };
        let ghost after_tag = *rdr;
        let size: u32 = match rdr.read_u32() {
            Ok(v) => v,
            Err(e) => { return Err(e); },
        };
        let ghost head = *rdr;
        proof {
            head.lemma_follows_twice(*old(rdr), after_tag, 4, 4);
        }
        match Chunk::load_payload(rdr, tag, size) {
            Ok(chunk) => {
                proof {
                    let k = payload_at(tag, size, head@).unwrap().1;
                    rdr.lemma_follows_twice(*old(rdr), head, 8, k);
                }
                Ok(chunk)
            },
            Err(e) => {
                rdr.seek(start);
                Err(e)
            },
        }
    }

    /// Decodes the payload of a record whose tag and size have been read.
    fn load_payload(rdr: &mut ByteReader, tag: u32, size: u32) -> (r: Result<Chunk, Error>)
        ensures
            final(rdr).source() == old(rdr).source(),
            match payload_at(tag, size, old(rdr)@) {
                Ok((chunk, k)) => r is Ok && r.unwrap()@ == chunk && final(rdr).follows(
                    *old(rdr),
                    k,
                ),
                Err(e) => r == Err::<Chunk, Error>(e),
            },
    {
        assert(rdr@.skip(0) =~= rdr@);
        if tag == NULL_CHUNK {
            Ok(Chunk::Null())
        } else if tag == UNKNOWN_29_CHUNK {
            Ok(Chunk::ActorNodeDown())
        } else if tag == UNKNOWN_2A_CHUNK {
            Ok(Chunk::ActorNodeUp())
        } else if tag == FILE_HEADER_CHUNK {
            if rdr.remaining() < 8 {
                return Err(Error::IO);
            }
            let file_type: u32 = match rdr.read_u32() {
                Ok(v) => v,
                Err(e) => { return Err(e); },
            };
            let ghost mid = *rdr;
            let _ = rdr.read_u32();
            proof {
                rdr.lemma_follows_twice(*old(rdr), mid, 4, 4);
            }
            Ok(Chunk::FileHeader { file_type })
        } else if tag == FILE_NAME_CHUNK {
            match Chunk::load_name(rdr) {
                Ok((_, name)) => Ok(Chunk::FileName(name)),
                Err(e) => Err(e),
            }
        } else if tag == ACTOR_NAME_CHUNK {
            match Chunk::load_name(rdr) {
                Ok((flag, name)) => Ok(Chunk::ActorName { name, visible: flag == 1 }),
                Err(e) => Err(e),
            }
        } else if tag == MESHFILE_REF_CHUNK {
            match read_c_string(rdr) {
                Ok(name) => Ok(Chunk::MeshFileRef(name)),
                Err(e) => Err(e),
            }
        } else if tag == MATERIAL_REF_CHUNK {
            match read_c_string(rdr) {
                Ok(name) => Ok(Chunk::MaterialRef(name)),
                Err(e) => Err(e),
            }
        } else if tag == ACTOR_TRANSFORM_CHUNK {
            match read_transform(rdr) {
                Ok(m) => Ok(Chunk::ActorTransform(m)),
                Err(e) => Err(e),
            }
        } else if tag == VERTEX_LIST_CHUNK {
            let n: u32 = match rdr.read_u32() {
                Ok(v) => v,
                Err(e) => { return Err(e); },
            };
            let ghost mid = *rdr;
            match read_vertices(rdr, n) {
                Ok(list) => {
                    proof {
                        rdr.lemma_follows_twice(*old(rdr), mid, 4, 12 * n as nat);
                    }
                    Ok(Chunk::VertexList(list))
                },
                Err(e) => Err(e),
            }
        } else if tag == UVMAP_LIST_CHUNK {
            let n: u32 = match rdr.read_u32() {
                Ok(v) => v,
                Err(e) => { return Err(e); },
            };
            let ghost mid = *rdr;
            match read_uvs(rdr, n) {
                Ok(list) => {
                    proof {
                        rdr.lemma_follows_twice(*old(rdr), mid, 4, 8 * n as nat);
                    }
                    Ok(Chunk::UvMapList(list))
                },
                Err(e) => Err(e),
            }
        } else if tag == FACE_LIST_CHUNK {
            let n: u32 = match rdr.read_u32() {
                Ok(v) => v,
                Err(e) => { return Err(e); },
            };
            let ghost mid = *rdr;
            match read_faces(rdr, n) {
                Ok(list) => {
                    proof {
                        rdr.lemma_follows_twice(*old(rdr), mid, 4, 9 * n as nat);
                    }
                    Ok(Chunk::FaceList(list))
                },
                Err(e) => Err(e),
            }
        } else if tag == FACE_MAT_LIST_CHUNK {
            if rdr.remaining() < 8 {
                return Err(Error::IO);
            }
            let n: u32 = match rdr.read_u32() {
                Ok(v) => v,
                Err(e) => { return Err(e); },
            };
            let ghost after_count = *rdr;
            let _ = rdr.read_u32();
            let ghost mid = *rdr;
            proof {
                mid.lemma_follows_twice(*old(rdr), after_count, 4, 4);
            }
            match read_shorts(rdr, n) {
                Ok(list) => {
                    proof {
                        rdr.lemma_follows_twice(*old(rdr), mid, 8, 2 * n as nat);
                    }
                    Ok(Chunk::FaceMatList(list))
                },
                Err(e) => Err(e),
            }
        } else if tag == MATERIAL_LIST_CHUNK {
            let n: u32 = match rdr.read_u32() {
                Ok(v) => v,
                Err(e) => { return Err(e); },
            };
            let ghost mid = *rdr;
            match read_texts(rdr, n) {
                Ok(list) => {
                    proof {
                        let k = texts_at(mid@, n as nat).unwrap().1;
                        rdr.lemma_follows_twice(*old(rdr), mid, 4, k);
                    }
                    Ok(Chunk::MaterialList(list))
                },
                Err(e) => Err(e),
            }
        } else {
            Err(Error::UnsupportedChunk { tag, size })
        }
    }

    /// Reads the two bytes in front of a name, then the name, and returns
    /// the first of the two bytes with it.
    fn load_name(rdr: &mut ByteReader) -> (r: Result<(u8, String), Error>)
        ensures
            final(rdr).source() == old(rdr).source(),
            old(rdr)@.len() < 2 ==> r == Err::<(u8, String), Error>(Error::IO),
            old(rdr)@.len() >= 2 ==> match c_string(old(rdr)@.skip(2)) {
                Ok((name, k)) => r is Ok && r.unwrap().0 == old(rdr)@[0] && r.unwrap().1@ == name
                    && final(rdr).follows(*old(rdr), 2 + k),
                Err(e) => r == Err::<(u8, String), Error>(e),
            },
    {
        if rdr.remaining() < 2 {
            return Err(Error::IO);
        }
        let flag: u8 = match rdr.read_u8() {
            Ok(v) => v,
            Err(e) => { return Err(e); },
        };
        let ghost after_flag = *rdr;
        let _ = rdr.read_u8();
        let ghost mid = *rdr;
        proof {
            mid.lemma_follows_twice(*old(rdr), after_flag, 1, 1);
        }
        match read_c_string(rdr) {
            Ok(name) => {
                proof {
                    let k = c_string(mid@).unwrap().1;
                    rdr.lemma_follows_twice(*old(rdr), mid, 2, k);
                }
                Ok((flag, name))
            },
            Err(e) => Err(e),
        }
    }
}

} // verus!
