//! Meshes: vertices, texture coordinates, faces and material names.

use crate::support::bytes::{be_u16, be_u32};
use crate::support::reader::ByteReader;
use crate::support::resource::{
    chunk_at, is_decoded_tag, lemma_chunk_at_size, lemma_undecoded_tag_refused, Chunk, ChunkView,
};
use crate::support::{Error, Vertex, MESH_FILE_TYPE};
use vstd::prelude::*;

verus! {

/// A texture coordinate, each half kept as the 32 bits of an IEEE 754
/// single-precision number.
#[derive(Copy, Clone, Debug, Default, PartialEq, Eq)]
pub struct UvCoord {
    pub u: u32,
    pub v: u32,
}

/// The texture coordinate that the first eight bytes of `s` hold.
pub open spec fn uv_at(s: Seq<u8>) -> UvCoord
    recommends
        s.len() >= 8,
{
    UvCoord { u: be_u32(s), v: be_u32(s.skip(4)) }
}

impl UvCoord {
    /// Reads a texture coordinate: two numbers of four bytes each.
    pub fn load(rdr: &mut ByteReader) -> (r: Result<UvCoord, Error>)
        ensures
            old(rdr)@.len() >= 8 ==> r == Ok::<UvCoord, Error>(uv_at(old(rdr)@)),
            old(rdr)@.len() >= 8 ==> final(rdr).follows(*old(rdr), 8),
            old(rdr)@.len() < 8 ==> r == Err::<UvCoord, Error>(Error::IO),
            old(rdr)@.len() < 8 ==> final(rdr).follows(*old(rdr), 0),
    {
        assert(rdr@.skip(0) =~= rdr@);
        if rdr.remaining() < 8 {
            return Err(Error::IO);
        }
        let u: u32 = match rdr.read_u32() { Ok(v) => v, Err(e) => { return Err(e); } };
        assert(rdr@ =~= old(rdr)@.skip(4));
        let v: u32 = match rdr.read_u32() { Ok(v) => v, Err(e) => { return Err(e); } };
        assert(rdr@ =~= old(rdr)@.skip(8));
        Ok(UvCoord { u, v })
    }
}

/// A triangle: three indices into the mesh's vertices, the flags the
/// stream gives it, and the index of its material among the mesh's
/// material names.
#[derive(Copy, Clone, Debug, Default, PartialEq, Eq)]
pub struct Face {
    pub v1: u16,
    pub v2: u16,
    pub v3: u16,
    pub flags: u16,
    pub material_id: u16,
}

/// The face that the first nine bytes of `s` hold; the ninth byte says
/// nothing that is kept. Its material is 0 until one is assigned.
pub open spec fn face_at(s: Seq<u8>) -> Face
    recommends
        s.len() >= 9,
{
    Face {
        v1: be_u16(s),
        v2: be_u16(s.skip(2)),
        v3: be_u16(s.skip(4)),
        flags: be_u16(s.skip(6)),
        material_id: 0,
    }
}

impl Face {
    /// Reads a face: four numbers of two bytes each, and one byte more.
    pub fn load(rdr: &mut ByteReader) -> (r: Result<Face, Error>)
        ensures
            old(rdr)@.len() >= 9 ==> r == Ok::<Face, Error>(face_at(old(rdr)@)),
            old(rdr)@.len() >= 9 ==> final(rdr).follows(*old(rdr), 9),
            old(rdr)@.len() < 9 ==> r == Err::<Face, Error>(Error::IO),
            old(rdr)@.len() < 9 ==> final(rdr).follows(*old(rdr), 0),
    {
        assert(rdr@.skip(0) =~= rdr@);
        if rdr.remaining() < 9 {
            return Err(Error::IO);
        }
        let v1: u16 = match rdr.read_u16() { Ok(v) => v, Err(e) => { return Err(e); } };
        assert(rdr@ =~= old(rdr)@.skip(2));
        let v2: u16 = match rdr.read_u16() { Ok(v) => v, Err(e) => { return Err(e); } };
        assert(rdr@ =~= old(rdr)@.skip(4));
        let v3: u16 = match rdr.read_u16() { Ok(v) => v, Err(e) => { return Err(e); } };
        assert(rdr@ =~= old(rdr)@.skip(6));
        let flags: u16 = match rdr.read_u16() { Ok(v) => v, Err(e) => { return Err(e); } };
        assert(rdr@ =~= old(rdr)@.skip(8));
        match rdr.read_u8() { Ok(_) => {}, Err(e) => { return Err(e); } };
        assert(rdr@ =~= old(rdr)@.skip(9));
        Ok(Face { v1, v2, v3, flags, material_id: 0 })
    }
}

/// `faces` with the material of each taken from `ids`, position by
/// position, where there is one index for every face; `faces` as they
/// are where there is not.
pub open spec fn with_materials(faces: Seq<Face>, ids: Seq<u16>) -> Seq<Face> {
    if ids.len() == faces.len() {
        Seq::new(faces.len(), |i: int| Face { material_id: ids[i], ..faces[i] })
    } else {
        faces
    }
}

impl Face {
    /// Whether the face has vertex `v` as a corner.
    pub open spec fn touches(self, v: int) -> bool {
        self.v1 == v || self.v2 == v || self.v3 == v
    }

    /// Whether each corner is one of `n` vertices.
    pub open spec fn within(self, n: nat) -> bool {
        self.v1 < n && self.v2 < n && self.v3 < n
    }
}

/// The normal that vertex `v` takes from the normals of `faces`: that of
/// the last face with `v` as a corner, and zero where no face has it.
pub open spec fn vertex_normal(
    faces: Seq<Face>,
    face_normals: Seq<(u32, u32, u32)>,
    v: int,
) -> (u32, u32, u32)
    decreases faces.len(),
{
    if faces.len() == 0 {
        (0u32, 0u32, 0u32)
    } else if faces.last().touches(v) {
        face_normals[faces.len() - 1]
    } else {
        vertex_normal(faces.drop_last(), face_normals, v)
    }
}

/// Where the first of `faces` stands that has a corner outside the `n`
/// vertices; `faces.len()` where there is none.
pub open spec fn first_outside(faces: Seq<Face>, n: nat) -> nat
    decreases faces.len(),
{
    if faces.len() == 0 || !faces[0].within(n) {
        0
    } else {
        1 + first_outside(faces.skip(1), n)
    }
}

/// `first_outside(faces, n)` is the one position at which `faces` end or
/// hold a face outside the `n` vertices with none in front of it.
pub proof fn lemma_first_outside(faces: Seq<Face>, n: nat, k: int)
    requires
        0 <= k <= faces.len(),
        forall|j: int| 0 <= j < k ==> faces[j].within(n),
        k < faces.len() ==> !faces[k].within(n),
    ensures
        first_outside(faces, n) == k,
    decreases faces.len(),
{
    if k > 0 {
        let rest = faces.skip(1);
        assert forall|j: int| 0 <= j < k - 1 implies rest[j].within(n) by {
            assert(rest[j] == faces[j + 1]);
        }
        lemma_first_outside(rest, n, k - 1);
    }
}

/// A mesh: its name, its vertices with a normal for each, its texture
/// coordinates, its faces and the names of its materials.
#[derive(Debug, Clone, PartialEq, Eq)]
pub struct Mesh {
    pub name: String,
    pub vertices: Vec<Vertex>,
    /// One normal for each vertex once `calc_normals` has run; each
    /// component is kept as the 32 bits of an IEEE 754 single-precision
    /// number.
    pub normals: Vec<(u32, u32, u32)>,
    pub uvcoords: Vec<UvCoord>,
    pub faces: Vec<Face>,
    pub material_names: Vec<String>,
}

/// What a `Mesh` holds, as mathematical values.
pub struct MeshView {
    pub name: Seq<char>,
    pub vertices: Seq<Vertex>,
    pub normals: Seq<(u32, u32, u32)>,
    pub uvcoords: Seq<UvCoord>,
    pub faces: Seq<Face>,
    pub material_names: Seq<Seq<char>>,
}

impl View for Mesh {
    type V = MeshView;

    open spec fn view(&self) -> MeshView {
        MeshView {
            name: self.name@,
            vertices: self.vertices@,
            normals: self.normals@,
            uvcoords: self.uvcoords@,
            faces: self.faces@,
            material_names: self.material_names.deep_view(),
        }
    }
}

/// A mesh while its records are read: what it holds so far, and the
/// material indices that wait for the faces.
pub struct MeshDraft {
    pub mesh: MeshView,
    pub face_materials: Seq<u16>,
}

impl MeshDraft {
    /// The draft before any record is read.
    pub open spec fn empty() -> MeshDraft {
        MeshDraft {
            mesh: MeshView {
                name: Seq::empty(),
                vertices: Seq::empty(),
                normals: Seq::empty(),
                uvcoords: Seq::empty(),
                faces: Seq::empty(),
                material_names: Seq::empty(),
            },
            face_materials: Seq::empty(),
        }
    }

    /// The draft after one more record, which is not the one that ends
    /// the mesh. A record of a kind that was seen before replaces what the
    /// earlier one gave.
    pub open spec fn with_chunk(self, chunk: ChunkView) -> Result<MeshDraft, Error> {
        match chunk {
            ChunkView::FileName(name) => Ok(MeshDraft { mesh: MeshView { name, ..self.mesh }, ..self }),
            ChunkView::VertexList(vertices) => Ok(
                MeshDraft { mesh: MeshView { vertices, ..self.mesh }, ..self },
            ),
            ChunkView::UvMapList(uvcoords) => Ok(
                MeshDraft { mesh: MeshView { uvcoords, ..self.mesh }, ..self },
            ),
            ChunkView::FaceList(faces) => Ok(MeshDraft { mesh: MeshView { faces, ..self.mesh }, ..self }),
            ChunkView::MaterialList(material_names) => Ok(
                MeshDraft { mesh: MeshView { material_names, ..self.mesh }, ..self },
            ),
            ChunkView::FaceMatList(face_materials) => Ok(MeshDraft { face_materials, ..self }),
            ChunkView::FileHeader { file_type } => if file_type == MESH_FILE_TYPE {
                Ok(self)
            } else {
                Err(Error::InvalidFileType { file_type })
            },
            _ => Err(Error::UnexpectedChunk { tag: chunk.tag() }),
        }
    }

    /// The mesh that the draft gives when its records have ended: each
    /// face gets its material, and every vertex a normal of zero.
    pub open spec fn finish(self) -> MeshView {
        MeshView {
            faces: with_materials(self.mesh.faces, self.face_materials),
            normals: Seq::new(self.mesh.vertices.len(), |v: int| (0u32, 0u32, 0u32)),
            ..self.mesh
        }
    }
}

/// The draft that the records at the start of `s` make of `draft`, up to
/// the record that ends the mesh, with the number of bytes they take up;
/// or the first error among them.
pub open spec fn mesh_draft_at(s: Seq<u8>, draft: MeshDraft) -> Result<(MeshDraft, nat), Error>
    decreases s.len(),
    via mesh_draft_at_decreases
{
    match chunk_at(s) {
        Err(e) => Err(e),
        Ok((chunk, k)) => if chunk is Null {
            Ok((draft, k))
        } else {
            match draft.with_chunk(chunk) {
                Err(e) => Err(e),
                Ok(next) => match mesh_draft_at(s.skip(k as int), next) {
                    Err(e) => Err(e),
                    Ok((last, rest)) => Ok((last, k + rest)),
                },
            }
        },
    }
}

#[via_fn]
proof fn mesh_draft_at_decreases(s: Seq<u8>, draft: MeshDraft) {
    lemma_chunk_at_size(s);
}

/// An error in the first record is the error of the whole mesh: nothing
/// is passed over.
pub proof fn lemma_mesh_stops_at_bad_record(s: Seq<u8>, draft: MeshDraft)
    requires
        chunk_at(s) is Err,
    ensures
        mesh_draft_at(s, draft) == Err::<(MeshDraft, nat), Error>(chunk_at(s)->Err_0),
{
}

/// A record whose tag has no decoder ends the reading of a mesh with an
/// error that names the tag: it is not passed over.
pub proof fn lemma_mesh_refuses_undecoded_tag(s: Seq<u8>, draft: MeshDraft)
    requires
        s.len() >= 8,
        !is_decoded_tag(be_u32(s)),
    ensures
        mesh_draft_at(s, draft) == Err::<(MeshDraft, nat), Error>(
            Error::UnsupportedChunk { tag: be_u32(s), size: be_u32(s.skip(4)) },
        ),
{
    lemma_undecoded_tag_refused(s);
}

/// An error after a record that was taken in is the error of the whole
/// mesh, however many records were taken in before it.
pub proof fn lemma_mesh_stops_later(s: Seq<u8>, draft: MeshDraft)
    requires
        chunk_at(s) is Ok,
        !(chunk_at(s)->Ok_0.0 is Null),
        draft.with_chunk(chunk_at(s)->Ok_0.0) is Ok,
        mesh_draft_at(
            s.skip(chunk_at(s)->Ok_0.1 as int),
            draft.with_chunk(chunk_at(s)->Ok_0.0)->Ok_0,
        ) is Err,
    ensures
        mesh_draft_at(s, draft) == Err::<(MeshDraft, nat), Error>(
            mesh_draft_at(
                s.skip(chunk_at(s)->Ok_0.1 as int),
                draft.with_chunk(chunk_at(s)->Ok_0.0)->Ok_0,
            )->Err_0,
        ),
{
}

/// Whether no face has a material yet.
pub open spec fn unassigned(faces: Seq<Face>) -> bool {
    forall|i: int| 0 <= i < faces.len() ==> (#[trigger] faces[i]).material_id == 0
}

/// The faces of a mesh wait for their materials until its records have
/// ended: none has one while they are read.
pub proof fn lemma_mesh_draft_unassigned(s: Seq<u8>, draft: MeshDraft)
    requires
        unassigned(draft.mesh.faces),
    ensures
        mesh_draft_at(s, draft) is Ok ==> unassigned(mesh_draft_at(s, draft)->Ok_0.0.mesh.faces),
        mesh_draft_at(s, draft) is Ok ==> 8 <= mesh_draft_at(s, draft)->Ok_0.1 <= s.len(),
    decreases s.len(),
{
    lemma_chunk_at_size(s);
    if let Ok((chunk, k)) = chunk_at(s) {
        if !(chunk is Null) {
            if let Ok(next) = draft.with_chunk(chunk) {
                lemma_mesh_draft_unassigned(s.skip(k as int), next);
            }
        }
    }
}

/// With one material index for every face, each face of `with_materials`
/// has the index at its own position and is otherwise the face it was;
/// with any other number of indices the faces are as they were.
pub proof fn lemma_with_materials(faces: Seq<Face>, ids: Seq<u16>)
    ensures
        with_materials(faces, ids).len() == faces.len(),
        ids.len() == faces.len() ==> forall|i: int|
            0 <= i < faces.len() ==> (#[trigger] with_materials(faces, ids)[i]) == (Face {
                material_id: ids[i],
                ..faces[i]
            }),
        ids.len() != faces.len() ==> with_materials(faces, ids) == faces,
{
}

/// In a mesh that was read, with one material index for every face each
/// face has the index at its own position; with any other number of
/// indices every face has material 0.
pub proof fn lemma_mesh_at_materials(s: Seq<u8>)
    requires
        mesh_at(s) is Ok,
    ensures
        ({
            let draft = mesh_draft_at(s, MeshDraft::empty())->Ok_0.0;
            let faces = mesh_at(s)->Ok_0.0.faces;
            &&& faces.len() == draft.mesh.faces.len()
            &&& draft.face_materials.len() == faces.len() ==> forall|i: int|
                0 <= i < faces.len() ==> (#[trigger] faces[i]).material_id
                    == draft.face_materials[i]
            &&& draft.face_materials.len() != faces.len() ==> forall|i: int|
                0 <= i < faces.len() ==> (#[trigger] faces[i]).material_id == 0
        }),
{
    lemma_mesh_draft_unassigned(s, MeshDraft::empty());
    let draft = mesh_draft_at(s, MeshDraft::empty())->Ok_0.0;
    lemma_with_materials(draft.mesh.faces, draft.face_materials);
}

/// The mesh at the start of `s`, with the number of bytes it takes up; or
/// why there is none.
pub open spec fn mesh_at(s: Seq<u8>) -> Result<(MeshView, nat), Error> {
    match mesh_draft_at(s, MeshDraft::empty()) {
        Err(e) => Err(e),
        Ok((draft, size)) => Ok((draft.finish(), size)),
    }
}

/// A mesh that was read has a normal for every vertex, and takes up the
/// record that ends it at least and no more than there is.
pub proof fn lemma_mesh_at(s: Seq<u8>)
    requires
        mesh_at(s) is Ok,
    ensures
        mesh_at(s)->Ok_0.0.normals.len() == mesh_at(s)->Ok_0.0.vertices.len(),
        8 <= mesh_at(s)->Ok_0.1 <= s.len(),
{
    lemma_mesh_draft_unassigned(s, MeshDraft::empty());
}

impl Default for Mesh {
    fn default() -> (m: Mesh)
        ensures
            m@ == MeshDraft::empty().mesh,
    {
        Mesh::new()
    }
}

impl Mesh {
    /// A mesh that holds nothing.
    pub fn new() -> (m: Mesh)
        ensures
            m@ == MeshDraft::empty().mesh,
    {
        let m = Mesh {
            name: String::new(),
            vertices: Vec::new(),
            normals: Vec::new(),
            uvcoords: Vec::new(),
            faces: Vec::new(),
            material_names: Vec::new(),
        };
        assert(m.material_names.deep_view() =~= Seq::<Seq<char>>::empty());
        assert(m.name@ =~= Seq::<char>::empty());
        m
    }

    /// Gives each face its material from `ids`, position by position,
    /// where there is one index for every face; changes nothing where
    /// there is not.
    pub fn assign_materials(&mut self, ids: &Vec<u16>)
        ensures
            final(self)@ == (MeshView { faces: with_materials(old(self)@.faces, ids@), ..old(self)@ }),
    {
        if self.faces.len() != ids.len() {
            return ;
        }
        let n: usize = self.faces.len();
        let mut i: usize = 0;
        while i < n
            invariant
                i <= n,
                n == ids@.len(),
                self.faces@.len() == n,
                old(self)@.faces.len() == n,
                self@ == (MeshView { faces: self.faces@, ..old(self)@ }),
                forall|j: int| 0 <= j < i ==> self.faces@[j] == with_materials(old(self)@.faces, ids@)[j],
                forall|j: int| i <= j < n ==> self.faces@[j] == old(self)@.faces[j],
            decreases n - i,
        {
            let mut face: Face = self.faces[i];
            face.material_id = ids[i];
            self.faces.set(i, face);
            i = i + 1;
        }
        assert(self.faces@ =~= with_materials(old(self)@.faces, ids@));
    }

    /// Takes one record into the mesh and the waiting material indices,
    /// and says whether it was the record that ends the mesh.
    fn absorb(m: &mut Mesh, side: &mut Vec<u16>, c: Chunk) -> (r: Result<bool, Error>)
        ensures
            c@ is Null ==> r == Ok::<bool, Error>(true) && final(m)@ == old(m)@ && final(side)@ == old(
                side,
            )@,
            !(c@ is Null) ==> match (MeshDraft { mesh: old(m)@, face_materials: old(side)@ }).with_chunk(
                c@,
            ) {
                Ok(next) => r == Ok::<bool, Error>(false) && next == (MeshDraft {
                    mesh: final(m)@,
                    face_materials: final(side)@,
                }),
                Err(e) => r == Err::<bool, Error>(e),
            },
    {
        match c {
            Chunk::FileName(s) => {
                m.name = s;
            },
            Chunk::VertexList(r) => {
                m.vertices = r;
            },
            Chunk::UvMapList(r) => {
                m.uvcoords = r;
            },
            Chunk::FaceList(r) => {
                m.faces = r;
            },
            Chunk::MaterialList(r) => {
                m.material_names = r;
            },
            Chunk::FaceMatList(r) => {
                *side = r;
            },
            Chunk::Null() => {
                return Ok(true);
            },
            Chunk::FileHeader { file_type } => {
                if file_type != MESH_FILE_TYPE {
                    return Err(Error::InvalidFileType { file_type });
                }
            },
            other => {
                return Err(Error::UnexpectedChunk { tag: other.tag() });
            },
        }
        Ok(false)
    }

    /// Reads a mesh: records up to the one that ends it. A record of a
    /// kind that was seen before replaces what the earlier one gave. The
    /// normals are zero until `calc_normals` has run. On an error, a
    /// text that is not UTF-8 included, the reader is put back to where
    /// the mesh starts.
    pub fn load(rdr: &mut ByteReader) -> (r: Result<Mesh, Error>)
        ensures
            match mesh_at(old(rdr)@) {
                Ok((mesh, size)) => r is Ok && r.unwrap()@ == mesh && final(rdr).follows(
                    *old(rdr),
                    size,
                ),
                Err(e) => r == Err::<Mesh, Error>(e) && final(rdr).follows(*old(rdr), 0),
            },
    {
        let start: usize = rdr.position();
        let mut m: Mesh = Mesh::new();
        let mut fmlist: Vec<u16> = Vec::new();
        let ghost mut size: nat = 0;
        assert(rdr@.skip(0) =~= rdr@);
        loop
            invariant_except_break
                match mesh_draft_at(rdr@, MeshDraft { mesh: m@, face_materials: fmlist@ }) {
                    Ok((draft, k)) => mesh_draft_at(old(rdr)@, MeshDraft::empty()) == Ok::<
                        (MeshDraft, nat),
                        Error,
                    >((draft, size + k)),
                    Err(e) => mesh_draft_at(old(rdr)@, MeshDraft::empty()) == Err::<
                        (MeshDraft, nat),
                        Error,
                    >(e),
                },
            invariant
                start == old(rdr).offset(),
                start <= rdr.source().len(),
                rdr.follows(*old(rdr), size),
            ensures
                mesh_draft_at(old(rdr)@, MeshDraft::empty()) == Ok::<(MeshDraft, nat), Error>(
                    (MeshDraft { mesh: m@, face_materials: fmlist@ }, size),
                ),
            decreases rdr@.len(),
        {
            let ghost here = *rdr;
            let ghost draft = MeshDraft { mesh: m@, face_materials: fmlist@ };
            let c: Chunk = match Chunk::load(rdr) {
                Ok(c) => c,
                Err(e) => {
                    rdr.seek(start);
                    proof {
                        rdr.lemma_follows_none(*old(rdr));
                    }
                    return Err(e);
                },
            };
            proof {
                lemma_chunk_at_size(here@);
                let k = chunk_at(here@).unwrap().1;
                rdr.lemma_follows_twice(*old(rdr), here, size, k);
                size = size + k;
            }
            match Mesh::absorb(&mut m, &mut fmlist, c) {
                Ok(true) => {
                    break ;
                },
                Ok(false) => {},
                Err(e) => {
                    rdr.seek(start);
                    proof {
                        rdr.lemma_follows_none(*old(rdr));
                    }
                    return Err(e);
                },
            }
        }
        m.assign_materials(&fmlist);
        m.clear_normals();
        Ok(m)
    }

    /// Whether every corner of every face is a vertex of the mesh.
    pub open spec fn faces_within(self) -> bool {
        forall|i: int| 0 <= i < self@.faces.len() ==> (#[trigger] self@.faces[i]).within(self@.vertices.len())
    }

    /// The first face with a corner that is no vertex of the mesh, if
    /// there is one.
    pub fn first_bad_face(&self) -> (r: Option<usize>)
        ensures
            match r {
                Some(i) => i == first_outside(self@.faces, self@.vertices.len()) && i
                    < self@.faces.len(),
                None => first_outside(self@.faces, self@.vertices.len()) == self@.faces.len(),
            },
            r is None <==> self.faces_within(),
    {
        let n: usize = self.vertices.len();
        let mut i: usize = 0;
        while i < self.faces.len()
            invariant
                i <= self.faces@.len(),
                n == self.vertices@.len(),
                forall|j: int| 0 <= j < i ==> (#[trigger] self.faces@[j]).within(n as nat),
            decreases self.faces@.len() - i,
        {
            let f: Face = self.faces[i];
            if f.v1 as usize >= n || f.v2 as usize >= n || f.v3 as usize >= n {
                proof {
                    lemma_first_outside(self@.faces, n as nat, i as int);
                }
                return Some(i);
            }
            i = i + 1;
        }
        proof {
            lemma_first_outside(self@.faces, n as nat, i as int);
        }
        None
    }

    /// Gives every vertex a normal of zero.
    pub fn clear_normals(&mut self)
        ensures
            final(self)@ == (MeshView {
                normals: Seq::new(old(self)@.vertices.len(), |v: int| (0u32, 0u32, 0u32)),
                ..old(self)@
            }),
    {
        let n: usize = self.vertices.len();
        let mut normals: Vec<(u32, u32, u32)> = Vec::new();
        let mut v: usize = 0;
        while v < n
            invariant
                v <= n,
                normals@.len() == v,
                forall|j: int| 0 <= j < v ==> normals@[j] == (0u32, 0u32, 0u32),
            decreases n - v,
        {
            normals.push((0, 0, 0));
            v = v + 1;
        }
        assert(normals@ =~= Seq::new(self@.vertices.len(), |v: int| (0u32, 0u32, 0u32)));
        self.normals = normals;
    }

    /// Gives every vertex a normal, from one normal for each face: the
    /// normal of the last face that has the vertex as a corner, and zero
    /// where no face has it.
    pub fn calc_normals(&mut self, face_normals: &Vec<(u32, u32, u32)>)
        requires
            face_normals@.len() == old(self)@.faces.len(),
            old(self).faces_within(),
        ensures
            final(self)@ == (MeshView {
                normals: Seq::new(
                    old(self)@.vertices.len(),
                    |v: int| vertex_normal(old(self)@.faces, face_normals@, v),
                ),
                ..old(self)@
            }),
    {
        self.clear_normals();
        let mut k: usize = 0;
        while k < self.faces.len()
            invariant
                k <= self.faces@.len(),
                self@ == (MeshView { normals: self.normals@, ..old(self)@ }),
                self.normals@.len() == self.vertices@.len(),
                self.faces_within(),
                face_normals@.len() == self.faces@.len(),
                forall|j: int|
                    0 <= j < self.normals@.len() ==> self.normals@[j] == vertex_normal(
                        self.faces@.take(k as int),
                        face_normals@,
                        j,
                    ),
            decreases self.faces@.len() - k,
        {
            let f: Face = self.faces[k];
            let normal: (u32, u32, u32) = face_normals[k];
            assert(self@.faces[k as int].within(self@.vertices.len()));
            self.normals.set(f.v1 as usize, normal);
            self.normals.set(f.v2 as usize, normal);
            self.normals.set(f.v3 as usize, normal);
            proof {
                let grown = self.faces@.take(k + 1);
                assert(grown.last() == f);
                assert(grown.drop_last() =~= self.faces@.take(k as int));
            }
            k = k + 1;
        }
        assert(self.faces@.take(k as int) =~= self.faces@);
        assert(self.normals@ =~= Seq::new(
            self@.vertices.len(),
            |v: int| vertex_normal(self@.faces, face_normals@, v),
        ));
    }
}

} // verus!
