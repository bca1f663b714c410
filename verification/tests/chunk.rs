use scene_chunks::support::mesh::{Face, UvCoord};
use scene_chunks::support::reader::ByteReader;
use scene_chunks::support::resource::Chunk;
use scene_chunks::support::{Error, Vertex};

fn load(bytes: &[u8]) -> (Result<Chunk, Error>, usize) {
    let mut rdr = ByteReader::new(bytes.to_vec());
    let r = Chunk::load(&mut rdr);
    (r, rdr.position())
}

#[test]
fn the_last_record_has_no_payload() {
    assert_eq!((Ok(Chunk::Null()), 8), load(&[0, 0, 0, 0, 0, 0, 0, 0, 1, 2, 3]));
    assert_eq!((Ok(Chunk::Null()), 8), load(&[0, 0, 0, 0, 0xff, 0xff, 0xff, 0xff]));
}

#[test]
fn the_marks_have_no_payload() {
    assert_eq!((Ok(Chunk::ActorNodeDown()), 8), load(&[0, 0, 0, 0x29, 0, 0, 0, 0]));
    assert_eq!((Ok(Chunk::ActorNodeUp()), 8), load(&[0, 0, 0, 0x2a, 0, 0, 0, 0]));
}

#[test]
fn the_header_names_the_kind_of_file() {
    assert_eq!(
        (Ok(Chunk::FileHeader { file_type: 0xface }), 16),
        load(&[0, 0, 0, 0x12, 0, 0, 0, 8, 0, 0, 0xfa, 0xce, 0, 0, 0, 2])
    );
    assert_eq!((Err(Error::IO), 0), load(&[0, 0, 0, 0x12, 0, 0, 0, 8, 0, 0, 0xfa, 0xce, 0, 0, 0]));
}

#[test]
fn a_name_follows_two_bytes() {
    assert_eq!(
        (Ok(Chunk::FileName("hello".to_string())), 16),
        load(b"\0\0\0\x36\0\0\0\x08\x07\x07hello\0rest")
    );
    assert_eq!(
        (Ok(Chunk::ActorName { name: "A".to_string(), visible: true }), 12),
        load(b"\0\0\0\x23\0\0\0\x04\x01\x09A\0")
    );
    assert_eq!(
        (Ok(Chunk::ActorName { name: "A".to_string(), visible: false }), 12),
        load(b"\0\0\0\x23\0\0\0\x04\x00\x01A\0")
    );
    assert_eq!((Err(Error::IO), 0), load(b"\0\0\0\x36\0\0\0\x08\0"));
    assert_eq!((Err(Error::IO), 0), load(b"\0\0\0\x36\0\0\0\x08\0\0hello"));
    assert_eq!((Err(Error::FromUtf8), 0), load(b"\0\0\0\x23\0\0\0\x08\0\0h\xc3llo\0"));
}

#[test]
fn a_reference_is_a_text() {
    assert_eq!(
        (Ok(Chunk::MeshFileRef("CAR.DAT".to_string())), 16),
        load(b"\0\0\0\x24\0\0\0\x08CAR.DAT\0")
    );
    assert_eq!(
        (Ok(Chunk::MaterialRef("RED.MAT".to_string())), 16),
        load(b"\0\0\0\x26\0\0\0\x08RED.MAT\0")
    );
    assert_eq!((Err(Error::IO), 0), load(b"\0\0\0\x26\0\0\0\x08RED.MAT"));
}

#[test]
fn a_transform_is_twelve_numbers() {
    let mut bytes = vec![0, 0, 0, 0x2b, 0, 0, 0, 48];
    let mut expected = [0u32; 12];
    for i in 0..12u32 {
        bytes.extend_from_slice(&(0x1000_0000 * i + i).to_be_bytes());
        expected[i as usize] = 0x1000_0000 * i + i;
    }
    assert_eq!((Ok(Chunk::ActorTransform(expected)), 56), load(&bytes));
    bytes.pop();
    assert_eq!((Err(Error::IO), 0), load(&bytes));
}

#[test]
fn a_list_is_a_count_and_so_many_items() {
    let vertices = [0, 0, 0, 0x17, 0, 0, 0, 0, 0, 0, 0, 1, 0, 0, 0, 1, 0, 0, 0, 2, 0, 0, 0, 3];
    assert_eq!(
        (
            Ok(Chunk::VertexList(vec![Vertex {
                position: [1, 2, 3],
                normal: [0; 3],
                tex_coords: [0; 2]
            }])),
            24
        ),
        load(&vertices)
    );
    let uvs = [0, 0, 0, 0x18, 0, 0, 0, 0, 0, 0, 0, 2, 0, 0, 0, 1, 0, 0, 0, 2, 0, 0, 0, 3, 0, 0, 0, 4];
    assert_eq!(
        (Ok(Chunk::UvMapList(vec![UvCoord { u: 1, v: 2 }, UvCoord { u: 3, v: 4 }])), 28),
        load(&uvs)
    );
    let faces = [0, 0, 0, 0x35, 0, 0, 0, 0, 0, 0, 0, 1, 0, 1, 0, 2, 0, 3, 0x80, 0, 0xff];
    assert_eq!(
        (
            Ok(Chunk::FaceList(vec![Face { v1: 1, v2: 2, v3: 3, flags: 0x8000, material_id: 0 }])),
            21
        ),
        load(&faces)
    );
    assert_eq!((Ok(Chunk::FaceList(vec![])), 12), load(&[0, 0, 0, 0x35, 0, 0, 0, 0, 0, 0, 0, 0]));
    assert_eq!((Err(Error::IO), 0), load(&faces[..20]));
    assert_eq!((Err(Error::IO), 0), load(&faces[..10]));
}

#[test]
fn material_indices_follow_a_count_and_a_word() {
    let list = [0, 0, 0, 0x1a, 0, 0, 0, 0, 0, 0, 0, 3, 0, 0, 0, 2, 0, 5, 0x01, 0x00, 0xff, 0xff];
    assert_eq!((Ok(Chunk::FaceMatList(vec![5, 0x100, 0xffff])), 22), load(&list));
    assert_eq!((Err(Error::IO), 0), load(&list[..21]));
    assert_eq!((Err(Error::IO), 0), load(&list[..15]));
}

#[test]
fn material_names_follow_a_count() {
    assert_eq!(
        (Ok(Chunk::MaterialList(vec!["A".to_string(), String::new(), "BC".to_string()])), 18),
        load(b"\0\0\0\x16\0\0\0\0\0\0\0\x03A\0\0BC\0")
    );
    assert_eq!((Ok(Chunk::MaterialList(vec![])), 12), load(b"\0\0\0\x16\0\0\0\0\0\0\0\0A\0"));
    assert_eq!((Err(Error::IO), 0), load(b"\0\0\0\x16\0\0\0\0\0\0\0\x03A\0\0BC"));
    assert_eq!((Err(Error::IO), 0), load(b"\0\0\0\x16\0\0\0\0\xff\xff\xff\xffA\0"));
    assert_eq!((Err(Error::FromUtf8), 0), load(b"\0\0\0\x16\0\0\0\0\0\0\0\x02A\0\xff\0"));
    assert_eq!((Err(Error::FromUtf8), 0), load(b"\0\0\0\x16\0\0\0\0\0\0\0\x02A\xff\0B"));
    assert_eq!((Err(Error::IO), 0), load(b"\0\0\0\x16\0\0\0\0\0\0\0\x02A\0B\xff"));
}

#[test]
fn a_tag_without_decoder_is_refused_with_its_size() {
    for tag in [0x03u8, 0x04, 0x1c, 0x1f, 0x21, 0x25, 0x32, 0x01, 0xff] {
        assert_eq!(
            (Err(Error::UnsupportedChunk { tag: tag as u32, size: 0x0102_0304 }), 0),
            load(&[0, 0, 0, tag, 1, 2, 3, 4, 0, 0, 0, 0])
        );
    }
    assert_eq!(
        (Err(Error::UnsupportedChunk { tag: 0x0100_0000, size: 0 }), 0),
        load(&[1, 0, 0, 0, 0, 0, 0, 0])
    );
}

#[test]
fn a_record_with_text_that_is_not_utf8_is_not_read() {
    let mut rdr = ByteReader::new(b"\0\0\0\x26\0\0\0\x03\xff\0\x61".to_vec());
    assert_eq!(Err(Error::FromUtf8), Chunk::load(&mut rdr));
    assert_eq!(0, rdr.position());
    assert_eq!(11, rdr.remaining());
}

#[test]
fn a_record_needs_its_tag_and_size() {
    assert_eq!((Err(Error::IO), 0), load(&[]));
    assert_eq!((Err(Error::IO), 0), load(&[0, 0, 0, 0]));
    assert_eq!((Err(Error::IO), 0), load(&[0, 0, 0, 0x29, 0, 0, 0]));
}

#[test]
fn a_record_knows_its_tag() {
    assert_eq!(0, Chunk::Null().tag());
    assert_eq!(0x12, Chunk::FileHeader { file_type: 1 }.tag());
    assert_eq!(0x36, Chunk::FileName(String::new()).tag());
    assert_eq!(0x17, Chunk::VertexList(vec![]).tag());
    assert_eq!(0x18, Chunk::UvMapList(vec![]).tag());
    assert_eq!(0x35, Chunk::FaceList(vec![]).tag());
    assert_eq!(0x16, Chunk::MaterialList(vec![]).tag());
    assert_eq!(0x1a, Chunk::FaceMatList(vec![]).tag());
    assert_eq!(0x23, Chunk::ActorName { name: String::new(), visible: true }.tag());
    assert_eq!(0x2b, Chunk::ActorTransform([0; 12]).tag());
    assert_eq!(0x24, Chunk::MeshFileRef(String::new()).tag());
    assert_eq!(0x26, Chunk::MaterialRef(String::new()).tag());
    assert_eq!(0x29, Chunk::ActorNodeDown().tag());
    assert_eq!(0x2a, Chunk::ActorNodeUp().tag());
}
