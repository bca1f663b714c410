use scene_chunks::support::read_c_string;
use scene_chunks::support::reader::ByteReader;
use scene_chunks::support::Error;

#[test]
fn test_read_c_string() {
    let mut reader = ByteReader::new(b"hello world\0abc".to_vec());

    let s = read_c_string(&mut reader).unwrap();
    let t = reader.read_u8().unwrap();
    println!("{:?}", t);
    let u = reader.read_u8().unwrap();
    println!("{:?}", u);
    let v = reader.read_u8().unwrap();
    println!("{:?}", v);
    assert_eq!("hello world", s);
    assert_eq!(b"a"[0], t);
    assert_eq!(b"b"[0], u);
    assert_eq!(b"c"[0], v);
}

#[test]
fn terminator_alone_is_the_empty_text() {
    let mut reader = ByteReader::new(vec![0, b'x']);
    assert_eq!(Ok(String::new()), read_c_string(&mut reader));
    assert_eq!(1, reader.position());
}

#[test]
fn texts_are_read_one_after_another() {
    let mut reader = ByteReader::new(b"one\0two\0".to_vec());
    assert_eq!(Ok("one".to_string()), read_c_string(&mut reader));
    assert_eq!(Ok("two".to_string()), read_c_string(&mut reader));
    assert!(reader.is_at_end());
}

#[test]
fn text_of_several_bytes_a_character_is_decoded() {
    let mut reader = ByteReader::new("caf\u{e9} \u{20ac}\0".as_bytes().to_vec());
    let s = read_c_string(&mut reader).unwrap();
    assert_eq!("caf\u{e9} \u{20ac}", s);
    assert_eq!(6, s.chars().count());
    assert!(reader.is_at_end());
}

#[test]
fn text_without_terminator_is_an_io_error() {
    let mut reader = ByteReader::new(b"hello".to_vec());
    assert_eq!(Err(Error::IO), read_c_string(&mut reader));
    assert_eq!(5, reader.remaining());
    let mut empty = ByteReader::new(vec![]);
    assert_eq!(Err(Error::IO), read_c_string(&mut empty));
}

#[test]
fn text_that_is_not_utf8_is_refused_after_it_was_read() {
    let mut reader = ByteReader::new(vec![0xff, 0x00, 0x61]);
    assert_eq!(Err(Error::FromUtf8), read_c_string(&mut reader));
    assert_eq!(2, reader.position());
    assert_eq!(Ok(0x61), reader.read_u8());
    assert!(reader.is_at_end());

    let mut reader = ByteReader::new(vec![b'a', 0xff, b'b', 0, b'c']);
    assert_eq!(Err(Error::FromUtf8), read_c_string(&mut reader));
    assert_eq!(1, reader.remaining());
    assert_eq!(Ok(b'c'), reader.read_u8());
}

#[test]
fn text_after_refused_text_is_read() {
    let mut reader = ByteReader::new(b"\xc3\0good\0".to_vec());
    assert_eq!(Err(Error::FromUtf8), read_c_string(&mut reader));
    assert_eq!(Ok("good".to_string()), read_c_string(&mut reader));
    assert!(reader.is_at_end());
}

#[test]
fn text_that_is_not_utf8_and_not_terminated_is_an_io_error() {
    let mut reader = ByteReader::new(vec![b'a', 0xff, b'b']);
    assert_eq!(Err(Error::IO), read_c_string(&mut reader));
    assert_eq!(0, reader.position());
}
