use scene_chunks::support::reader::ByteReader;
use scene_chunks::support::Error;

#[test]
fn numbers_are_read_most_significant_byte_first() {
    let mut reader = ByteReader::new(vec![0x12, 0x34, 0xde, 0xad, 0xbe, 0xef, 0x7f]);
    assert_eq!(Ok(0x1234), reader.read_u16());
    assert_eq!(Ok(0xdead_beef), reader.read_u32());
    assert_eq!(Ok(0x7f), reader.read_u8());
    assert!(reader.is_at_end());
    assert_eq!(7, reader.position());
}

#[test]
fn a_read_past_the_end_is_an_io_error_and_reads_nothing() {
    let mut reader = ByteReader::new(vec![1, 2, 3]);
    assert_eq!(Err(Error::IO), reader.read_u32());
    assert_eq!(3, reader.remaining());
    assert_eq!(Ok(0x0102), reader.read_u16());
    assert_eq!(Err(Error::IO), reader.read_u16());
    assert_eq!(1, reader.remaining());
    assert_eq!(Ok(3), reader.read_u8());
    assert_eq!(Err(Error::IO), reader.read_u8());
    assert_eq!(0, reader.remaining());
}

#[test]
fn find_counts_from_the_read_position() {
    let mut reader = ByteReader::new(vec![5, 0, 5, 5, 0]);
    assert_eq!(Some(1), reader.find(0));
    assert_eq!(Some(0), reader.find(5));
    assert_eq!(None, reader.find(9));
    assert_eq!(Ok(0x0500), reader.read_u16());
    assert_eq!(Some(2), reader.find(0));
    assert_eq!(Some(0), reader.find(5));
}

#[test]
fn read_bytes_copies_what_it_passes() {
    let mut reader = ByteReader::new(vec![1, 2, 3, 4, 5]);
    assert_eq!(Ok(vec![1, 2]), reader.read_bytes(2));
    assert_eq!(Ok(vec![]), reader.read_bytes(0));
    assert_eq!(Err(Error::IO), reader.read_bytes(4));
    assert_eq!(3, reader.remaining());
    assert_eq!(Ok(vec![3, 4, 5]), reader.read_bytes(3));
    assert!(reader.is_at_end());
}
