use bitcask::error::Error;
use bitcask::frame::{append_frame, encode_frame, read_be32};
use bitcask::key::{compare_keys, KeyOrder};
use bitcask::keydir::KeyDir;
use bitcask::log::Log;

#[test]
fn frame_of_a_put() {
    assert_eq!(vec![0, 0, 0, 1, 0, 0, 0, 1, b'b', 1], encode_frame(b"b", Some(&[1])));
    assert_eq!(
        vec![0, 0, 0, 2, 0, 0, 0, 3, b'h', b'i', 7, 8, 9],
        encode_frame(b"hi", Some(&[7, 8, 9]))
    );
    assert_eq!(vec![0, 0, 0, 0, 0, 0, 0, 0], encode_frame(b"", Some(&[])));
}

#[test]
fn frame_of_a_tombstone() {
    assert_eq!(vec![0, 0, 0, 1, 0xff, 0xff, 0xff, 0xff, b'e'], encode_frame(b"e", None));
    assert_eq!(vec![0, 0, 0, 0, 0xff, 0xff, 0xff, 0xff], encode_frame(b"", None));
}

#[test]
fn frame_lengths_are_big_endian() {
    let key = vec![7u8; 0x0102];
    let value = vec![9u8; 0x01_0203];
    let frame = encode_frame(&key, Some(&value));
    assert_eq!(8 + 0x0102 + 0x01_0203, frame.len());
    assert_eq!(&[0, 0, 1, 2, 0, 1, 2, 3], &frame[..8]);
    assert_eq!(0x0102, read_be32(&frame, 0));
    assert_eq!(0x01_0203, read_be32(&frame, 4));
}

#[test]
fn append_frame_keeps_what_was_there() {
    let mut out = vec![0xaa, 0xbb];
    append_frame(&mut out, b"k", Some(&[5]));
    append_frame(&mut out, b"k", None);
    assert_eq!(
        vec![0xaa, 0xbb, 0, 0, 0, 1, 0, 0, 0, 1, b'k', 5, 0, 0, 0, 1, 0xff, 0xff, 0xff, 0xff, b'k'],
        out
    );
}

#[test]
fn read_be32_reads_four_bytes() {
    let bytes = [0xde, 0xad, 0xbe, 0xef, 0x01];
    assert_eq!(0xdead_beef, read_be32(&bytes, 0));
    assert_eq!(0xadbe_ef01, read_be32(&bytes, 1));
}

#[test]
fn keys_are_ordered_byte_by_byte() {
    assert_eq!(KeyOrder::Same, compare_keys(b"", b""));
    assert_eq!(KeyOrder::Same, compare_keys(b"abc", b"abc"));
    assert_eq!(KeyOrder::Before, compare_keys(b"", b"a"));
    assert_eq!(KeyOrder::After, compare_keys(b"a", b""));
    assert_eq!(KeyOrder::Before, compare_keys(b"a", b"b"));
    assert_eq!(KeyOrder::Before, compare_keys(b"ab", b"abc"));
    assert_eq!(KeyOrder::After, compare_keys(b"b", b"abc"));
    assert_eq!(KeyOrder::Before, compare_keys(&[0x7f], &[0x80]));
    assert_eq!(KeyOrder::After, compare_keys(&[0xff], &[0x00, 0xff]));
    assert_eq!(KeyOrder::Before, compare_keys(&[0], &[0, 0]));
}

#[test]
fn write_entry_gives_the_place_of_the_value() -> Result<(), Error> {
    let mut log = Log::new(Vec::new())?;
    assert_eq!((9, 2), log.write_entry(b"a", Some(&[1, 2]))?);
    assert_eq!(11, log.len());
    assert_eq!((11 + 8 + 3, 0), log.write_entry(b"key", None)?);
    assert_eq!(22, log.len());
    assert_eq!((22 + 8, 0), log.write_entry(b"", Some(&[]))?);
    assert_eq!((30 + 8 + 1, 1), log.write_entry(b"z", Some(&[9]))?);
    assert_eq!(vec![1, 2], log.read_entry(9, 2)?);
    assert_eq!(vec![9], log.read_entry(39, 1)?);
    Ok(())
}

#[test]
fn read_entry_past_the_end_fails() -> Result<(), Error> {
    let log = Log::new(vec![1, 2, 3, 4])?;
    assert_eq!(vec![2, 3], log.read_entry(1, 2)?);
    assert_eq!(vec![1, 2, 3, 4], log.read_entry(0, 4)?);
    assert_eq!(
        Err(Error::Internal("failed to fill whole buffer".to_string())),
        log.read_entry(3, 2)
    );
    assert_eq!(
        Err(Error::Internal("failed to fill whole buffer".to_string())),
        log.read_entry(4, 1)
    );
    assert_eq!(
        Err(Error::Internal("failed to fill whole buffer".to_string())),
        log.read_entry(u64::MAX, u32::MAX)
    );
    Ok(())
}

#[test]
fn read_of_no_bytes_gives_none_anywhere() -> Result<(), Error> {
    let log = Log::new(vec![1, 2, 3, 4])?;
    assert_eq!(Vec::<u8>::new(), log.read_entry(0, 0)?);
    assert_eq!(Vec::<u8>::new(), log.read_entry(4, 0)?);
    assert_eq!(Vec::<u8>::new(), log.read_entry(1000, 0)?);
    Ok(())
}

#[test]
fn build_keydir_finds_latest_values() -> Result<(), Error> {
    let mut image = encode_frame(b"b", Some(&[1]));
    image.extend(encode_frame(b"a", Some(&[2, 3])));
    image.extend(encode_frame(b"b", Some(&[4])));
    image.extend(encode_frame(b"c", Some(&[5])));
    image.extend(encode_frame(b"c", None));
    let mut log = Log::new(image.clone())?;
    let dir = log.build_keydir()?;
    assert_eq!(image, log.as_bytes().to_vec());
    assert_eq!(2, dir.len());
    assert_eq!(Some((19, 2)), dir.get(b"a"));
    assert_eq!(Some((30, 1)), dir.get(b"b"));
    assert_eq!(None, dir.get(b"c"));
    assert_eq!(b"a".to_vec(), *dir.key_at(0));
    assert_eq!(b"b".to_vec(), *dir.key_at(1));
    assert_eq!((19, 2), dir.location_at(0));
    assert_eq!(vec![4], log.read_entry(30, 1)?);
    Ok(())
}

#[test]
fn build_keydir_cuts_a_torn_record() -> Result<(), Error> {
    let whole = encode_frame(b"a", Some(&[1]));
    let mut torn = whole.clone();
    torn.extend_from_slice(&[0, 0, 0, 9, 0, 0, 0, 0, b'x']);
    let mut log = Log::new(torn)?;
    let dir = log.build_keydir()?;
    assert_eq!(whole, log.as_bytes().to_vec());
    assert_eq!(1, dir.len());
    assert_eq!(Some((9, 1)), dir.get(b"a"));
    Ok(())
}

#[test]
fn keydir_keeps_keys_in_order() {
    let mut dir = KeyDir::new();
    assert_eq!(None, dir.insert(b"m".to_vec(), (1, 1)));
    assert_eq!(None, dir.insert(b"a".to_vec(), (2, 2)));
    assert_eq!(None, dir.insert(b"z".to_vec(), (3, 3)));
    assert_eq!(None, dir.insert(b"".to_vec(), (4, 0)));
    assert_eq!(Some((1, 1)), dir.insert(b"m".to_vec(), (5, 5)));
    assert_eq!(4, dir.len());
    assert_eq!(b"".to_vec(), *dir.key_at(0));
    assert_eq!(b"a".to_vec(), *dir.key_at(1));
    assert_eq!(b"m".to_vec(), *dir.key_at(2));
    assert_eq!(b"z".to_vec(), *dir.key_at(3));
    assert_eq!((5, 5), dir.location_at(2));
    assert_eq!(Some((5, 5)), dir.get(b"m"));
    assert_eq!(None, dir.get(b"n"));
    assert_eq!((2, true), dir.search(b"m"));
    assert_eq!((3, false), dir.search(b"n"));
    assert_eq!((0, true), dir.search(b""));
    assert_eq!((4, false), dir.search(b"zz"));
    assert_eq!(0 + 1 + 2 + 1 + 5 + 1 + 3, dir.payload_size());
    assert_eq!(Some((2, 2)), dir.remove(b"a"));
    assert_eq!(None, dir.remove(b"a"));
    assert_eq!(3, dir.len());
    assert_eq!(b"m".to_vec(), *dir.key_at(1));
    assert_eq!(1 + 5 + 1 + 3, dir.payload_size());
}

#[test]
fn error_text() {
    assert_eq!("Operation aborted", Error::Abort.to_string());
    assert_eq!("disk full", Error::Internal("disk full".to_string()).to_string());
    assert_eq!("bad key", Error::Value("bad key".to_string()).to_string());
}

#[test]
fn storage_error_becomes_internal() {
    let e = Error::from(std::io::Error::new(std::io::ErrorKind::Other, "boom"));
    assert_eq!(Error::Internal("boom".to_string()), e);
}
