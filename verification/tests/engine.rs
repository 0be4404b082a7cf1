use bitcask::engine::BitCask;
use bitcask::error::Error;
use std::ops::Bound;

fn all() -> (Bound<Vec<u8>>, Bound<Vec<u8>>) {
    (Bound::Unbounded, Bound::Unbounded)
}

#[test]
fn setup_log() -> Result<(), Error> {
    let mut s: BitCask = BitCask::new(Vec::new())?;
    s.set(b"b", vec![0x01])?;
    s.set(b"b", vec![0x02])?;

    s.set(b"e", vec![0x05])?;
    s.delete(b"e")?;

    s.set(b"c", vec![0x00])?;
    s.delete(b"c")?;
    s.set(b"c", vec![0x03])?;

    s.set(b"", vec![])?;

    s.set(b"a", vec![0x01])?;

    s.delete(b"f")?;

    s.delete(b"d")?;
    s.set(b"d", vec![0x04])?;

    // Make sure the scan yields the expected results.
    assert_eq!(
        vec![
            (b"".to_vec(), vec![]),
            (b"a".to_vec(), vec![0x01]),
            (b"b".to_vec(), vec![0x02]),
            (b"c".to_vec(), vec![0x03]),
            (b"d".to_vec(), vec![0x04]),
        ],
        s.scan(all()).collect()?,
    );

    Ok(())
}

#[test]
fn test_iterator_and_set() -> Result<(), Error> {
    let mut s: BitCask = BitCask::new(Vec::new())?;
    s.set(b"a", vec![0x01])?;
    s.set(b"b", vec![0x02])?;

    s.set(b"c", vec![0x03])?;

    assert_eq!(
        vec![vec![0x01], vec![0x02], vec![0x03],],
        vec![
            s.get(b"a")?.unwrap(),
            s.get(b"b")?.unwrap(),
            s.get(b"c")?.unwrap(),
        ]
    );

    assert_eq!(
        vec![
            (b"a".to_vec(), vec![0x01]),
            (b"b".to_vec(), vec![0x02]),
            (b"c".to_vec(), vec![0x03]),
        ],
        s.scan(all()).collect()?
    );

    Ok(())
}

#[test]
fn test_delete() -> Result<(), Error> {
    let mut s: BitCask = BitCask::new(Vec::new())?;
    s.set(b"a", vec![0x01])?;
    s.set(b"b", vec![0x02])?;
    s.set(b"c", vec![0x03])?;

    assert_eq!(vec![02], s.get(b"b")?.unwrap());

    s.delete(b"a")?;

    let mut t_s = BitCask::new(s.as_bytes().to_vec())?;
    assert_eq!(None, t_s.get(b"a")?);
    assert_eq!(vec![02], t_s.get(b"b")?.unwrap());
    assert_eq!(vec![03], t_s.get(b"c")?.unwrap());

    Ok(())
}

/// The history that the tests below share, on a fresh store.
fn mixed() -> Result<BitCask, Error> {
    let mut s = BitCask::new(Vec::new())?;
    s.set(b"b", vec![0x01])?;
    s.set(b"b", vec![0x02])?;
    s.set(b"e", vec![0x05])?;
    s.delete(b"e")?;
    s.set(b"c", vec![0x00])?;
    s.delete(b"c")?;
    s.set(b"c", vec![0x03])?;
    s.set(b"", vec![])?;
    s.set(b"a", vec![0x01])?;
    s.delete(b"f")?;
    s.delete(b"d")?;
    s.set(b"d", vec![0x04])?;
    Ok(s)
}

fn mixed_pairs() -> Vec<(Vec<u8>, Vec<u8>)> {
    vec![
        (b"".to_vec(), vec![]),
        (b"a".to_vec(), vec![0x01]),
        (b"b".to_vec(), vec![0x02]),
        (b"c".to_vec(), vec![0x03]),
        (b"d".to_vec(), vec![0x04]),
    ]
}

#[test]
fn overwrite_keeps_latest_value() -> Result<(), Error> {
    let mut s = BitCask::new(Vec::new())?;
    s.set(b"b", vec![1])?;
    s.set(b"b", vec![2])?;
    assert_eq!(vec![(b"b".to_vec(), vec![2])], s.scan(all()).collect()?);
    Ok(())
}

#[test]
fn put_after_tombstone_is_live() -> Result<(), Error> {
    let mut s = BitCask::new(Vec::new())?;
    s.set(b"c", vec![0])?;
    s.delete(b"c")?;
    s.set(b"c", vec![3])?;
    assert_eq!(Some(vec![3]), s.get(b"c")?);
    assert!(s.scan(all()).collect()?.contains(&(b"c".to_vec(), vec![3])));
    Ok(())
}

#[test]
fn reopen_gives_same_scan() -> Result<(), Error> {
    let s = mixed()?;
    let image = s.as_bytes().to_vec();
    drop(s);
    let mut again = BitCask::new(image.clone())?;
    assert_eq!(mixed_pairs(), again.scan(all()).collect()?);
    assert_eq!(image, again.as_bytes().to_vec());
    Ok(())
}

#[test]
fn status_counts_live_and_garbage_bytes() -> Result<(), Error> {
    let s = mixed()?;
    let status = s.status()?;
    assert_eq!("Bitcask", status.name);
    assert_eq!(5, status.keys);
    assert_eq!(8, status.size);
    assert_eq!(114, status.total_disk_size);
    assert_eq!(48, status.live_disk_size);
    assert_eq!(66, status.garbage_disk_size);
    Ok(())
}

#[test]
fn status_of_empty_store() -> Result<(), Error> {
    let s = BitCask::new(Vec::new())?;
    let status = s.status()?;
    assert_eq!("Bitcask", status.name);
    assert_eq!(0, status.keys);
    assert_eq!(0, status.size);
    assert_eq!(0, status.total_disk_size);
    assert_eq!(0, status.live_disk_size);
    assert_eq!(0, status.garbage_disk_size);
    Ok(())
}

#[test]
fn compaction_keeps_pairs_and_drops_garbage() -> Result<(), Error> {
    let mut s = mixed()?;
    let before = s.status()?;
    s.compact()?;
    assert_eq!(mixed_pairs(), s.scan(all()).collect()?);
    let after = s.status()?;
    assert!(after.total_disk_size <= before.total_disk_size);
    assert_eq!(before.live_disk_size, after.total_disk_size);
    assert_eq!(48, after.total_disk_size);
    assert_eq!(0, after.garbage_disk_size);
    assert_eq!(before.keys, after.keys);
    assert_eq!(before.size, after.size);
    for (key, value) in mixed_pairs() {
        assert_eq!(Some(value), s.get(&key)?);
    }
    assert_eq!(None, s.get(b"e")?);
    Ok(())
}

#[test]
fn compacted_log_is_one_put_per_key_in_order() -> Result<(), Error> {
    let mut s = BitCask::new(Vec::new())?;
    s.set(b"z", vec![9])?;
    s.set(b"a", vec![7, 8])?;
    s.delete(b"q")?;
    s.set(b"z", vec![1])?;
    s.compact()?;
    let expected: Vec<u8> = vec![
        0, 0, 0, 1, 0, 0, 0, 2, b'a', 7, 8, // a
        0, 0, 0, 1, 0, 0, 0, 1, b'z', 1, // z
    ];
    assert_eq!(expected, s.as_bytes().to_vec());
    let mut again = BitCask::new(s.as_bytes().to_vec())?;
    assert_eq!(Some(vec![7, 8]), again.get(b"a")?);
    assert_eq!(Some(vec![1]), again.get(b"z")?);
    Ok(())
}

#[test]
fn compacting_twice_changes_nothing_more() -> Result<(), Error> {
    let mut s = mixed()?;
    s.compact()?;
    let once = s.as_bytes().to_vec();
    s.compact()?;
    assert_eq!(once, s.as_bytes().to_vec());
    Ok(())
}

#[test]
fn store_works_on_after_compaction() -> Result<(), Error> {
    let mut s = mixed()?;
    s.compact()?;
    s.set(b"b", vec![0x22])?;
    s.delete(b"a")?;
    assert_eq!(Some(vec![0x22]), s.get(b"b")?);
    assert_eq!(None, s.get(b"a")?);
    let status = s.status()?;
    assert_eq!(4, status.keys);
    assert_eq!(48 + 10 + 9, status.total_disk_size);
    assert_eq!(6 + 32, status.live_disk_size);
    Ok(())
}

#[test]
fn read_your_writes_until_overwritten() -> Result<(), Error> {
    let mut s = BitCask::new(Vec::new())?;
    s.set(b"k", vec![1, 2, 3])?;
    assert_eq!(Some(vec![1, 2, 3]), s.get(b"k")?);
    s.set(b"other", vec![4])?;
    s.delete(b"gone")?;
    assert_eq!(Some(vec![1, 2, 3]), s.get(b"k")?);
    s.set(b"k", vec![5])?;
    assert_eq!(Some(vec![5]), s.get(b"k")?);
    s.delete(b"k")?;
    assert_eq!(None, s.get(b"k")?);
    Ok(())
}

#[test]
fn delete_twice_is_delete_once() -> Result<(), Error> {
    let mut once = BitCask::new(Vec::new())?;
    once.set(b"a", vec![1])?;
    once.set(b"k", vec![2])?;
    once.delete(b"k")?;
    let mut twice = BitCask::new(Vec::new())?;
    twice.set(b"a", vec![1])?;
    twice.set(b"k", vec![2])?;
    twice.delete(b"k")?;
    twice.delete(b"k")?;
    assert_eq!(once.get(b"k")?, twice.get(b"k")?);
    assert_eq!(None, twice.get(b"k")?);
    assert_eq!(once.scan(all()).collect()?, twice.scan(all()).collect()?);
    Ok(())
}

#[test]
fn deleting_absent_key_still_writes_tombstone() -> Result<(), Error> {
    let mut s = BitCask::new(Vec::new())?;
    s.delete(b"f")?;
    assert_eq!(vec![0, 0, 0, 1, 0xff, 0xff, 0xff, 0xff, b'f'], s.as_bytes().to_vec());
    assert_eq!(None, s.get(b"f")?);
    assert_eq!(0, s.status()?.keys);
    assert_eq!(9, s.status()?.garbage_disk_size);
    Ok(())
}

#[test]
fn last_writer_wins_on_one_key() -> Result<(), Error> {
    let mut s = BitCask::new(Vec::new())?;
    s.set(b"k", vec![1])?;
    s.delete(b"k")?;
    s.set(b"k", vec![2])?;
    s.set(b"k", vec![3])?;
    assert_eq!(Some(vec![3]), s.get(b"k")?);
    s.delete(b"k")?;
    s.delete(b"k")?;
    assert_eq!(None, s.get(b"k")?);
    s.set(b"k", vec![])?;
    assert_eq!(Some(vec![]), s.get(b"k")?);
    Ok(())
}

#[test]
fn round_trip_of_arbitrary_bytes() -> Result<(), Error> {
    let mut s = BitCask::new(Vec::new())?;
    let key = vec![0x00, 0xff, 0x00, 0x80];
    let value = vec![0x00, 0x00, 0xff, 0x7f, 0x00];
    s.set(&key, value.clone())?;
    assert_eq!(Some(value), s.get(&key)?);
    s.set(b"", vec![])?;
    assert_eq!(Some(vec![]), s.get(b"")?);
    s.set(&[0], vec![0])?;
    assert_eq!(Some(vec![0]), s.get(&[0])?);
    assert_eq!(None, s.get(&[0, 0])?);
    Ok(())
}

#[test]
fn set_appends_the_frame_of_a_put() -> Result<(), Error> {
    let mut s = BitCask::new(Vec::new())?;
    s.set(b"b", vec![0x01])?;
    assert_eq!(vec![0, 0, 0, 1, 0, 0, 0, 1, b'b', 1], s.as_bytes().to_vec());
    s.set(b"key", vec![])?;
    assert_eq!(
        vec![0, 0, 0, 1, 0, 0, 0, 1, b'b', 1, 0, 0, 0, 3, 0, 0, 0, 0, b'k', b'e', b'y'],
        s.as_bytes().to_vec()
    );
    Ok(())
}

#[test]
fn get_leaves_the_log_alone() -> Result<(), Error> {
    let mut s = mixed()?;
    let image = s.as_bytes().to_vec();
    assert_eq!(Some(vec![2]), s.get(b"b")?);
    assert_eq!(None, s.get(b"nothing")?);
    assert_eq!(image, s.as_bytes().to_vec());
    Ok(())
}
