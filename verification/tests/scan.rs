use bitcask::engine::BitCask;
use bitcask::error::Error;
use std::ops::Bound;

fn letters() -> Result<BitCask, Error> {
    let mut s = BitCask::new(Vec::new())?;
    s.set(b"d", vec![4])?;
    s.set(b"b", vec![2])?;
    s.set(b"a", vec![1])?;
    s.set(b"c", vec![3])?;
    s.set(b"e", vec![5])?;
    s.set(b"x", vec![0])?;
    s.delete(b"x")?;
    Ok(s)
}

fn pair(key: &[u8], value: u8) -> (Vec<u8>, Vec<u8>) {
    (key.to_vec(), vec![value])
}

fn keys(s: &mut BitCask, lower: Bound<Vec<u8>>, upper: Bound<Vec<u8>>) -> Result<Vec<u8>, Error> {
    let pairs = s.scan((lower, upper)).collect()?;
    Ok(pairs.into_iter().map(|(k, _)| k[0]).collect())
}

#[test]
fn scan_is_sorted_and_holds_live_keys_only() -> Result<(), Error> {
    let mut s = letters()?;
    assert_eq!(
        vec![pair(b"a", 1), pair(b"b", 2), pair(b"c", 3), pair(b"d", 4), pair(b"e", 5)],
        s.scan((Bound::Unbounded, Bound::Unbounded)).collect()?
    );
    Ok(())
}

#[test]
fn scan_of_empty_store() -> Result<(), Error> {
    let mut s = BitCask::new(Vec::new())?;
    assert_eq!(
        Vec::<(Vec<u8>, Vec<u8>)>::new(),
        s.scan((Bound::Unbounded, Bound::Unbounded)).collect()?
    );
    let mut it = s.scan((Bound::Unbounded, Bound::Unbounded));
    assert!(it.next().is_none());
    assert!(it.next_back().is_none());
    Ok(())
}

#[test]
fn scan_bounds() -> Result<(), Error> {
    let mut s = letters()?;
    let inc = |k: &[u8]| Bound::Included(k.to_vec());
    let exc = |k: &[u8]| Bound::Excluded(k.to_vec());
    assert_eq!(b"bcd".to_vec(), keys(&mut s, inc(b"b"), inc(b"d"))?);
    assert_eq!(b"bc".to_vec(), keys(&mut s, inc(b"b"), exc(b"d"))?);
    assert_eq!(b"cd".to_vec(), keys(&mut s, exc(b"b"), inc(b"d"))?);
    assert_eq!(b"c".to_vec(), keys(&mut s, exc(b"b"), exc(b"d"))?);
    assert_eq!(b"cde".to_vec(), keys(&mut s, inc(b"c"), Bound::Unbounded)?);
    assert_eq!(b"de".to_vec(), keys(&mut s, exc(b"c"), Bound::Unbounded)?);
    assert_eq!(b"abc".to_vec(), keys(&mut s, Bound::Unbounded, inc(b"c"))?);
    assert_eq!(b"ab".to_vec(), keys(&mut s, Bound::Unbounded, exc(b"c"))?);
    Ok(())
}

#[test]
fn scan_bounds_between_keys() -> Result<(), Error> {
    let mut s = letters()?;
    let inc = |k: &[u8]| Bound::Included(k.to_vec());
    let exc = |k: &[u8]| Bound::Excluded(k.to_vec());
    assert_eq!(b"bcd".to_vec(), keys(&mut s, inc(b"aa"), inc(b"dd"))?);
    assert_eq!(b"bcd".to_vec(), keys(&mut s, exc(b"aa"), exc(b"dd"))?);
    assert_eq!(b"abcde".to_vec(), keys(&mut s, inc(b""), inc(b"zzz"))?);
    assert_eq!(b"".to_vec(), keys(&mut s, inc(b"f"), inc(b"z"))?);
    assert_eq!(b"".to_vec(), keys(&mut s, inc(b"bb"), exc(b"c"))?);
    assert_eq!(b"c".to_vec(), keys(&mut s, inc(b"c"), inc(b"c"))?);
    Ok(())
}

#[test]
fn scan_of_a_range_that_holds_no_key_is_empty() -> Result<(), Error> {
    let mut s = letters()?;
    let inc = |k: &[u8]| Bound::Included(k.to_vec());
    let exc = |k: &[u8]| Bound::Excluded(k.to_vec());
    assert_eq!(b"".to_vec(), keys(&mut s, inc(b"d"), inc(b"b"))?);
    assert_eq!(b"".to_vec(), keys(&mut s, exc(b"c"), exc(b"c"))?);
    assert_eq!(b"".to_vec(), keys(&mut s, inc(b"c"), exc(b"c"))?);
    assert_eq!(b"".to_vec(), keys(&mut s, exc(b"c"), inc(b"c"))?);
    Ok(())
}

#[test]
fn scan_from_both_ends() -> Result<(), Error> {
    let mut s = letters()?;
    let mut it = s.scan((Bound::Unbounded, Bound::Unbounded));
    assert_eq!(Some(Ok(pair(b"a", 1))), it.next());
    assert_eq!(Some(Ok(pair(b"e", 5))), it.next_back());
    assert_eq!(Some(Ok(pair(b"d", 4))), it.next_back());
    assert_eq!(Some(Ok(pair(b"b", 2))), it.next());
    assert_eq!(Some(Ok(pair(b"c", 3))), it.next_back());
    assert_eq!(None, it.next());
    assert_eq!(None, it.next_back());
    Ok(())
}

#[test]
fn scan_backwards() -> Result<(), Error> {
    let mut s = letters()?;
    let mut it = s.scan((Bound::Included(b"b".to_vec()), Bound::Excluded(b"e".to_vec())));
    let mut seen = Vec::new();
    while let Some(item) = it.next_back() {
        seen.push(item?);
    }
    assert_eq!(vec![pair(b"d", 4), pair(b"c", 3), pair(b"b", 2)], seen);
    Ok(())
}

#[test]
fn collect_takes_what_is_left() -> Result<(), Error> {
    let mut s = letters()?;
    let mut it = s.scan((Bound::Unbounded, Bound::Unbounded));
    assert_eq!(Some(Ok(pair(b"a", 1))), it.next());
    assert_eq!(Some(Ok(pair(b"e", 5))), it.next_back());
    assert_eq!(vec![pair(b"b", 2), pair(b"c", 3), pair(b"d", 4)], it.collect()?);
    Ok(())
}

#[test]
fn scan_reads_values_of_any_length() -> Result<(), Error> {
    let mut s = BitCask::new(Vec::new())?;
    s.set(b"long", vec![7; 300])?;
    s.set(b"", vec![])?;
    s.set(b"long", vec![8; 70000])?;
    assert_eq!(
        vec![(b"".to_vec(), vec![]), (b"long".to_vec(), vec![8; 70000])],
        s.scan((Bound::Unbounded, Bound::Unbounded)).collect()?
    );
    Ok(())
}
