use bytes::Bytes;
use bytes_deque::BufVecDeque;
use bytes_deque::Chunk;
use bytes_deque::GetBytes;
use std::collections::VecDeque;

#[test]
fn back_mut() {
    let mut d = BufVecDeque::<VecDeque<u8>>::new();
    d.push_back(VecDeque::from(vec![3, 4]));
    d.push_back(VecDeque::from(vec![4, 6]));
    assert_eq!(4, d.remaining());
    assert!(d.back_mut(|mut b| {
        b.push_back(7);
        b
    }));
    assert_eq!(5, d.remaining());
    assert!(d.back_mut(|mut b| {
        b.pop_back();
        b
    }));
    assert_eq!(4, d.remaining());
    assert!(d.back_mut(|mut b| {
        b.pop_back();
        b
    }));
    assert!(d.back_mut(|mut b| {
        b.pop_back();
        b
    }));
    assert_eq!(2, d.remaining());
}

#[test]
fn pop_back() {
    let mut d = BufVecDeque::<VecDeque<u8>>::new();
    d.push_back(VecDeque::from(vec![3, 4]));
    d.push_back(VecDeque::from(vec![4, 6, 7]));

    d.pop_back().unwrap();
    assert_eq!(2, d.remaining());
}

#[test]
fn get_bytes() {
    let mut d = BufVecDeque::from_chunks(vec![
        Bytes::copy_from_slice(b"ab"),
        Bytes::copy_from_slice(b"cde"),
    ]);

    assert_eq!(Bytes::copy_from_slice(b"a"), d.get_bytes(1));
    assert_eq!(4, d.remaining());
    assert_eq!(Bytes::copy_from_slice(b"b"), d.get_bytes(1));
    assert_eq!(3, d.remaining());
    assert_eq!(Bytes::copy_from_slice(b"cde"), d.get_bytes(3));
    assert_eq!(0, d.remaining());
}

#[test]
fn get_bytes_cross_boundary() {
    let mut d = BufVecDeque::from_chunks(vec![
        Bytes::copy_from_slice(b"ab"),
        Bytes::copy_from_slice(b"cde"),
    ]);
    assert_eq!(Bytes::copy_from_slice(b"abc"), d.get_bytes(3));
    assert_eq!(2, d.remaining());
}

#[test]
fn back_mut_on_empty_run_does_nothing() {
    let mut d = BufVecDeque::<VecDeque<u8>>::new();
    let mut called = false;
    assert!(!d.back_mut(|b| {
        called = true;
        b
    }));
    assert!(!called);
    assert_eq!(0, d.len());
}

#[test]
fn back_mut_keeps_emptied_chunk() {
    let mut d = BufVecDeque::<VecDeque<u8>>::new();
    d.push_back(VecDeque::from(vec![1]));
    d.push_back(VecDeque::from(vec![2]));
    assert!(d.back_mut(|mut b| {
        b.clear();
        b
    }));
    assert_eq!(1, d.len());
    // the emptied chunk is still the back one
    let back = d.pop_back().unwrap();
    assert!(back.is_empty());
    assert_eq!(1, d.len());
}

#[test]
fn pop_back_on_empty_run() {
    let mut d = BufVecDeque::<Bytes>::new();
    assert!(d.pop_back().is_none());
    assert_eq!(0, d.len());
}

#[test]
fn from_chunks_counts_every_chunk() {
    let d = BufVecDeque::from_chunks(vec![
        Bytes::new(),
        Bytes::copy_from_slice(b"xy"),
        Bytes::new(),
        Bytes::copy_from_slice(b"z"),
    ]);
    assert_eq!(3, d.len());
    assert_eq!(b"xyz".to_vec(), d.copy_to_vec());
}

#[test]
fn bytes_skips_empty_front_chunks() {
    let d = BufVecDeque::from_chunks(vec![
        Bytes::new(),
        Bytes::new(),
        Bytes::copy_from_slice(b"qr"),
        Bytes::copy_from_slice(b"s"),
    ]);
    assert_eq!(b"qr", d.bytes());
}

#[test]
fn bytes_of_empty_run_is_empty() {
    let d = BufVecDeque::from_chunks(vec![Bytes::new()]);
    assert!(d.bytes().is_empty());
}

#[test]
fn advance_across_chunks() {
    let mut d = BufVecDeque::from_chunks(vec![
        Bytes::copy_from_slice(b"ab"),
        Bytes::new(),
        Bytes::copy_from_slice(b"cde"),
    ]);
    d.advance(3);
    assert_eq!(2, d.len());
    assert_eq!(b"de".to_vec(), d.copy_to_vec());
    d.advance(0);
    assert_eq!(2, d.len());
    d.advance(2);
    assert_eq!(0, d.len());
    assert!(d.copy_to_vec().is_empty());
}

#[test]
fn advance_exactly_one_chunk() {
    let mut d = BufVecDeque::from_chunks(vec![
        Bytes::copy_from_slice(b"ab"),
        Bytes::copy_from_slice(b"cd"),
    ]);
    d.advance(2);
    assert_eq!(b"cd", d.bytes());
}

#[test]
fn advance_vec_deque_chunks() {
    let mut d = BufVecDeque::<VecDeque<u8>>::new();
    d.push_back(VecDeque::from(vec![1, 2, 3]));
    d.push_back(VecDeque::from(vec![4, 5]));
    d.advance(4);
    assert_eq!(1, d.len());
    assert_eq!(&[5u8][..], d.bytes());
}

#[test]
fn to_bytes_of_one_chunk() {
    let mut d = BufVecDeque::from_chunks(vec![Bytes::copy_from_slice(b"hello")]);
    assert_eq!(Bytes::copy_from_slice(b"hello"), d.to_bytes());
    assert_eq!(0, d.len());
}

#[test]
fn to_bytes_of_several_chunks() {
    let mut d = BufVecDeque::from_chunks(vec![
        Bytes::copy_from_slice(b"he"),
        Bytes::copy_from_slice(b"llo"),
    ]);
    assert_eq!(Bytes::copy_from_slice(b"hello"), d.to_bytes());
    assert_eq!(0, d.len());
}

#[test]
fn to_bytes_of_vec_deque_chunks() {
    let mut d = BufVecDeque::<VecDeque<u8>>::new();
    d.push_back(VecDeque::from(vec![7, 8]));
    d.push_back(VecDeque::from(vec![9]));
    assert_eq!(Bytes::copy_from_slice(&[7, 8, 9]), d.to_bytes());
    assert_eq!(0, d.len());
}

#[test]
fn to_bytes_of_empty_run() {
    let mut d = BufVecDeque::<Bytes>::new();
    assert!(d.to_bytes().is_empty());
}

#[test]
fn get_bytes_whole_front_chunk_removes_it() {
    let mut d = BufVecDeque::from_chunks(vec![
        Bytes::copy_from_slice(b"ab"),
        Bytes::copy_from_slice(b"c"),
    ]);
    assert_eq!(Bytes::copy_from_slice(b"ab"), d.get_bytes(2));
    assert_eq!(1, d.len());
    assert_eq!(b"c", d.bytes());
}

#[test]
fn get_bytes_zero_from_empty_run() {
    let mut d = BufVecDeque::<Bytes>::new();
    assert!(d.get_bytes(0).is_empty());
    assert_eq!(0, d.len());
}

#[test]
fn bytes_vectored_stops_at_max() {
    let d = BufVecDeque::from_chunks(vec![
        Bytes::new(),
        Bytes::copy_from_slice(b"ab"),
        Bytes::copy_from_slice(b"c"),
        Bytes::copy_from_slice(b"de"),
    ]);
    let mut dst: Vec<&[u8]> = Vec::new();
    assert_eq!(2, d.bytes_vectored(&mut dst, 2));
    assert_eq!(vec![&b"ab"[..], &b"c"[..]], dst);
}

#[test]
fn bytes_vectored_covers_everything_when_room() {
    let d = BufVecDeque::from_chunks(vec![
        Bytes::copy_from_slice(b"ab"),
        Bytes::new(),
        Bytes::copy_from_slice(b"cde"),
    ]);
    let mut dst: Vec<&[u8]> = Vec::new();
    assert_eq!(2, d.bytes_vectored(&mut dst, 8));
    assert_eq!(vec![&b"ab"[..], &b"cde"[..]], dst);
    let mut none: Vec<&[u8]> = Vec::new();
    assert_eq!(0, d.bytes_vectored(&mut none, 0));
    assert!(none.is_empty());
}

#[test]
fn bytes_vectored_vec_deque_wrapped() {
    let mut q: VecDeque<u8> = VecDeque::with_capacity(4);
    q.push_back(1);
    q.push_back(2);
    q.push_back(3);
    q.pop_front();
    q.pop_front();
    q.push_back(4);
    q.push_back(5);
    q.push_back(6);
    let mut d = BufVecDeque::<VecDeque<u8>>::new();
    d.push_back(q);
    let mut dst: Vec<&[u8]> = Vec::new();
    let n = d.bytes_vectored(&mut dst, 4);
    let joined: Vec<u8> = dst.iter().flat_map(|s| s.iter().copied()).collect();
    assert_eq!(vec![3, 4, 5, 6], joined);
    assert_eq!(n, dst.len());
    assert!(dst.iter().all(|s| !s.is_empty()));
}

#[test]
fn default_is_empty() {
    let d: BufVecDeque<Bytes> = Default::default();
    assert_eq!(0, d.len());
}

#[test]
fn back_mut_several_changes_in_one_call() {
    let mut d = BufVecDeque::<VecDeque<u8>>::new();
    d.push_back(VecDeque::from(vec![3, 4]));
    d.push_back(VecDeque::from(vec![4, 6]));
    d.advance(1);
    assert_eq!(3, d.len());
    assert!(d.back_mut(|mut b| {
        b.push_back(7);
        b.push_back(8);
        b.pop_front();
        b
    }));
    assert_eq!(4, d.len());
    assert_eq!(Bytes::copy_from_slice(&[4, 6, 7, 8]), d.to_bytes());
}
