use bytes::Bytes;
use bytes_deque::BytesDeque;
use bytes_deque::Chunk;
use bytes_deque::GetBytes;
use rand::thread_rng;
use rand::Rng;

fn extend_iter() {
    let mut d = BytesDeque::new();
    let mut reference = Vec::new();

    for _ in 0..10 {
        let bytes = if thread_rng().gen_range(0, 3) == 0 {
            Bytes::new()
        } else {
            let len = thread_rng().gen_range(0, 10);
            let mut v = Vec::new();
            for _ in 0..len {
                v.push(thread_rng().gen());
            }
            Bytes::from(v)
        };

        reference.extend_from_slice(&bytes);
        d.extend(bytes);
    }

    assert_eq!(reference, d.into_vec());
}

#[test]
fn extend() {
    for _ in 0..10000 {
        extend_iter();
    }
}

fn ab_cde() -> BytesDeque {
    let mut d = BytesDeque::new();
    d.extend(Bytes::copy_from_slice(b"ab"));
    d.extend(Bytes::copy_from_slice(b"cde"));
    d
}

#[test]
fn get_bytes_one_at_a_time() {
    let mut d = ab_cde();
    assert_eq!(5, d.len());
    assert_eq!(Bytes::copy_from_slice(b"a"), GetBytes::get_bytes(&mut d, 1));
    assert_eq!(4, d.len());
    assert_eq!(Bytes::copy_from_slice(b"b"), GetBytes::get_bytes(&mut d, 1));
    assert_eq!(3, d.len());
    assert_eq!(Bytes::copy_from_slice(b"cde"), GetBytes::get_bytes(&mut d, 3));
    assert_eq!(0, d.len());
}

#[test]
fn get_bytes_across_views() {
    let mut d = ab_cde();
    assert_eq!(Bytes::copy_from_slice(b"abc"), GetBytes::get_bytes(&mut d, 3));
    assert_eq!(2, d.len());
    assert_eq!(Bytes::copy_from_slice(b"de"), d.get_bytes());
}

#[test]
fn get_bytes_of_single_view() {
    let mut d = BytesDeque::copy_from_slice(b"hello");
    assert_eq!(Bytes::copy_from_slice(b"he"), GetBytes::get_bytes(&mut d, 2));
    assert_eq!(3, d.len());
    assert_eq!(Bytes::copy_from_slice(b"llo"), d.get_bytes());
}

#[test]
fn new_is_empty() {
    let d = BytesDeque::new();
    assert_eq!(0, d.len());
    assert!(d.get_bytes().is_empty());
    assert!(d.into_vec().is_empty());
}

#[test]
fn extend_with_empty_views() {
    let mut d = BytesDeque::new();
    d.extend(Bytes::new());
    assert_eq!(0, d.len());
    d.extend(Bytes::copy_from_slice(b"x"));
    d.extend(Bytes::new());
    d.extend(Bytes::copy_from_slice(b"yz"));
    d.extend(Bytes::new());
    assert_eq!(3, d.len());
    assert_eq!(b"xyz".to_vec(), d.into_vec());
}

#[test]
fn extend_after_draining_a_run() {
    let mut d = ab_cde();
    d.advance(5);
    assert_eq!(0, d.len());
    d.extend(Bytes::copy_from_slice(b"fg"));
    assert_eq!(2, d.len());
    assert_eq!(b"fg", d.bytes());
    assert_eq!(Bytes::copy_from_slice(b"fg"), d.into_bytes());
}

#[test]
fn advance_drops_prefix() {
    let mut d = ab_cde();
    d.advance(1);
    assert_eq!(4, d.len());
    assert_eq!(b"b", d.bytes());
    d.advance(2);
    assert_eq!(2, d.len());
    assert_eq!(b"de".to_vec(), d.into_vec());
}

#[test]
fn advance_single_view() {
    let mut d = BytesDeque::copy_from_slice(b"hello");
    d.advance(4);
    assert_eq!(1, d.len());
    assert_eq!(b"o", d.bytes());
}

#[test]
fn into_bytes_copies_a_run() {
    let d = ab_cde();
    assert_eq!(Bytes::copy_from_slice(b"abcde"), d.into_bytes());
}

#[test]
fn to_bytes_empties() {
    let mut d = ab_cde();
    assert_eq!(Bytes::copy_from_slice(b"abcde"), d.to_bytes());
    assert_eq!(0, d.len());
    let mut s = BytesDeque::copy_from_slice(b"q");
    assert_eq!(Bytes::copy_from_slice(b"q"), s.to_bytes());
    assert_eq!(0, s.len());
}

#[test]
fn equality_compares_bytes() {
    let a = ab_cde();
    let b = BytesDeque::copy_from_slice(b"abcde");
    let c = BytesDeque::copy_from_slice(b"abcdf");
    assert!(a == b);
    assert!(b == a);
    assert!(a != c);
    assert!(BytesDeque::new() == BytesDeque::new());
}

#[test]
fn from_bytes_holds_the_view() {
    let d = BytesDeque::from(Bytes::copy_from_slice(b"xyz"));
    assert_eq!(3, d.len());
    assert_eq!(b"xyz", d.bytes());
    assert_eq!(3, d.remaining());
}

#[test]
fn bytes_of_run_is_first_view() {
    let d = ab_cde();
    assert_eq!(b"ab", d.bytes());
}

#[test]
fn bytes_vectored_of_single_view() {
    let d = BytesDeque::copy_from_slice(b"xyz");
    let mut dst: Vec<&[u8]> = Vec::new();
    assert_eq!(1, d.bytes_vectored(&mut dst, 3));
    assert_eq!(vec![&b"xyz"[..]], dst);
}

#[test]
fn bytes_vectored_of_run() {
    let d = ab_cde();
    let mut dst: Vec<&[u8]> = Vec::new();
    assert_eq!(1, d.bytes_vectored(&mut dst, 1));
    assert_eq!(vec![&b"ab"[..]], dst);
}

#[test]
fn equality_with_slice() {
    let d = ab_cde();
    assert!(d == b"abcde"[..]);
    assert!(d != b"abcd"[..]);
    assert!(BytesDeque::default() == b""[..]);
}

#[test]
fn from_vec_and_str() {
    let v = BytesDeque::from(vec![1u8, 2, 3]);
    assert_eq!(3, v.len());
    assert!(v == [1u8, 2, 3][..]);
    let s = BytesDeque::from("hey");
    assert_eq!(3, s.len());
    assert_eq!(b"hey".to_vec(), s.into_vec());
    assert_eq!(0, BytesDeque::from("").len());
}

#[test]
fn into_bytes_of_single_view_is_that_view() {
    let b = Bytes::from(vec![5u8, 6, 7]);
    let p = b.as_ptr();
    let out = BytesDeque::from(b).into_bytes();
    assert_eq!(p, out.as_ptr());
    assert_eq!(Bytes::copy_from_slice(&[5, 6, 7]), out);
}

#[test]
fn debug_shows_something() {
    let d = ab_cde();
    assert!(!format!("{:?}", d).is_empty());
}
