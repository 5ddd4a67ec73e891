use async_fcgi::bufvec::BufList;
use bytes::Bytes;

#[test]
fn advance_crosses_buffers() {
    let mut l: BufList<Bytes> = BufList::new();
    l.push(Bytes::copy_from_slice(b"abc"));
    l.push(Bytes::copy_from_slice(b"def"));
    assert_eq!(l.remaining(), 6);
    l.advance(4);
    assert_eq!(l.chunk(), b"ef");
    l.advance(9);
    assert!(!l.has_remaining());
    assert_eq!(l.chunk(), b"");
}

#[test]
fn lists_join_and_give_out() {
    let mut a: BufList<Bytes> = BufList::new();
    a.push(Bytes::from_static(b"1"));
    let mut b: BufList<Bytes> = BufList::new();
    b.push(Bytes::from_static(b"23"));
    b.push(Bytes::from_static(b"456"));
    a.append(b);
    assert_eq!(&a.copy_to_bytes(2)[..], b"12");
    assert_eq!(a.oldest().unwrap(), &b"3"[..]);
    assert_eq!(a.oldest().unwrap(), &b"456"[..]);
    assert!(a.oldest().is_none());
    assert_eq!(a.remaining(), 0);
}

#[test]
fn a_buffer_is_put_first() {
    let mut list: BufList<Bytes> = BufList::new();
    list.push_front(Bytes::from_static(b"cd"));
    list.push(Bytes::from_static(b"e"));
    list.push_front(Bytes::from_static(b"ab"));
    assert_eq!(list.remaining(), 5);
    assert_eq!(list.chunk(), b"ab");
    assert_eq!(&list.copy_to_bytes(5)[..], b"abcde");
}
