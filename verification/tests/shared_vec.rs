use magic_squares::shared_vec::SharedVec;

#[test]
fn shared_vec_push_and_len() {
    let mut list = SharedVec::default();
    assert_eq!(list.len(), 0);
    list.push(7);
    list.push(3);
    assert_eq!(list.len(), 2);
    assert_eq!(list.as_slice(), &[7, 3]);
    assert_eq!(list.into_inner(), vec![7, 3]);
}

#[test]
fn shared_vec_from_vec() {
    let list = SharedVec::from_vec(vec![1, 2, 3]);
    assert_eq!(list.len(), 3);
    assert_eq!(list.as_slice(), &[1, 2, 3]);
    assert_eq!(list.into_inner(), vec![1, 2, 3]);
}
