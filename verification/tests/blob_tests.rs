use hb_subset::Blob;

#[test]
fn empty_is_empty() {
    assert!(Blob::from_bytes(&[]).unwrap().is_empty());
}

#[test]
fn non_empty_is_not_empty() {
    assert!(!Blob::from_bytes(&[1, 2, 3]).unwrap().is_empty());
}

#[test]
fn blob_len_works() {
    assert_eq!(Blob::from_bytes(&[]).unwrap().len(), 0);
    assert_eq!(Blob::from_bytes(&[1, 2, 3]).unwrap().len(), 3);
}

#[test]
fn content_is_correct() {
    assert_eq!(Blob::from_bytes(&[1, 2, 3]).unwrap().as_bytes(), &[1, 2, 3]);
}

#[test]
fn clone_refers_to_same_object() {
    let b1 = Blob::from_bytes(&[1, 2, 3]).unwrap();
    let b2 = b1.clone();
    assert_eq!(b1.as_bytes(), &[1, 2, 3]);
    assert_eq!(b2.as_bytes(), &[1, 2, 3]);
    drop(b1);
    assert_eq!(b2.as_bytes(), &[1, 2, 3]);
}

#[test]
fn blob_hands_out_a_copy() {
    let blob = Blob::from_bytes(&[9, 8, 7]).unwrap();
    let mut copy = blob.to_vec();
    copy.push(6);
    assert_eq!(copy, vec![9, 8, 7, 6]);
    assert_eq!(blob.to_vec(), vec![9, 8, 7]);
    assert!(Blob::empty().is_empty());
}

#[test]
fn blob_convert_into_raw_and_back() {
    let blob = Blob::from_bytes(&[1, 2, 3]).unwrap();
    let raw = blob.into_raw();
    let blob = Blob::from_raw(raw);
    assert_eq!(blob.as_raw(), &vec![1, 2, 3]);
    drop(blob);
}
