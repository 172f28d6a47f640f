use lazy_concat::{SliceRange, Sliceable};

#[test]
fn test_vec_bounded() {
    let v = vec![0, 1, 2, 3, 4, 5];
    let slice: Vec<u32> = v.get_slice(SliceRange::bounded(1, 3));
    assert_eq!(vec![1, 2], slice);
}

#[test]
fn test_vec_unbounded() {
    let v = vec![0, 1, 2, 3, 4, 5];
    let slice: Vec<u32> = v.get_slice(SliceRange::from_start(3));
    assert_eq!(vec![3, 4, 5], slice);
}

#[test]
fn test_string() {
    let string = String::from("hello");
    let slice: String = string.get_slice(SliceRange::inclusive(0, 2));
    assert_eq!("hel", slice);
}

#[test]
fn test_string_full_range() {
    let string = String::from("hello");
    let slice: String = string.get_slice(SliceRange::full());
    assert_eq!("hello", slice);
}

#[test]
fn test_vec_empty_range() {
    let v = vec![7u32, 8];
    let slice: Vec<u32> = v.get_slice(SliceRange::bounded(1, 1));
    assert_eq!(Vec::<u32>::new(), slice);
}
