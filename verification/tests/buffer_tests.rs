use lazy_concat::{LazyConcat, SliceRange};

#[test]
fn lib_test_1() {
    let a = "hel";
    let b = "lo the";
    let c = "re!";
    let mut lz = LazyConcat::new(String::new())
        .and_concat(String::from(a))
        .and_concat(b.to_owned())
        .and_concat(String::from(c));

    assert_eq!("LazyConcat { \"\", \"hel\", \"lo the\", \"re!\" }", lz.debug_string());

    lz.normalize();
    assert_eq!("LazyConcat { \"hello there!\" }", lz.debug_string());

    let res = lz.done();
    assert_eq!("hello there!", res);
}

#[test]
fn normalize_to_len() {
    let a = "hel";
    let b = "lo the";
    let c = "re!";
    let mut lz = LazyConcat::new(String::new())
        .and_concat(String::from(a))
        .and_concat(b.to_owned())
        .and_concat(String::from(c));
    let res = lz.normalize_to_len(6);
    assert_eq!(Some(9), res);
    assert_eq!("LazyConcat { \"hello the\", \"re!\" }", lz.debug_string());
}

#[test]
fn string_iter_chars() {
    let a = "hel";
    let b = "lo the";
    let c = "re!";
    let lz = LazyConcat::new(String::new())
        .and_concat(String::from(a))
        .and_concat(b.to_owned())
        .and_concat(String::from(c));

    let chars: Vec<char> = lz.chars();
    assert_eq!(vec!['h', 'e', 'l', 'l', 'o', ' ', 't', 'h', 'e', 'r', 'e', '!'], chars);
    // should not have normalized it
    assert_eq!("LazyConcat { \"\", \"hel\", \"lo the\", \"re!\" }", lz.debug_string());
}

#[test]
fn string_iter_bytes() {
    let a = "形聲";
    let b = "網";
    let c = "网";
    let lz = LazyConcat::new(String::new())
        .and_concat(String::from(a))
        .and_concat(b.to_owned())
        .and_concat(String::from(c));

    let chars: Vec<u8> = lz.bytes();
    assert_eq!(vec![229, 189, 162, 232, 129, 178, 231, 182, 178, 231, 189, 145], chars);
    // should not have normalized it
    assert_eq!("LazyConcat { \"\", \"形聲\", \"網\", \"网\" }", lz.debug_string());
}

#[test]
fn vec_iter() {
    let a = vec![1, 2, 3];
    let b = vec![4, 5];
    let c = vec![6, 7, 8];
    let d = vec![9];
    let lz = LazyConcat::new(Vec::new())
        .and_concat(a.clone())
        .and_concat(b.clone())
        .and_concat(c.clone())
        .and_concat(d.clone());

    let v: Vec<u32> = lz.iter();
    assert_eq!(vec![1, 2, 3, 4, 5, 6, 7, 8, 9], v);
    // should not have normalized it
    assert_eq!("LazyConcat { [], [1, 2, 3], [4, 5], [6, 7, 8], [9] }", lz.debug_string());
}

#[test]
fn normalize_slice() {
    let a = vec![1, 2, 3];
    let b = vec![4, 5];
    let c = vec![6, 7, 8];
    let d = vec![9];
    let mut lz = LazyConcat::new(Vec::new())
        .and_concat(a.clone())
        .and_concat(b.clone())
        .and_concat(c.clone());

    {
        assert_eq!(0, lz.get_normalized_len());
        assert_eq!(true, lz.slice_needs_normalization(SliceRange::bounded(1, 4)));
        assert_eq!("LazyConcat { [], [1, 2, 3], [4, 5], [6, 7, 8] }", lz.debug_string());

        lz.normalize_to_len(4);
        assert_eq!(false, lz.slice_needs_normalization(SliceRange::bounded(1, 4)));
        assert_eq!("LazyConcat { [1, 2, 3, 4, 5], [6, 7, 8] }", lz.debug_string());
        let slice = lz.get_slice(SliceRange::bounded(1, 4));
        assert_eq!(vec![2, 3, 4], slice);
        assert_eq!(5, lz.get_normalized_len());
    }
    lz.concat(d.clone());
    assert_eq!("LazyConcat { [1, 2, 3, 4, 5], [6, 7, 8], [9] }", lz.debug_string());
    {
        let slice = lz.get_slice(SliceRange::bounded(2, 3));
        assert_eq!(vec![3], slice);
    }
}

#[test]
fn split_normalized_mut() {
    let a = vec![0, 1, 2, 3, 4];
    let mut lz = LazyConcat::new(Vec::new()).and_concat(a.clone());

    lz.normalize();
    let (root, mut handle) = lz.split_normalized();
    {
        let slice = &root[0..];
        // Still possible to concatenate while holding a slice
        handle.concat(vec![99]);
        assert_eq!(vec![0, 1, 2, 3, 4], slice);
    }
    let lz = LazyConcat::reunite(root, handle);
    assert_eq!(vec![0, 1, 2, 3, 4, 99], lz.done());
}

#[test]
fn expecting_num_fragments_behaves_like_new() {
    let mut lz = LazyConcat::expecting_num_fragments(String::from("a"), 3)
        .and_concat(String::from("b"))
        .and_concat(String::from("c"));
    assert_eq!(1, lz.get_normalized_len());
    lz.normalize();
    assert_eq!("abc", lz.done());
}
