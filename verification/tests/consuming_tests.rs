use lazy_concat::consuming::LazyConcat;

#[test]
fn consuming_test_1() {
    let a = "hel";
    let b = "lo the";
    let c = "re!";
    let lz = LazyConcat::new(String::new())
        .concat(String::from(a))
        .concat(String::from(b))
        .concat(String::from(c));

    assert_eq!("LazyConcat { , \"\", \"hel\", \"lo the\", \"re!\" }", lz.debug_string());

    let lz = lz.normalize();
    assert_eq!("hello there!", lz.display_string());

    let res = lz.done();
    assert_eq!("hello there!", res);
}

#[test]
fn consuming_concat_boxed() {
    let lz = LazyConcat::new(String::from("Hello"))
        .concat_boxed(Box::new(String::from(" ")))
        .concat(String::from("world"));
    assert_eq!("Hello world", lz.normalize().done());
}

#[test]
fn consuming_get_reads_normalized_root() {
    let lz = LazyConcat::new(String::from("xy")).concat(String::from("z")).normalize();
    assert_eq!("xyz", lz.get().as_str());
    // reading does not consume the buffer
    assert_eq!("xyz", lz.done());
}

#[test]
fn consuming_vec_roundtrip() {
    let lz = LazyConcat::new(vec![1u32]).concat(vec![2, 3]).concat_boxed(Box::new(vec![4]));
    assert_eq!("LazyConcat { , [1], [2, 3], [4] }", lz.debug_string());
    assert_eq!(vec![1, 2, 3, 4], lz.normalize().done());
}
