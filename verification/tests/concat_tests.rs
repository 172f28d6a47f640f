use lazy_concat::Concat;

#[test]
fn string_concat_string() {
    let s = String::from("abc");
    let res: String = s.concat(String::from("123"));
    assert_eq!(res, "abc123");
}

#[test]
fn string_concat_str() {
    let s = String::from("abc");
    let res: String = s.concat("123".to_owned());
    assert_eq!(res, "abc123");
}

#[test]
fn string_concat_cow() {
    let s = String::from("abc");
    let res: String = s.concat(String::from("123"));
    assert_eq!(res, "abc123");
}

#[test]
fn string_concat_multi() {
    let s = String::from("abc");
    let res: String = s.concat(String::from("12")).concat(String::from("3"));
    assert_eq!(res, "abc123");
}

#[test]
fn vec_concat_slice() {
    let s = vec![1, 2, 3];
    let to_append = vec![4, 5];
    let res: Vec<u32> = s.concat(to_append);
    assert_eq!(res, vec![1, 2, 3, 4, 5]);
}

#[test]
fn vec_concat_vec() {
    let s = vec![1, 2, 3];
    let to_append = vec![4, 5];
    let res: Vec<u32> = s.concat(to_append);
    assert_eq!(res, vec![1, 2, 3, 4, 5]);
}

#[test]
fn vec_concat_empty() {
    let s: Vec<u32> = vec![];
    let res = s.concat(vec![]).concat(vec![7]);
    assert_eq!(res, vec![7]);
}
