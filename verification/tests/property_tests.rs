use lazy_concat::consuming;
use lazy_concat::{Concat, LazyConcat, Length, SliceRange};

#[test]
fn scenario_text_iterate_then_normalize() {
    // Start with empty text, append three pieces: iteration sees the whole
    // logical value before anything is joined, and a full normalization
    // materializes the same value.
    let mut lz = LazyConcat::new(String::from(""))
        .and_concat(String::from("hel"))
        .and_concat(String::from("lo the"))
        .and_concat(String::from("re!"));
    let seen: String = lz.chars().into_iter().collect();
    assert_eq!("hello there!", seen);
    lz.normalize();
    assert_eq!("hello there!", lz.done());
}

#[test]
fn scenario_list_partial_fold() {
    // Appending [1,2,3], [4,5], [6,7,8] and asking for four elements folds
    // exactly two fragments: the root becomes [1,2,3,4,5] and the third
    // fragment stays pending.
    let mut lz = LazyConcat::new(Vec::new())
        .and_concat(vec![1, 2, 3])
        .and_concat(vec![4, 5])
        .and_concat(vec![6, 7, 8]);
    let res = lz.normalize_to_len(4);
    assert_eq!(Some(5), res);
    assert_eq!(5, lz.get_normalized_len());
    let slice: Vec<i32> = lz.get_slice(SliceRange::bounded(1, 4));
    assert_eq!(vec![2, 3, 4], slice);
    assert_eq!("LazyConcat { [1, 2, 3, 4, 5], [6, 7, 8] }", lz.debug_string());
}

#[test]
fn scenario_insufficient_data() {
    // Asking for more elements than root and fragments together hold
    // reports the shortfall and leaves the buffer untouched.
    let mut lz = LazyConcat::new(vec![1u32, 2]).and_concat(vec![3]);
    let before = lz.debug_string();
    assert_eq!(None, lz.normalize_to_len(10));
    assert_eq!(before, lz.debug_string());
    assert_eq!(2, lz.get_normalized_len());
}

#[test]
fn boundary_slice_at_normalized_len() {
    // Slicing exactly up to the normalized length succeeds; one element
    // past it is outside the get_slice precondition, which
    // slice_needs_normalization reports.
    let mut lz = LazyConcat::new(vec![1u32, 2, 3]).and_concat(vec![4]);
    let n = lz.get_normalized_len();
    assert_eq!(3, n);
    let s: Vec<u32> = lz.get_slice(SliceRange::bounded(0, n));
    assert_eq!(vec![1, 2, 3], s);
    assert!(!lz.slice_needs_normalization(SliceRange::bounded(0, 3)));
    assert!(lz.slice_needs_normalization(SliceRange::bounded(0, 4)));
    assert!(lz.slice_needs_normalization(SliceRange::inclusive(0, 3)));
    // an unbounded range needs normalization exactly while fragments remain
    assert!(lz.slice_needs_normalization(SliceRange::full()));
    lz.normalize();
    assert!(!lz.slice_needs_normalization(SliceRange::full()));
}

#[test]
fn iterate_does_not_change_state() {
    // Iterating any number of times changes neither the normalized length
    // nor the pending fragments.
    let lz = LazyConcat::new(String::from("ab")).and_concat(String::from("cd"));
    let before = lz.debug_string();
    let _ = lz.chars();
    let _ = lz.chars();
    let _ = lz.bytes();
    assert_eq!(before, lz.debug_string());
    assert_eq!(2, lz.get_normalized_len());
}

#[test]
fn normalize_twice_same_value() {
    // Normalizing an already-normalized buffer is a no-op.
    let mut lz = LazyConcat::new(String::from("a")).and_concat(String::from("b"));
    lz.normalize();
    let first = lz.debug_string();
    let len_after_first = lz.get_normalized_len();
    lz.normalize();
    assert_eq!(first, lz.debug_string());
    assert_eq!(len_after_first, lz.get_normalized_len());
    assert_eq!("ab", lz.done());
}

#[test]
fn normalize_to_len_repeat_noop() {
    // After a successful partial fold, asking for the same or a smaller
    // target folds nothing more and reports the same length.
    let mut lz = LazyConcat::new(Vec::new())
        .and_concat(vec![1u32, 2])
        .and_concat(vec![3, 4])
        .and_concat(vec![5]);
    assert_eq!(Some(4), lz.normalize_to_len(3));
    let snapshot = lz.debug_string();
    assert_eq!(Some(4), lz.normalize_to_len(3));
    assert_eq!(Some(4), lz.normalize_to_len(2));
    assert_eq!(snapshot, lz.debug_string());
}

#[test]
fn normalize_to_len_zero_is_satisfied() {
    let mut lz = LazyConcat::new(Vec::<u32>::new()).and_concat(vec![1]);
    assert_eq!(Some(0), lz.normalize_to_len(0));
    assert_eq!("LazyConcat { [], [1] }", lz.debug_string());
}

#[test]
fn equivalence_with_eager_concat() {
    // The deferred buffer and the concatenation capability applied eagerly
    // produce the same value.
    let eager = String::from("ab").concat(String::from("cd")).concat(String::from("ef"));
    let lazy = LazyConcat::new(String::from("ab"))
        .and_concat(String::from("cd"))
        .and_concat(String::from("ef"))
        .done();
    assert_eq!(eager, lazy);
}

#[test]
fn equivalence_with_eager_concat_consuming() {
    let eager = vec![1u32, 2].concat(vec![3]).concat(vec![4, 5]);
    let lazy = consuming::LazyConcat::new(vec![1u32, 2])
        .concat(vec![3])
        .concat(vec![4, 5])
        .normalize()
        .done();
    assert_eq!(eager, lazy);
}

#[test]
fn length_trait_counts_elements() {
    assert_eq!(3, Length::len(&vec![10u32, 20, 30]));
    assert_eq!(5, Length::len(&String::from("hello")));
    assert!(Length::is_empty(&String::new()));
    assert!(!Length::is_empty(&vec![1u32]));
}

#[test]
fn dump_renders_numbers_exactly() {
    let lz = LazyConcat::new(vec![0u32, 10, 205]);
    assert_eq!("LazyConcat { [0, 10, 205] }", lz.debug_string());
    let neg = LazyConcat::new(vec![-5i32, 17]);
    assert_eq!("LazyConcat { [-5, 17] }", neg.debug_string());
    let bytes = LazyConcat::new(vec![7u8, 255]);
    assert_eq!("LazyConcat { [7, 255] }", bytes.debug_string());
    let wide = LazyConcat::new(vec![18446744073709551615u64]);
    assert_eq!("LazyConcat { [18446744073709551615] }", wide.debug_string());
}

#[test]
fn dump_escapes_quotes_and_backslashes() {
    let lz = LazyConcat::new(String::from("a\"b\\c"));
    assert_eq!("LazyConcat { \"a\\\"b\\\\c\" }", lz.debug_string());
}

#[test]
fn split_then_reunite_keeps_all_data() {
    let mut lz = LazyConcat::new(String::from("left")).and_concat(String::from("-mid"));
    lz.normalize();
    let (root, mut handle) = lz.split_normalized();
    assert_eq!("left-mid", root);
    handle.concat(String::from("-right"));
    let lz = LazyConcat::reunite(root, handle);
    assert_eq!("left-mid-right", lz.done());
}
