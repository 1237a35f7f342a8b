use kupsy::search::{binary_search, binary_search_with};

#[test]
fn binary_search_simple() {
    let vec = vec![3, 11, 30, 31, 34, 38, 69, 72, 80, 82, 85];
    let res = binary_search(&vec, &31);
    assert_eq!(res, Some(3));
}

#[test]
fn simple_with() {
    let vec = vec![3, 11, 30, 31, 34, 38, 69, 72, 80, 82, 85];
    let res = binary_search_with(&vec, |a| a.cmp(&31));
    assert_eq!(res, Some(3));
}

#[test]
fn simple_slice() {
    let vec = vec![3, 11, 30, 31, 34, 38, 69, 72, 80, 82, 85];
    let res = binary_search(&vec[3..], &31);
    assert_eq!(res, Some(0));
}

#[test]
fn empty_slice_not_found() {
    let slice: &[i32] = &[];
    let target = 5;
    assert_eq!(binary_search(slice, &target), None);
}

#[test]
fn single_element_found() {
    let slice = &[5];
    let target = 5;
    assert_eq!(binary_search(slice, &target), Some(0));
}

#[test]
fn single_element_not_found_less() {
    let slice = &[5];
    let target = 4;
    assert_eq!(binary_search(slice, &target), None);
}

#[test]
fn single_element_not_found_greater() {
    let slice = &[5];
    let target = 6;
    assert_eq!(binary_search(slice, &target), None);
}

#[test]
fn multiple_elements_found_middle() {
    let slice = &[1, 3, 5, 7, 9];
    let target = 5;
    assert_eq!(binary_search(slice, &target), Some(2));
}

#[test]
fn multiple_elements_found_beginning() {
    let slice = &[1, 3, 5, 7, 9];
    let target = 1;
    assert_eq!(binary_search(slice, &target), Some(0));
}

#[test]
fn multiple_elements_found_end() {
    let slice = &[1, 3, 5, 7, 9];
    let target = 9;
    assert_eq!(binary_search(slice, &target), Some(4));
}

#[test]
fn repeated_elements_first_occurrence() {
    let slice = &[1, 1, 3, 5, 5];
    let target = 5;
    assert_eq!(binary_search(slice, &target), Some(3));
}

#[test]
fn custom_comparison_reverse_order() {
    let slice = &[1, 3, 5];
    let target = 5;
    let comparison = |a: &i32| a.cmp(&target);
    assert_eq!(binary_search_with(slice, comparison), Some(2));
}

#[test]
fn custom_comparison_ignore_field() {
    let slice = &[(5, "a"), (3, "b"), (1, "c")];
    let target = 5;
    let comparison = |(a, _): &(i32, &str)| target.cmp(&a);
    assert_eq!(binary_search_with(slice, comparison), Some(0));
}

#[test]
fn every_value_of_a_sorted_slice_is_found() {
    let slice = [2, 3, 5, 7, 11, 13, 17, 19];
    for (at, value) in slice.iter().enumerate() {
        assert_eq!(binary_search(&slice, value), Some(at));
        assert_eq!(binary_search_with(&slice, |x| x.cmp(value)), Some(at));
    }
    for missing in [0, 1, 4, 6, 8, 12, 18, 20] {
        assert_eq!(binary_search(&slice, &missing), None);
        assert_eq!(binary_search_with(&slice, |x| x.cmp(&missing)), None);
    }
}

#[test]
fn bisection_meets_the_lower_middle_first() {
    let slice = [4, 4, 4, 4];
    assert_eq!(binary_search(&slice, &4), Some(1));
    assert_eq!(binary_search_with(&slice, |x| x.cmp(&4)), Some(1));
}
