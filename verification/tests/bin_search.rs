use complx_app::bin_search::bin_search;

#[test]
fn it_works() {
    let col_test = vec![1, 2, 3, 4, 5, 6];
    let res = bin_search(&col_test, 1);
    assert_eq!(res, Some((0, 1)))
}

#[test]
fn bin_search_finds_a_middle_element() {
    let col = vec![1, 3, 5, 7, 9];
    assert_eq!(bin_search(&col, 7), Some((3, 7)));
}

#[test]
fn bin_search_misses_an_absent_element() {
    let col = vec![1, 3, 5, 7, 9];
    assert_eq!(bin_search(&col, 4), None);
    assert_eq!(bin_search(&col, 100), None);
}

#[test]
fn bin_search_finds_the_last_element() {
    let col = vec![2, 4, 8];
    assert_eq!(bin_search(&col, 8), Some((2, 8)));
}
