use sortvis::algorithm::{get_sort_fn, run_sort, Algorithm};
use sortvis::data::{get_random_data, parse_data};
use sortvis::list::BasicList;

#[test]
fn parse_lines_with_blanks() {
    let text = "123\n57\n\n324\n   \n213";
    let parsed = parse_data(&text.as_bytes().to_vec());
    assert_eq!(parsed, Ok(vec![123, 57, 324, 213]));
}

#[test]
fn parse_trims_and_accepts_plus() {
    let text = "  42  \n+77\n\t9\r\n";
    let parsed = parse_data(&text.as_bytes().to_vec());
    assert_eq!(parsed, Ok(vec![42, 77, 9]));
}

#[test]
fn parse_reports_first_bad_line() {
    let text = "12\nx3\n4\nalso bad";
    let parsed = parse_data(&text.as_bytes().to_vec());
    assert_eq!(parsed, Err(2));
    let text = "\n\n-1\n";
    let parsed = parse_data(&text.as_bytes().to_vec());
    assert_eq!(parsed, Err(3));
}

#[test]
fn parse_bounds_of_u32() {
    let parsed = parse_data(&"4294967295".as_bytes().to_vec());
    assert_eq!(parsed, Ok(vec![u32::MAX]));
    let parsed = parse_data(&"4294967296".as_bytes().to_vec());
    assert_eq!(parsed, Err(1));
}

#[test]
fn parse_empty_and_blank_input() {
    assert_eq!(parse_data(&Vec::new()), Ok(vec![]));
    assert_eq!(parse_data(&" \n\t\n".as_bytes().to_vec()), Ok(vec![]));
}

#[test]
fn random_data_has_requested_length() {
    assert_eq!(get_random_data(0).len(), 0);
    assert_eq!(get_random_data(5).len(), 5);
    assert_eq!(get_random_data(100).len(), 100);
}

#[test]
fn algorithm_lookup_by_name() {
    assert_eq!(get_sort_fn("bubblesort"), Some(Algorithm::Bubble));
    assert_eq!(get_sort_fn("selectionsort"), Some(Algorithm::Selection));
    assert_eq!(get_sort_fn("quicksort"), Some(Algorithm::Quick));
    assert_eq!(get_sort_fn("quicksort2"), Some(Algorithm::Quick2));
    assert_eq!(get_sort_fn("heapsort"), None);
    assert_eq!(get_sort_fn(""), None);
    assert_eq!(get_sort_fn("Bubblesort"), None);
}

#[test]
fn run_sort_dispatches() {
    for alg in [
        Algorithm::Bubble,
        Algorithm::Selection,
        Algorithm::Quick,
        Algorithm::Quick2,
    ] {
        let mut list = BasicList::new(vec![9, 2, 8, 3, 7, 4, 6, 5]);
        run_sort(alg, &mut list);
        assert_eq!(list.slice, vec![2, 3, 4, 5, 6, 7, 8, 9]);
    }
}
