use protohackers::text::{find, split};
use protohackers::toys::most_copies;

#[test]
fn order_of_most_copies_is_the_answer() {
    assert_eq!(
        most_copies(b"10x toy car,15x dog on a string,4x inflatable motorcycle"),
        Some(b"15x dog on a string".to_vec())
    );
    assert_eq!(most_copies(b"4x dog,5x car\n"), Some(b"5x car\n".to_vec()));
    assert_eq!(
        most_copies(b"3x rat,2x cat\n"),
        Some(b"3x rat".to_vec())
    );
}

#[test]
fn first_of_equal_orders_wins() {
    assert_eq!(most_copies(b"7x a,7x b,6x c"), Some(b"7x a".to_vec()));
}

#[test]
fn name_is_all_after_the_first_x() {
    assert_eq!(most_copies(b"2x xylophone x"), Some(b"2x xylophone x".to_vec()));
    assert_eq!(most_copies(b"2x"), Some(b"2x".to_vec()));
    assert_eq!(most_copies(b"+2xa"), Some(b"2xa".to_vec()));
    assert_eq!(most_copies(b"002xa"), Some(b"2xa".to_vec()));
}

#[test]
fn no_copies_at_all_gives_the_empty_order() {
    assert_eq!(most_copies(b"0x nothing,0x nil"), Some(b"0x".to_vec()));
}

#[test]
fn largest_count_that_fits() {
    assert_eq!(most_copies(b"4294967295x a,1x b"), Some(b"4294967295x a".to_vec()));
    assert_eq!(most_copies(b"4294967296x a,1x b"), None);
}

#[test]
fn a_part_that_is_no_order_gives_nothing() {
    assert_eq!(most_copies(b""), None);
    assert_eq!(most_copies(b"\n"), None);
    assert_eq!(most_copies(b"10x car,"), None);
    assert_eq!(most_copies(b",10x car"), None);
    assert_eq!(most_copies(b"10 car"), None);
    assert_eq!(most_copies(b"x car"), None);
    assert_eq!(most_copies(b"ten x car"), None);
    assert_eq!(most_copies(b"1 x car"), None);
    assert_eq!(most_copies(b"-1x car"), None);
    assert_eq!(most_copies(b"5x a,bad,9x b"), None);
}

#[test]
fn split_gives_one_piece_more_than_separators() {
    assert_eq!(split(b"a,b,c", b','), vec![b"a".to_vec(), b"b".to_vec(), b"c".to_vec()]);
    assert_eq!(split(b"", b','), vec![Vec::<u8>::new()]);
    assert_eq!(split(b",", b','), vec![Vec::<u8>::new(), Vec::new()]);
    assert_eq!(split(b"a,,b,", b','), vec![b"a".to_vec(), Vec::new(), b"b".to_vec(), Vec::new()]);
    assert_eq!(split(b"abc", b','), vec![b"abc".to_vec()]);
}

#[test]
fn find_gives_the_first_place_or_the_length() {
    assert_eq!(find(b"a=b=c", b'=', 0), 1);
    assert_eq!(find(b"a=b=c", b'=', 1), 1);
    assert_eq!(find(b"a=b=c", b'=', 2), 3);
    assert_eq!(find(b"a=b=c", b'=', 4), 5);
    assert_eq!(find(b"a=b=c", b'=', 5), 5);
    assert_eq!(find(b"", b'=', 0), 0);
}
