use protohackers::proxy::{rewrite, rewrite_chars};
use protohackers::unicode::{char_len, chars_of, string_of};

const OWN: &str = "7YWHMfk9JZe0LM0g1ZauHuiSxhI";

#[test]
fn address_in_a_line_is_replaced() {
    assert_eq!(
        rewrite("Hi alice, please send payment to 7iKDZEwPZSqIvDnHvVN2r0hUWXD5rHX now\n"),
        format!("Hi alice, please send payment to {} now\n", OWN)
    );
    assert_eq!(
        rewrite("7F1u3wSD5RbOHQmupo9nx4TnhQ is mine\n"),
        format!("{} is mine\n", OWN)
    );
}

#[test]
fn several_addresses_are_all_replaced() {
    assert_eq!(
        rewrite("7F1u3wSD5RbOHQmupo9nx4TnhQ 7iKDZEwPZSqIvDnHvVN2r0hUWXD5rHX 7LOrwbDlS8NujgjddyogWgIM93MV5N2VR x"),
        format!("{} {} {} x", OWN, OWN, OWN)
    );
}

#[test]
fn address_length_goes_from_26_to_35_bytes() {
    let a25 = format!("7{}", "a".repeat(24));
    let a26 = format!("7{}", "a".repeat(25));
    let a35 = format!("7{}", "a".repeat(34));
    let a36 = format!("7{}", "a".repeat(35));
    assert_eq!(rewrite(&a25), a25);
    assert_eq!(rewrite(&a26), OWN);
    assert_eq!(rewrite(&a35), OWN);
    assert_eq!(rewrite(&a36), a36);
    let many = format!("7{}", "a".repeat(500));
    assert_eq!(rewrite(&many), many);
}

#[test]
fn length_counts_bytes_and_letters_go_by_unicode() {
    let part = format!("7{}", "é".repeat(13));
    assert_eq!(part.len(), 27);
    assert_eq!(rewrite(&part), OWN);
    let part = format!("7{}", "é".repeat(12));
    assert_eq!(part.len(), 25);
    assert_eq!(rewrite(&part), part);
    let part = format!("7{}", "é".repeat(18));
    assert_eq!(part.len(), 37);
    assert_eq!(rewrite(&part), part);
}

#[test]
fn what_is_no_address_stays() {
    for line in [
        "",
        " ",
        "  ",
        "hello world\n",
        "8F1u3wSD5RbOHQmupo9nx4TnhQxy",
        "7F1u3wSD5RbOHQmupo9nx4TnhQ-x",
        "7F1u3wSD5RbOHQmupo9nx4TnhQ\n",
        "x7F1u3wSD5RbOHQmupo9nx4TnhQ",
        "7F1u3wSD5RbOHQmupo9nx4TnhQ,7F1u3wSD5RbOHQmupo9nx4TnhQ",
    ] {
        assert_eq!(rewrite(line), line, "{:?}", line);
    }
}

#[test]
fn spaces_are_kept_as_they_are() {
    assert_eq!(
        rewrite("  7F1u3wSD5RbOHQmupo9nx4TnhQ  a "),
        format!("  {}  a ", OWN)
    );
}

#[test]
fn characters_and_strings_convert_both_ways() {
    let text = "a7é€😀 \n";
    let chars = chars_of(text);
    assert_eq!(chars, text.chars().collect::<Vec<char>>());
    assert_eq!(string_of(&chars), text);
    assert_eq!(rewrite_chars(&chars), chars);
    for c in text.chars() {
        assert_eq!(char_len(c), c.len_utf8());
    }
    assert_eq!(char_len('\u{7f}'), 1);
    assert_eq!(char_len('\u{80}'), 2);
    assert_eq!(char_len('\u{7ff}'), 2);
    assert_eq!(char_len('\u{800}'), 3);
    assert_eq!(char_len('\u{ffff}'), 3);
    assert_eq!(char_len('\u{10000}'), 4);
}
