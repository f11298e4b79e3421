use adlt::options::index_first;
use adlt::options::index_last;
use adlt::options::index_or;
use adlt::options::lifecycle_ids;
use adlt::options::output_style;
use adlt::options::parse_index;
use adlt::options::OutputStyle;

#[test]
fn an_index_is_a_decimal_number() {
    assert_eq!(parse_index("0"), Some(0));
    assert_eq!(parse_index("42"), Some(42));
    assert_eq!(parse_index("+42"), Some(42));
    assert_eq!(parse_index("007"), Some(7));
    assert_eq!(parse_index("4294967295"), Some(u32::MAX));
    assert_eq!(parse_index("4294967296"), None);
    assert_eq!(parse_index("99999999999999999999"), None);
    assert_eq!(parse_index(""), None);
    assert_eq!(parse_index("+"), None);
    assert_eq!(parse_index("-1"), None);
    assert_eq!(parse_index("++1"), None);
    assert_eq!(parse_index("1+"), None);
    assert_eq!(parse_index(" 1"), None);
    assert_eq!(parse_index("1 "), None);
    assert_eq!(parse_index("12a"), None);
    assert_eq!(parse_index("0x10"), None);
    assert_eq!(parse_index("\u{661}"), None);
}

#[test]
fn an_index_is_read_as_std_reads_it() {
    for text in ["0", "+0", "10", "4294967295", "4294967296", "", "+", "a", "1_0", "00000000001"] {
        assert_eq!(parse_index(text), text.parse::<u32>().ok());
    }
}

#[test]
fn the_first_index_defaults_to_zero() {
    assert_eq!(index_first(None), 0);
    assert_eq!(index_first(Some("17")), 17);
    assert_eq!(index_first(Some("x")), 0);
}

#[test]
fn the_last_index_defaults_to_the_largest_and_fails_to_zero() {
    assert_eq!(index_last(None), u32::MAX);
    assert_eq!(index_last(Some("17")), 17);
    assert_eq!(index_last(Some("x")), 0);
    assert_eq!(index_or(Some("x"), 1, 2), 2);
    assert_eq!(index_or(None, 1, 2), 1);
    assert_eq!(index_or(Some("3"), 1, 2), 3);
}

#[test]
fn lifecycle_ids_leave_out_what_is_no_number() {
    let arguments: Vec<String> =
        ["3", "x", "1", "", "3", "-2"].iter().map(|s| s.to_string()).collect();
    assert_eq!(lifecycle_ids(&arguments), vec![3, 1, 3]);
    assert_eq!(lifecycle_ids(&vec![]), Vec::<u32>::new());
}

#[test]
fn the_first_style_that_is_asked_for_wins() {
    assert_eq!(output_style(true, true, true, true), OutputStyle::Hex);
    assert_eq!(output_style(false, true, true, true), OutputStyle::Ascii);
    assert_eq!(output_style(false, false, true, true), OutputStyle::Mixed);
    assert_eq!(output_style(false, false, false, true), OutputStyle::HeaderOnly);
    assert_eq!(output_style(false, false, false, false), OutputStyle::Silent);
    assert_eq!(output_style(true, false, false, false), OutputStyle::Hex);
}
