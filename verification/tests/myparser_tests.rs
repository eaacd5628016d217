use embedded::myparser::MyParser;

#[test]
fn cell_names_convert() {
    assert_eq!(MyParser::cell_name_to_coord("A1"), Some((1, 1)));
    assert_eq!(MyParser::cell_name_to_coord("Z10"), Some((26, 10)));
    assert_eq!(MyParser::cell_name_to_coord("AA15"), Some((27, 15)));
    assert_eq!(MyParser::cell_name_to_coord("1A"), None);
    assert_eq!(MyParser::cell_name_to_coord("  b2 "), Some((2, 2)));
    assert_eq!(MyParser::cell_name_to_coord("A"), None);
    assert_eq!(MyParser::cell_name_to_coord(""), None);
    assert_eq!(MyParser::cell_name_to_coord("A1x"), None);
    assert_eq!(MyParser::cell_name_to_coord("A65535"), Some((1, 65535)));
    assert_eq!(MyParser::cell_name_to_coord("A65536"), None);
    assert_eq!(MyParser::cell_name_to_coord("A+5"), Some((1, 5)));
}

#[test]
fn binary_expressions_split() {
    assert_eq!(MyParser::split_binary("B1+C2"), Some(('+', "B1", "C2")));
    assert_eq!(MyParser::split_binary("5*3"), Some(('*', "5", "3")));
    assert_eq!(MyParser::split_binary("A1/2"), Some(('/', "A1", "2")));
    assert_eq!(MyParser::split_binary("A1+"), None);
    assert_eq!(MyParser::split_binary("+A1"), None);
    assert_eq!(MyParser::split_binary("-5+3"), Some(('+', "-5", "3")));
    assert_eq!(MyParser::split_binary("-5"), None);
    assert_eq!(MyParser::split_binary("2*3-1"), Some(('-', "2*3", "1")));
    assert_eq!(MyParser::split_binary("A1 - B2"), Some(('-', "A1 ", " B2")));
}

#[test]
fn range_calls_parse() {
    assert_eq!(
        MyParser::parse_range("MAX(A1:B3)"),
        Some(("MAX", (1, 1), (2, 3)))
    );
    assert_eq!(
        MyParser::parse_range("SUM(Z10:AA20)"),
        Some(("SUM", (26, 10), (27, 20)))
    );
    assert_eq!(MyParser::parse_range("INVALID_FUNC(A1:B3)"), None);
    assert_eq!(MyParser::parse_range("MAX(A1)"), None);
    assert_eq!(
        MyParser::parse_range("  STDEV( A1 : B2 ) "),
        Some(("STDEV", (1, 1), (2, 2)))
    );
    assert_eq!(
        MyParser::parse_range("SLEEP(A1:A1)"),
        Some(("SLEEP", (1, 1), (1, 1)))
    );
    assert_eq!(MyParser::parse_range("max(A1:B3)"), None);
    assert_eq!(MyParser::parse_range("MIN(A1:B3"), None);
}
