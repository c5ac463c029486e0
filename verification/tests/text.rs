use bmssp::text::{
    parse_edge, parse_graph, parse_number, parse_source, parse_sources, split_fields, split_lines,
    white_space, TextError,
};

fn chars(text: &str) -> Vec<char> {
    text.chars().collect()
}

fn strings(pieces: Vec<Vec<char>>) -> Vec<String> {
    pieces.into_iter().map(|p| p.into_iter().collect()).collect()
}

fn adjacency(text: &str) -> Result<Vec<Vec<(usize, u64)>>, TextError> {
    parse_graph(&chars(text)).map(|g| g.adj)
}

fn sources(text: &str) -> Result<Vec<(usize, u64)>, TextError> {
    parse_sources(&chars(text))
}

fn number(text: &str, max: u64) -> Option<u64> {
    parse_number(&chars(text), max)
}

#[test]
fn graph_text_is_read_line_by_line() {
    let adj = adjacency("3 2\n0 1 5\n1 2 2\n").unwrap();
    assert_eq!(adj, vec![vec![(1, 5)], vec![(2, 2)], vec![]]);
}

#[test]
fn graph_text_passes_over_blank_lines_and_extra_fields() {
    let adj = adjacency("  4\t9 junk\r\n\r\n0 3 7 ignored\n   \n\n3 0 1\n0 0 2").unwrap();
    assert_eq!(adj, vec![vec![(3, 7), (0, 2)], vec![], vec![], vec![(0, 1)]]);
}

#[test]
fn graph_text_is_cut_at_any_white_space() {
    let adj = adjacency("2\u{3000}1\n0\u{a0}1\u{2003}8\n\u{2028}\u{85}\n").unwrap();
    assert_eq!(adj, vec![vec![(1, 8)], vec![]]);
}

#[test]
fn graph_text_without_a_count_has_no_vertices() {
    assert_eq!(adjacency("").unwrap(), Vec::<Vec<(usize, u64)>>::new());
    assert_eq!(adjacency("\n").unwrap(), Vec::<Vec<(usize, u64)>>::new());
    assert_eq!(adjacency("x 3\n").unwrap(), Vec::<Vec<(usize, u64)>>::new());
    assert_eq!(adjacency("-2\n").unwrap(), Vec::<Vec<(usize, u64)>>::new());
    assert_eq!(adjacency("2 x\n").unwrap().len(), 2);
    assert_eq!(adjacency("\n2 0\n"), Err(TextError::MissingField));
}

#[test]
fn graph_text_keeps_edges_that_end_outside() {
    let g = parse_graph(&chars("2 1\n1 9 4\n")).unwrap();
    assert_eq!(g.adj, vec![vec![], vec![(9, 4)]]);
    assert!(!g.is_well_formed());
    assert!(parse_graph(&chars("2 1\n1 0 4\n")).unwrap().is_well_formed());
}

#[test]
fn graph_text_errors() {
    assert_eq!(adjacency("2 1\n2 0 1\n"), Err(TextError::VertexOutOfRange));
    assert_eq!(adjacency("2 1\n0\n"), Err(TextError::MissingField));
    assert_eq!(adjacency("2 1\n0 1\n"), Err(TextError::MissingField));
    assert_eq!(adjacency("2 1\nx\n"), Err(TextError::InvalidNumber));
    assert_eq!(adjacency("2 1\n0 y 3\n"), Err(TextError::InvalidNumber));
    assert_eq!(adjacency("2 1\n0 1 -3\n"), Err(TextError::InvalidNumber));
    assert_eq!(adjacency("2 1\n0 1 1.5\n"), Err(TextError::InvalidNumber));
    // The first line that fails decides.
    assert_eq!(adjacency("2 1\n0 1\n7 0 1\n"), Err(TextError::MissingField));
    assert_eq!(adjacency("2 1\n7 0 1\n0 1\n"), Err(TextError::VertexOutOfRange));
    // Within a line the first field that fails decides.
    assert_eq!(adjacency("2 1\nx\n"), Err(TextError::InvalidNumber));
    assert_eq!(adjacency("2 1\n0 y\n"), Err(TextError::InvalidNumber));
}

#[test]
fn sources_text_is_read_line_by_line() {
    let read = sources("3\n0 5\n\n7\n2 x\n4 +9 rest\n").unwrap();
    assert_eq!(read, vec![(0, 5), (7, 0), (2, 0), (4, 9)]);
    assert_eq!(sources("").unwrap(), vec![]);
    assert_eq!(sources("k\n").unwrap(), vec![]);
    assert_eq!(sources("0 0").unwrap(), vec![]);
}

#[test]
fn sources_text_errors() {
    assert_eq!(sources("1\nx 3\n"), Err(TextError::InvalidNumber));
    assert_eq!(sources("1\n0 3\n-1\n"), Err(TextError::InvalidNumber));
}

#[test]
fn numbers_are_decimal_with_an_optional_plus() {
    assert_eq!(number("0", 10), Some(0));
    assert_eq!(number("007", 10), Some(7));
    assert_eq!(number("+10", 10), Some(10));
    assert_eq!(number("11", 10), None);
    assert_eq!(number("", 10), None);
    assert_eq!(number("+", 10), None);
    assert_eq!(number("++1", 10), None);
    assert_eq!(number("-1", 10), None);
    assert_eq!(number("1a", 10), None);
    assert_eq!(number("12 ", 100), None);
    assert_eq!(number("9", 5), None);
    assert_eq!(number("18446744073709551615", u64::MAX), Some(u64::MAX));
    assert_eq!(number("18446744073709551616", u64::MAX), None);
    assert_eq!(number("99999999999999999999999", u64::MAX), None);
    assert_eq!(number("4294967296", u32::MAX as u64), None);
    assert_eq!(number("4294967295", u32::MAX as u64), Some(4294967295));
}

#[test]
fn numbers_agree_with_the_standard_parser() {
    for text in [
        "0",
        "5",
        "+5",
        "-5",
        "",
        "+",
        "0012",
        "1 2",
        "18446744073709551615",
        "18446744073709551616",
        "x",
        "1x",
        "\u{663}",
        "\u{ff11}",
    ] {
        assert_eq!(number(text, u64::MAX), text.parse::<u64>().ok(), "{}", text);
    }
}

#[test]
fn lines_are_cut_at_line_feeds() {
    assert_eq!(strings(split_lines(&chars(""))), vec![""]);
    assert_eq!(strings(split_lines(&chars("ab"))), vec!["ab"]);
    assert_eq!(strings(split_lines(&chars("ab\n"))), vec!["ab", ""]);
    assert_eq!(strings(split_lines(&chars("a\n\nb c\r\nd"))), vec!["a", "", "b c\r", "d"]);
}

#[test]
fn white_space_is_what_the_standard_calls_so() {
    for code in 0..=0x10ffffu32 {
        if let Some(c) = char::from_u32(code) {
            assert_eq!(white_space(c), c.is_whitespace(), "{:x}", code);
        }
    }
}

#[test]
fn fields_are_runs_without_white_space() {
    assert_eq!(strings(split_fields(&chars(""))), Vec::<String>::new());
    assert_eq!(strings(split_fields(&chars(" \t\r\u{b}\u{c} "))), Vec::<String>::new());
    assert_eq!(strings(split_fields(&chars("12"))), vec!["12"]);
    assert_eq!(strings(split_fields(&chars("  1\t22   x3 \r"))), vec!["1", "22", "x3"]);
}

#[test]
fn fields_agree_with_the_standard_splitter() {
    for text in [
        "",
        "a",
        " a",
        "a ",
        " a  bb\tccc \r",
        "\t\t",
        "1 2 3",
        "1\u{a0}2\u{2009}\u{3000}3\u{85}",
        "\u{feff}1\u{200b}2 \u{e9}",
    ] {
        let ours = strings(split_fields(&chars(text)));
        let std: Vec<String> = text.split_whitespace().map(|t| t.to_string()).collect();
        assert_eq!(ours, std, "{:?}", text);
    }
}

#[test]
fn one_line_gives_one_edge_or_source() {
    assert_eq!(parse_edge(&chars("")), Ok(None));
    assert_eq!(parse_edge(&chars(" \t")), Ok(None));
    assert_eq!(parse_edge(&chars("1 2 3")), Ok(Some((1, 2, 3))));
    assert_eq!(parse_edge(&chars("1 2 3 4")), Ok(Some((1, 2, 3))));
    assert_eq!(parse_edge(&chars("1 2")), Err(TextError::MissingField));
    assert_eq!(parse_edge(&chars("1 2 z")), Err(TextError::InvalidNumber));
    assert_eq!(parse_source(&chars("")), Ok(None));
    assert_eq!(parse_source(&chars("4")), Ok(Some((4, 0))));
    assert_eq!(parse_source(&chars("4 2")), Ok(Some((4, 2))));
    assert_eq!(parse_source(&chars("4 -2")), Ok(Some((4, 0))));
    assert_eq!(parse_source(&chars("z 2")), Err(TextError::InvalidNumber));
}
