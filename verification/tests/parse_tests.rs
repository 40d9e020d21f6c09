use restart_coloring::parse::{
    parse_graph, read_line, read_number, split_words, Line, ParseError,
};

#[test]
fn reads_a_small_file() {
    let text = "c a comment\np edge 4 4\ne 1 2\ne 2 3\ne 3 4\ne 4 1\n";
    let file = parse_graph(text.as_bytes()).unwrap();
    assert_eq!(file.amount_info, Some((4, 4)));
    assert_eq!(file.data, vec![(1, 2), (2, 3), (3, 4), (4, 1)]);
}

#[test]
fn reads_a_size_line_without_a_format_word() {
    let file = parse_graph(b"p 5 0").unwrap();
    assert_eq!(file.amount_info, Some((5, 0)));
    assert!(file.data.is_empty());
}

#[test]
fn the_last_size_line_counts() {
    let file = parse_graph(b"p col 3 1\np edge 7 2\ne 1 2").unwrap();
    assert_eq!(file.amount_info, Some((7, 2)));
    assert_eq!(file.data, vec![(1, 2)]);
}

#[test]
fn a_file_without_size_line_has_no_size() {
    let file = parse_graph(b"e 1 2\ne 2 3\n").unwrap();
    assert_eq!(file.amount_info, None);
    assert_eq!(file.data, vec![(1, 2), (2, 3)]);
}

#[test]
fn the_empty_text_holds_nothing() {
    let file = parse_graph(b"").unwrap();
    assert_eq!(file.amount_info, None);
    assert!(file.data.is_empty());
}

#[test]
fn lines_with_another_number_of_words_say_nothing() {
    let file = parse_graph(b"e 1\ne 1 2 3\ne\np 4\np a b 4 5\nedge 1 2\n e 1 2\ne 3 4\n").unwrap();
    assert_eq!(file.amount_info, None);
    assert_eq!(file.data, vec![(3, 4)]);
}

#[test]
fn carriage_returns_and_tabs_part_words() {
    let file = parse_graph(b"p edge 3 2\r\ne 1\t2\r\ne   2    3  \r\n").unwrap();
    assert_eq!(file.amount_info, Some((3, 2)));
    assert_eq!(file.data, vec![(1, 2), (2, 3)]);
}

#[test]
fn a_tab_behind_the_letter_is_no_blank() {
    let file = parse_graph(b"e\t1 2\n").unwrap();
    assert!(file.data.is_empty());
}

#[test]
fn malformed_numbers_name_their_line() {
    assert_eq!(parse_graph(b"p edge 3 2\ne 1 x\ne 2 3\n").err(), Some(ParseError { line: 1 }));
    assert_eq!(parse_graph(b"e 1 2\n\ne 2 -3\n").err(), Some(ParseError { line: 2 }));
    assert_eq!(parse_graph(b"p edge four 4").err(), Some(ParseError { line: 0 }));
    assert_eq!(parse_graph(b"e 1 2147483648").err(), Some(ParseError { line: 0 }));
    assert_eq!(parse_graph(b"e 1.5 2").err(), Some(ParseError { line: 0 }));
    assert_eq!(parse_graph(b"e + 2").err(), Some(ParseError { line: 0 }));
}

#[test]
fn numbers_up_to_the_limit() {
    let b = b"0 7 +12 007 2147483647 2147483648 99999999999999999999999 12a -4 + ++1";
    let words = split_words(b, 0, b.len());
    let values: Vec<Option<usize>> = words.iter().map(|w| read_number(b, w.0, w.1)).collect();
    assert_eq!(
        values,
        vec![
            Some(0),
            Some(7),
            Some(12),
            Some(7),
            Some(2147483647),
            None,
            None,
            None,
            None,
            None,
            None
        ]
    );
    assert_eq!(read_number(b, 0, 0), None);
}

#[test]
fn words_are_the_runs_between_spaces() {
    let b = b"  ab c\t\tdef ";
    assert_eq!(split_words(b, 0, b.len()), vec![(2, 4), (5, 6), (8, 11)]);
    assert_eq!(split_words(b, 3, 10), vec![(3, 4), (5, 6), (8, 10)]);
    assert_eq!(split_words(b, 0, 2), Vec::<(usize, usize)>::new());
    assert_eq!(split_words(b, 4, 4), Vec::<(usize, usize)>::new());
}

#[test]
fn one_line_at_a_time() {
    let b = b"e 10 20";
    assert_eq!(read_line(b, 0, b.len()), Line::Edge(10, 20));
    assert_eq!(read_line(b, 0, 4), Line::Other);
    assert_eq!(read_line(b"p edge 11 20", 0, 12), Line::Size(11, 20));
    assert_eq!(read_line(b"p col 11 20", 0, 11), Line::Size(11, 20));
    assert_eq!(read_line(b"p 11 20", 0, 7), Line::Size(11, 20));
    assert_eq!(read_line(b"p 11 x", 0, 6), Line::Malformed);
    assert_eq!(read_line(b"p x 11 12", 0, 9), Line::Size(11, 12));
    assert_eq!(read_line(b"c e 1 2", 0, 7), Line::Other);
    assert_eq!(read_line(b"e", 0, 1), Line::Other);
    assert_eq!(read_line(b"", 0, 0), Line::Other);
}
