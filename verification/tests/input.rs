use nfs::token::parse;
use nfs::{flow, read, split2, split3, InputError};

fn lines(text: &[&str]) -> Vec<String> {
    text.iter().map(|line| line.to_string()).collect()
}

#[test]
fn parse_reads_a_number() {
    assert_eq!(parse(b"1234", 0, 4), Some(1234));
    assert_eq!(parse(b"0", 0, 1), Some(0));
    assert_eq!(parse(b"007", 0, 3), Some(7));
    assert_eq!(parse(b"+42", 0, 3), Some(42));
    assert_eq!(parse(b"ab 56 cd", 3, 5), Some(56));
}

#[test]
fn parse_refuses_what_is_no_number() {
    assert_eq!(parse(b"", 0, 0), None);
    assert_eq!(parse(b"+", 0, 1), None);
    assert_eq!(parse(b"-1", 0, 2), None);
    assert_eq!(parse(b"++1", 0, 3), None);
    assert_eq!(parse(b"1+", 0, 2), None);
    assert_eq!(parse(b"12a", 0, 3), None);
    assert_eq!(parse(b" 12", 0, 3), None);
    assert_eq!(parse(b"1_000", 0, 5), None);
    assert_eq!(parse(b"0x10", 0, 4), None);
}

#[test]
fn parse_knows_the_largest_number() {
    let largest = usize::MAX.to_string();
    assert_eq!(parse(largest.as_bytes(), 0, largest.len()), Some(usize::MAX));
    let padded = format!("+000{}", largest);
    assert_eq!(parse(padded.as_bytes(), 0, padded.len()), Some(usize::MAX));
    let beyond = format!("{}0", largest);
    assert_eq!(parse(beyond.as_bytes(), 0, beyond.len()), None);
    let mut above = largest.into_bytes();
    let end = above.len() - 1;
    // the largest number ends in 5, in 32 bits as in 64
    assert_eq!(above[end], b'5');
    above[end] = b'6';
    assert_eq!(parse(&above, 0, above.len()), None);
}

#[test]
fn a_header_holds_two_numbers() {
    assert_eq!(split2("3 4"), Ok((3, 4)));
    assert_eq!(split2("0 0"), Ok((0, 0)));
    assert_eq!(split2("10\t+20"), Ok((10, 20)));
    assert_eq!(split2("1\u{c}2"), Ok((1, 2)));
    assert_eq!(split2("1\r2"), Ok((1, 2)));
    assert_eq!(split2("1\n2"), Ok((1, 2)));
}

#[test]
fn separators_in_a_row_count_as_one() {
    assert_eq!(split2("3  2"), Ok((3, 2)));
    assert_eq!(split2("3   4"), Ok((3, 4)));
    assert_eq!(split2("3 \t 4"), Ok((3, 4)));
    assert_eq!(split2("3\t\t+4"), Ok((3, 4)));
    assert_eq!(split2("3\r\n4"), Ok((3, 4)));
    assert_eq!(split3("0  1 2"), Ok((0, 1, 2)));
    assert_eq!(split3("0 1  2"), Ok((0, 1, 2)));
    assert_eq!(split3("0   1 \t 200"), Ok((0, 1, 200)));
}

#[test]
fn a_separator_at_either_end_is_refused() {
    assert_eq!(split2(" 3 4"), Err(InputError::BadNumber));
    assert_eq!(split2("  3 4"), Err(InputError::BadNumber));
    assert_eq!(split2("3 4 "), Err(InputError::BadNumber));
    assert_eq!(split2("3 4  "), Err(InputError::BadNumber));
    assert_eq!(split2("3  "), Err(InputError::BadNumber));
    assert_eq!(split2(" "), Err(InputError::BadNumber));
    assert_eq!(split3(" 0 1 2"), Err(InputError::BadNumber));
    assert_eq!(split3("0 1 2 "), Err(InputError::BadNumber));
    assert_eq!(split3("0 1  "), Err(InputError::BadNumber));
}

#[test]
fn a_header_with_one_number_is_short() {
    assert_eq!(split2("3"), Err(InputError::TokenCount(2)));
}

#[test]
fn a_header_is_refused_for_a_bad_number() {
    assert_eq!(split2(""), Err(InputError::BadNumber));
    assert_eq!(split2("3 "), Err(InputError::BadNumber));
    assert_eq!(split2(" 3"), Err(InputError::BadNumber));
    assert_eq!(split2("3 4 5"), Err(InputError::BadNumber));
    assert_eq!(split2("3 4 "), Err(InputError::BadNumber));
    assert_eq!(split2("x"), Err(InputError::BadNumber));
    assert_eq!(split2("3 -4"), Err(InputError::BadNumber));
    assert_eq!(split2("3\u{b}4"), Err(InputError::BadNumber));
    assert_eq!(split2("3\u{a0}4"), Err(InputError::BadNumber));
    assert_eq!(split2("\u{663} 4"), Err(InputError::BadNumber));
    assert_eq!(split2("99999999999999999999999999 1"), Err(InputError::BadNumber));
}

#[test]
fn an_edge_holds_three_numbers() {
    assert_eq!(split3("0 1 200"), Ok((0, 1, 200)));
    assert_eq!(split3("5\t6\t7"), Ok((5, 6, 7)));
}

#[test]
fn an_edge_with_fewer_numbers_is_short() {
    assert_eq!(split3("0 1"), Err(InputError::TokenCount(3)));
    assert_eq!(split3("0"), Err(InputError::TokenCount(3)));
}

#[test]
fn an_edge_is_refused_for_a_bad_number() {
    assert_eq!(split3(""), Err(InputError::BadNumber));
    assert_eq!(split3("0 1 2 3"), Err(InputError::BadNumber));
    assert_eq!(split3("0 1 "), Err(InputError::BadNumber));
    assert_eq!(split3("a b"), Err(InputError::BadNumber));
    assert_eq!(split3("0 1 2.5"), Err(InputError::BadNumber));
}

#[test]
fn read_builds_the_graph() {
    let graph = read(&lines(&["3 4", "0 1 200", "1 2 350", "0 2 500", "1 2 600"])).unwrap();
    assert_eq!(graph.len(), 3);
    assert_eq!(graph.peers(0).to_vec(), vec![(1, 200), (2, 500)]);
    assert_eq!(graph.peers(1).to_vec(), vec![(0, 200), (2, 350), (2, 600)]);
    assert_eq!(graph.peers(2).to_vec(), vec![(1, 350), (0, 500), (1, 600)]);
    assert_eq!(flow(&graph), vec![(500, 2), (350, 2), (500, 2)]);
}

#[test]
fn read_takes_separators_in_a_row() {
    let graph = read(&lines(&["3  0"])).unwrap();
    assert_eq!(graph.len(), 3);
    for node in 0..3 {
        assert!(graph.peers(node).is_empty());
    }
    let graph = read(&lines(&["3\t \t2", "0   1  200", "1\t\t2 350"])).unwrap();
    assert_eq!(graph.peers(1).to_vec(), vec![(0, 200), (2, 350)]);
    assert_eq!(flow(&graph), vec![(550, 2), (350, 2), (550, 2)]);
}

#[test]
fn read_takes_a_graph_without_edges() {
    let graph = read(&lines(&["2 0"])).unwrap();
    assert_eq!(graph.len(), 2);
    assert!(graph.peers(0).is_empty());
    let none = read(&lines(&["0 0"])).unwrap();
    assert!(none.is_empty());
}

#[test]
fn read_needs_a_header() {
    assert_eq!(read(&Vec::new()).err(), Some(InputError::NoHeader));
}

#[test]
fn read_refuses_a_bad_header() {
    assert_eq!(read(&lines(&["3"])).err(), Some(InputError::TokenCount(2)));
    assert_eq!(read(&lines(&["", "0 1 2"])).err(), Some(InputError::BadNumber));
    assert_eq!(read(&lines(&["three 1", "0 1 2"])).err(), Some(InputError::BadNumber));
}

#[test]
fn read_counts_the_edge_lines() {
    // the header claims two edges, one follows
    assert_eq!(read(&lines(&["3 2", "0 1 200"])).err(), Some(InputError::LineCount));
    assert_eq!(read(&lines(&["3 0", "0 1 200"])).err(), Some(InputError::LineCount));
    assert_eq!(read(&lines(&["3 1"])).err(), Some(InputError::LineCount));
    assert_eq!(read(&lines(&["3 1", "0 1 200", ""])).err(), Some(InputError::LineCount));
    let most = format!("1 {}", usize::MAX);
    assert_eq!(read(&lines(&[most.as_str()])).err(), Some(InputError::LineCount));
}

#[test]
fn read_counts_before_it_reads_the_edges() {
    assert_eq!(read(&lines(&["3 2", "bad"])).err(), Some(InputError::LineCount));
}

#[test]
fn read_refuses_a_bad_edge_line() {
    assert_eq!(read(&lines(&["3 1", "0 1"])).err(), Some(InputError::TokenCount(3)));
    assert_eq!(read(&lines(&["3 1", "0 1 x"])).err(), Some(InputError::BadNumber));
    assert_eq!(read(&lines(&["3 2", "0 1 5", "0 1 5 "])).err(), Some(InputError::BadNumber));
}

#[test]
fn read_refuses_an_edge_outside_the_graph() {
    assert_eq!(read(&lines(&["3 1", "0 3 5"])).err(), Some(InputError::BadEdge));
    assert_eq!(read(&lines(&["3 1", "3 0 5"])).err(), Some(InputError::BadEdge));
    assert_eq!(read(&lines(&["0 1", "0 0 5"])).err(), Some(InputError::BadEdge));
}

#[test]
fn read_reports_the_first_line_that_is_wrong() {
    assert_eq!(read(&lines(&["2 2", "0 5 1", "x"])).err(), Some(InputError::BadEdge));
    assert_eq!(read(&lines(&["2 2", "x", "0 5 1"])).err(), Some(InputError::BadNumber));
}
