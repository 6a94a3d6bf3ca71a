use mdnotes::matching::{cut_pieces, find_match, find_run, line_spans, lowered_pieces};
use mdnotes::text::lowercase_of;

fn chars(s: &str) -> Vec<char> {
    s.chars().collect()
}

fn lines_by_spans(text: &str) -> Vec<String> {
    let all = chars(text);
    let mut lines = Vec::new();
    for (start, end) in line_spans(&all) {
        lines.push(all[start..end].iter().collect::<String>());
    }
    lines
}

fn lines_by_std(text: &str) -> Vec<String> {
    text.lines().map(|line| line.to_string()).collect()
}

fn find(line: &str, query: &str) -> Option<(usize, usize)> {
    find_match(&chars(line), &lowercase_of(query))
}

#[test]
fn spans_of_plain_lines() {
    assert_eq!(line_spans(&chars("ab\ncd")), vec![(0, 2), (3, 5)]);
    assert_eq!(line_spans(&chars("ab\ncd\n")), vec![(0, 2), (3, 5)]);
    assert_eq!(line_spans(&chars("")), vec![]);
    assert_eq!(line_spans(&chars("\n")), vec![(0, 0)]);
    assert_eq!(line_spans(&chars("a\n\nb")), vec![(0, 1), (2, 2), (3, 4)]);
}

#[test]
fn spans_leave_out_carriage_return_before_line_feed() {
    assert_eq!(line_spans(&chars("ab\r\ncd")), vec![(0, 2), (4, 6)]);
    assert_eq!(line_spans(&chars("\r\n")), vec![(0, 0)]);
    assert_eq!(line_spans(&chars("a\r\r\nb")), vec![(0, 2), (4, 5)]);
}

#[test]
fn spans_keep_carriage_return_elsewhere() {
    assert_eq!(line_spans(&chars("ab\r")), vec![(0, 3)]);
    assert_eq!(line_spans(&chars("a\rb\nc")), vec![(0, 3), (4, 5)]);
}

#[test]
fn lines_agree_with_the_standard_library() {
    let texts = [
        "",
        "\n",
        "\n\n",
        "one",
        "one\n",
        "one\ntwo",
        "one\r\ntwo\r\n",
        "one\rtwo",
        "one\r",
        "\r",
        "\r\n\r\n",
        "a\n\r\nb\r\r\n\nc\r",
        "# Title\n\nHello World\n",
        "\u{65e5}\u{672c}\u{8a9e}\n\u{e9}t\u{e9}\r\n",
    ];
    for text in texts.iter() {
        assert_eq!(lines_by_spans(text), lines_by_std(text));
    }
}

#[test]
fn run_of_whole_pieces() {
    let pieces = vec![vec!['a'], vec!['b', 'c'], vec!['d']];
    assert_eq!(find_run(&pieces, &chars("bcd")), Some((1, 3)));
    assert_eq!(find_run(&pieces, &chars("abc")), Some((0, 2)));
    assert_eq!(find_run(&pieces, &chars("abcd")), Some((0, 3)));
    assert_eq!(find_run(&pieces, &chars("d")), Some((2, 3)));
}

#[test]
fn run_does_not_start_or_end_inside_a_piece() {
    let pieces = vec![vec!['a'], vec!['b', 'c'], vec!['d']];
    assert_eq!(find_run(&pieces, &chars("b")), None);
    assert_eq!(find_run(&pieces, &chars("c")), None);
    assert_eq!(find_run(&pieces, &chars("cd")), None);
    assert_eq!(find_run(&pieces, &chars("ab")), None);
}

#[test]
fn run_of_nothing() {
    let pieces = vec![vec!['a'], vec!['b']];
    assert_eq!(find_run(&pieces, &chars("")), Some((0, 0)));
    assert_eq!(find_run(&Vec::new(), &chars("")), Some((0, 0)));
    assert_eq!(find_run(&Vec::new(), &chars("a")), None);
}

#[test]
fn run_is_the_first_and_the_shortest() {
    let pieces = vec![vec!['x'], vec!['a'], vec!['a'], vec![], vec!['a']];
    assert_eq!(find_run(&pieces, &chars("a")), Some((1, 2)));
    assert_eq!(find_run(&pieces, &chars("aa")), Some((1, 3)));
    assert_eq!(find_run(&pieces, &chars("aaa")), Some((1, 5)));
    assert_eq!(find_run(&pieces, &chars("aaaa")), None);
}

#[test]
fn match_without_regard_to_case() {
    assert_eq!(find("Hello World", "world"), Some((6, 11)));
    assert_eq!(find("Hello World", "WORLD"), Some((6, 11)));
    assert_eq!(find("hello world", "World"), Some((6, 11)));
    assert_eq!(find("Hello World", "hello world"), Some((0, 11)));
}

#[test]
fn match_is_the_first_occurrence() {
    assert_eq!(find("abc ABC abc", "abc"), Some((0, 3)));
    assert_eq!(find("xx Abc abc", "aBC"), Some((3, 6)));
    assert_eq!(find("aaaa", "aa"), Some((0, 2)));
}

#[test]
fn no_match() {
    assert_eq!(find("Hello World", "worlds"), None);
    assert_eq!(find("", "a"), None);
    assert_eq!(find("abc", "abcd"), None);
}

#[test]
fn match_counts_characters_not_bytes() {
    assert_eq!(find("\u{65e5}\u{672c}\u{8a9e} Hello", "hello"), Some((4, 9)));
    assert_eq!(find("caf\u{c9} au lait", "\u{e9} AU"), Some((3, 7)));
}

#[test]
fn match_when_lowercase_lengthens_a_character() {
    // U+0130 becomes two characters; positions still count the line's own.
    assert_eq!(find("\u{130}stanbul", "i\u{307}stanbul"), Some((0, 8)));
    assert_eq!(find("in \u{130}zmir now", "NOW"), Some((9, 12)));
    assert_eq!(find("\u{130}", "i"), None);
    assert_eq!(find("\u{130}", "\u{307}"), None);
}

#[test]
fn match_goes_by_the_lowercase_of_the_whole_line() {
    // A capital sigma that ends a word becomes the final small sigma.
    assert_eq!(find("ΟΔΟΣ", "οδος"), Some((0, 4)));
    assert_eq!(find("ΟΔΟΣ ΟΔΟΣ", "οδος"), Some((0, 4)));
    assert_eq!(find("ΟΔΟΣ οδος", "οδος"), Some((0, 4)));
    assert_eq!(find("οδος", "ΟΔΟΣ"), Some((0, 4)));
    assert_eq!(find("ΟΔΟΣΑ", "οδος"), None);
    assert_eq!(find("ΟΔΟΣΑ", "οδοσ"), Some((0, 4)));
    assert_eq!(find("μια ΟΔΟΣ εδω", "Οδος"), Some((4, 8)));
}

#[test]
fn match_is_where_the_standard_library_finds_it() {
    let cases = [
        ("Hello World", "wORLD"),
        ("say \u{c9}COLE twice \u{e9}cole", "\u{e9}Cole"),
        ("tabs\tand  spaces", "AND  "),
        ("ΟΔΟΣ οδος", "οδος"),
        ("x ΟΔΟΣ ΟΔΟΣ", "ΟΔΟΣ"),
        ("\u{65e5}\u{672c}\u{8a9e} Hello", "hello"),
        ("nothing here", "absent"),
    ];
    for (line, query) in cases.iter() {
        let lowered = line.to_lowercase();
        let expected = lowered.find(&query.to_lowercase()).map(|at| lowered[..at].chars().count());
        assert_eq!(find(line, query).map(|(start, _)| start), expected);
    }
}

#[test]
fn marked_part_is_the_lowercase_of_the_query() {
    let cases = [
        ("Hello World", "wORLD"),
        ("say \u{c9}COLE twice \u{e9}cole", "\u{e9}Cole"),
        ("\u{130}\u{130}x", "\u{130}X"),
        ("tabs\tand  spaces", "AND  "),
        ("μια ΟΔΟΣ εδω", "οδος"),
    ];
    for (line, query) in cases.iter() {
        let (start, end) = find(line, query).unwrap();
        assert!(start < end);
        let pieces = lowered_pieces(&chars(line)).unwrap();
        let marked: Vec<char> = pieces[start..end].concat();
        assert_eq!(marked, lowercase_of(query));
    }
}

#[test]
fn pieces_of_the_lowercase_of_a_line() {
    assert_eq!(
        lowered_pieces(&chars("A\u{130}Σ")),
        Some(vec![vec!['a'], vec!['i', '\u{307}'], vec!['ς']])
    );
    assert_eq!(
        lowered_pieces(&chars("ΟΔΟΣ")),
        Some(vec![vec!['ο'], vec!['δ'], vec!['ο'], vec!['ς']])
    );
    assert_eq!(lowered_pieces(&chars("")), Some(vec![]));
}

#[test]
fn cut_by_lengths() {
    assert_eq!(
        cut_pieces(&chars("abcdef"), &[1, 2, 3]),
        Some(vec![vec!['a'], vec!['b', 'c'], vec!['d', 'e', 'f']])
    );
    assert_eq!(cut_pieces(&chars("abc"), &[0, 3, 0]), Some(vec![vec![], vec!['a', 'b', 'c'], vec![]]));
    assert_eq!(cut_pieces(&chars(""), &[]), Some(vec![]));
}

#[test]
fn cut_needs_lengths_that_add_up() {
    assert_eq!(cut_pieces(&chars("abc"), &[1, 1]), None);
    assert_eq!(cut_pieces(&chars("abc"), &[2, 2]), None);
    assert_eq!(cut_pieces(&chars("abc"), &[]), None);
    assert_eq!(cut_pieces(&chars(""), &[1]), None);
    assert_eq!(cut_pieces(&chars("ab"), &[usize::MAX, usize::MAX]), None);
}
