use browser_engine::parsing::parser::{standard_char, ParseError, Parser};
use browser_engine::text::{chars_of, string_of};

#[test]
fn new_parser_starts_at_zero() {
    let p = Parser::new("héllo");
    assert_eq!(p.pos, 0);
    assert_eq!(p.input, vec!['h', 'é', 'l', 'l', 'o']);
    assert!(!p.eof());
    assert!(Parser::new("").eof());
}

#[test]
fn chars_and_strings_convert() {
    assert_eq!(chars_of("aé"), vec!['a', 'é']);
    assert!(chars_of("").is_empty());
    let v = chars_of("hello");
    assert_eq!(string_of(&v, 1, 4), "ell");
    assert_eq!(string_of(&v, 2, 2), "");
    assert_eq!(string_of(&v, 0, 5), "hello");
}

#[test]
fn next_char_looks_without_stepping() {
    let mut p = Parser::new("ab");
    assert_eq!(p.next_char(), 'a');
    assert_eq!(p.next_char(), 'a');
    assert_eq!(p.pos, 0);
    p.pos = 1;
    assert_eq!(p.next_char(), 'b');
}

#[test]
fn consume_char_steps_by_one() {
    let mut p = Parser::new("aéb");
    assert_eq!(p.consume_char(), 'a');
    assert_eq!(p.consume_char(), 'é');
    assert_eq!(p.pos, 2);
    assert_eq!(p.consume_char(), 'b');
    assert_eq!(p.pos, 3);
    assert!(p.eof());
}

#[test]
fn starts_with_compares_at_the_position() {
    let mut p = Parser::new("hello");
    assert!(p.starts_with("he"));
    assert!(p.starts_with(""));
    assert!(p.starts_with("hello"));
    assert!(!p.starts_with("hello!"));
    assert!(!p.starts_with("el"));
    p.pos = 1;
    assert!(p.starts_with("el"));
    p.pos = 5;
    assert!(p.starts_with(""));
    assert!(!p.starts_with("o"));
}

#[test]
fn string_steps_over_a_match_only() {
    let mut p = Parser::new("</div>");
    assert!(!p.string("<d"));
    assert_eq!(p.pos, 0);
    assert!(p.string("</"));
    assert_eq!(p.pos, 2);
    assert!(p.string("div>"));
    assert!(p.eof());
    assert!(p.string(""));
    assert!(!p.string("x"));
    assert_eq!(p.pos, 6);
}

#[test]
fn consume_while_takes_the_longest_run() {
    let mut p = Parser::new("aaabaa");
    assert_eq!(p.consume_while(|c| c == 'a'), "aaa");
    assert_eq!(p.pos, 3);
    assert_eq!(p.consume_while(|c| c == 'a'), "");
    assert_eq!(p.pos, 3);
    assert_eq!(p.consume_while(|_| true), "baa");
    assert!(p.eof());
    assert_eq!(p.consume_while(|_| true), "");
}

#[test]
fn consume_whitespace_skips_all_white_space() {
    let mut p = Parser::new(" \t\r\n\u{a0}\u{2003}x y");
    p.consume_whitespace();
    assert_eq!(p.pos, 6);
    p.consume_whitespace();
    assert_eq!(p.pos, 6);
    assert_eq!(p.next_char(), 'x');
}

#[test]
fn standard_word_is_letters_and_digits() {
    let mut p = Parser::new("abc123-def");
    assert_eq!(p.parse_standard_word(), "abc123");
    assert_eq!(p.parse_standard_word(), "");
    assert_eq!(p.pos, 6);
    let mut q = Parser::new("AzZ09_");
    assert_eq!(q.parse_standard_word(), "AzZ09");
}

#[test]
fn standard_char_is_ascii_alphanumeric() {
    for c in ['a', 'm', 'z', 'A', 'M', 'Z', '0', '5', '9'] {
        assert!(standard_char(c));
    }
    for c in ['-', '_', ' ', '`', '{', '@', '[', '/', ':', 'é', '٣'] {
        assert!(!standard_char(c));
    }
    for c in '\0'..='\u{ff}' {
        assert_eq!(standard_char(c), c.is_ascii_alphanumeric());
    }
}

#[test]
fn consume_until_stops_before_the_character() {
    let mut p = Parser::new("text<b>");
    assert_eq!(p.consume_until('<'), "text");
    assert_eq!(p.next_char(), '<');
    assert_eq!(p.consume_until('<'), "");
    assert_eq!(p.consume_until('!'), "<b>");
    assert!(p.eof());
}

#[test]
fn expect_char_steps_over_the_character_only() {
    let mut p = Parser::new("ab");
    assert_eq!(p.expect_char('b'), Err(ParseError::UnexpectedChar));
    assert_eq!(p.pos, 0);
    assert_eq!(p.expect_char('a'), Ok(()));
    assert_eq!(p.pos, 1);
    assert_eq!(p.expect_char('b'), Ok(()));
    assert_eq!(p.expect_char('b'), Err(ParseError::UnexpectedEof));
    assert_eq!(p.pos, 2);
}

#[test]
fn parse_between_reads_a_delimited_text() {
    let mut p = Parser::new("'one' \"two\"''x");
    assert_eq!(p.parse_between('\''), Some("one".to_string()));
    assert_eq!(p.pos, 5);
    assert_eq!(p.parse_between('"'), None);
    assert_eq!(p.pos, 5);
    p.consume_whitespace();
    assert_eq!(p.parse_between('"'), Some("two".to_string()));
    assert_eq!(p.parse_between('\''), Some(String::new()));
    assert_eq!(p.parse_between('x'), None);
    assert_eq!(p.pos, 13);
    let mut open = Parser::new("'never closed");
    assert_eq!(open.parse_between('\''), None);
    assert_eq!(open.pos, 0);
    assert_eq!(Parser::new("").parse_between('\''), None);
}
