use template_scanner::error::ScanError;
use template_scanner::model::Mode;
use template_scanner::scanner::Scanner;
use template_scanner::token::{Operator, Payload, Position, Token, TokenKind};

fn at(line: usize, column: usize, offset: usize) -> Position {
    Position { line, column, offset }
}

fn bytes(kind: TokenKind, pos: Position, payload: &str) -> Token {
    Token { kind, pos, payload: Payload::Bytes(payload.as_bytes().to_vec()) }
}

fn end(pos: Position) -> Token {
    Token { kind: TokenKind::End, pos, payload: Payload::Empty }
}

fn pull_all(src: &str, open: &str, close: &str) -> Vec<Token> {
    let mut scanner = Scanner::new(src.as_bytes(), open.as_bytes(), close.as_bytes());
    let mut out = Vec::new();
    loop {
        let token = scanner.scan().unwrap();
        if token.kind == TokenKind::End {
            break;
        }
        out.push(token);
        assert!(out.len() <= src.len() + 1);
    }
    out
}

#[test]
fn test_scan() {
    let mut scanner =
        Scanner::new("<div id=\"te\\\"st\">".as_bytes(), "{{".as_bytes(), "}}".as_bytes());
    let mut count = 0;
    'outer: loop {
        let token = scanner.scan().unwrap();
        match token.kind {
            TokenKind::End => {
                break 'outer;
            }
            _ => {
                println!("scanned token: {:?}", token);
                count += 1;
            }
        }
    }
    assert_eq!(count, 5);
}

#[test]
fn delimiter_round_trip() {
    let mut scanner = Scanner::new(b"{{}}", b"{{", b"}}");
    assert_eq!(scanner.mode(), Mode::Markup);
    assert_eq!(scanner.scan(), Ok(bytes(TokenKind::StatementOpen, at(0, 0, 0), "{{")));
    assert_eq!(scanner.mode(), Mode::Statement);
    assert_eq!(scanner.scan(), Ok(bytes(TokenKind::StatementClose, at(0, 2, 2), "}}")));
    assert_eq!(scanner.mode(), Mode::Markup);
    assert_eq!(scanner.scan(), Ok(end(at(0, 3, 3))));
}

#[test]
fn close_delimiter_of_another_length() {
    let mut scanner = Scanner::new(b"<%%>x", b"<%", b"%>");
    assert_eq!(scanner.scan(), Ok(bytes(TokenKind::StatementOpen, at(0, 0, 0), "<%")));
    assert_eq!(scanner.scan(), Ok(bytes(TokenKind::StatementClose, at(0, 2, 2), "%>")));
    assert_eq!(scanner.mode(), Mode::Markup);

    let tokens = pull_all("[[[]x", "[[[", "]");
    assert_eq!(
        tokens,
        vec![
            bytes(TokenKind::StatementOpen, at(0, 0, 0), "[[["),
            bytes(TokenKind::StatementClose, at(0, 3, 3), "]"),
        ]
    );
}

#[test]
fn literal_toggle_twice() {
    let mut scanner = Scanner::new(b"{{%}}{{%}}", b"{{", b"}}");
    assert!(!scanner.in_literal());
    assert_eq!(
        scanner.scan(),
        Ok(Token {
            kind: TokenKind::LiteralBoundary,
            pos: at(0, 0, 0),
            payload: Payload::Flag(true)
        })
    );
    assert!(scanner.in_literal());
    assert_eq!(scanner.mode(), Mode::Literal);
    assert_eq!(
        scanner.scan(),
        Ok(Token {
            kind: TokenKind::LiteralBoundary,
            pos: at(0, 5, 5),
            payload: Payload::Flag(false)
        })
    );
    assert!(!scanner.in_literal());
    assert_eq!(scanner.mode(), Mode::Markup);
    assert_eq!(scanner.scan(), Ok(end(at(0, 9, 9))));
}

#[test]
fn literal_toggle_with_whitespace() {
    let tokens = pull_all("{{ % }}x", "{{", "}}");
    assert_eq!(
        tokens,
        vec![Token {
            kind: TokenKind::LiteralBoundary,
            pos: at(0, 0, 0),
            payload: Payload::Flag(true)
        }]
    );
}

#[test]
fn toggle_marker_without_close_opens_a_statement() {
    let mut scanner = Scanner::new(b"{{%x}}", b"{{", b"}}");
    assert_eq!(scanner.scan(), Ok(bytes(TokenKind::StatementOpen, at(0, 0, 0), "{{")));
    assert_eq!(scanner.mode(), Mode::Statement);
    assert_eq!(scanner.position(), at(0, 2, 2));
    assert!(!scanner.in_literal());
}

#[test]
fn literal_text_is_not_markup() {
    let tokens = pull_all("{{%}}a<b>c{{%}}", "{{", "}}");
    assert_eq!(
        tokens,
        vec![
            Token {
                kind: TokenKind::LiteralBoundary,
                pos: at(0, 0, 0),
                payload: Payload::Flag(true)
            },
            bytes(TokenKind::Literal, at(0, 5, 5), "a<b>c"),
            Token {
                kind: TokenKind::LiteralBoundary,
                pos: at(0, 10, 10),
                payload: Payload::Flag(false)
            },
        ]
    );
}

#[test]
fn statement_inside_literal_text_keeps_literal_output() {
    let mut scanner = Scanner::new(b"{{%}}{{}}ab", b"{{", b"}}");
    assert_eq!(scanner.scan().unwrap().kind, TokenKind::LiteralBoundary);
    assert_eq!(scanner.scan().unwrap().kind, TokenKind::StatementOpen);
    assert_eq!(scanner.mode(), Mode::Statement);
    assert!(scanner.in_literal());
    assert_eq!(scanner.scan().unwrap().kind, TokenKind::StatementClose);
    assert_eq!(scanner.mode(), Mode::Literal);
    assert_eq!(scanner.scan(), Ok(bytes(TokenKind::Literal, at(0, 9, 9), "a")));
}

#[test]
fn markup_round_trip() {
    for (open, close) in [("{{", "}}"), ("<%", "%>"), ("[", "]")] {
        let tokens = pull_all("<div id=\"x\">", open, close);
        assert_eq!(
            tokens,
            vec![
                bytes(TokenKind::MarkupTagStart, at(0, 1, 1), "div"),
                bytes(TokenKind::MarkupAttrName, at(0, 5, 5), "id"),
                Token { kind: TokenKind::Symbol, pos: at(0, 7, 7), payload: Payload::Byte(b'=') },
                bytes(TokenKind::MarkupTagEnd, at(0, 11, 11), ">"),
            ]
        );
    }
}

#[test]
fn escaped_quote_inside_attribute_value() {
    let tokens = pull_all("<div id=\"te\\\"st\">", "{{", "}}");
    assert_eq!(
        tokens,
        vec![
            bytes(TokenKind::MarkupTagStart, at(0, 1, 1), "div"),
            bytes(TokenKind::MarkupAttrName, at(0, 5, 5), "id"),
            Token { kind: TokenKind::Symbol, pos: at(0, 7, 7), payload: Payload::Byte(b'=') },
            bytes(TokenKind::Data, at(0, 0, 0), "te\"s"),
            bytes(TokenKind::MarkupTagEnd, at(0, 16, 16), ">"),
        ]
    );
}

#[test]
fn self_close_terminator() {
    let tokens = pull_all("<br/>", "{{", "}}");
    assert_eq!(
        tokens,
        vec![
            bytes(TokenKind::MarkupTagStart, at(0, 1, 1), "br"),
            bytes(TokenKind::MarkupTagEnd, at(0, 3, 3), "/>"),
        ]
    );
}

#[test]
fn pending_tokens_come_one_per_pull() {
    let mut scanner = Scanner::new(b"<br/>", b"{{", b"}}");
    assert_eq!(scanner.pending(), 0);
    assert_eq!(scanner.scan().unwrap().kind, TokenKind::MarkupTagStart);
    assert_eq!(scanner.pending(), 1);
    assert_eq!(scanner.position(), at(0, 4, 4));
    assert_eq!(scanner.scan().unwrap().kind, TokenKind::MarkupTagEnd);
    assert_eq!(scanner.pending(), 0);
    assert_eq!(scanner.position(), at(0, 4, 4));
}

#[test]
fn attribute_without_value() {
    let tokens = pull_all("<input disabled $x @y _z>", "{{", "}}");
    assert_eq!(
        tokens,
        vec![
            bytes(TokenKind::MarkupTagStart, at(0, 1, 1), "input"),
            bytes(TokenKind::MarkupAttrName, at(0, 7, 7), "disabled"),
            bytes(TokenKind::MarkupAttrName, at(0, 16, 16), "$x"),
            bytes(TokenKind::MarkupAttrName, at(0, 19, 19), "@y"),
            bytes(TokenKind::MarkupAttrName, at(0, 22, 22), "_z"),
            bytes(TokenKind::MarkupTagEnd, at(0, 24, 24), ">"),
        ]
    );
}

#[test]
fn stray_bytes_between_attributes_are_stepped_over() {
    let tokens = pull_all("<a ! b>", "{{", "}}");
    assert_eq!(
        tokens,
        vec![
            bytes(TokenKind::MarkupTagStart, at(0, 1, 1), "a"),
            bytes(TokenKind::MarkupAttrName, at(0, 5, 5), "b"),
            bytes(TokenKind::MarkupTagEnd, at(0, 6, 6), ">"),
        ]
    );
}

#[test]
fn attribute_value_is_tokenised_in_place() {
    let tokens = pull_all("<a b=\"<c/>\" d>", "{{", "}}");
    assert_eq!(
        tokens,
        vec![
            bytes(TokenKind::MarkupTagStart, at(0, 1, 1), "a"),
            bytes(TokenKind::MarkupAttrName, at(0, 3, 3), "b"),
            Token { kind: TokenKind::Symbol, pos: at(0, 4, 4), payload: Payload::Byte(b'=') },
            bytes(TokenKind::MarkupTagStart, at(0, 1, 1), "c"),
            bytes(TokenKind::MarkupTagEnd, at(0, 2, 2), "/>"),
            bytes(TokenKind::MarkupAttrName, at(0, 12, 12), "d"),
            bytes(TokenKind::MarkupTagEnd, at(0, 13, 13), ">"),
        ]
    );
}

#[test]
fn statement_inside_attribute_value() {
    let tokens = pull_all("<a b=\"x{{<}} \">", "{{", "}}");
    assert_eq!(
        tokens,
        vec![
            bytes(TokenKind::MarkupTagStart, at(0, 1, 1), "a"),
            bytes(TokenKind::MarkupAttrName, at(0, 3, 3), "b"),
            Token { kind: TokenKind::Symbol, pos: at(0, 4, 4), payload: Payload::Byte(b'=') },
            bytes(TokenKind::Data, at(0, 0, 0), "x"),
            bytes(TokenKind::StatementOpen, at(0, 1, 1), "{{"),
            Token {
                kind: TokenKind::Operator,
                pos: at(0, 3, 3),
                payload: Payload::Operator(Operator::Less)
            },
            bytes(TokenKind::StatementClose, at(0, 4, 4), "}}"),
            bytes(TokenKind::MarkupTagEnd, at(0, 14, 14), ">"),
        ]
    );
}

#[test]
fn tag_cut_short_is_data() {
    for src in ["<div", "<div id", "<div id=\"x\"", "<1>", "< a>", "<a#b>", "</a>x"] {
        let mut scanner = Scanner::new(src.as_bytes(), b"{{", b"}}");
        let token = scanner.scan().unwrap();
        assert_eq!(token.kind, TokenKind::Data);
        assert_eq!(token.pos, at(0, 0, 0));
        assert_eq!(token.payload, Payload::Bytes(src.as_bytes()[..src.len() - 1].to_vec()));
        assert_eq!(scanner.pending(), 0);
    }
}

#[test]
fn missing_quote_is_reported_and_changes_nothing() {
    let mut scanner = Scanner::new(b"<a b=x>", b"{{", b"}}");
    assert_eq!(scanner.scan(), Err(ScanError::ExpectedQuoteAfterEquals));
    assert_eq!(scanner.position(), at(0, 0, 0));
    assert_eq!(scanner.pending(), 0);
    assert_eq!(scanner.scan(), Err(ScanError::ExpectedQuoteAfterEquals));

    let mut scanner = Scanner::new(b"x\n<a b=", b"{{", b"}}");
    assert_eq!(scanner.scan(), Ok(bytes(TokenKind::Data, at(0, 0, 0), "x\n<a b")));
    let mut scanner = Scanner::new(b"<a b= >", b"{{", b"}}");
    assert_eq!(scanner.scan(), Err(ScanError::ExpectedQuoteAfterEquals));
}

#[test]
fn unterminated_string_is_reported_and_changes_nothing() {
    let mut scanner = Scanner::new(b"<a b=\"x>", b"{{", b"}}");
    assert_eq!(scanner.scan(), Err(ScanError::UnterminatedString));
    assert_eq!(scanner.position(), at(0, 0, 0));
    assert_eq!(scanner.pending(), 0);
    assert_eq!(scanner.mode(), Mode::Markup);
}

#[test]
fn failure_inside_attribute_value_is_passed_on() {
    let mut scanner = Scanner::new(b"<a b=\"<c d=x>\">", b"{{", b"}}");
    assert_eq!(scanner.scan(), Err(ScanError::ExpectedQuoteAfterEquals));
    assert_eq!(scanner.position(), at(0, 0, 0));
    assert_eq!(
        Scanner::scan_all(b"<a b=\"<c d=\\\"x>\">", b"{{", b"}}"),
        Err(ScanError::UnterminatedString)
    );
}

#[test]
fn operators_inside_a_statement() {
    let tokens = pull_all("{{<<=>>=}}x", "{{", "}}");
    let op = |offset: usize, op: Operator| Token {
        kind: TokenKind::Operator,
        pos: at(0, offset, offset),
        payload: Payload::Operator(op),
    };
    assert_eq!(
        tokens,
        vec![
            bytes(TokenKind::StatementOpen, at(0, 0, 0), "{{"),
            op(2, Operator::Less),
            op(3, Operator::LessEqual),
            op(5, Operator::Greater),
            op(6, Operator::GreaterEqual),
            bytes(TokenKind::StatementClose, at(0, 8, 8), "}}"),
        ]
    );
}

#[test]
fn other_bytes_inside_a_statement_give_the_sentinel() {
    let mut scanner = Scanner::new(b"{{ a < b }}", b"{{", b"}}");
    assert_eq!(scanner.scan(), Ok(bytes(TokenKind::StatementOpen, at(0, 0, 0), "{{")));
    assert_eq!(scanner.position(), at(0, 3, 3));
    assert_eq!(scanner.scan(), Ok(end(at(0, 3, 3))));
    assert_eq!(scanner.scan(), Ok(end(at(0, 3, 3))));
    assert_eq!(scanner.mode(), Mode::Statement);
}

#[test]
fn line_comment() {
    let mut scanner = Scanner::new(b"{{// note\n}}", b"{{", b"}}");
    assert_eq!(scanner.scan(), Ok(bytes(TokenKind::StatementOpen, at(0, 0, 0), "{{")));
    assert_eq!(scanner.mode(), Mode::Comment);
    assert_eq!(scanner.scan(), Ok(bytes(TokenKind::Comment, at(0, 4, 4), " note")));
    assert_eq!(scanner.mode(), Mode::Statement);
    assert_eq!(scanner.position(), at(1, 2, 10));
    assert_eq!(scanner.scan(), Ok(bytes(TokenKind::StatementClose, at(1, 2, 10), "}}")));
    assert_eq!(scanner.scan().unwrap().kind, TokenKind::End);
}

#[test]
fn block_comment() {
    let tokens = pull_all("{{ /* a\n* */}}x", "{{", "}}");
    assert_eq!(
        tokens,
        vec![
            bytes(TokenKind::StatementOpen, at(0, 0, 0), "{{"),
            bytes(TokenKind::Comment, at(0, 5, 5), " a\n* "),
            bytes(TokenKind::StatementClose, at(1, 6, 12), "}}"),
        ]
    );
}

#[test]
fn unterminated_block_comment_runs_to_the_last_byte() {
    let tokens = pull_all("{{/*abc", "{{", "}}");
    assert_eq!(
        tokens,
        vec![
            bytes(TokenKind::StatementOpen, at(0, 0, 0), "{{"),
            bytes(TokenKind::Comment, at(0, 4, 4), "ab"),
        ]
    );
}

#[test]
fn data_runs_to_the_open_delimiter() {
    let tokens = pull_all("hello {{", "{{", "}}");
    assert_eq!(
        tokens,
        vec![
            bytes(TokenKind::Data, at(0, 0, 0), "hello "),
            bytes(TokenKind::StatementOpen, at(0, 6, 6), "{{"),
        ]
    );
    let tokens = pull_all("a{b{{", "{{", "}}");
    assert_eq!(tokens[0], bytes(TokenKind::Data, at(0, 0, 0), "a{b"));
}

#[test]
fn data_leaves_the_last_byte() {
    let tokens = pull_all("ab", "{{", "}}");
    assert_eq!(tokens, vec![bytes(TokenKind::Data, at(0, 0, 0), "a")]);
    assert_eq!(pull_all("a", "{{", "}}"), vec![]);
    assert_eq!(pull_all("", "{{", "}}"), vec![]);
}

#[test]
fn data_skips_a_line_feed_before_a_carriage_return() {
    let tokens = pull_all("a\n\rb{{", "{{", "}}");
    assert_eq!(
        tokens,
        vec![
            bytes(TokenKind::Data, at(0, 0, 0), "a\rb"),
            bytes(TokenKind::StatementOpen, at(1, 3, 4), "{{"),
        ]
    );
}

#[test]
fn open_delimiter_cut_short_is_no_match() {
    let tokens = pull_all("a{", "{{", "}}");
    assert_eq!(tokens, vec![bytes(TokenKind::Data, at(0, 0, 0), "a")]);
    let mut scanner = Scanner::new(b"{x", b"{{", b"}}");
    assert!(scanner.match_stmt_start().is_none());
    assert_eq!(scanner.position(), at(0, 0, 0));
    assert!(!scanner.match_stmt_end());
    assert_eq!(scanner.position(), at(0, 0, 0));
}

#[test]
fn end_is_stable() {
    for src in ["", "a", "<br/>", "{{}}", "{{ x", "ab{{%}}"] {
        let mut scanner = Scanner::new(src.as_bytes(), b"{{", b"}}");
        let mut pulls = 0;
        loop {
            let token = scanner.scan().unwrap();
            pulls += 1;
            assert!(pulls < 20);
            if token.kind == TokenKind::End {
                break;
            }
        }
        let position = scanner.position();
        let mode = scanner.mode();
        for _ in 0..5 {
            assert_eq!(scanner.scan(), Ok(end(position)));
            assert_eq!(scanner.position(), position);
            assert_eq!(scanner.mode(), mode);
            assert_eq!(scanner.pending(), 0);
        }
    }
}

#[test]
fn scan_all_gives_what_the_pulls_give() {
    for src in [
        "",
        "x",
        "<div id=\"te\\\"st\">",
        "a {{ < }} <b c=\"{{%}}d \" e/> f",
        "{{// c\n<=}}{{%}}<p>{{%}}<p>",
    ] {
        let pulled = pull_all(src, "{{", "}}");
        assert_eq!(Scanner::scan_all(src.as_bytes(), b"{{", b"}}"), Ok(pulled));
    }
}

#[test]
fn scan_rest_appends_behind_what_is_there() {
    let mut scanner = Scanner::new(b"<br/>ab", b"{{", b"}}");
    let first = scanner.scan().unwrap();
    let mut out = std::collections::VecDeque::new();
    out.push_back(first);
    assert_eq!(scanner.scan_rest(&mut out), Ok(()));
    let tokens: Vec<Token> = out.into_iter().collect();
    assert_eq!(
        tokens,
        vec![
            bytes(TokenKind::MarkupTagStart, at(0, 1, 1), "br"),
            bytes(TokenKind::MarkupTagEnd, at(0, 3, 3), "/>"),
            bytes(TokenKind::Data, at(0, 5, 5), "a"),
        ]
    );
}

#[test]
fn token_kind_and_equality() {
    let a = bytes(TokenKind::Data, at(0, 0, 0), "x");
    let b = bytes(TokenKind::Data, at(0, 0, 0), "x");
    let c = bytes(TokenKind::Data, at(0, 0, 0), "y");
    let d = bytes(TokenKind::Literal, at(0, 0, 0), "x");
    let e = bytes(TokenKind::Data, at(0, 1, 1), "x");
    assert_eq!(*a.kind(), TokenKind::Data);
    assert_eq!(*d.kind(), TokenKind::Literal);
    assert!(a == b);
    assert!(a != c);
    assert!(a != d);
    assert!(a != e);
    assert!(Payload::Byte(b'=') != Payload::Bytes(vec![b'=']));
    assert!(Payload::Flag(true) != Payload::Flag(false));
    assert!(Payload::Empty == Payload::Empty);
    assert!(Payload::Operator(Operator::Less) != Payload::Operator(Operator::LessEqual));
}

#[test]
fn skip_lets_scanning_go_on_behind_a_failure() {
    let mut scanner = Scanner::new(b"x\n<a b=y> <c>", b"{{", b"}}");
    assert_eq!(scanner.scan(), Ok(bytes(TokenKind::Data, at(0, 0, 0), "x\n<a b=y> <c")));
    let mut scanner = Scanner::new(b"<a b=y> <c> ", b"{{", b"}}");
    assert_eq!(scanner.scan(), Err(ScanError::ExpectedQuoteAfterEquals));
    assert!(scanner.skip());
    assert_eq!(scanner.position(), at(0, 1, 1));
    assert_eq!(scanner.scan(), Ok(bytes(TokenKind::Data, at(0, 1, 1), "a b=y> <c>")));
    assert!(!scanner.skip());
    assert_eq!(scanner.position(), at(0, 11, 11));
}

#[test]
fn failed_tag_leaves_the_position() {
    for src in ["x\n<div", "x\n<div id", "x\n<div id <", "x\n<1>", "x\n<a#b>", "x\nabc", "x\n<"] {
        let mut scanner = Scanner::new(src.as_bytes(), b"{{", b"}}");
        assert!(scanner.skip());
        assert!(scanner.skip());
        assert_eq!(scanner.position(), at(1, 2, 2));
        assert_eq!(scanner.scan_dom(), Ok(false));
        assert_eq!(scanner.position(), at(1, 2, 2));
        assert_eq!(scanner.pending(), 0);
    }
    for (src, error) in [
        ("x\n<div id=1>", ScanError::ExpectedQuoteAfterEquals),
        ("x\n<div id='x'>", ScanError::ExpectedQuoteAfterEquals),
        ("x\n<div a b=\"c\" id=\"1>", ScanError::UnterminatedString),
    ] {
        let mut scanner = Scanner::new(src.as_bytes(), b"{{", b"}}");
        assert!(scanner.skip());
        assert!(scanner.skip());
        assert_eq!(scanner.scan_dom(), Err(error));
        assert_eq!(scanner.position(), at(1, 2, 2));
        assert_eq!(scanner.pending(), 0);
    }
}

#[test]
fn scan_dom_leaves_the_tokens_pending() {
    let mut scanner = Scanner::new(b"<a b>c", b"{{", b"}}");
    assert_eq!(scanner.scan_dom(), Ok(true));
    assert_eq!(scanner.pending(), 3);
    assert_eq!(scanner.position(), at(0, 5, 5));
    assert_eq!(scanner.scan(), Ok(bytes(TokenKind::MarkupTagStart, at(0, 1, 1), "a")));
    assert_eq!(scanner.scan(), Ok(bytes(TokenKind::MarkupAttrName, at(0, 3, 3), "b")));
    assert_eq!(scanner.scan(), Ok(bytes(TokenKind::MarkupTagEnd, at(0, 4, 4), ">")));
    assert_eq!(scanner.scan(), Ok(end(at(0, 5, 5))));
}

#[test]
fn tag_at_the_end_of_the_buffer() {
    let tokens = pull_all("a{{}}<b>", "{{", "}}");
    assert_eq!(
        tokens,
        vec![
            bytes(TokenKind::Data, at(0, 0, 0), "a"),
            bytes(TokenKind::StatementOpen, at(0, 1, 1), "{{"),
            bytes(TokenKind::StatementClose, at(0, 3, 3), "}}"),
            bytes(TokenKind::MarkupTagStart, at(0, 6, 6), "b"),
            bytes(TokenKind::MarkupTagEnd, at(0, 7, 7), ">"),
        ]
    );
}

#[test]
fn tags_inside_data_are_data() {
    let tokens = pull_all("a<b>c", "{{", "}}");
    assert_eq!(tokens, vec![bytes(TokenKind::Data, at(0, 0, 0), "a<b>")]);
}

#[test]
fn failed_tag_attempts_in_a_row() {
    let src = "<".repeat(200) + "a";
    let mut scanner = Scanner::new(src.as_bytes(), b"{{", b"}}");
    let token = scanner.scan().unwrap();
    assert_eq!(token, bytes(TokenKind::Data, at(0, 0, 0), &src[..200]));
    assert_eq!(scanner.scan().unwrap().kind, TokenKind::End);

    let nested = "<a b=\"<c d=\\\"<e f=\\\\\\\"g \\\\\\\"/>\\\"/>\"/>";
    let kinds: Vec<TokenKind> =
        pull_all(nested, "{{", "}}").iter().map(|token| token.kind).collect();
    assert_eq!(
        kinds,
        vec![
            TokenKind::MarkupTagStart,
            TokenKind::MarkupAttrName,
            TokenKind::Symbol,
            TokenKind::MarkupTagStart,
            TokenKind::MarkupAttrName,
            TokenKind::Symbol,
            TokenKind::MarkupTagStart,
            TokenKind::MarkupAttrName,
            TokenKind::Symbol,
            TokenKind::Data,
            TokenKind::MarkupTagEnd,
            TokenKind::MarkupTagEnd,
            TokenKind::MarkupTagEnd,
        ]
    );
}

#[test]
fn new_scanner_is_at_the_origin_in_markup_mode() {
    let scanner = Scanner::new(b"abc", b"{{", b"}}");
    assert_eq!(scanner.position(), at(0, 0, 0));
    assert_eq!(scanner.mode(), Mode::Markup);
    assert!(!scanner.in_literal());
    assert_eq!(scanner.pending(), 0);
}
