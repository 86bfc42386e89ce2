use css_tokenizer::token::Token;
use css_tokenizer::tokenizer::Tokenizer;

fn drain(input: &[u8]) -> Vec<Token> {
    let mut t = Tokenizer::new(input.to_vec());
    let mut out = Vec::new();
    loop {
        let tok = t.next_token();
        let is_eof = matches!(tok, Token::EOF);
        out.push(tok);
        if is_eof {
            break;
        }
    }
    out
}

#[test]
fn left_curly_bracket_alone() {
    assert_eq!(drain(b"{"), vec![Token::LeftCurlyBracket, Token::EOF]);
}

#[test]
fn whitespace_then_left_curly_bracket() {
    assert_eq!(
        drain(b"   {"),
        vec![
            Token::WhiteSpace(b"   ".to_vec()),
            Token::LeftCurlyBracket,
            Token::EOF
        ]
    );
}

#[test]
fn url_with_padded_body() {
    assert_eq!(
        drain(b"url(  http )"),
        vec![Token::Url(b"http".to_vec()), Token::EOF]
    );
}

#[test]
fn string_keeps_both_quotes() {
    assert_eq!(
        drain(b"\"23af\""),
        vec![Token::String(b"\"23af\"".to_vec()), Token::EOF]
    );
}

#[test]
fn cdc_at_top_level() {
    assert_eq!(drain(b"-->"), vec![Token::CDC, Token::EOF]);
}

#[test]
fn cdo_at_top_level() {
    assert_eq!(drain(b"<!--"), vec![Token::CDO, Token::EOF]);
}

#[test]
fn unterminated_string_at_eof() {
    assert_eq!(
        drain(b"\"abc"),
        vec![Token::String(b"\"abc".to_vec()), Token::EOF]
    );
}

#[test]
fn string_interrupted_by_newline_resynchronizes() {
    assert_eq!(
        drain(b"\"ab\nc\""),
        vec![
            Token::BadString(b"\"ab".to_vec()),
            Token::WhiteSpace(b"\n".to_vec()),
            Token::Ident(b"c".to_vec()),
            Token::String(b"\"".to_vec()),
            Token::EOF
        ]
    );
}

#[test]
fn bom_is_transparent() {
    assert_eq!(drain(b"\xEF\xBB\xBFa"), drain(b"a"));
}

#[test]
fn bom_alone_is_empty_input() {
    assert_eq!(drain(b"\xEF\xBB\xBF"), vec![Token::EOF]);
}

#[test]
fn eof_is_stable_and_moves_nothing() {
    let mut t = Tokenizer::new(b"a".to_vec());
    assert_eq!(t.next_token(), Token::Ident(b"a".to_vec()));
    assert_eq!(t.next_token(), Token::EOF);
    let position = t.position;
    let line = t.line;
    let column = t.column;
    assert_eq!(t.next_token(), Token::EOF);
    assert_eq!(t.next_token(), Token::EOF);
    assert_eq!(t.position, position);
    assert_eq!(t.line, line);
    assert_eq!(t.column, column);
}

#[test]
fn spans_reconstruct_simple_input() {
    let input: &[u8] = b"a { b: 12px; }";
    let mut joined: Vec<u8> = Vec::new();
    for tok in drain(input) {
        match tok {
            Token::Ident(v)
            | Token::WhiteSpace(v)
            | Token::Number(v)
            | Token::Dimension(v)
            | Token::Delim(v) => joined.extend_from_slice(&v),
            Token::LeftCurlyBracket => joined.push(b'{'),
            Token::RightCurlyBracket => joined.push(b'}'),
            Token::Colon => joined.push(b':'),
            Token::Semicolon => joined.push(b';'),
            Token::EOF => {}
            other => panic!("unexpected token {:?}", other),
        }
    }
    assert_eq!(joined, input.to_vec());
}

#[test]
fn numeric_tokens() {
    assert_eq!(
        drain(b"12.5em"),
        vec![Token::Dimension(b"12.5em".to_vec()), Token::EOF]
    );
    assert_eq!(
        drain(b"50%"),
        vec![Token::Percentage(b"50%".to_vec()), Token::EOF]
    );
    assert_eq!(drain(b"+3"), vec![Token::Number(b"+3".to_vec()), Token::EOF]);
    assert_eq!(drain(b"-3"), vec![Token::Number(b"-3".to_vec()), Token::EOF]);
    assert_eq!(drain(b".5"), vec![Token::Number(b".5".to_vec()), Token::EOF]);
    assert_eq!(
        drain(b"1e6"),
        vec![Token::Number(b"1e6".to_vec()), Token::EOF]
    );
}

#[test]
fn sign_without_number_is_delim() {
    assert_eq!(
        drain(b"+ "),
        vec![
            Token::Delim(b"+".to_vec()),
            Token::WhiteSpace(b" ".to_vec()),
            Token::EOF
        ]
    );
    assert_eq!(
        drain(b". "),
        vec![
            Token::Delim(b".".to_vec()),
            Token::WhiteSpace(b" ".to_vec()),
            Token::EOF
        ]
    );
}

#[test]
fn hash_tokens() {
    assert_eq!(
        drain(b"#fff"),
        vec![Token::Hash(b"#fff".to_vec()), Token::EOF]
    );
    assert_eq!(
        drain(b"# "),
        vec![
            Token::Delim(b"#".to_vec()),
            Token::WhiteSpace(b" ".to_vec()),
            Token::EOF
        ]
    );
}

#[test]
fn at_keyword_tokens() {
    assert_eq!(
        drain(b"@media"),
        vec![Token::AtKeyword(b"@media".to_vec()), Token::EOF]
    );
    assert_eq!(
        drain(b"@ "),
        vec![
            Token::Delim(b"@".to_vec()),
            Token::WhiteSpace(b" ".to_vec()),
            Token::EOF
        ]
    );
    assert_eq!(drain(b"@"), vec![Token::Delim(b"@".to_vec()), Token::EOF]);
}

#[test]
fn comment_tokens() {
    assert_eq!(
        drain(b"/* c */x"),
        vec![
            Token::Comment(b"/* c */".to_vec()),
            Token::Ident(b"x".to_vec()),
            Token::EOF
        ]
    );
    assert_eq!(
        drain(b"/* open"),
        vec![Token::Comment(b"/* open".to_vec()), Token::EOF]
    );
}

#[test]
fn function_tokens() {
    assert_eq!(
        drain(b"calc("),
        vec![Token::Function(b"calc".to_vec()), Token::EOF]
    );
}

#[test]
fn url_with_quote_becomes_function() {
    assert_eq!(
        drain(b"url('x')"),
        vec![
            Token::Function(b"url".to_vec()),
            Token::String(b"'x'".to_vec()),
            Token::RightParenthesis,
            Token::EOF
        ]
    );
}

#[test]
fn url_case_insensitive() {
    assert_eq!(drain(b"URL(x)"), vec![Token::Url(b"x".to_vec()), Token::EOF]);
}

#[test]
fn url_with_inner_space_is_bad() {
    assert_eq!(
        drain(b"url(a b)"),
        vec![Token::BadUrl(b"a b)".to_vec()), Token::EOF]
    );
}

#[test]
fn url_with_quote_in_body_is_bad() {
    assert_eq!(
        drain(b"url(a\"b) x"),
        vec![
            Token::BadUrl(b"a\"b)".to_vec()),
            Token::WhiteSpace(b" ".to_vec()),
            Token::Ident(b"x".to_vec()),
            Token::EOF
        ]
    );
}

#[test]
fn url_unterminated_at_eof() {
    assert_eq!(
        drain(b"url(http"),
        vec![Token::Url(b"http".to_vec()), Token::EOF]
    );
}

#[test]
fn escape_in_identifier_swallows_one_whitespace() {
    assert_eq!(
        drain(b"a\\62 c"),
        vec![Token::Ident(b"a\\62 c".to_vec()), Token::EOF]
    );
}

#[test]
fn lone_backslash_at_eof() {
    assert_eq!(drain(b"\\"), vec![Token::Ident(b"\\".to_vec()), Token::EOF]);
}

#[test]
fn backslash_before_newline_is_delim() {
    assert_eq!(
        drain(b"\\\nx"),
        vec![
            Token::Delim(b"\\".to_vec()),
            Token::WhiteSpace(b"\n".to_vec()),
            Token::Ident(b"x".to_vec()),
            Token::EOF
        ]
    );
}

#[test]
fn string_line_continuation_does_not_end_string() {
    assert_eq!(
        drain(b"\"a\\\nb\""),
        vec![Token::String(b"\"a\\\nb\"".to_vec()), Token::EOF]
    );
}

#[test]
fn string_with_escaped_quote() {
    assert_eq!(
        drain(b"\"a\\\"b\""),
        vec![Token::String(b"\"a\\\"b\"".to_vec()), Token::EOF]
    );
}

#[test]
fn double_hyphen_is_identifier() {
    assert_eq!(
        drain(b"--x"),
        vec![Token::Ident(b"--x".to_vec()), Token::EOF]
    );
}

#[test]
fn other_byte_is_delim() {
    assert_eq!(drain(b"$"), vec![Token::Delim(b"$".to_vec()), Token::EOF]);
}

#[test]
fn structural_tokens() {
    assert_eq!(
        drain(b"()[]{},:;"),
        vec![
            Token::LeftParenthesis,
            Token::RightParenthesis,
            Token::LeftSquareBracket,
            Token::RightSquareBracket,
            Token::LeftCurlyBracket,
            Token::RightCurlyBracket,
            Token::Comma,
            Token::Colon,
            Token::Semicolon,
            Token::EOF
        ]
    );
}

#[test]
fn line_and_column_track_newlines() {
    let mut t = Tokenizer::new(b"a\nb".to_vec());
    assert_eq!((t.line, t.column), (1, 1));
    assert_eq!(t.next_token(), Token::Ident(b"a".to_vec()));
    assert_eq!((t.line, t.column), (1, 2));
    assert_eq!(t.next_token(), Token::WhiteSpace(b"\n".to_vec()));
    assert_eq!((t.line, t.column), (2, 1));
    assert_eq!(t.next_token(), Token::Ident(b"b".to_vec()));
    assert_eq!((t.line, t.column), (2, 2));
}

#[test]
fn carriage_return_line_feed_is_one_newline() {
    let mut t = Tokenizer::new(b"a\r\nb".to_vec());
    assert_eq!(t.next_token(), Token::Ident(b"a".to_vec()));
    assert_eq!(t.next_token(), Token::WhiteSpace(b"\r\n".to_vec()));
    assert_eq!((t.line, t.column), (2, 1));
}

#[test]
fn multi_byte_scalar_is_one_column() {
    let mut t = Tokenizer::new("\u{e9}x".as_bytes().to_vec());
    assert_eq!(t.next_token(), Token::Ident("\u{e9}x".as_bytes().to_vec()));
    assert_eq!((t.line, t.column), (1, 3));
}
