use css_tokenizer::parser::{
    is_block_matched, is_block_start, Parser, ParserContext, ParserOptions,
};
use css_tokenizer::token::Token;

#[test]
fn block_start_tokens() {
    assert!(is_block_start(Token::LeftCurlyBracket));
    assert!(is_block_start(Token::LeftSquareBracket));
    assert!(is_block_start(Token::LeftParenthesis));
    assert!(!is_block_start(Token::RightCurlyBracket));
    assert!(!is_block_start(Token::Ident(b"a".to_vec())));
    assert!(!is_block_start(Token::EOF));
}

#[test]
fn block_mirrors() {
    assert!(is_block_matched(
        Token::LeftCurlyBracket,
        Token::RightCurlyBracket
    ));
    assert!(is_block_matched(
        Token::LeftSquareBracket,
        Token::RightSquareBracket
    ));
    assert!(is_block_matched(
        Token::LeftParenthesis,
        Token::RightParenthesis
    ));
    assert!(!is_block_matched(
        Token::LeftCurlyBracket,
        Token::RightSquareBracket
    ));
    assert!(!is_block_matched(
        Token::RightCurlyBracket,
        Token::LeftCurlyBracket
    ));
}

#[test]
fn parser_skips_comments_and_keeps_them() {
    let options = ParserOptions {
        context: ParserContext::Stylesheet,
    };
    let mut parser = Parser::new(b"/* a *//* b */ x".to_vec(), options);
    let ctx = parser.consume_token();
    assert_eq!(ctx.token, Token::WhiteSpace(b" ".to_vec()));
    assert_eq!(ctx.comments.len(), 2);
    assert_eq!(ctx.comments[0].value, b"/* a */".to_vec());
    assert_eq!(ctx.comments[1].value, b"/* b */".to_vec());
    let first = ctx.comments[0].loc;
    assert_eq!((first.start.line, first.start.column), (1, 1));
    assert_eq!((first.end.line, first.end.column), (1, 8));
    let second = ctx.comments[1].loc;
    assert_eq!((second.start.line, second.start.column), (1, 8));
    assert_eq!((second.end.line, second.end.column), (1, 15));
    assert_eq!((ctx.loc.start.line, ctx.loc.start.column), (1, 15));
    assert_eq!((ctx.loc.end.line, ctx.loc.end.column), (1, 16));
    let ctx = parser.consume_token();
    assert_eq!(ctx.token, Token::Ident(b"x".to_vec()));
    assert_eq!(ctx.comments.len(), 0);
    let ctx = parser.consume_token();
    assert_eq!(ctx.token, Token::EOF);
}

#[test]
fn token_locations_bracket_each_token() {
    let options = ParserOptions {
        context: ParserContext::Stylesheet,
    };
    let mut parser = Parser::new(b"a\nb".to_vec(), options);
    let (token, loc) = parser.get_token_and_loc();
    assert_eq!(token, Token::Ident(b"a".to_vec()));
    assert_eq!((loc.start.line, loc.start.column), (1, 1));
    assert_eq!((loc.end.line, loc.end.column), (1, 2));
    let (token, loc) = parser.get_token_and_loc();
    assert_eq!(token, Token::WhiteSpace(b"\n".to_vec()));
    assert_eq!((loc.start.line, loc.start.column), (1, 2));
    assert_eq!((loc.end.line, loc.end.column), (2, 1));
    let (token, loc) = parser.get_token_and_loc();
    assert_eq!(token, Token::Ident(b"b".to_vec()));
    assert_eq!((loc.start.line, loc.start.column), (2, 1));
    assert_eq!((loc.end.line, loc.end.column), (2, 2));
    let (token, _) = parser.get_token_and_loc();
    assert_eq!(token, Token::EOF);
}

#[test]
fn comments_before_end_of_input_are_kept() {
    let options = ParserOptions {
        context: ParserContext::Stylesheet,
    };
    let mut parser = Parser::new(b"/* a */".to_vec(), options);
    let ctx = parser.consume_token();
    assert_eq!(ctx.token, Token::EOF);
    assert_eq!(ctx.comments.len(), 1);
    assert_eq!(ctx.comments[0].value, b"/* a */".to_vec());
}

#[test]
fn empty_input_is_end_of_input_at_once() {
    let options = ParserOptions {
        context: ParserContext::Stylesheet,
    };
    let mut parser = Parser::new(Vec::new(), options);
    let (token, loc) = parser.get_token_and_loc();
    assert_eq!(token, Token::EOF);
    assert_eq!((loc.start.line, loc.start.column), (1, 1));
    assert_eq!((loc.end.line, loc.end.column), (1, 1));
}

#[test]
fn parser_over_a_small_stylesheet() {
    let options = ParserOptions {
        context: ParserContext::Stylesheet,
    };
    let mut parser = Parser::new(b"@media { color: #fff; }".to_vec(), options);
    let mut kinds = Vec::new();
    loop {
        let ctx = parser.consume_token();
        let is_eof = matches!(ctx.token, Token::EOF);
        kinds.push(ctx.token);
        if is_eof {
            break;
        }
    }
    assert_eq!(
        kinds,
        vec![
            Token::AtKeyword(b"@media".to_vec()),
            Token::WhiteSpace(b" ".to_vec()),
            Token::LeftCurlyBracket,
            Token::WhiteSpace(b" ".to_vec()),
            Token::Ident(b"color".to_vec()),
            Token::Colon,
            Token::WhiteSpace(b" ".to_vec()),
            Token::Hash(b"#fff".to_vec()),
            Token::Semicolon,
            Token::WhiteSpace(b" ".to_vec()),
            Token::RightCurlyBracket,
            Token::EOF
        ]
    );
}
