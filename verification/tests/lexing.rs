use parlance::lexer::{tokenize, Token};

fn kinds(src: &str) -> Vec<Token> {
    tokenize(src).expect("tokenizes").into_iter().map(|s| s.token).collect()
}

#[test]
fn line_comments_produce_no_tokens() {
    let src = "# a full-line comment\ndefine main = print 7 # trailing comment\n";
    assert_eq!(
        kinds(src),
        vec![
            Token::Define,
            Token::Ident("main".to_string()),
            Token::Equal,
            Token::Ident("print".to_string()),
            Token::Int(7),
            Token::Eof,
        ]
    );
}

#[test]
fn a_comment_at_the_end_of_the_text_moves_the_end_column() {
    let ts = tokenize("x # c").unwrap();
    assert_eq!(ts.len(), 2);
    assert_eq!(ts[1].token, Token::Eof);
    assert_eq!(ts[1].line, 1);
    assert_eq!(ts[1].col, 6);
}

#[test]
fn double_colon_joins_one_identifier() {
    let ts = tokenize("table::foo").unwrap();
    assert_eq!(ts.len(), 2);
    assert_eq!(ts[0].token, Token::Ident("table::foo".to_string()));
    assert_eq!((ts[0].line, ts[0].col), (1, 1));
    assert_eq!(ts[1].token, Token::Eof);
    assert_eq!((ts[1].line, ts[1].col), (1, 11));
}

#[test]
fn a_single_colon_stays_a_colon() {
    assert_eq!(
        kinds("x : Int"),
        vec![Token::Ident("x".to_string()), Token::Colon, Token::Ident("Int".to_string()), Token::Eof]
    );
}

#[test]
fn index_access_lexes_as_one_name_then_its_key() {
    assert_eq!(
        kinds("tbl::index \"cat\""),
        vec![Token::Ident("tbl::index".to_string()), Token::Str("cat".to_string()), Token::Eof]
    );
}
