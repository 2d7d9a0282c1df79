use kuna_sleigh::pcodeparse::{lex_all, Lexeme};

#[test]
fn lex_all_reads_identifiers_numbers_and_punctuation() {
    let toks = lex_all(b"foo = 0x10 + 7;");
    assert_eq!(toks.len(), 7);
    assert!(matches!(&toks[0], Lexeme::Identifier(t) if t.as_slice() == b"foo"));
    assert!(matches!(toks[1], Lexeme::Char(b'=')));
    assert!(matches!(toks[2], Lexeme::Integer(16)));
    assert!(matches!(toks[3], Lexeme::Char(b'+')));
    assert!(matches!(toks[4], Lexeme::Integer(7)));
    assert!(matches!(toks[5], Lexeme::Char(b';')));
    assert!(matches!(toks[6], Lexeme::Endofstream));
}

#[test]
fn lex_all_stops_at_an_illegal_character() {
    let toks = lex_all(b"a $ b");
    assert_eq!(toks.len(), 1);
    assert!(matches!(&toks[0], Lexeme::Identifier(t) if t.as_slice() == b"a"));
}

#[test]
fn lex_all_of_nothing_is_the_end() {
    let toks = lex_all(b"");
    assert_eq!(toks.len(), 1);
    assert!(matches!(toks[0], Lexeme::Endofstream));
    let toks = lex_all(b"# only a comment");
    assert_eq!(toks.len(), 1);
    assert!(matches!(toks[0], Lexeme::Endofstream));
}
