use chemtool::token::{Token, TokenKind};

#[test]
fn element_token_has_a_name() {
    let token = Token { tok: TokenKind::Elem("He".to_string()), pos: 1, len: 2 };
    assert_eq!(token.tok.elem(), Some(&"He".to_string()));
    assert_eq!(token.tok.coef(), None);
}

#[test]
fn coefficient_token_has_a_number() {
    let token = Token { tok: TokenKind::Coefficient(23), pos: 1, len: 2 };
    assert_eq!(token.tok.coef(), Some(&23));
    assert_eq!(token.tok.elem(), None);
}

#[test]
fn other_tokens_have_neither() {
    for kind in [TokenKind::ParenOpen, TokenKind::ParenClose, TokenKind::Plus, TokenKind::RightArrow]
    {
        assert_eq!(kind.elem(), None);
        assert_eq!(kind.coef(), None);
    }
}
