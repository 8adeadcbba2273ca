//! The tokens of a let-statement, and how the words and marks that a front
//! end finds become such tokens.

use vstd::prelude::*;
use vstd::string::StringExecFns;

verus! {

/// One token of a let-statement, as far as its grammar tells tokens apart.
#[derive(Clone, Debug, PartialEq, Eq)]
pub enum Token {
    /// `*`, the rest marker.
    Star,
    /// `mut`, the mutability marker.
    Mut,
    /// `,`, between two slots.
    Comma,
    /// `=`, between the slots and the source.
    Assign,
    /// A name.
    Ident(String),
    /// Anything else.
    Other,
}

/// Mathematical model of a [`Token`].
pub enum TokenView {
    Star,
    Mut,
    Comma,
    Assign,
    Ident(Seq<char>),
    Other,
}

impl View for Token {
    type V = TokenView;

    open spec fn view(&self) -> TokenView {
        match self {
            Token::Star => TokenView::Star,
            Token::Mut => TokenView::Mut,
            Token::Comma => TokenView::Comma,
            Token::Assign => TokenView::Assign,
            Token::Ident(name) => TokenView::Ident(name@),
            Token::Other => TokenView::Other,
        }
    }
}

/// The models of a run of tokens, in order.
pub open spec fn token_views(tokens: Seq<Token>) -> Seq<TokenView> {
    Seq::new(tokens.len(), |i: int| tokens[i]@)
}

/// A token as a front end finds it, before the grammar has looked at it.
#[derive(Clone, Debug, PartialEq, Eq)]
pub enum RawToken {
    /// A single punctuation character.
    Punct(char),
    /// A word: a name or a keyword.
    Word(String),
    /// A literal, or a bracketed group.
    Other,
}

/// Mathematical model of a [`RawToken`].
pub enum RawTokenView {
    Punct(char),
    Word(Seq<char>),
    Other,
}

impl View for RawToken {
    type V = RawTokenView;

    open spec fn view(&self) -> RawTokenView {
        match self {
            RawToken::Punct(c) => RawTokenView::Punct(*c),
            RawToken::Word(word) => RawTokenView::Word(word@),
            RawToken::Other => RawTokenView::Other,
        }
    }
}

/// What a punctuation character means to the grammar.
pub open spec fn punct_meaning(c: char) -> TokenView {
    if c == '*' {
        TokenView::Star
    } else if c == ',' {
        TokenView::Comma
    } else if c == '=' {
        TokenView::Assign
    } else {
        TokenView::Other
    }
}

/// What a word means to the grammar: `mut` is the mutability marker, a word
/// that can name a variable is a name, and any other word is out of place.
pub open spec fn word_meaning(word: Seq<char>, can_name: bool) -> TokenView {
    if word == seq!['m', 'u', 't'] {
        TokenView::Mut
    } else if can_name {
        TokenView::Ident(word)
    } else {
        TokenView::Other
    }
}

/// `token` is what `raw` means to the grammar, whether or not its word can
/// name a variable.
pub open spec fn may_mean(raw: RawTokenView, token: TokenView) -> bool {
    match raw {
        RawTokenView::Punct(c) => token == punct_meaning(c),
        RawTokenView::Word(word) => token == word_meaning(word, true) || token == word_meaning(
            word,
            false,
        ),
        RawTokenView::Other => token == TokenView::Other,
    }
}

/// Asks `syn::parse_str::<syn::Ident>` whether `word`, read as Rust source,
/// is a single identifier that is no keyword. Nothing is claimed of the
/// answer: the word is lexed by the compiler inside a macro expansion and by
/// `proc-macro2` elsewhere, so the answer gets no name either.
#[verifier::external_body]
fn accepts_identifier(word: &str) -> bool {
    syn::parse_str::<syn::Ident>(word).is_ok()
}

/// The token that a punctuation character stands for.
pub fn punct_token(c: char) -> (token: Token)
    ensures
        token@ == punct_meaning(c),
{
    if c == '*' {
        Token::Star
    } else if c == ',' {
        Token::Comma
    } else if c == '=' {
        Token::Assign
    } else {
        Token::Other
    }
}

/// The token that a word stands for, once it is known whether the word can
/// name a variable.
pub fn word_token(word: &str, can_name: bool) -> (token: Token)
    ensures
        token@ == word_meaning(word@, can_name),
{
    proof {
        reveal_strlit("mut");
        assert("mut"@ =~= seq!['m', 'u', 't']);
    }
    let owned = String::from_str(word);
    if owned == String::from_str("mut") {
        Token::Mut
    } else if can_name {
        Token::Ident(owned)
    } else {
        Token::Other
    }
}

/// The token that a raw token stands for. Whether a word other than `mut`
/// is a name or out of place is for Rust's own rules on identifiers to say.
pub fn classify(raw: &RawToken) -> (token: Token)
    ensures
        may_mean(raw@, token@),
{
    match raw {
        RawToken::Punct(c) => punct_token(*c),
        RawToken::Word(word) => word_token(word.as_str(), accepts_identifier(word.as_str())),
        RawToken::Other => Token::Other,
    }
}

/// The tokens that a run of raw tokens stands for, one for one.
pub fn lex(raw: &[RawToken]) -> (tokens: Vec<Token>)
    ensures
        tokens@.len() == raw@.len(),
        forall|i: int| 0 <= i < raw@.len() ==> may_mean(raw@[i]@, #[trigger] tokens@[i]@),
{
    let mut tokens: Vec<Token> = Vec::new();
    let mut i: usize = 0;
    while i < raw.len()
        invariant
            i <= raw@.len(),
            tokens@.len() == i,
            forall|j: int| 0 <= j < i ==> may_mean(raw@[j]@, #[trigger] tokens@[j]@),
        decreases raw.len() - i,
    {
        tokens.push(classify(&raw[i]));
        i += 1;
    }
    tokens
}

} // verus!
