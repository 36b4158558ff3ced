//! Tokens and the lexer that produces them from template text.
use vstd::prelude::*;
use crate::text::{alphanumeric, append_string, decimal, decimal_string, white_space};

verus! {

/// The kinds of token; `TEXT` carries a run of text characters.
#[allow(non_camel_case_types)]
#[derive(Debug, Clone)]
pub enum EToken {
    LESSTHAN,
    GREATERTHAN,
    LESS_THAN_SLASH,
    PLACEHOLDER_START_SYMBOL,
    PLACEHOLDER_END_SYMBOL,
    EQUAL_SYMBOL,
    APOSTROPHE,
    TEXT(String),
    DOT,
}

/// Mathematical form of a token kind.
pub enum ETokenV {
    LessThan,
    GreaterThan,
    LessThanSlash,
    PlaceholderStart,
    PlaceholderEnd,
    Equal,
    Apostrophe,
    Text(Seq<char>),
    Dot,
}

impl View for EToken {
    type V = ETokenV;

    open spec fn view(&self) -> ETokenV {
        match self {
            EToken::LESSTHAN => ETokenV::LessThan,
            EToken::GREATERTHAN => ETokenV::GreaterThan,
            EToken::LESS_THAN_SLASH => ETokenV::LessThanSlash,
            EToken::PLACEHOLDER_START_SYMBOL => ETokenV::PlaceholderStart,
            EToken::PLACEHOLDER_END_SYMBOL => ETokenV::PlaceholderEnd,
            EToken::EQUAL_SYMBOL => ETokenV::Equal,
            EToken::APOSTROPHE => ETokenV::Apostrophe,
            EToken::TEXT(s) => ETokenV::Text(s@),
            EToken::DOT => ETokenV::Dot,
        }
    }
}

/// The source text that a token kind stands for.
pub open spec fn symbol(k: ETokenV) -> Seq<char> {
    match k {
        ETokenV::LessThan => "<"@,
        ETokenV::GreaterThan => ">"@,
        ETokenV::LessThanSlash => "</"@,
        ETokenV::PlaceholderStart => "!{"@,
        ETokenV::PlaceholderEnd => "}!"@,
        ETokenV::Equal => "="@,
        ETokenV::Apostrophe => "\""@,
        ETokenV::Text(s) => s,
        ETokenV::Dot => "."@,
    }
}

impl EToken {
    /// The source text of this token kind.
    pub fn to_symbol(&self) -> (r: String)
        ensures
            r@ == symbol(self@),
    {
        match self {
            EToken::LESSTHAN => String::from_str("<"),
            EToken::GREATERTHAN => String::from_str(">"),
            EToken::LESS_THAN_SLASH => String::from_str("</"),
            EToken::PLACEHOLDER_START_SYMBOL => String::from_str("!{"),
            EToken::PLACEHOLDER_END_SYMBOL => String::from_str("}!"),
            EToken::EQUAL_SYMBOL => String::from_str("="),
            EToken::APOSTROPHE => String::from_str("\""),
            EToken::DOT => String::from_str("."),
            EToken::TEXT(content) => content.clone(),
        }
    }

    /// A copy of this token kind.
    pub fn duplicate(&self) -> (r: EToken)
        ensures
            r@ == self@,
    {
        match self {
            EToken::LESSTHAN => EToken::LESSTHAN,
            EToken::GREATERTHAN => EToken::GREATERTHAN,
            EToken::LESS_THAN_SLASH => EToken::LESS_THAN_SLASH,
            EToken::PLACEHOLDER_START_SYMBOL => EToken::PLACEHOLDER_START_SYMBOL,
            EToken::PLACEHOLDER_END_SYMBOL => EToken::PLACEHOLDER_END_SYMBOL,
            EToken::EQUAL_SYMBOL => EToken::EQUAL_SYMBOL,
            EToken::APOSTROPHE => EToken::APOSTROPHE,
            EToken::DOT => EToken::DOT,
            EToken::TEXT(content) => EToken::TEXT(content.clone()),
        }
    }
}

impl PartialEq for EToken {
    fn eq(&self, other: &EToken) -> (r: bool)
        ensures
            r == (self@ == other@),
    {
        match (self, other) {
            (EToken::TEXT(a), EToken::TEXT(b)) => *a == *b,
            (EToken::LESSTHAN, EToken::LESSTHAN) => true,
            (EToken::GREATERTHAN, EToken::GREATERTHAN) => true,
            (EToken::LESS_THAN_SLASH, EToken::LESS_THAN_SLASH) => true,
            (EToken::PLACEHOLDER_START_SYMBOL, EToken::PLACEHOLDER_START_SYMBOL) => true,
            (EToken::PLACEHOLDER_END_SYMBOL, EToken::PLACEHOLDER_END_SYMBOL) => true,
            (EToken::EQUAL_SYMBOL, EToken::EQUAL_SYMBOL) => true,
            (EToken::APOSTROPHE, EToken::APOSTROPHE) => true,
            (EToken::DOT, EToken::DOT) => true,
            _ => false,
        }
    }
}

impl vstd::std_specs::cmp::PartialEqSpecImpl for EToken {
    open spec fn obeys_eq_spec() -> bool {
        true
    }

    open spec fn eq_spec(&self, other: &EToken) -> bool {
        self@ == other@
    }
}

/// A token with the 1-based line and column of its first character.
#[derive(Debug, Clone)]
pub struct Token {
    pub line: usize,
    pub column: usize,
    pub token: EToken,
}

/// Mathematical form of a token.
pub struct TokenV {
    pub line: nat,
    pub column: nat,
    pub kind: ETokenV,
}

impl View for Token {
    type V = TokenV;

    open spec fn view(&self) -> TokenV {
        TokenV { line: self.line as nat, column: self.column as nat, kind: self.token@ }
    }
}

impl PartialEq for Token {
    fn eq(&self, other: &Token) -> (r: bool)
        ensures
            r == (self@ == other@),
    {
        self.line == other.line && self.column == other.column && self.token == other.token
    }
}

impl vstd::std_specs::cmp::PartialEqSpecImpl for Token {
    open spec fn obeys_eq_spec() -> bool {
        true
    }

    open spec fn eq_spec(&self, other: &Token) -> bool {
        self@ == other@
    }
}

/// The message for a token that the grammar does not allow where it stands.
pub open spec fn unexpected_message(t: TokenV) -> Seq<char> {
    "Unexpected token "@ + symbol(t.kind) + " at line "@ + decimal(t.line) + ", column "@
        + decimal(t.column)
}

/// The message for a token that stands where another one was expected.
pub open spec fn unexpected_expected_message(t: TokenV, expected: ETokenV) -> Seq<char> {
    unexpected_message(t) + ", expected : "@ + symbol(expected)
}

impl Token {
    /// A copy of this token.
    pub fn duplicate(&self) -> (r: Token)
        ensures
            r@ == self@,
    {
        Token { line: self.line, column: self.column, token: self.token.duplicate() }
    }

    /// Describes this token as unexpected, with its position.
    pub fn format_unexpected_err(&self) -> (r: String)
        ensures
            r@ == unexpected_message(self@),
    {
        let mut s = String::from_str("Unexpected token ");
        append_string(&mut s, &self.token.to_symbol());
        s.append(" at line ");
        append_string(&mut s, &decimal_string(self.line));
        s.append(", column ");
        append_string(&mut s, &decimal_string(self.column));
        s
    }

    /// Describes this token as unexpected where `expected` was due.
    pub fn format_unexpected_err_with_expected(&self, expected: EToken) -> (r: String)
        ensures
            r@ == unexpected_expected_message(self@, expected@),
    {
        let mut s = self.format_unexpected_err();
        s.append(", expected : ");
        append_string(&mut s, &expected.to_symbol());
        s
    }
}

/// An element of a lexical tree: a tag and its children.
#[derive(Debug)]
pub struct Elt {
    pub tag: String,
    pub children: Vec<LexicNode>,
}

/// A node of a lexical tree.
#[derive(Debug)]
pub enum LexicNode {
    Element(Elt),
    Text(String),
}

/// Line and column (both 1-based) of the character at index `i`.
pub open spec fn position(s: Seq<char>, i: nat) -> (nat, nat)
    decreases i,
{
    if i == 0 {
        (1, 1)
    } else {
        let p = position(s, (i - 1) as nat);
        if s[i - 1] == '\n' {
            (p.0 + 1, 1)
        } else {
            (p.0, p.1 + 1)
        }
    }
}

pub proof fn lemma_position_bounds(s: Seq<char>, i: nat)
    ensures
        1 <= position(s, i).0 <= i + 1,
        1 <= position(s, i).1 <= i + 1,
    decreases i,
{
    if i > 0 {
        lemma_position_bounds(s, (i - 1) as nat);
    }
}

/// The first index at or after `i` that is not white space.
pub open spec fn skip_white(s: Seq<char>, i: nat) -> nat
    decreases s.len() - i,
{
    if i < s.len() && white_space(s[i as int]) {
        skip_white(s, i + 1)
    } else {
        i
    }
}

/// A character that continues a text run.
pub open spec fn text_char(c: char) -> bool {
    alphanumeric(c) || c == '}' || c == '!' || c == '{' || c == '@' || c == '-' || c == '_'
        || c == ':' || c == '.' || c == '&' || c == ';' || c == ','
}

/// The end of the run of text characters that starts at `i`.
pub open spec fn text_end(s: Seq<char>, i: nat) -> nat
    decreases s.len() - i,
{
    if i < s.len() && text_char(s[i as int]) {
        text_end(s, i + 1)
    } else {
        i
    }
}

/// The token of kind `k` that starts at index `i`.
pub open spec fn token_at(s: Seq<char>, i: nat, k: ETokenV) -> TokenV {
    TokenV { line: position(s, i).0, column: position(s, i).1, kind: k }
}

/// The tokens of `s` from index `i` on.
pub open spec fn lex(s: Seq<char>, i: nat) -> Seq<TokenV>
    decreases s.len() - i
    via lex_decreases
{
    if i >= s.len() {
        Seq::empty()
    } else {
        let c = s[i as int];
        if white_space(c) {
            lex(s, i + 1)
        } else if c == '<' {
            if i + 1 < s.len() && s[(i + 1) as int] == '/' {
                seq![token_at(s, i, ETokenV::LessThanSlash)] + lex(s, i + 2)
            } else {
                seq![token_at(s, i, ETokenV::LessThan)] + lex(s, i + 1)
            }
        } else if c == '>' {
            seq![token_at(s, i, ETokenV::GreaterThan)] + lex(s, i + 1)
        } else if c == '=' {
            seq![token_at(s, i, ETokenV::Equal)] + lex(s, i + 1)
        } else if c == '\'' || c == '"' {
            seq![token_at(s, i, ETokenV::Apostrophe)] + lex(s, i + 1)
        } else {
            let j = text_end(s, i + 1);
            seq![token_at(s, i, ETokenV::Text(s.subrange(i as int, j as int)))] + lex(s, j)
        }
    }
}

#[via_fn]
proof fn lex_decreases(s: Seq<char>, i: nat) {
    if i < s.len() {
        lemma_text_end_bounds(s, i + 1);
    }
}

/// The tokens of a whole text.
pub open spec fn tokens_of(s: Seq<char>) -> Seq<TokenV> {
    lex(s, 0)
}

/// Mathematical form of a token sequence.
pub open spec fn view_tokens(v: Seq<Token>) -> Seq<TokenV> {
    v.map_values(|t: Token| t@)
}

/// White space before a token does not change the tokens.
proof fn lemma_lex_skips_white(s: Seq<char>, i: nat)
    ensures
        lex(s, i) == lex(s, skip_white(s, i)),
        i <= skip_white(s, i) <= s.len() || (i > s.len() && skip_white(s, i) == i),
    decreases s.len() - i,
{
    if i < s.len() && white_space(s[i as int]) {
        lemma_lex_skips_white(s, i + 1);
    }
}

pub proof fn lemma_text_end_bounds(s: Seq<char>, i: nat)
    requires
        i <= s.len(),
    ensures
        i <= text_end(s, i) <= s.len(),
    decreases s.len() - i,
{
    if i < s.len() && text_char(s[i as int]) {
        lemma_text_end_bounds(s, i + 1);
    }
}

/// A forward-only cursor over characters that tracks line and column.
pub struct InputReader {
    pub input: String,
    pub index: usize,
    pub line: usize,
    pub col: usize,
}

impl InputReader {
    /// The index lies within the text and line and column are those of the
    /// character at the index.
    pub open spec fn wf(&self) -> bool {
        &&& self.input@.len() < usize::MAX
        &&& self.index <= self.input@.len()
        &&& (self.line as nat, self.col as nat) == position(self.input@, self.index as nat)
    }

    pub fn new(input: String) -> (r: Self)
        requires
            input@.len() < usize::MAX,
        ensures
            r.wf(),
            r.input@ == input@,
            r.index == 0,
    {
        Self { input, index: 0, line: 1, col: 1 }
    }

    /// The character just before the cursor, if any.
    pub fn last_char(&mut self) -> (r: Option<char>)
        requires
            old(self).wf(),
        ensures
            *final(self) == *old(self),
            r == (if old(self).index > 0 {
                Some(old(self).input@[old(self).index - 1])
            } else {
                None
            }),
    {
        if self.index == 0 {
            None
        } else {
            Some(self.input.as_str().get_char(self.index - 1))
        }
    }

    /// Consumes and returns the character at the cursor; at the end of the
    /// text nothing moves.
    pub fn next_char(&mut self) -> (r: Option<char>)
        requires
            old(self).wf(),
        ensures
            final(self).wf(),
            final(self).input == old(self).input,
            old(self).index < old(self).input@.len() ==> r == Some(old(self).input@[old(self).index as int])
                && final(self).index == old(self).index + 1,
            old(self).index >= old(self).input@.len() ==> r is None && final(self).index == old(self).index,
    {
        if self.index >= self.input.as_str().unicode_len() {
            return None;
        }
        let ch = self.input.as_str().get_char(self.index);
        proof {
            lemma_position_bounds(self.input@, (self.index + 1) as nat);
        }
        if ch == '\n' {
            self.col = 1;
            self.line = self.line + 1;
        } else {
            self.col = self.col + 1;
        }
        self.index = self.index + 1;
        Some(ch)
    }

    /// The character at the cursor, if any.
    pub fn peek_char(&self) -> (r: Option<char>)
        requires
            self.wf(),
        ensures
            r == (if self.index < self.input@.len() {
                Some(self.input@[self.index as int])
            } else {
                None
            }),
    {
        if self.index < self.input.as_str().unicode_len() {
            Some(self.input.as_str().get_char(self.index))
        } else {
            None
        }
    }

    /// Moves the cursor past the white space at it.
    pub fn consume_whitespace(&mut self)
        requires
            old(self).wf(),
        ensures
            final(self).wf(),
            final(self).input == old(self).input,
            final(self).index == skip_white(old(self).input@, old(self).index as nat),
    {
        loop
            invariant
                self.wf(),
                self.input == old(self).input,
                skip_white(self.input@, self.index as nat) == skip_white(
                    old(self).input@,
                    old(self).index as nat,
                ),
            decreases self.input@.len() - self.index,
        {
            match self.peek_char() {
                Some(ch) => {
                    if ch.is_whitespace() {
                        self.next_char();
                    } else {
                        return;
                    }
                },
                None => {
                    return;
                },
            }
        }
    }

    /// A token of kind `token_type` at the cursor's line and column.
    pub fn token(&mut self, token_type: EToken) -> (r: Token)
        ensures
            *final(self) == *old(self),
            r@ == (TokenV { line: old(self).line as nat, column: old(self).col as nat, kind: token_type@ }),
    {
        Token { column: self.col, line: self.line, token: token_type }
    }
}

/// Turns template text into tokens.
pub struct Lexer {
    reader: InputReader,
}

impl Lexer {
    pub closed spec fn wf(&self) -> bool {
        self.reader.wf() && self.reader.index == 0
    }

    pub closed spec fn text(&self) -> Seq<char> {
        self.reader.input@
    }

    pub fn new(input: String) -> (r: Self)
        requires
            input@.len() < usize::MAX,
        ensures
            r.wf(),
            r.text() == input@,
    {
        Self { reader: InputReader::new(input) }
    }

    /// All tokens of the text, in order. White space between tokens is
    /// skipped; each token carries the position of its first character.
    pub fn tokenize(&mut self) -> (tokens: Vec<Token>)
        requires
            old(self).wf(),
        ensures
            view_tokens(tokens@) == tokens_of(old(self).text()),
    {
        let mut tokens: Vec<Token> = Vec::new();
        let ghost s = self.reader.input@;
        loop
            invariant
                self.reader.wf(),
                self.reader.input@ == s,
                s == old(self).text(),
                view_tokens(tokens@) + lex(s, self.reader.index as nat) == tokens_of(s),
            ensures
                view_tokens(tokens@) == tokens_of(s),
            decreases s.len() - self.reader.index,
        {
            let ghost i = self.reader.index as nat;
            let ghost before = tokens@;
            let ch = match self.reader.peek_char() {
                Some(c) => c,
                None => {
                    assert(lex(s, i) == Seq::<TokenV>::empty());
                    assert(view_tokens(tokens@) + lex(s, i) =~= view_tokens(tokens@));
                    break;
                },
            };
            if ch.is_whitespace() {
                proof {
                    lemma_lex_skips_white(s, i);
                    lemma_lex_skips_white(s, i + 1);
                }
                self.reader.consume_whitespace();
                continue;
            }
            let start = self.reader.token(EToken::LESSTHAN);
            self.reader.next_char();
            let tok = if ch == '<' {
                match self.reader.peek_char() {
                    Some('/') => {
                        self.reader.next_char();
                        Token { token: EToken::LESS_THAN_SLASH, ..start }
                    },
                    _ => start,
                }
            } else if ch == '>' {
                Token { token: EToken::GREATERTHAN, ..start }
            } else if ch == '=' {
                Token { token: EToken::EQUAL_SYMBOL, ..start }
            } else if ch == '\'' || ch == '"' {
                Token { token: EToken::APOSTROPHE, ..start }
            } else {
                let mut run = String::new();
                run.push(ch);
                proof {
                    lemma_text_end_bounds(s, i + 1);
                }
                loop
                    invariant
                        self.reader.wf(),
                        self.reader.input@ == s,
                        i < self.reader.index <= s.len(),
                        text_end(s, self.reader.index as nat) == text_end(s, i + 1),
                        run@ == s.subrange(i as int, self.reader.index as int),
                    ensures
                        self.reader.wf(),
                        self.reader.input@ == s,
                        i < self.reader.index <= s.len(),
                        text_end(s, i + 1) == self.reader.index,
                        run@ == s.subrange(i as int, self.reader.index as int),
                    decreases s.len() - self.reader.index,
                {
                    let ghost k = self.reader.index as int;
                    match self.reader.peek_char() {
                        Some(next) => {
                            if is_text_char(next) {
                                run.push(next);
                                self.reader.next_char();
                                assert(run@ =~= s.subrange(i as int, k + 1));
                            } else {
                                break;
                            }
                        },
                        None => {
                            break;
                        },
                    }
                }
                Token { token: EToken::TEXT(run), ..start }
            };
            tokens.push(tok);
            assert(view_tokens(tokens@) =~= view_tokens(before).push(tok@));
            assert(view_tokens(tokens@) + lex(s, self.reader.index as nat) =~= view_tokens(before)
                + lex(s, i));
        }
        tokens
    }
}

fn is_text_char(c: char) -> (r: bool)
    ensures
        r == text_char(c),
{
    c.is_alphanumeric() || c == '}' || c == '!' || c == '{' || c == '@' || c == '-' || c == '_'
        || c == ':' || c == '.' || c == '&' || c == ';' || c == ','
}

} // verus!
