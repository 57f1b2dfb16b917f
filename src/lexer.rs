use vstd::prelude::*;

verus! {

/// The closed set of token kinds produced by the lexer.
#[derive(Debug, Clone, Copy, PartialEq, Eq, Structural)]
pub enum TokenKind {
    Identifier,
    Int,
    Float,
    String,
    Bool,
    LeftParen,
    RightParen,
    LeftBrace,
    RightBrace,
    Semicolon,
    Plus,
    Minus,
    Star,
    Slash,
    Equal,
    GreaterThan,
    LessThan,
    If,
    Else,
    Fn,
    Let,
    And,
    Or,
    Not,
    Return,
    EOF,
}

/// One lexical unit: its kind, its literal text and the line it was read on.
#[derive(Debug, Clone, PartialEq, Eq)]
pub struct Token {
    pub kind: TokenKind,
    pub value: String,
    pub line: usize,
}

/// The mathematical value of a token.
pub struct TokenView {
    pub kind: TokenKind,
    pub value: Seq<char>,
    pub line: nat,
}

impl View for Token {
    type V = TokenView;

    open spec fn view(&self) -> TokenView {
        TokenView { kind: self.kind, value: self.value@, line: self.line as nat }
    }
}

pub open spec fn token_view(kind: TokenKind, value: Seq<char>, line: nat) -> TokenView {
    TokenView { kind, value, line }
}

/// The views of a sequence of tokens.
pub open spec fn tokens_view(toks: Seq<Token>) -> Seq<TokenView> {
    toks.map_values(|t: Token| t@)
}

/// The states of the lexer's scanning automaton.
#[derive(Debug, Clone, Copy, PartialEq, Eq, Structural)]
pub enum State {
    Default,
    Identifier,
    String,
    Number,
}

/// A lexical error; lexing stops at the first one.
#[derive(Debug, Clone, PartialEq, Eq)]
pub enum LexError {
    InvalidCharacter { character: char, line: usize, message: String },
    UnterminatedString { line: usize, message: String },
    InvalidNumber { value: String, line: usize, message: String },
}

/// The mathematical value of a lexical error.
pub enum LexErrorView {
    InvalidCharacter { character: char, line: nat, message: Seq<char> },
    UnterminatedString { line: nat, message: Seq<char> },
    InvalidNumber { value: Seq<char>, line: nat, message: Seq<char> },
}

impl View for LexError {
    type V = LexErrorView;

    open spec fn view(&self) -> LexErrorView {
        match self {
            LexError::InvalidCharacter { character, line, message } => LexErrorView::InvalidCharacter {
                character: *character,
                line: *line as nat,
                message: message@,
            },
            LexError::UnterminatedString { line, message } => LexErrorView::UnterminatedString {
                line: *line as nat,
                message: message@,
            },
            LexError::InvalidNumber { value, line, message } => LexErrorView::InvalidNumber {
                value: value@,
                line: *line as nat,
                message: message@,
            },
        }
    }
}

/// The single-character table: punctuation and operators.
pub open spec fn punct_kind(c: char) -> Option<TokenKind> {
    match c {
        '(' => Some(TokenKind::LeftParen),
        ')' => Some(TokenKind::RightParen),
        '{' => Some(TokenKind::LeftBrace),
        '}' => Some(TokenKind::RightBrace),
        ';' => Some(TokenKind::Semicolon),
        '+' => Some(TokenKind::Plus),
        '-' => Some(TokenKind::Minus),
        '*' => Some(TokenKind::Star),
        '/' => Some(TokenKind::Slash),
        '=' => Some(TokenKind::Equal),
        '>' => Some(TokenKind::GreaterThan),
        '<' => Some(TokenKind::LessThan),
        _ => None,
    }
}

/// The keyword table; any other word is an identifier.
pub open spec fn keyword_kind(s: Seq<char>) -> TokenKind {
    if s == "if"@ {
        TokenKind::If
    } else if s == "else"@ {
        TokenKind::Else
    } else if s == "and"@ {
        TokenKind::And
    } else if s == "or"@ {
        TokenKind::Or
    } else if s == "not"@ {
        TokenKind::Not
    } else if s == "return"@ {
        TokenKind::Return
    } else if s == "fn"@ {
        TokenKind::Fn
    } else if s == "let"@ {
        TokenKind::Let
    } else if s == "True"@ || s == "False"@ {
        TokenKind::Bool
    } else {
        TokenKind::Identifier
    }
}

pub open spec fn is_alpha(c: char) -> bool {
    ('a' <= c && c <= 'z') || ('A' <= c && c <= 'Z')
}

pub open spec fn is_digit(c: char) -> bool {
    '0' <= c && c <= '9'
}

pub open spec fn starts_word(c: char) -> bool {
    is_alpha(c) || c == '_'
}

pub open spec fn continues_word(c: char) -> bool {
    is_alpha(c) || is_digit(c) || c == '_'
}

pub open spec fn is_blank(c: char) -> bool {
    c == ' ' || c == '\t' || c == '\r'
}

pub open spec fn number_kind(seen_dot: bool) -> TokenKind {
    if seen_dot {
        TokenKind::Float
    } else {
        TokenKind::Int
    }
}

pub open spec fn state_rank(st: State) -> nat {
    match st {
        State::Default => 0,
        _ => 1,
    }
}

pub open spec fn invalid_character_text() -> Seq<char> {
    "invalid character"@
}

pub open spec fn unterminated_string_text() -> Seq<char> {
    "unterminated string literal"@
}

pub open spec fn invalid_number_text() -> Seq<char> {
    "a number may hold at most one '.'"@
}

/// A configuration of the scanning automaton: the cursor, the state, the
/// accumulation buffer, whether a number run has seen its `.`, the current
/// line and the tokens emitted so far.
pub struct LexConfig {
    pub pos: nat,
    pub state: State,
    pub buf: Seq<char>,
    pub seen_dot: bool,
    pub line: nat,
    pub toks: Seq<TokenView>,
}

pub open spec fn config(
    pos: nat,
    state: State,
    buf: Seq<char>,
    seen_dot: bool,
    line: nat,
    toks: Seq<TokenView>,
) -> LexConfig {
    LexConfig { pos, state, buf, seen_dot, line, toks }
}

pub open spec fn initial_config() -> LexConfig {
    config(0, State::Default, Seq::empty(), false, 1, Seq::empty())
}

/// What the lexer yields once the input is exhausted: the pending word or
/// number is flushed, then the end-of-input token closes the sequence.
pub open spec fn lex_finish(c: LexConfig) -> Result<Seq<TokenView>, LexErrorView> {
    let eof = token_view(TokenKind::EOF, Seq::empty(), c.line);
    match c.state {
        State::Default => Ok(c.toks.push(eof)),
        State::Identifier => Ok(
            c.toks.push(token_view(keyword_kind(c.buf), c.buf, c.line)).push(eof),
        ),
        State::Number => Ok(
            c.toks.push(token_view(number_kind(c.seen_dot), c.buf, c.line)).push(eof),
        ),
        State::String => Err(
            LexErrorView::UnterminatedString { line: c.line, message: unterminated_string_text() },
        ),
    }
}

/// One transition on the character under the cursor. A word or number run
/// ends without consuming the character that ends it.
pub open spec fn lex_step(src: Seq<char>, c: LexConfig) -> Result<LexConfig, LexErrorView> {
    let ch = src[c.pos as int];
    let next = (c.pos + 1) as nat;
    match c.state {
        State::Default => {
            if ch == '\n' {
                Ok(config(next, State::Default, c.buf, false, c.line + 1, c.toks))
            } else if is_blank(ch) {
                Ok(config(next, State::Default, c.buf, false, c.line, c.toks))
            } else if ch == '"' {
                Ok(config(next, State::String, Seq::empty(), false, c.line, c.toks))
            } else if starts_word(ch) {
                Ok(config(next, State::Identifier, seq![ch], false, c.line, c.toks))
            } else if is_digit(ch) {
                Ok(config(next, State::Number, seq![ch], false, c.line, c.toks))
            } else {
                match punct_kind(ch) {
                    Some(k) => Ok(
                        config(
                            next,
                            State::Default,
                            c.buf,
                            false,
                            c.line,
                            c.toks.push(token_view(k, seq![ch], c.line)),
                        ),
                    ),
                    None => Err(
                        LexErrorView::InvalidCharacter {
                            character: ch,
                            line: c.line,
                            message: invalid_character_text(),
                        },
                    ),
                }
            }
        },
        State::Identifier => {
            if continues_word(ch) {
                Ok(config(next, State::Identifier, c.buf.push(ch), false, c.line, c.toks))
            } else {
                Ok(
                    config(
                        c.pos,
                        State::Default,
                        Seq::empty(),
                        false,
                        c.line,
                        c.toks.push(token_view(keyword_kind(c.buf), c.buf, c.line)),
                    ),
                )
            }
        },
        State::Number => {
            if is_digit(ch) {
                Ok(config(next, State::Number, c.buf.push(ch), c.seen_dot, c.line, c.toks))
            } else if ch == '.' && !c.seen_dot {
                Ok(config(next, State::Number, c.buf.push(ch), true, c.line, c.toks))
            } else if ch == '.' {
                Err(
                    LexErrorView::InvalidNumber {
                        value: c.buf,
                        line: c.line,
                        message: invalid_number_text(),
                    },
                )
            } else {
                Ok(
                    config(
                        c.pos,
                        State::Default,
                        Seq::empty(),
                        false,
                        c.line,
                        c.toks.push(token_view(number_kind(c.seen_dot), c.buf, c.line)),
                    ),
                )
            }
        },
        State::String => {
            if ch == '"' {
                Ok(
                    config(
                        next,
                        State::Default,
                        Seq::empty(),
                        false,
                        c.line,
                        c.toks.push(token_view(TokenKind::String, c.buf, c.line)),
                    ),
                )
            } else {
                let line = if ch == '\n' {
                    c.line + 1
                } else {
                    c.line
                };
                Ok(config(next, State::String, c.buf.push(ch), false, line, c.toks))
            }
        },
    }
}

/// Each transition consumes a character, or leaves a run for the default
/// state without consuming one.
pub proof fn lemma_step_progress(src: Seq<char>, c: LexConfig)
    requires
        c.pos < src.len(),
    ensures
        lex_step(src, c) matches Ok(n) ==> (n.pos == c.pos + 1 || (n.pos == c.pos
            && n.state == State::Default && c.state != State::Default)),
{
}

/// The scanning automaton run from configuration `c` to the end of `src`.
pub open spec fn lex_from(src: Seq<char>, c: LexConfig) -> Result<Seq<TokenView>, LexErrorView>
    decreases src.len() - c.pos, state_rank(c.state),
{
    if c.pos >= src.len() {
        lex_finish(c)
    } else {
        match lex_step(src, c) {
            Ok(n) => {
                proof {
                    lemma_step_progress(src, c);
                }
                lex_from(src, n)
            },
            Err(e) => Err(e),
        }
    }
}

/// The result of lexing the whole of `src`, starting on line 1.
pub open spec fn lex(src: Seq<char>) -> Result<Seq<TokenView>, LexErrorView> {
    lex_from(src, initial_config())
}

/// `r` is the outcome that lexing `src` calls for.
pub open spec fn lexed_as(src: Seq<char>, r: Result<Vec<Token>, LexError>) -> bool {
    match r {
        Ok(toks) => lex(src) == Ok::<Seq<TokenView>, LexErrorView>(tokens_view(toks@)),
        Err(e) => lex(src) == Err::<Seq<TokenView>, LexErrorView>(e@),
    }
}

/// Looks a character up in the single-character token table.
pub fn char_to_token(c: char) -> (r: Option<TokenKind>)
    ensures
        r == punct_kind(c),
{
    match c {
        '(' => Some(TokenKind::LeftParen),
        ')' => Some(TokenKind::RightParen),
        '{' => Some(TokenKind::LeftBrace),
        '}' => Some(TokenKind::RightBrace),
        ';' => Some(TokenKind::Semicolon),
        '+' => Some(TokenKind::Plus),
        '-' => Some(TokenKind::Minus),
        '*' => Some(TokenKind::Star),
        '/' => Some(TokenKind::Slash),
        '=' => Some(TokenKind::Equal),
        '>' => Some(TokenKind::GreaterThan),
        '<' => Some(TokenKind::LessThan),
        _ => None,
    }
}

/// Relies on `String::push`: appends one character.
#[verifier::external_body]
fn push_char(s: &mut String, c: char)
    ensures
        final(s)@ == old(s)@.push(c),
{
    s.push(c);
}

/// Relies on `==` on `str`: two strings are equal when their characters are.
#[verifier::external_body]
pub(crate) fn text_eq(a: &str, b: &str) -> (r: bool)
    ensures
        r == (a@ == b@),
{
    a == b
}

fn text_of_char(c: char) -> (r: String)
    ensures
        r@ == seq![c],
{
    let mut s = String::new();
    push_char(&mut s, c);
    s
}

fn is_alpha_char(c: char) -> (r: bool)
    ensures
        r == is_alpha(c),
{
    ('a' <= c && c <= 'z') || ('A' <= c && c <= 'Z')
}

fn is_digit_char(c: char) -> (r: bool)
    ensures
        r == is_digit(c),
{
    '0' <= c && c <= '9'
}

/// Classifies a finished word against the keyword table.
fn identify_token(s: &str) -> (r: TokenKind)
    ensures
        r == keyword_kind(s@),
{
    if text_eq(s, "if") {
        TokenKind::If
    } else if text_eq(s, "else") {
        TokenKind::Else
    } else if text_eq(s, "and") {
        TokenKind::And
    } else if text_eq(s, "or") {
        TokenKind::Or
    } else if text_eq(s, "not") {
        TokenKind::Not
    } else if text_eq(s, "return") {
        TokenKind::Return
    } else if text_eq(s, "fn") {
        TokenKind::Fn
    } else if text_eq(s, "let") {
        TokenKind::Let
    } else if text_eq(s, "True") || text_eq(s, "False") {
        TokenKind::Bool
    } else {
        TokenKind::Identifier
    }
}

/// The characters of `source`, in order.
pub(crate) fn source_chars(source: &str) -> (r: Vec<char>)
    ensures
        r@ == source@,
{
    let mut out: Vec<char> = Vec::new();
    for c in it: source.chars()
        invariant
            it.seq() == source@,
            out@ == it.seq().take(it.index() as int),
    {
        out.push(c);
    }
    out
}

/// Appends a token to the output.
fn emit_token(tokens: &mut Vec<Token>, kind: TokenKind, value: String, line: usize)
    ensures
        tokens_view(final(tokens)@) == tokens_view(old(tokens)@).push(
            token_view(kind, value@, line as nat),
        ),
{
    let ghost before = tokens@;
    tokens.push(Token { kind, value, line });
    assert(tokens_view(tokens@) =~= tokens_view(before).push(token_view(kind, value@, line as nat)));
}

/// Turns source text into its token sequence, closed by an end-of-input
/// token, or reports the first lexical error.
pub fn tokenize(source: &str) -> (r: Result<Vec<Token>, LexError>)
    requires
        source@.len() < usize::MAX,
    ensures
        lexed_as(source@, r),
{
    let chars = source_chars(source);
    let len = chars.len();
    let mut tokens: Vec<Token> = Vec::new();
    let mut line: usize = 1;
    let mut i: usize = 0;
    let mut state = State::Default;
    let mut buffer = String::new();
    let mut seen_dot = false;
    assert(tokens_view(tokens@) =~= Seq::<TokenView>::empty());
    while i < len
        invariant
            len == chars@.len(),
            chars@ == source@,
            len < usize::MAX,
            i <= len,
            1 <= line <= i + 1,
            lex_from(
                chars@,
                config(i as nat, state, buffer@, seen_dot, line as nat, tokens_view(tokens@)),
            ) == lex(source@),
        decreases len - i, state_rank(state),
    {
        let c = chars[i];
        match state {
            State::Default => {
                if c == '\n' {
                    line = line + 1;
                    i = i + 1;
                } else if c == ' ' || c == '\t' || c == '\r' {
                    i = i + 1;
                } else if c == '"' {
                    buffer = String::new();
                    state = State::String;
                    i = i + 1;
                } else if is_alpha_char(c) || c == '_' {
                    buffer = text_of_char(c);
                    state = State::Identifier;
                    i = i + 1;
                } else if is_digit_char(c) {
                    buffer = text_of_char(c);
                    state = State::Number;
                    i = i + 1;
                } else {
                    match char_to_token(c) {
                        Some(kind) => {
                            emit_token(&mut tokens, kind, text_of_char(c), line);
                            i = i + 1;
                        },
                        None => {
                            return Err(
                                LexError::InvalidCharacter {
                                    character: c,
                                    line,
                                    message: String::from_str("invalid character"),
                                },
                            );
                        },
                    }
                }
                seen_dot = false;
            },
            State::Identifier => {
                if is_alpha_char(c) || is_digit_char(c) || c == '_' {
                    push_char(&mut buffer, c);
                    i = i + 1;
                } else {
                    let kind = identify_token(buffer.as_str());
                    emit_token(&mut tokens, kind, buffer.clone(), line);
                    buffer = String::new();
                    state = State::Default;
                }
                seen_dot = false;
            },
            State::Number => {
                if is_digit_char(c) {
                    push_char(&mut buffer, c);
                    i = i + 1;
                } else if c == '.' && !seen_dot {
                    push_char(&mut buffer, c);
                    seen_dot = true;
                    i = i + 1;
                } else if c == '.' {
                    return Err(
                        LexError::InvalidNumber {
                            value: buffer,
                            line,
                            message: String::from_str("a number may hold at most one '.'"),
                        },
                    );
                } else {
                    let kind = if seen_dot {
                        TokenKind::Float
                    } else {
                        TokenKind::Int
                    };
                    emit_token(&mut tokens, kind, buffer.clone(), line);
                    buffer = String::new();
                    state = State::Default;
                    seen_dot = false;
                }
            },
            State::String => {
                if c == '"' {
                    emit_token(&mut tokens, TokenKind::String, buffer.clone(), line);
                    buffer = String::new();
                    state = State::Default;
                } else {
                    if c == '\n' {
                        line = line + 1;
                    }
                    push_char(&mut buffer, c);
                }
                seen_dot = false;
                i = i + 1;
            },
        }
    }
    match state {
        State::Default => {},
        State::Identifier => {
            let kind = identify_token(buffer.as_str());
            emit_token(&mut tokens, kind, buffer, line);
        },
        State::Number => {
            let kind = if seen_dot {
                TokenKind::Float
            } else {
                TokenKind::Int
            };
            emit_token(&mut tokens, kind, buffer, line);
        },
        State::String => {
            return Err(
                LexError::UnterminatedString {
                    line,
                    message: String::from_str("unterminated string literal"),
                },
            );
        },
    }
    emit_token(&mut tokens, TokenKind::EOF, String::new(), line);
    Ok(tokens)
}

/// The number of newline characters in `s`.
pub open spec fn newlines(s: Seq<char>) -> nat
    decreases s.len(),
{
    if s.len() == 0 {
        0
    } else {
        newlines(s.drop_last()) + if s.last() == '\n' {
            1nat
        } else {
            0nat
        }
    }
}

pub open spec fn no_eof(toks: Seq<TokenView>) -> bool {
    forall|i: int| 0 <= i < toks.len() ==> toks[i].kind != TokenKind::EOF
}

proof fn lemma_step_facts(src: Seq<char>, c: LexConfig)
    requires
        c.pos < src.len(),
        c.line == 1 + newlines(src.take(c.pos as int)),
        no_eof(c.toks),
    ensures
        lex_step(src, c) matches Ok(n) ==> n.line == 1 + newlines(src.take(n.pos as int))
            && no_eof(n.toks),
{
    assert(src.take(c.pos + 1int).drop_last() =~= src.take(c.pos as int));
    if let Ok(n) = lex_step(src, c) {
        assert(no_eof(n.toks)) by {
            assert forall|i: int| 0 <= i < n.toks.len() implies n.toks[i].kind
                != TokenKind::EOF by {
                if i < c.toks.len() {
                    assert(n.toks[i] == c.toks[i]);
                }
            }
        }
    }
}

proof fn lemma_lex_from_facts(src: Seq<char>, c: LexConfig)
    requires
        c.pos <= src.len(),
        c.line == 1 + newlines(src.take(c.pos as int)),
        no_eof(c.toks),
    ensures
        lex_from(src, c) matches Ok(t) ==> t.len() >= 1 && t.last().kind == TokenKind::EOF
            && no_eof(t.drop_last()) && t.last().line == 1 + newlines(src),
        lex_from(src, c) matches Err(LexErrorView::UnterminatedString { line, .. }) ==> line == 1
            + newlines(src),
    decreases src.len() - c.pos, state_rank(c.state),
{
    if c.pos >= src.len() {
        assert(src.take(c.pos as int) =~= src);
        if let Ok(t) = lex_from(src, c) {
            assert(no_eof(t.drop_last())) by {
                assert forall|i: int| 0 <= i < t.drop_last().len() implies t.drop_last()[i].kind
                    != TokenKind::EOF by {
                    if i < c.toks.len() {
                        assert(t.drop_last()[i] == c.toks[i]);
                    }
                }
            }
        }
    } else {
        lemma_step_facts(src, c);
        lemma_step_progress(src, c);
        if let Ok(n) = lex_step(src, c) {
            lemma_lex_from_facts(src, n);
        }
    }
}

proof fn lemma_lex_facts(src: Seq<char>)
    ensures
        lex(src) matches Ok(t) ==> t.len() >= 1 && t.last().kind == TokenKind::EOF && no_eof(
            t.drop_last(),
        ) && t.last().line == 1 + newlines(src),
        lex(src) matches Err(LexErrorView::UnterminatedString { line, .. }) ==> line == 1
            + newlines(src),
{
    assert(src.take(0) =~= Seq::<char>::empty());
    lemma_lex_from_facts(src, initial_config());
}

/// Lexing is a function of the source text: two outcomes of `tokenize` on
/// the same text agree, token for token (kind, text and line), or on the
/// error.
pub proof fn lemma_tokenize_deterministic(
    src: Seq<char>,
    r1: Result<Vec<Token>, LexError>,
    r2: Result<Vec<Token>, LexError>,
)
    requires
        lexed_as(src, r1),
        lexed_as(src, r2),
    ensures
        r1 is Ok <==> r2 is Ok,
        r1 is Ok ==> tokens_view(r1->Ok_0@) == tokens_view(r2->Ok_0@),
        r1 is Err ==> r1->Err_0@ == r2->Err_0@,
{
}

/// Every successful lexing ends with the end-of-input token, and no other
/// token is an end-of-input token.
pub proof fn lemma_lex_ends_with_eof(src: Seq<char>)
    ensures
        lex(src) matches Ok(t) ==> t.len() >= 1 && t.last().kind == TokenKind::EOF && (forall|
            i: int,
        |
            0 <= i < t.len() - 1 ==> t[i].kind != TokenKind::EOF),
{
    lemma_lex_facts(src);
    if let Ok(t) = lex(src) {
        assert forall|i: int| 0 <= i < t.len() - 1 implies t[i].kind != TokenKind::EOF by {
            assert(t.drop_last()[i] == t[i]);
        }
    }
}

/// The line reached at end-of-input counts every newline of the source,
/// including those inside string literals: it is the line of the final
/// end-of-input token, or of an unterminated string error.
pub proof fn lemma_end_line_counts_newlines(src: Seq<char>)
    ensures
        lex(src) matches Ok(t) ==> t.last().line == 1 + newlines(src),
        lex(src) matches Err(LexErrorView::UnterminatedString { line, .. }) ==> line == 1
            + newlines(src),
{
    lemma_lex_facts(src);
}

/// The token that a word or number run yields when it ends.
pub open spec fn run_token(c: LexConfig) -> TokenView {
    if c.state == State::Identifier {
        token_view(keyword_kind(c.buf), c.buf, c.line)
    } else {
        token_view(number_kind(c.seen_dot), c.buf, c.line)
    }
}

/// Whether `ch` ends a run in state `st` (rather than extending it or, for
/// a second `.` in a number, failing).
pub open spec fn ends_run(st: State, ch: char) -> bool {
    match st {
        State::Identifier => !continues_word(ch),
        State::Number => !is_digit(ch) && ch != '.',
        _ => false,
    }
}

/// The character that ends a word or number run is not consumed by the
/// run: the run's token is emitted and the same character is then read
/// afresh in the default state.
pub proof fn lemma_run_boundary(src: Seq<char>, c: LexConfig)
    requires
        c.pos < src.len(),
        ends_run(c.state, src[c.pos as int]),
    ensures
        lex_from(src, c) == lex_from(
            src,
            config(c.pos, State::Default, Seq::empty(), false, c.line, c.toks.push(run_token(c))),
        ),
{
}

proof fn lemma_word_run(src: Seq<char>, c: LexConfig)
    requires
        c.state == State::Identifier,
        c.pos <= src.len(),
        c.buf == src.take(c.pos as int),
        forall|i: int| c.pos <= i < src.len() ==> continues_word(src[i]),
    ensures
        lex_from(src, c) == Ok::<Seq<TokenView>, LexErrorView>(
            c.toks.push(token_view(keyword_kind(src), src, c.line)).push(
                token_view(TokenKind::EOF, Seq::empty(), c.line),
            ),
        ),
    decreases src.len() - c.pos,
{
    if c.pos >= src.len() {
        assert(src.take(c.pos as int) =~= src);
    } else {
        let n = config(
            c.pos + 1,
            State::Identifier,
            c.buf.push(src[c.pos as int]),
            false,
            c.line,
            c.toks,
        );
        assert(src.take(c.pos + 1int) =~= c.buf.push(src[c.pos as int]));
        assert(lex_step(src, c) == Ok::<LexConfig, LexErrorView>(n));
        lemma_word_run(src, n);
    }
}

/// A source that is one word lexes to that word's token, flushed at
/// end-of-input, followed by the end-of-input token.
pub proof fn lemma_single_word(src: Seq<char>)
    requires
        src.len() > 0,
        starts_word(src[0]),
        forall|i: int| 0 <= i < src.len() ==> continues_word(src[i]),
    ensures
        lex(src) == Ok::<Seq<TokenView>, LexErrorView>(
            seq![
                token_view(keyword_kind(src), src, 1),
                token_view(TokenKind::EOF, Seq::empty(), 1),
            ],
        ),
{
    let n = config(1, State::Identifier, seq![src[0]], false, 1, Seq::empty());
    assert(src.take(1) =~= seq![src[0]]);
    assert(lex_step(src, initial_config()) == Ok::<LexConfig, LexErrorView>(n));
    lemma_word_run(src, n);
    assert(Seq::<TokenView>::empty().push(token_view(keyword_kind(src), src, 1)).push(
        token_view(TokenKind::EOF, Seq::empty(), 1),
    ) =~= seq![
        token_view(keyword_kind(src), src, 1),
        token_view(TokenKind::EOF, Seq::empty(), 1),
    ]);
}

proof fn lemma_digit_run(src: Seq<char>, c: LexConfig)
    requires
        c.state == State::Number,
        !c.seen_dot,
        c.pos <= src.len(),
        c.buf == src.take(c.pos as int),
        forall|i: int| c.pos <= i < src.len() ==> is_digit(src[i]),
    ensures
        lex_from(src, c) == Ok::<Seq<TokenView>, LexErrorView>(
            c.toks.push(token_view(TokenKind::Int, src, c.line)).push(
                token_view(TokenKind::EOF, Seq::empty(), c.line),
            ),
        ),
    decreases src.len() - c.pos,
{
    if c.pos >= src.len() {
        assert(src.take(c.pos as int) =~= src);
    } else {
        let n = config(
            c.pos + 1,
            State::Number,
            c.buf.push(src[c.pos as int]),
            false,
            c.line,
            c.toks,
        );
        assert(src.take(c.pos + 1int) =~= c.buf.push(src[c.pos as int]));
        assert(lex_step(src, c) == Ok::<LexConfig, LexErrorView>(n));
        lemma_digit_run(src, n);
    }
}

/// A source that is one run of digits lexes to an integer token, flushed
/// at end-of-input, followed by the end-of-input token.
pub proof fn lemma_single_number(src: Seq<char>)
    requires
        src.len() > 0,
        forall|i: int| 0 <= i < src.len() ==> is_digit(src[i]),
    ensures
        lex(src) == Ok::<Seq<TokenView>, LexErrorView>(
            seq![
                token_view(TokenKind::Int, src, 1),
                token_view(TokenKind::EOF, Seq::empty(), 1),
            ],
        ),
{
    let n = config(1, State::Number, seq![src[0]], false, 1, Seq::empty());
    assert(src.take(1) =~= seq![src[0]]);
    assert(lex_step(src, initial_config()) == Ok::<LexConfig, LexErrorView>(n));
    lemma_digit_run(src, n);
    assert(Seq::<TokenView>::empty().push(token_view(TokenKind::Int, src, 1)).push(
        token_view(TokenKind::EOF, Seq::empty(), 1),
    ) =~= seq![token_view(TokenKind::Int, src, 1), token_view(TokenKind::EOF, Seq::empty(), 1)]);
}

} // verus!
