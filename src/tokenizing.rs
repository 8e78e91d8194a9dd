use vstd::prelude::*;

use crate::builtins::parse_int;
use crate::jsonpp::EvalError;

verus! {

/// A lexical token of JSON++.
#[derive(Debug, PartialEq)]
pub enum Token {
    Colon,
    OpenParanthesis,
    CloseParanthesis,
    OpenBrace,
    CloseBrace,
    OpenBracket,
    CloseBracket,
    /// A quoted string, escapes already applied.
    Text(Vec<char>),
    /// Unquoted text that is no number.
    Ident(Vec<char>),
    /// A whole number.
    Int(i64),
    /// The lower-cased text of a number with a fraction or an exponent; its value is
    /// `mantissa * 10^exponent` in floating point, which the caller computes.
    Number(Vec<char>),
    /// A floating-point number as its bit pattern.
    Float(u64),
}

/// The mathematical form of a `Token`.
pub enum Tok {
    Colon,
    OpenParanthesis,
    CloseParanthesis,
    OpenBrace,
    CloseBrace,
    OpenBracket,
    CloseBracket,
    Text(Seq<char>),
    Ident(Seq<char>),
    Int(i64),
    Number(Seq<char>),
    Float(u64),
}

impl View for Token {
    type V = Tok;

    open spec fn view(&self) -> Tok {
        match self {
            Token::Colon => Tok::Colon,
            Token::OpenParanthesis => Tok::OpenParanthesis,
            Token::CloseParanthesis => Tok::CloseParanthesis,
            Token::OpenBrace => Tok::OpenBrace,
            Token::CloseBrace => Tok::CloseBrace,
            Token::OpenBracket => Tok::OpenBracket,
            Token::CloseBracket => Tok::CloseBracket,
            Token::Text(s) => Tok::Text(s@),
            Token::Ident(s) => Tok::Ident(s@),
            Token::Int(i) => Tok::Int(*i),
            Token::Number(s) => Tok::Number(s@),
            Token::Float(f) => Tok::Float(*f),
        }
    }
}

/// The mathematical forms of a token sequence.
pub open spec fn toks(s: Seq<Token>) -> Seq<Tok> {
    s.map_values(|t: Token| t@)
}

/// The one-character tokens.
pub open spec fn special_tok(c: char) -> Option<Tok> {
    if c == ':' {
        Some(Tok::Colon)
    } else if c == '(' {
        Some(Tok::OpenParanthesis)
    } else if c == ')' {
        Some(Tok::CloseParanthesis)
    } else if c == '{' {
        Some(Tok::OpenBrace)
    } else if c == '}' {
        Some(Tok::CloseBrace)
    } else if c == '[' {
        Some(Tok::OpenBracket)
    } else if c == ']' {
        Some(Tok::CloseBracket)
    } else {
        None
    }
}

/// The one-character token that `input` is, if any.
pub fn special(input: char) -> (r: Option<Token>)
    ensures
        r matches Some(t) ==> special_tok(input) == Some(t@),
        r is None ==> special_tok(input) is None,
{
    if input == ':' {
        Some(Token::Colon)
    } else if input == '(' {
        Some(Token::OpenParanthesis)
    } else if input == ')' {
        Some(Token::CloseParanthesis)
    } else if input == '{' {
        Some(Token::OpenBrace)
    } else if input == '}' {
        Some(Token::CloseBrace)
    } else if input == '[' {
        Some(Token::OpenBracket)
    } else if input == ']' {
        Some(Token::CloseBracket)
    } else {
        None
    }
}

/// ASCII whitespace as `char::is_ascii_whitespace` has it.
pub open spec fn ascii_space(c: char) -> bool {
    c == ' ' || c == '\t' || c == '\n' || c == '\r' || c == '\x0C'
}

/// Characters that may stand in an identifier or number: anything but ASCII whitespace,
/// `/`, `,`, `"` and the one-character tokens.
pub open spec fn ident_char(c: char) -> bool {
    !ascii_space(c) && c != '/' && c != ',' && c != '"' && special_tok(c) is None
}

/// Whether the character may stand in an identifier or number (see `ident_char`).
pub fn is_valid_ident_char(test_char: char) -> (r: bool)
    ensures
        r == ident_char(test_char),
{
    if test_char == ' ' || test_char == '\t' || test_char == '\n' || test_char == '\r' || test_char
        == '\x0C' {
        return false;
    }
    if test_char == '/' {
        return false;
    }
    if test_char == ',' || test_char == '"' {
        return false;
    }
    if special(test_char).is_some() {
        return false;
    }
    true
}

/// The character that the escape `\c` stands for, if it is one.
pub open spec fn escaped(c: char) -> Option<char> {
    if c == 'n' {
        Some('\n')
    } else if c == 't' {
        Some('\t')
    } else if c == '"' {
        Some('"')
    } else if c == '\\' {
        Some('\\')
    } else {
        None
    }
}

/// The text with the escapes `\n`, `\t`, `\"`, `\\` replaced; any other backslash stays.
pub open spec fn unescape(s: Seq<char>) -> Seq<char>
    decreases s.len(),
{
    if s.len() == 0 {
        s
    } else if s[0] == '\\' && s.len() > 1 && escaped(s[1]) is Some {
        seq![escaped(s[1]).unwrap()] + unescape(s.skip(2))
    } else {
        seq![s[0]] + unescape(s.drop_first())
    }
}

fn escaped_exec(c: char) -> (r: Option<char>)
    ensures
        r == escaped(c),
{
    if c == 'n' {
        Some('\n')
    } else if c == 't' {
        Some('\t')
    } else if c == '"' {
        Some('"')
    } else if c == '\\' {
        Some('\\')
    } else {
        None
    }
}

/// Applies the escapes of a string body (see `unescape`).
pub fn handle_escape_characters(input: &Vec<char>) -> (r: Vec<char>)
    ensures
        r@ == unescape(input@),
{
    let mut out: Vec<char> = Vec::new();
    let mut i: usize = 0;
    assert(input@.skip(0) =~= input@);
    assert(out@ + unescape(input@) =~= unescape(input@));
    while i < input.len()
        invariant
            i <= input@.len(),
            out@ + unescape(input@.skip(i as int)) == unescape(input@),
        decreases input@.len() - i,
    {
        let ghost rest = input@.skip(i as int);
        let c = input[i];
        assert(rest[0] == c);
        if c == '\\' && i + 1 < input.len() {
            match escaped_exec(input[i + 1]) {
                Some(m) => {
                    assert(rest[1] == input@[i + 1]);
                    assert(rest.skip(2) =~= input@.skip(i + 2));
                    out.push(m);
                    i = i + 2;
                    assert(out@ + unescape(input@.skip(i as int)) =~= unescape(input@));
                    continue;
                },
                None => {},
            }
        }
        assert(rest.drop_first() =~= input@.skip(i + 1));
        out.push(c);
        i = i + 1;
        assert(out@ + unescape(input@.skip(i as int)) =~= unescape(input@));
    }
    assert(input@.skip(i as int) =~= Seq::<char>::empty());
    assert(out@ + Seq::<char>::empty() =~= out@);
    out
}

/// Characters of a number with a fraction or exponent: digits, `-`, `+`, `.`, `e`.
pub open spec fn number_char(c: char) -> bool {
    ('0' <= c <= '9') || c == '-' || c == '+' || c == '.' || c == 'e'
}

/// ASCII lower case of one character.
pub open spec fn lower(c: char) -> char {
    if 'A' <= c <= 'Z' {
        ((c as u8) + 32) as char
    } else {
        c
    }
}

/// What a finished run of identifier characters is: an integer where `i64::from_str` reads
/// it, a number where its lower case is made of number characters only, else an identifier.
pub open spec fn ident_token(s: Seq<char>) -> Tok {
    let low = s.map_values(|c: char| lower(c));
    match parse_int(s) {
        Some(i) => Tok::Int(i),
        None => if forall|j: int| 0 <= j < low.len() ==> #[trigger] number_char(low[j]) {
            Tok::Number(low)
        } else {
            Tok::Ident(s)
        },
    }
}

fn lower_exec(c: char) -> (r: char)
    ensures
        r == lower(c),
{
    if 'A' <= c && c <= 'Z' {
        ((c as u8) + 32) as char
    } else {
        c
    }
}

/// Finishes a run of identifier characters (see `ident_token`).
pub fn complete_ident(content: &Vec<char>) -> (r: Token)
    ensures
        r@ == ident_token(content@),
{
    match crate::builtins::parse_i64(content) {
        Some(i) => Token::Int(i),
        None => {
            let mut low: Vec<char> = Vec::new();
            let mut numeric = true;
            let mut i: usize = 0;
            while i < content.len()
                invariant
                    i <= content@.len(),
                    low@ == content@.take(i as int).map_values(|c: char| lower(c)),
                    numeric == forall|j: int| 0 <= j < i ==> #[trigger] number_char(low@[j]),
                decreases content@.len() - i,
            {
                let c = lower_exec(content[i]);
                let ghost before = low@;
                low.push(c);
                assert(content@.take(i + 1).map_values(|c: char| lower(c)) =~= before.push(c));
                let ok = ('0' <= c && c <= '9') || c == '-' || c == '+' || c == '.' || c == 'e';
                proof {
                    assert(low@[i as int] == c);
                    assert(forall|j: int| 0 <= j < i ==> low@[j] == before[j]);
                    if numeric && ok {
                        assert forall|j: int| 0 <= j < i + 1 implies #[trigger] number_char(low@[j]) by {
                            if j < i {
                                assert(number_char(before[j]));
                            }
                        }
                    }
                    if !ok {
                        assert(!number_char(low@[i as int]));
                    }
                    if !numeric {
                        let j = choose|j: int| 0 <= j < i && !#[trigger] number_char(before[j]);
                        assert(!number_char(low@[j]));
                    }
                }
                numeric = numeric && ok;
                i = i + 1;
            }
            assert(content@.take(i as int) =~= content@);
            if numeric {
                Token::Number(low)
            } else {
                Token::Ident(crate::paths::copy_text(content))
            }
        },
    }
}

/// Where the tokenizer stands between two characters.
#[derive(Debug, Clone, Copy, PartialEq, Eq, Structural)]
pub enum Mode {
    /// Between tokens.
    Normal,
    /// Inside a quoted string.
    InText,
    /// Inside a run of identifier characters.
    InIdent,
    /// Just after a `/` that may open a comment.
    Slash,
    /// Inside a line comment.
    Line,
    /// Inside a block comment.
    Block,
    /// Inside a block comment, just after a `*`.
    BlockStar,
}

/// The tokenizer's state: tokens so far, mode, and the text being collected.
pub struct LexState {
    pub tokens: Seq<Tok>,
    pub mode: Mode,
    pub buf: Seq<char>,
}

/// Backslashes at the end of the text.
pub open spec fn trailing_backslashes(s: Seq<char>) -> nat
    decreases s.len(),
{
    if s.len() > 0 && s.last() == '\\' {
        1 + trailing_backslashes(s.drop_last())
    } else {
        0
    }
}

/// One character between tokens: whitespace and commas are skipped, `/` may open a
/// comment, one-character tokens are emitted, `"` opens a string, an identifier character
/// starts a run.
pub open spec fn normal_step(st: LexState, c: char) -> LexState {
    if ascii_space(c) || c == ',' {
        st
    } else if c == '/' {
        LexState { mode: Mode::Slash, ..st }
    } else if special_tok(c) is Some {
        LexState { tokens: st.tokens.push(special_tok(c).unwrap()), ..st }
    } else if c == '"' {
        LexState { mode: Mode::InText, buf: Seq::empty(), ..st }
    } else if ident_char(c) {
        LexState { mode: Mode::InIdent, buf: seq![c], ..st }
    } else {
        st
    }
}

/// One character of input. A `"` closes a string unless an odd run of backslashes
/// precedes it; a run of identifier characters ends at the first other character, which
/// is then read between tokens; `//` runs to the end of the line, `/*` to the next `*/`.
pub open spec fn lex_step(st: LexState, c: char) -> LexState {
    match st.mode {
        Mode::Normal => normal_step(st, c),
        Mode::InText => if c == '"' && trailing_backslashes(st.buf) % 2 == 0 {
            LexState {
                tokens: st.tokens.push(Tok::Text(unescape(st.buf))),
                mode: Mode::Normal,
                buf: Seq::empty(),
            }
        } else {
            LexState { buf: st.buf.push(c), ..st }
        },
        Mode::InIdent => if ident_char(c) {
            LexState { buf: st.buf.push(c), ..st }
        } else {
            normal_step(
                LexState {
                    tokens: st.tokens.push(ident_token(st.buf)),
                    mode: Mode::Normal,
                    buf: Seq::empty(),
                },
                c,
            )
        },
        Mode::Slash => if c == '/' {
            LexState { mode: Mode::Line, ..st }
        } else if c == '*' {
            LexState { mode: Mode::BlockStar, ..st }
        } else {
            normal_step(LexState { mode: Mode::Normal, ..st }, c)
        },
        Mode::Line => if c == '\n' {
            LexState { mode: Mode::Normal, ..st }
        } else {
            st
        },
        Mode::Block => if c == '*' {
            LexState { mode: Mode::BlockStar, ..st }
        } else {
            st
        },
        Mode::BlockStar => if c == '/' {
            LexState { mode: Mode::Normal, ..st }
        } else if c == '*' {
            st
        } else {
            LexState { mode: Mode::Block, ..st }
        },
    }
}

/// The state after reading all of `s`.
pub open spec fn lex_all(s: Seq<char>) -> LexState
    decreases s.len(),
{
    if s.len() == 0 {
        LexState { tokens: Seq::empty(), mode: Mode::Normal, buf: Seq::empty() }
    } else {
        lex_step(lex_all(s.drop_last()), s.last())
    }
}

/// The tokens of a whole input: a run of identifier characters at the end is finished,
/// a string still open is an error.
pub open spec fn lex(s: Seq<char>) -> Result<Seq<Tok>, EvalError> {
    let st = lex_all(s);
    match st.mode {
        Mode::InIdent => Ok(st.tokens.push(ident_token(st.buf))),
        Mode::InText => Err(EvalError::ParseError),
        _ => Ok(st.tokens),
    }
}

/// The tokenizer's working state.
pub struct Lexer {
    pub tokens: Vec<Token>,
    pub mode: Mode,
    pub buf: Vec<char>,
}

impl View for Lexer {
    type V = LexState;

    open spec fn view(&self) -> LexState {
        LexState { tokens: toks(self.tokens@), mode: self.mode, buf: self.buf@ }
    }
}

fn trailing_backslashes_exec(s: &Vec<char>) -> (r: usize)
    ensures
        r == trailing_backslashes(s@),
{
    let mut n: usize = s.len();
    assert(s@.take(n as int) =~= s@);
    while n > 0 && s[n - 1] == '\\'
        invariant
            n <= s@.len(),
            s@.len() == s.len(),
            trailing_backslashes(s@) == (s@.len() - n) + trailing_backslashes(s@.take(n as int)),
        decreases n,
    {
        assert(s@.take(n as int).drop_last() =~= s@.take(n - 1));
        n = n - 1;
    }
    s.len() - n
}

impl Lexer {
    /// A tokenizer at the start of the input.
    pub fn new() -> (r: Lexer)
        ensures
            r@ == (LexState { tokens: Seq::empty(), mode: Mode::Normal, buf: Seq::empty() }),
    {
        let r = Lexer { tokens: Vec::new(), mode: Mode::Normal, buf: Vec::new() };
        assert(toks(r.tokens@) =~= Seq::<Tok>::empty());
        r
    }

    fn push_token(&mut self, t: Token)
        ensures
            final(self)@ == (LexState { tokens: old(self)@.tokens.push(t@), ..old(self)@ }),
    {
        self.tokens.push(t);
        assert(toks(self.tokens@) =~= toks(old(self).tokens@).push(t@));
    }

    fn normal(&mut self, c: char)
        requires
            old(self).mode == Mode::Normal,
        ensures
            final(self)@ == normal_step(old(self)@, c),
    {
        if c == ' ' || c == '\t' || c == '\n' || c == '\r' || c == '\x0C' || c == ',' {
        } else if c == '/' {
            self.mode = Mode::Slash;
        } else {
            match special(c) {
                Some(t) => {
                    self.push_token(t);
                },
                None => {
                    if c == '"' {
                        self.mode = Mode::InText;
                        self.buf = Vec::new();
                        assert(self.buf@ =~= Seq::<char>::empty());
                    } else if is_valid_ident_char(c) {
                        self.mode = Mode::InIdent;
                        self.buf = vec![c];
                        assert(self.buf@ =~= seq![c]);
                    }
                },
            }
        }
    }

    /// Reads one character (see `lex_step`).
    pub fn feed(&mut self, c: char)
        ensures
            final(self)@ == lex_step(old(self)@, c),
    {
        match self.mode {
            Mode::Normal => self.normal(c),
            Mode::InText => {
                if c == '"' && trailing_backslashes_exec(&self.buf) % 2 == 0 {
                    let text = handle_escape_characters(&self.buf);
                    self.push_token(Token::Text(text));
                    self.mode = Mode::Normal;
                    self.buf = Vec::new();
                    assert(self.buf@ =~= Seq::<char>::empty());
                } else {
                    self.buf.push(c);
                }
            },
            Mode::InIdent => {
                if is_valid_ident_char(c) {
                    self.buf.push(c);
                } else {
                    let t = complete_ident(&self.buf);
                    self.push_token(t);
                    self.mode = Mode::Normal;
                    self.buf = Vec::new();
                    assert(self.buf@ =~= Seq::<char>::empty());
                    self.normal(c);
                }
            },
            Mode::Slash => {
                if c == '/' {
                    self.mode = Mode::Line;
                } else if c == '*' {
                    self.mode = Mode::BlockStar;
                } else {
                    self.mode = Mode::Normal;
                    self.normal(c);
                }
            },
            Mode::Line => {
                if c == '\n' {
                    self.mode = Mode::Normal;
                }
            },
            Mode::Block => {
                if c == '*' {
                    self.mode = Mode::BlockStar;
                }
            },
            Mode::BlockStar => {
                if c == '/' {
                    self.mode = Mode::Normal;
                } else if c != '*' {
                    self.mode = Mode::Block;
                }
            },
        }
    }
}

/// Splits JSON++ text into tokens (see `lex`).
pub fn tokenize(input: &Vec<char>) -> (r: Result<Vec<Token>, EvalError>)
    ensures
        match r {
            Ok(ts) => lex(input@) == Ok::<Seq<Tok>, EvalError>(toks(ts@)),
            Err(e) => lex(input@) == Err::<Seq<Tok>, EvalError>(e),
        },
{
    let mut lexer = Lexer::new();
    let mut i: usize = 0;
    while i < input.len()
        invariant
            i <= input@.len(),
            lexer@ == lex_all(input@.take(i as int)),
        decreases input@.len() - i,
    {
        assert(input@.take(i + 1).drop_last() =~= input@.take(i as int));
        lexer.feed(input[i]);
        i = i + 1;
    }
    assert(input@.take(i as int) =~= input@);
    match lexer.mode {
        Mode::InIdent => {
            let t = complete_ident(&lexer.buf);
            lexer.push_token(t);
            Ok(lexer.tokens)
        },
        Mode::InText => Err(EvalError::ParseError),
        _ => Ok(lexer.tokens),
    }
}

} // verus!
