//! The assembler pipeline: a lexer that turns assembly source text into
//! tokens, and a code generator that turns tokens into machine bytes for
//! the [`crate::Emulator`].
//!
//! Source text is a sequence of statements separated by `;`, with tokens
//! separated by single spaces. A numeric literal is written `0xHH`; a label
//! is declared by `DW name literal` and is visible to later statements
//! only, so a reference must textually follow its declaration.

use vstd::prelude::*;
use vstd::string::StrSliceExecFns;

use crate::MEMORY_SIZE;

verus! {

// ---------------------------------------------------------------------------
// Characters
// ---------------------------------------------------------------------------

/// Lower-case an ASCII letter; any other character is unchanged.
pub open spec fn lower_char(c: char) -> char {
    if 'A' <= c && c <= 'Z' {
        (c as u8 + 32) as char
    } else {
        c
    }
}

/// The characters that may appear inside a word or a numeric literal.
pub open spec fn is_alnum(c: char) -> bool {
    ('0' <= c && c <= '9') || ('a' <= c && c <= 'z') || ('A' <= c && c <= 'Z')
}

/// The characters that denote a hexadecimal digit.
pub open spec fn is_hex_digit(c: char) -> bool {
    ('0' <= c && c <= '9') || ('a' <= c && c <= 'f') || ('A' <= c && c <= 'F')
}

/// The numeric value of a hexadecimal digit (0 for any other character).
pub open spec fn hex_digit_value(c: char) -> int {
    if '0' <= c && c <= '9' {
        c as u8 - '0' as u8
    } else if 'a' <= c && c <= 'f' {
        c as u8 - 'a' as u8 + 10
    } else if 'A' <= c && c <= 'F' {
        c as u8 - 'A' as u8 + 10
    } else {
        0
    }
}

/// The value of a digit string read as base 16.
pub open spec fn hex_value(ds: Seq<char>) -> int
    decreases ds.len(),
{
    if ds.len() == 0 {
        0
    } else {
        hex_value(ds.drop_last()) * 16 + hex_digit_value(ds.last())
    }
}

/// Every character of `ds` is a hexadecimal digit.
pub open spec fn all_hex(ds: Seq<char>) -> bool {
    forall|i: int| 0 <= i < ds.len() ==> is_hex_digit(#[trigger] ds[i])
}

/// The 8-bit value of a literal's digit characters, if they are all
/// hexadecimal digits and the value fits in one byte.
pub open spec fn hex_byte(ds: Seq<char>) -> Option<u8> {
    if all_hex(ds) && hex_value(ds) <= 255 {
        Some(hex_value(ds) as u8)
    } else {
        None
    }
}

/// A base-16 reading is never negative.
pub proof fn lemma_hex_value_nonneg(ds: Seq<char>)
    ensures
        hex_value(ds) >= 0,
    decreases ds.len(),
{
    if ds.len() > 0 {
        lemma_hex_value_nonneg(ds.drop_last());
    }
}

fn lower_char_exec(c: char) -> (r: char)
    ensures
        r == lower_char(c),
{
    if 'A' <= c && c <= 'Z' {
        (c as u8 + 32) as char
    } else {
        c
    }
}

fn is_alnum_exec(c: char) -> (r: bool)
    ensures
        r == is_alnum(c),
{
    ('0' <= c && c <= '9') || ('a' <= c && c <= 'z') || ('A' <= c && c <= 'Z')
}

fn hex_digit_value_exec(c: char) -> (r: Option<u8>)
    ensures
        r matches Some(v) ==> is_hex_digit(c) && v == hex_digit_value(c),
        r is None ==> !is_hex_digit(c),
{
    if '0' <= c && c <= '9' {
        Some(c as u8 - 48)
    } else if 'a' <= c && c <= 'f' {
        Some(c as u8 - 97 + 10)
    } else if 'A' <= c && c <= 'F' {
        Some(c as u8 - 65 + 10)
    } else {
        None
    }
}

// ---------------------------------------------------------------------------
// Tokens
// ---------------------------------------------------------------------------

/// A token of the assembly language, carrying the source character offset
/// where it begins. Order in the token sequence equals source order.
#[derive(Debug)]
pub enum Token {
    /// An identifier or mnemonic; mnemonics are matched case-insensitively
    /// by the code generator, label names are taken as written.
    Word(usize, String),
    /// An 8-bit value written as a `0xHH` literal.
    Number(usize, u8),
    /// The end of one statement, produced by the `;` terminator.
    EOL(usize),
}

/// Mathematical model of a token.
pub enum TokenView {
    Word(int, Seq<char>),
    Number(int, u8),
    EOL(int),
}

impl View for Token {
    type V = TokenView;

    open spec fn view(&self) -> TokenView {
        match self {
            Token::Word(p, s) => TokenView::Word(*p as int, s@),
            Token::Number(p, v) => TokenView::Number(*p as int, *v),
            Token::EOL(p) => TokenView::EOL(*p as int),
        }
    }
}

impl DeepView for Token {
    type V = TokenView;

    open spec fn deep_view(&self) -> TokenView {
        self.view()
    }
}

impl Clone for Token {
    fn clone(&self) -> (r: Token)
        ensures
            r@ == self@,
    {
        match self {
            Token::Word(p, s) => Token::Word(*p, s.clone()),
            Token::Number(p, v) => Token::Number(*p, *v),
            Token::EOL(p) => Token::EOL(*p),
        }
    }
}

// ---------------------------------------------------------------------------
// Lexer
// ---------------------------------------------------------------------------

/// Error from the lexer: the character offset and the offending text —
/// either the unexpected character (a literal newline is reported as the
/// two characters `\n`), or the digit characters of a `0x` literal that do
/// not form an 8-bit hexadecimal value.
#[derive(Debug)]
pub struct TokenizerError {
    pub pattern: String,
    pub position: usize,
}

/// Mathematical model of a lexer error.
pub struct LexErrView {
    pub pattern: Seq<char>,
    pub position: int,
}

impl View for TokenizerError {
    type V = LexErrView;

    open spec fn view(&self) -> LexErrView {
        LexErrView { pattern: self.pattern@, position: self.position as int }
    }
}

/// The lexer error for one unexpected character.
pub open spec fn lex_err_at(i: int, c: char) -> LexErrView {
    LexErrView {
        position: i,
        pattern: if c == '\n' {
            seq!['\\', 'n']
        } else {
            seq![c]
        },
    }
}

/// What the lexer is in the middle of reading. Each word or literal state
/// carries the offset where that token began.
pub enum LexState {
    /// At the start of the input, or just after a separator: everything is
    /// legal next. A separator here closes an empty word.
    Ready,
    /// Accumulating a word that began at the carried offset.
    InWord(int),
    /// Just read the two-character `0x` prefix that began at the carried
    /// offset; only digit characters may follow, not a separator.
    HexStart(int),
    /// Accumulating literal digits; the carried offset is that of the `0`
    /// of the prefix.
    InNumber(int),
}

/// The lexer as a finite-state machine, one character per transition,
/// starting at offset `i` in state `st` with the tokens `acc` already
/// produced. Whitespace (the single space character) or the `;` terminator
/// closes the token being accumulated and returns to [`LexState::Ready`];
/// the terminator also emits an end-of-statement token. A token still open
/// when the input ends is dropped. Any character that is not legal in the
/// current state fails with the offset and the character; a literal whose
/// digits do not form an 8-bit hexadecimal value fails with the literal's
/// offset and its digit characters.
pub open spec fn spec_lex(s: Seq<char>, i: int, st: LexState, acc: Seq<TokenView>) -> Result<
    Seq<TokenView>,
    LexErrView,
>
    decreases s.len() - i,
{
    if i < 0 || i >= s.len() {
        Ok(acc)
    } else {
        let c = s[i];
        match st {
            LexState::Ready => {
                if c == ' ' {
                    spec_lex(s, i + 1, LexState::Ready, acc.push(TokenView::Word(i, Seq::empty())))
                } else if c == ';' {
                    spec_lex(
                        s,
                        i + 1,
                        LexState::Ready,
                        acc.push(TokenView::Word(i, Seq::empty())).push(TokenView::EOL(i)),
                    )
                } else if c == '0' && i + 1 < s.len() && s[i + 1] == 'x' {
                    spec_lex(s, i + 2, LexState::HexStart(i), acc)
                } else if is_alnum(c) {
                    spec_lex(s, i + 1, LexState::InWord(i), acc)
                } else {
                    Err(lex_err_at(i, c))
                }
            },
            LexState::InWord(start) => {
                if c == ' ' {
                    spec_lex(
                        s,
                        i + 1,
                        LexState::Ready,
                        acc.push(TokenView::Word(start, s.subrange(start, i))),
                    )
                } else if c == ';' {
                    spec_lex(
                        s,
                        i + 1,
                        LexState::Ready,
                        acc.push(TokenView::Word(start, s.subrange(start, i))).push(
                            TokenView::EOL(i),
                        ),
                    )
                } else if is_alnum(c) {
                    spec_lex(s, i + 1, LexState::InWord(start), acc)
                } else {
                    Err(lex_err_at(i, c))
                }
            },
            LexState::HexStart(start) => {
                if is_alnum(c) {
                    spec_lex(s, i + 1, LexState::InNumber(start), acc)
                } else {
                    Err(lex_err_at(i, c))
                }
            },
            LexState::InNumber(start) => {
                if c == ' ' || c == ';' {
                    let ds = s.subrange(start + 2, i);
                    match hex_byte(ds) {
                        Some(v) => {
                            let acc1 = acc.push(TokenView::Number(start, v));
                            spec_lex(
                                s,
                                i + 1,
                                LexState::Ready,
                                if c == ';' {
                                    acc1.push(TokenView::EOL(i))
                                } else {
                                    acc1
                                },
                            )
                        },
                        None => Err(LexErrView { position: start, pattern: ds }),
                    }
                } else if is_alnum(c) {
                    spec_lex(s, i + 1, LexState::InNumber(start), acc)
                } else {
                    Err(lex_err_at(i, c))
                }
            },
        }
    }
}

/// The token sequence of a source text, or the first lexical error.
pub open spec fn spec_tokenize(s: Seq<char>) -> Result<Seq<TokenView>, LexErrView> {
    spec_lex(s, 0, LexState::Ready, Seq::empty())
}

/// Executable lexer state; offsets index into the source text.
enum LexSt {
    Ready,
    InWord(usize),
    HexStart(usize),
    InNumber(usize),
}

impl LexSt {
    spec fn view(&self) -> LexState {
        match self {
            LexSt::Ready => LexState::Ready,
            LexSt::InWord(p) => LexState::InWord(*p as int),
            LexSt::HexStart(p) => LexState::HexStart(*p as int),
            LexSt::InNumber(p) => LexState::InNumber(*p as int),
        }
    }
}

/// Convert assembly source text into its token sequence, scanning one
/// character at a time, or report the first lexical error. The result is
/// exactly what the lexing state machine [`spec_lex`] yields on the text.
pub fn tokenize(source: &str) -> (result: Result<Vec<Token>, TokenizerError>)
    ensures
        (match result {
            Ok(tokens) => spec_tokenize(source@) == Ok::<Seq<TokenView>, LexErrView>(
                tokens.deep_view(),
            ),
            Err(e) => spec_tokenize(source@) == Err::<Seq<TokenView>, LexErrView>(e@),
        }),
{
    let n = source.unicode_len();
    let mut tokens: Vec<Token> = Vec::new();
    let mut st = LexSt::Ready;
    let mut i: usize = 0;

    // accumulated value of the literal being read, valid while `st` is
    // `InNumber` and neither flag below is set
    let mut val: u32 = 0;
    // the literal read so far exceeds one byte
    let mut big: bool = false;
    // the literal read so far contains a character that is not a
    // hexadecimal digit
    let mut bad: bool = false;

    proof {
        assert(tokens.deep_view() =~= Seq::<TokenView>::empty());
    }
    while i < n
        invariant
            n == source@.len(),
            i <= n,
            spec_tokenize(source@) == spec_lex(source@, i as int, st@, tokens.deep_view()),
            (match st {
                LexSt::Ready => true,
                LexSt::InWord(start) => start <= i,
                LexSt::HexStart(start) => start + 2 == i,
                LexSt::InNumber(start) => {
                    let ds = source@.subrange(start + 2, i as int);
                    &&& start + 2 < i
                    &&& bad == !all_hex(ds)
                    &&& (!bad && hex_value(ds) <= 255 ==> !big && val == hex_value(ds))
                    &&& (!bad && hex_value(ds) > 255 ==> big)
                },
            }),
        decreases n - i,
    {
        let c = source.get_char(i);
        let ghost prev_acc = tokens.deep_view();
        match st {
            LexSt::Ready => {
                if c == ' ' {
                    tokens.push(Token::Word(i, String::new()));
                    proof {
                        assert(tokens.deep_view() =~= prev_acc.push(
                            TokenView::Word(i as int, Seq::empty()),
                        ));
                    }
                } else if c == ';' {
                    tokens.push(Token::Word(i, String::new()));
                    tokens.push(Token::EOL(i));
                    proof {
                        assert(tokens.deep_view() =~= prev_acc.push(
                            TokenView::Word(i as int, Seq::empty()),
                        ).push(TokenView::EOL(i as int)));
                    }
                } else if c == '0' && i + 1 < n && source.get_char(i + 1) == 'x' {
                    st = LexSt::HexStart(i);
                    i += 2;
                    continue ;
                } else if is_alnum_exec(c) {
                    st = LexSt::InWord(i);
                } else {
                    return Err(lex_error(source, i, c));
                }
            },
            LexSt::InWord(start) => {
                if c == ' ' || c == ';' {
                    let text = source.substring_char(start, i).to_owned();
                    tokens.push(Token::Word(start, text));
                    if c == ';' {
                        tokens.push(Token::EOL(i));
                        proof {
                            assert(tokens.deep_view() =~= prev_acc.push(
                                TokenView::Word(start as int, source@.subrange(start as int, i as int)),
                            ).push(TokenView::EOL(i as int)));
                        }
                    } else {
                        proof {
                            assert(tokens.deep_view() =~= prev_acc.push(
                                TokenView::Word(start as int, source@.subrange(start as int, i as int)),
                            ));
                        }
                    }
                    st = LexSt::Ready;
                } else if is_alnum_exec(c) {
                    st = LexSt::InWord(start);
                } else {
                    return Err(lex_error(source, i, c));
                }
            },
            LexSt::HexStart(start) => {
                if is_alnum_exec(c) {
                    match hex_digit_value_exec(c) {
                        Some(d) => {
                            val = d as u32;
                            big = false;
                            bad = false;
                        },
                        None => {
                            bad = true;
                        },
                    }
                    proof {
                        let ds = source@.subrange(start + 2, i + 1);
                        assert(ds =~= seq![c]);
                        assert(ds.drop_last() =~= Seq::<char>::empty());
                        assert(ds.last() == c);
                        assert(hex_value(Seq::<char>::empty()) == 0);
                        assert(hex_value(ds) == hex_digit_value(c));
                    }
                    st = LexSt::InNumber(start);
                } else {
                    return Err(lex_error(source, i, c));
                }
            },
            LexSt::InNumber(start) => {
                if c == ' ' || c == ';' {
                    let ghost ds = source@.subrange(start + 2, i as int);
                    if bad || big {
                        proof {
                            if !bad {
                                lemma_hex_value_nonneg(ds);
                            }
                            assert(hex_byte(ds) is None);
                        }
                        let digits = source.substring_char(start + 2, i).to_owned();
                        return Err(TokenizerError { pattern: digits, position: start });
                    }
                    proof {
                        lemma_hex_value_nonneg(ds);
                        assert(hex_byte(ds) == Some((hex_value(ds) as u8)));
                    }
                    tokens.push(Token::Number(start, val as u8));
                    if c == ';' {
                        tokens.push(Token::EOL(i));
                        proof {
                            assert(tokens.deep_view() =~= prev_acc.push(
                                TokenView::Number(start as int, (hex_value(ds) as u8)),
                            ).push(TokenView::EOL(i as int)));
                        }
                    } else {
                        proof {
                            assert(tokens.deep_view() =~= prev_acc.push(
                                TokenView::Number(start as int, (hex_value(ds) as u8)),
                            ));
                        }
                    }
                    st = LexSt::Ready;
                } else if is_alnum_exec(c) {
                    let ghost ds = source@.subrange(start + 2, i as int);
                    let ghost ds1 = source@.subrange(start + 2, i + 1);
                    proof {
                        assert(ds1.drop_last() =~= ds);
                        assert(ds1.last() == c);
                        assert(hex_value(ds1) == hex_value(ds) * 16 + hex_digit_value(c));
                        lemma_hex_value_nonneg(ds);
                        assert(forall|l: int|
                            0 <= l < ds.len() ==> ds1[l] == #[trigger] ds[l]);
                    }
                    match hex_digit_value_exec(c) {
                        Some(d) => {
                            if !bad && !big {
                                let v1 = val * 16 + d as u32;
                                if v1 > 255 {
                                    big = true;
                                } else {
                                    val = v1;
                                }
                            }
                        },
                        None => {
                            bad = true;
                        },
                    }
                    st = LexSt::InNumber(start);
                } else {
                    return Err(lex_error(source, i, c));
                }
            },
        }
        i += 1;
    }
    Ok(tokens)
}

/// The error value for one unexpected character, with a literal newline
/// spelled out as the two characters `\n`.
fn lex_error(source: &str, i: usize, c: char) -> (e: TokenizerError)
    requires
        i < source@.len() <= usize::MAX,
        source@[i as int] == c,
    ensures
        e@ == lex_err_at(i as int, c),
{
    if c == '\n' {
        let pattern = "\\n".to_owned();
        proof {
            reveal_strlit("\\n");
            assert(pattern@ =~= seq!['\\', 'n']);
        }
        TokenizerError { pattern, position: i }
    } else {
        let pattern = source.substring_char(i, i + 1).to_owned();
        proof {
            assert(pattern@ =~= seq![c]);
        }
        TokenizerError { pattern, position: i }
    }
}

// ---------------------------------------------------------------------------
// Code generator
// ---------------------------------------------------------------------------

/// The token kind or shape that the code generator required at the point
/// where assembly failed.
#[derive(Debug, Clone, Copy, PartialEq, Eq, Structural)]
pub enum Expected {
    /// a statement must begin with a known mnemonic word
    Mnemonic,
    /// `DW` and `PUSH` take a label word or a hexadecimal literal
    Operand,
    /// the label of a `DW` declaration must be followed by a literal
    Number,
    /// the statement's operands are complete, an end of statement must follow
    EndOfStatement,
    /// `JP` takes a condition word or an immediate end of statement
    Condition,
    /// `PUSH` referenced a label with no earlier `DW` declaration
    DeclaredLabel,
    /// the emitted program would exceed the machine's memory
    Capacity,
}

/// Error from the code generator: the offending token — `None` when the
/// token sequence ended where more was required — and the shape expected in
/// its place. A grammar failure names a token, never a byte offset.
#[derive(Debug)]
pub struct ParserError {
    pub token: Option<Token>,
    pub expected: Expected,
}

/// Mathematical model of a code generator error.
pub struct ParseErrView {
    pub token: Option<TokenView>,
    pub expected: Expected,
}

impl View for ParserError {
    type V = ParseErrView;

    open spec fn view(&self) -> ParseErrView {
        ParseErrView {
            token: match self.token {
                Some(t) => Some(t@),
                None => None,
            },
            expected: self.expected,
        }
    }
}

/// `w` spells the (lower-case) keyword `kw`, compared case-insensitively.
pub open spec fn is_kw(w: Seq<char>, kw: Seq<char>) -> bool {
    w.len() == kw.len() && forall|j: int| 0 <= j < w.len() ==> lower_char(#[trigger] w[j]) == kw[j]
}

/// What a successful assembly produces: the emitted machine bytes and the
/// final symbol table, mapping each declared label (as written) to the
/// 8-bit address of its cell.
pub struct AsmOut {
    pub bytes: Seq<u8>,
    pub table: Map<Seq<char>, u8>,
}

/// Outcome of one statement: the index just past its end-of-statement
/// token, the symbol table after it, and the bytes emitted up to and
/// including it.
pub struct StmtOut {
    pub next: int,
    pub table: Map<Seq<char>, u8>,
    pub bytes: Seq<u8>,
}

/// One statement of the form `MNEMONIC ;`, emitting the single byte `op`.
pub open spec fn spec_stmt_single(
    tokens: Seq<TokenView>,
    i: int,
    table: Map<Seq<char>, u8>,
    out: Seq<u8>,
    op: u8,
) -> Result<StmtOut, ParseErrView> {
    if i + 1 >= tokens.len() {
        Err(ParseErrView { token: None, expected: Expected::EndOfStatement })
    } else {
        match tokens[i + 1] {
            TokenView::EOL(_) => {
                if out.len() + 1 <= MEMORY_SIZE {
                    Ok(StmtOut { next: i + 2, table, bytes: out.push(op) })
                } else {
                    Err(ParseErrView { token: Some(tokens[i]), expected: Expected::Capacity })
                }
            },
            _ => Err(ParseErrView { token: Some(tokens[i + 1]), expected: Expected::EndOfStatement }),
        }
    }
}

/// One `DW` declaration: `DW name literal ;` emits the literal byte and
/// binds the label to that byte's address; `DW literal ;` emits the byte
/// anonymously.
pub open spec fn spec_stmt_dw(
    tokens: Seq<TokenView>,
    i: int,
    table: Map<Seq<char>, u8>,
    out: Seq<u8>,
) -> Result<StmtOut, ParseErrView> {
    if i + 1 >= tokens.len() {
        Err(ParseErrView { token: None, expected: Expected::Operand })
    } else {
        match tokens[i + 1] {
            TokenView::Word(_, name) => {
                if i + 2 >= tokens.len() {
                    Err(ParseErrView { token: None, expected: Expected::Number })
                } else {
                    match tokens[i + 2] {
                        TokenView::Number(_, lit) => {
                            if i + 3 >= tokens.len() {
                                Err(ParseErrView { token: None, expected: Expected::EndOfStatement })
                            } else {
                                match tokens[i + 3] {
                                    TokenView::EOL(_) => {
                                        if out.len() + 1 <= MEMORY_SIZE {
                                            Ok(StmtOut {
                                                next: i + 4,
                                                table: table.insert(name, out.len() as u8),
                                                bytes: out.push(lit),
                                            })
                                        } else {
                                            Err(ParseErrView {
                                                token: Some(tokens[i]),
                                                expected: Expected::Capacity,
                                            })
                                        }
                                    },
                                    _ => Err(ParseErrView {
                                        token: Some(tokens[i + 3]),
                                        expected: Expected::EndOfStatement,
                                    }),
                                }
                            }
                        },
                        _ => Err(ParseErrView {
                            token: Some(tokens[i + 2]),
                            expected: Expected::Number,
                        }),
                    }
                }
            },
            TokenView::Number(_, lit) => {
                if i + 2 >= tokens.len() {
                    Err(ParseErrView { token: None, expected: Expected::EndOfStatement })
                } else {
                    match tokens[i + 2] {
                        TokenView::EOL(_) => {
                            if out.len() + 1 <= MEMORY_SIZE {
                                Ok(StmtOut { next: i + 3, table, bytes: out.push(lit) })
                            } else {
                                Err(ParseErrView {
                                    token: Some(tokens[i]),
                                    expected: Expected::Capacity,
                                })
                            }
                        },
                        _ => Err(ParseErrView {
                            token: Some(tokens[i + 2]),
                            expected: Expected::EndOfStatement,
                        }),
                    }
                }
            },
            TokenView::EOL(_) => Err(ParseErrView {
                token: Some(tokens[i + 1]),
                expected: Expected::Operand,
            }),
        }
    }
}

/// One `PUSH` statement: `PUSH name ;` emits the push opcode and the
/// address bound to the label, which must already be declared; `PUSH
/// literal ;` emits the opcode and the immediate value.
pub open spec fn spec_stmt_push(
    tokens: Seq<TokenView>,
    i: int,
    table: Map<Seq<char>, u8>,
    out: Seq<u8>,
) -> Result<StmtOut, ParseErrView> {
    if i + 1 >= tokens.len() {
        Err(ParseErrView { token: None, expected: Expected::Operand })
    } else {
        match tokens[i + 1] {
            TokenView::Word(_, name) => {
                if i + 2 >= tokens.len() {
                    Err(ParseErrView { token: None, expected: Expected::EndOfStatement })
                } else {
                    match tokens[i + 2] {
                        TokenView::EOL(_) => {
                            if !table.contains_key(name) {
                                Err(ParseErrView {
                                    token: Some(tokens[i + 1]),
                                    expected: Expected::DeclaredLabel,
                                })
                            } else if out.len() + 2 <= MEMORY_SIZE {
                                Ok(StmtOut {
                                    next: i + 3,
                                    table,
                                    bytes: out.push(0x03).push(table[name]),
                                })
                            } else {
                                Err(ParseErrView {
                                    token: Some(tokens[i]),
                                    expected: Expected::Capacity,
                                })
                            }
                        },
                        _ => Err(ParseErrView {
                            token: Some(tokens[i + 2]),
                            expected: Expected::EndOfStatement,
                        }),
                    }
                }
            },
            TokenView::Number(_, lit) => {
                if i + 2 >= tokens.len() {
                    Err(ParseErrView { token: None, expected: Expected::EndOfStatement })
                } else {
                    match tokens[i + 2] {
                        TokenView::EOL(_) => {
                            if out.len() + 2 <= MEMORY_SIZE {
                                Ok(StmtOut { next: i + 3, table, bytes: out.push(0x03).push(lit) })
                            } else {
                                Err(ParseErrView {
                                    token: Some(tokens[i]),
                                    expected: Expected::Capacity,
                                })
                            }
                        },
                        _ => Err(ParseErrView {
                            token: Some(tokens[i + 2]),
                            expected: Expected::EndOfStatement,
                        }),
                    }
                }
            },
            TokenView::EOL(_) => Err(ParseErrView {
                token: Some(tokens[i + 1]),
                expected: Expected::Operand,
            }),
        }
    }
}

/// The numeric code of a `JP` condition word, or 0 if it is none of them.
pub open spec fn spec_cond_code(w: Seq<char>) -> u8 {
    if is_kw(w, "gt"@) {
        1
    } else if is_kw(w, "lt"@) {
        2
    } else if is_kw(w, "geq"@) {
        3
    } else if is_kw(w, "leq"@) {
        4
    } else if is_kw(w, "eq"@) {
        5
    } else if is_kw(w, "neq"@) {
        6
    } else {
        0
    }
}

/// One `JP` statement: `JP ;` emits the jump opcode with condition code 0
/// (unconditional); `JP cond ;` emits it with the condition's code.
pub open spec fn spec_stmt_jp(
    tokens: Seq<TokenView>,
    i: int,
    table: Map<Seq<char>, u8>,
    out: Seq<u8>,
) -> Result<StmtOut, ParseErrView> {
    if i + 1 >= tokens.len() {
        Err(ParseErrView { token: None, expected: Expected::Condition })
    } else {
        match tokens[i + 1] {
            TokenView::Word(_, cw) => {
                if spec_cond_code(cw) == 0 {
                    Err(ParseErrView { token: Some(tokens[i + 1]), expected: Expected::Condition })
                } else if i + 2 >= tokens.len() {
                    Err(ParseErrView { token: None, expected: Expected::EndOfStatement })
                } else {
                    match tokens[i + 2] {
                        TokenView::EOL(_) => {
                            if out.len() + 2 <= MEMORY_SIZE {
                                Ok(StmtOut {
                                    next: i + 3,
                                    table,
                                    bytes: out.push(0x0A).push(spec_cond_code(cw)),
                                })
                            } else {
                                Err(ParseErrView {
                                    token: Some(tokens[i]),
                                    expected: Expected::Capacity,
                                })
                            }
                        },
                        _ => Err(ParseErrView {
                            token: Some(tokens[i + 2]),
                            expected: Expected::EndOfStatement,
                        }),
                    }
                }
            },
            TokenView::EOL(_) => {
                if out.len() + 2 <= MEMORY_SIZE {
                    Ok(StmtOut { next: i + 2, table, bytes: out.push(0x0A).push(0x00) })
                } else {
                    Err(ParseErrView { token: Some(tokens[i]), expected: Expected::Capacity })
                }
            },
            TokenView::Number(_, _) => Err(ParseErrView {
                token: Some(tokens[i + 1]),
                expected: Expected::Condition,
            }),
        }
    }
}

/// One statement beginning at token `i` (which must exist): dispatch on the
/// mnemonic, match the fixed operand shape it requires, and emit its bytes.
/// Mnemonics are matched case-insensitively.
pub open spec fn spec_stmt(
    tokens: Seq<TokenView>,
    i: int,
    table: Map<Seq<char>, u8>,
    out: Seq<u8>,
) -> Result<StmtOut, ParseErrView> {
    match tokens[i] {
        TokenView::Word(_, w) => {
            if is_kw(w, "dw"@) {
                spec_stmt_dw(tokens, i, table, out)
            } else if is_kw(w, "halt"@) {
                spec_stmt_single(tokens, i, table, out, 0x00)
            } else if is_kw(w, "load"@) {
                spec_stmt_single(tokens, i, table, out, 0x01)
            } else if is_kw(w, "store"@) {
                spec_stmt_single(tokens, i, table, out, 0x02)
            } else if is_kw(w, "push"@) {
                spec_stmt_push(tokens, i, table, out)
            } else if is_kw(w, "pop"@) {
                spec_stmt_single(tokens, i, table, out, 0x04)
            } else if is_kw(w, "add"@) {
                spec_stmt_single(tokens, i, table, out, 0x05)
            } else if is_kw(w, "sub"@) {
                spec_stmt_single(tokens, i, table, out, 0x06)
            } else if is_kw(w, "and"@) {
                spec_stmt_single(tokens, i, table, out, 0x07)
            } else if is_kw(w, "or"@) {
                spec_stmt_single(tokens, i, table, out, 0x08)
            } else if is_kw(w, "xor"@) {
                spec_stmt_single(tokens, i, table, out, 0x09)
            } else if is_kw(w, "jp"@) {
                spec_stmt_jp(tokens, i, table, out)
            } else {
                Err(ParseErrView { token: Some(tokens[i]), expected: Expected::Mnemonic })
            }
        },
        _ => Err(ParseErrView { token: Some(tokens[i]), expected: Expected::Mnemonic }),
    }
}

/// Assemble the statements from token `i` on, given the symbol table and
/// the bytes emitted so far. Processing is strictly left to right; a label
/// is visible only to statements after its declaration, and assembly stops
/// at the first error.
pub open spec fn spec_asm(
    tokens: Seq<TokenView>,
    i: int,
    table: Map<Seq<char>, u8>,
    out: Seq<u8>,
) -> Result<AsmOut, ParseErrView>
    decreases tokens.len() - i,
{
    if i < 0 || i >= tokens.len() {
        Ok(AsmOut { bytes: out, table })
    } else {
        match spec_stmt(tokens, i, table, out) {
            Ok(so) => {
                if i < so.next <= tokens.len() {
                    spec_asm(tokens, so.next, so.table, so.bytes)
                } else {
                    // spec_stmt always advances; this branch is never taken
                    Ok(AsmOut { bytes: out, table })
                }
            },
            Err(e) => Err(e),
        }
    }
}

/// The machine program of a token sequence: the bytes to load at address 0,
/// together with the symbol table, or the first assembly error.
pub open spec fn spec_assemble(tokens: Seq<TokenView>) -> Result<AsmOut, ParseErrView> {
    spec_asm(tokens, 0, Map::empty(), Seq::empty())
}

// ---------------------------------------------------------------------------
// Symbol table
// ---------------------------------------------------------------------------

/// The mapping that a list of label bindings denotes: later bindings win.
pub open spec fn entries_map(entries: Seq<(String, u8)>) -> Map<Seq<char>, u8>
    decreases entries.len(),
{
    if entries.len() == 0 {
        Map::empty()
    } else {
        entries_map(entries.drop_last()).insert(entries.last().0@, entries.last().1)
    }
}

proof fn lemma_entries_map_found(entries: Seq<(String, u8)>, name: Seq<char>, j: int)
    requires
        0 <= j < entries.len(),
        entries[j].0@ == name,
        forall|l: int| j < l < entries.len() ==> (#[trigger] entries[l]).0@ != name,
    ensures
        entries_map(entries).contains_key(name),
        entries_map(entries)[name] == entries[j].1,
    decreases entries.len(),
{
    if j == entries.len() - 1 {
    } else {
        lemma_entries_map_found(entries.drop_last(), name, j);
    }
}

proof fn lemma_entries_map_absent(entries: Seq<(String, u8)>, name: Seq<char>)
    requires
        forall|l: int| 0 <= l < entries.len() ==> (#[trigger] entries[l]).0@ != name,
    ensures
        !entries_map(entries).contains_key(name),
    decreases entries.len(),
{
    if entries.len() > 0 {
        lemma_entries_map_absent(entries.drop_last(), name);
    }
}

/// Look a label up in the binding list: the most recent binding, if any.
fn table_lookup(entries: &Vec<(String, u8)>, name: &String) -> (r: Option<u8>)
    ensures
        (match r {
            Some(a) => entries_map(entries@).contains_key(name@) && entries_map(entries@)[name@]
                == a,
            None => !entries_map(entries@).contains_key(name@),
        }),
{
    let mut j = entries.len();
    while j > 0
        invariant
            j <= entries@.len(),
            forall|l: int| j <= l < entries@.len() ==> (#[trigger] entries@[l]).0@ != name@,
        decreases j,
    {
        j -= 1;
        let e = &entries[j];
        if e.0 == *name {
            proof {
                lemma_entries_map_found(entries@, name@, j as int);
            }
            return Some(e.1);
        }
    }
    proof {
        lemma_entries_map_absent(entries@, name@);
    }
    None
}

/// Add a binding to the list; it shadows any earlier binding of the name.
fn table_insert(entries: &mut Vec<(String, u8)>, name: String, addr: u8)
    ensures
        entries_map(final(entries)@) == entries_map(old(entries)@).insert(name@, addr),
{
    let ghost before = entries@;
    entries.push((name, addr));
    proof {
        assert(entries@.drop_last() =~= before);
    }
}


// ---------------------------------------------------------------------------
// The parser
// ---------------------------------------------------------------------------

/// `w` spells the keyword `kw` (which the callers pass in lower case),
/// compared case-insensitively.
fn word_is(w: &String, kw: &str) -> (r: bool)
    ensures
        r == is_kw(w@, kw@),
{
    let s = w.as_str();
    let wn = s.unicode_len();
    let kn = kw.unicode_len();
    if wn != kn {
        return false;
    }
    let mut j: usize = 0;
    while j < wn
        invariant
            s@ == w@,
            kw@.len() == wn,
            wn == w@.len(),
            j <= wn,
            forall|l: int| 0 <= l < j ==> lower_char(#[trigger] w@[l]) == kw@[l],
        decreases wn - j,
    {
        if lower_char_exec(s.get_char(j)) != kw.get_char(j) {
            return false;
        }
        j += 1;
    }
    true
}

/// A grammar error at the given token.
fn err_at(token: &Token, expected: Expected) -> (e: ParserError)
    ensures
        e@ == (ParseErrView { token: Some(token@), expected }),
{
    ParserError { token: Some(token.clone()), expected }
}

/// An error where the token sequence ended before the statement did.
fn err_end(expected: Expected) -> (e: ParserError)
    ensures
        e@ == (ParseErrView { token: None, expected }),
{
    ParserError { token: None, expected }
}

/// Process one statement that takes no operand, emitting the byte `op`;
/// `i` stands on the mnemonic token and moves past the end of statement.
fn stmt_single(tokens: &Vec<Token>, i: &mut usize, mem: &mut Vec<u8>, op: u8) -> (r: Result<
    (),
    ParserError,
>)
    requires
        *old(i) < tokens@.len(),
        old(mem)@.len() <= MEMORY_SIZE,
    ensures
        (match r {
            Ok(()) => {
                &&& forall|t: Map<Seq<char>, u8>|
                    #[trigger] spec_stmt_single(
                        tokens.deep_view(),
                        *old(i) as int,
                        t,
                        old(mem)@,
                        op,
                    ) == Ok::<StmtOut, ParseErrView>(
                        StmtOut { next: *old(i) + 2, table: t, bytes: old(mem)@.push(op) },
                    )
                &&& *final(i) == *old(i) + 2
                &&& *final(i) <= tokens@.len()
                &&& final(mem)@ == old(mem)@.push(op)
                &&& final(mem)@.len() <= MEMORY_SIZE
            },
            Err(e) => {
                &&& forall|t: Map<Seq<char>, u8>|
                    #[trigger] spec_stmt_single(
                        tokens.deep_view(),
                        *old(i) as int,
                        t,
                        old(mem)@,
                        op,
                    ) == Err::<StmtOut, ParseErrView>(e@)
                &&& *final(i) == *old(i)
                &&& final(mem)@ == old(mem)@
            },
        }),
{
    let n = tokens.len();
    if *i + 1 >= n {
        return Err(err_end(Expected::EndOfStatement));
    }
    match &tokens[*i + 1] {
        Token::EOL(_) => {
            if mem.len() + 1 > MEMORY_SIZE {
                return Err(err_at(&tokens[*i], Expected::Capacity));
            }
            mem.push(op);
            *i += 2;
            Ok(())
        },
        t1 => Err(err_at(t1, Expected::EndOfStatement)),
    }
}

/// Process one `DW` declaration; `i` stands on the mnemonic token. A named
/// declaration binds the label to the address of the emitted byte.
fn stmt_dw(
    tokens: &Vec<Token>,
    i: &mut usize,
    table: &mut Vec<(String, u8)>,
    mem: &mut Vec<u8>,
) -> (r: Result<(), ParserError>)
    requires
        *old(i) < tokens@.len(),
        old(mem)@.len() <= MEMORY_SIZE,
    ensures
        (match r {
            Ok(()) => {
                &&& spec_stmt_dw(
                    tokens.deep_view(),
                    *old(i) as int,
                    entries_map(old(table)@),
                    old(mem)@,
                ) == Ok::<StmtOut, ParseErrView>(
                    StmtOut {
                        next: *final(i) as int,
                        table: entries_map(final(table)@),
                        bytes: final(mem)@,
                    },
                )
                &&& *old(i) < *final(i) <= tokens@.len()
                &&& final(mem)@.len() <= MEMORY_SIZE
            },
            Err(e) => {
                &&& spec_stmt_dw(
                    tokens.deep_view(),
                    *old(i) as int,
                    entries_map(old(table)@),
                    old(mem)@,
                ) == Err::<StmtOut, ParseErrView>(e@)
                &&& *final(i) == *old(i)
                &&& final(mem)@ == old(mem)@
                &&& final(table)@ == old(table)@
            },
        }),
{
    let n = tokens.len();
    let i0 = *i;
    if i0 + 1 >= n {
        return Err(err_end(Expected::Operand));
    }
    match &tokens[i0 + 1] {
        Token::Word(_, name) => {
            if i0 + 2 >= n {
                return Err(err_end(Expected::Number));
            }
            match &tokens[i0 + 2] {
                Token::Number(_, lit) => {
                    if i0 + 3 >= n {
                        return Err(err_end(Expected::EndOfStatement));
                    }
                    match &tokens[i0 + 3] {
                        Token::EOL(_) => {
                            if mem.len() + 1 > MEMORY_SIZE {
                                return Err(err_at(&tokens[i0], Expected::Capacity));
                            }
                            let addr = mem.len() as u8;
                            table_insert(table, name.clone(), addr);
                            mem.push(*lit);
                            *i = i0 + 4;
                            Ok(())
                        },
                        t3 => Err(err_at(t3, Expected::EndOfStatement)),
                    }
                },
                t2 => Err(err_at(t2, Expected::Number)),
            }
        },
        Token::Number(_, lit) => {
            if i0 + 2 >= n {
                return Err(err_end(Expected::EndOfStatement));
            }
            match &tokens[i0 + 2] {
                Token::EOL(_) => {
                    if mem.len() + 1 > MEMORY_SIZE {
                        return Err(err_at(&tokens[i0], Expected::Capacity));
                    }
                    mem.push(*lit);
                    *i = i0 + 3;
                    Ok(())
                },
                t2 => Err(err_at(t2, Expected::EndOfStatement)),
            }
        },
        t1 => Err(err_at(t1, Expected::Operand)),
    }
}

/// Process one `PUSH` statement; `i` stands on the mnemonic token. A label
/// operand must already be declared in the symbol table.
fn stmt_push(
    tokens: &Vec<Token>,
    i: &mut usize,
    table: &Vec<(String, u8)>,
    mem: &mut Vec<u8>,
) -> (r: Result<(), ParserError>)
    requires
        *old(i) < tokens@.len(),
        old(mem)@.len() <= MEMORY_SIZE,
    ensures
        (match r {
            Ok(()) => {
                &&& spec_stmt_push(
                    tokens.deep_view(),
                    *old(i) as int,
                    entries_map(table@),
                    old(mem)@,
                ) == Ok::<StmtOut, ParseErrView>(
                    StmtOut {
                        next: *final(i) as int,
                        table: entries_map(table@),
                        bytes: final(mem)@,
                    },
                )
                &&& *old(i) < *final(i) <= tokens@.len()
                &&& final(mem)@.len() <= MEMORY_SIZE
            },
            Err(e) => {
                &&& spec_stmt_push(
                    tokens.deep_view(),
                    *old(i) as int,
                    entries_map(table@),
                    old(mem)@,
                ) == Err::<StmtOut, ParseErrView>(e@)
                &&& *final(i) == *old(i)
                &&& final(mem)@ == old(mem)@
            },
        }),
{
    let n = tokens.len();
    let i0 = *i;
    if i0 + 1 >= n {
        return Err(err_end(Expected::Operand));
    }
    match &tokens[i0 + 1] {
        Token::Word(_, name) => {
            if i0 + 2 >= n {
                return Err(err_end(Expected::EndOfStatement));
            }
            match &tokens[i0 + 2] {
                Token::EOL(_) => {
                    match table_lookup(table, name) {
                        Some(addr) => {
                            if mem.len() + 2 > MEMORY_SIZE {
                                return Err(err_at(&tokens[i0], Expected::Capacity));
                            }
                            mem.push(0x03);
                            mem.push(addr);
                            *i = i0 + 3;
                            Ok(())
                        },
                        None => Err(err_at(&tokens[i0 + 1], Expected::DeclaredLabel)),
                    }
                },
                t2 => Err(err_at(t2, Expected::EndOfStatement)),
            }
        },
        Token::Number(_, lit) => {
            if i0 + 2 >= n {
                return Err(err_end(Expected::EndOfStatement));
            }
            match &tokens[i0 + 2] {
                Token::EOL(_) => {
                    if mem.len() + 2 > MEMORY_SIZE {
                        return Err(err_at(&tokens[i0], Expected::Capacity));
                    }
                    mem.push(0x03);
                    mem.push(*lit);
                    *i = i0 + 3;
                    Ok(())
                },
                t2 => Err(err_at(t2, Expected::EndOfStatement)),
            }
        },
        t1 => Err(err_at(t1, Expected::Operand)),
    }
}

/// Process one `JP` statement; `i` stands on the mnemonic token.
fn stmt_jp(tokens: &Vec<Token>, i: &mut usize, mem: &mut Vec<u8>) -> (r: Result<(), ParserError>)
    requires
        *old(i) < tokens@.len(),
        old(mem)@.len() <= MEMORY_SIZE,
    ensures
        (match r {
            Ok(()) => {
                &&& forall|t: Map<Seq<char>, u8>|
                    #[trigger] spec_stmt_jp(tokens.deep_view(), *old(i) as int, t, old(mem)@)
                        == Ok::<StmtOut, ParseErrView>(
                        StmtOut { next: *final(i) as int, table: t, bytes: final(mem)@ },
                    )
                &&& *old(i) < *final(i) <= tokens@.len()
                &&& final(mem)@.len() <= MEMORY_SIZE
            },
            Err(e) => {
                &&& forall|t: Map<Seq<char>, u8>|
                    #[trigger] spec_stmt_jp(tokens.deep_view(), *old(i) as int, t, old(mem)@)
                        == Err::<StmtOut, ParseErrView>(e@)
                &&& *final(i) == *old(i)
                &&& final(mem)@ == old(mem)@
            },
        }),
{
    let n = tokens.len();
    let i0 = *i;
    if i0 + 1 >= n {
        return Err(err_end(Expected::Condition));
    }
    match &tokens[i0 + 1] {
        Token::Word(_, cw) => {
            let code: u8 = if word_is(cw, "gt") {
                1
            } else if word_is(cw, "lt") {
                2
            } else if word_is(cw, "geq") {
                3
            } else if word_is(cw, "leq") {
                4
            } else if word_is(cw, "eq") {
                5
            } else if word_is(cw, "neq") {
                6
            } else {
                0
            };
            proof {
                assert(code == spec_cond_code(cw@));
            }
            if code == 0 {
                return Err(err_at(&tokens[i0 + 1], Expected::Condition));
            }
            if i0 + 2 >= n {
                return Err(err_end(Expected::EndOfStatement));
            }
            match &tokens[i0 + 2] {
                Token::EOL(_) => {
                    if mem.len() + 2 > MEMORY_SIZE {
                        return Err(err_at(&tokens[i0], Expected::Capacity));
                    }
                    mem.push(0x0A);
                    mem.push(code);
                    *i = i0 + 3;
                    Ok(())
                },
                t2 => Err(err_at(t2, Expected::EndOfStatement)),
            }
        },
        Token::EOL(_) => {
            if mem.len() + 2 > MEMORY_SIZE {
                return Err(err_at(&tokens[i0], Expected::Capacity));
            }
            mem.push(0x0A);
            mem.push(0x00);
            *i = i0 + 2;
            Ok(())
        },
        t1 => Err(err_at(t1, Expected::Condition)),
    }
}

/// Translate a token sequence into machine bytes, resolving labels in a
/// single forward pass, or report the first error. The result is exactly
/// the byte side of [`spec_assemble`] on the tokens.
pub fn parse(tokens: &Vec<Token>) -> (result: Result<Vec<u8>, ParserError>)
    ensures
        (match result {
            Ok(bytes) => spec_assemble(tokens.deep_view()) matches Ok(o) && o.bytes == bytes@,
            Err(e) => spec_assemble(tokens.deep_view()) matches Err(ev) && ev == e@,
        }),
{
    let ghost tv = tokens.deep_view();
    let n = tokens.len();
    let mut i: usize = 0;
    let mut mem: Vec<u8> = Vec::new();
    let mut table: Vec<(String, u8)> = Vec::new();

    proof {
        assert(tv.len() == n);
        assert(mem@ =~= Seq::<u8>::empty());
        assert(entries_map(table@) =~= Map::<Seq<char>, u8>::empty());
    }

    while i < n
        invariant
            tv == tokens.deep_view(),
            n == tokens@.len(),
            i <= n,
            mem@.len() <= MEMORY_SIZE,
            spec_assemble(tv) == spec_asm(tv, i as int, entries_map(table@), mem@),
        decreases n - i,
    {
        let ghost table0 = entries_map(table@);
        let ghost mem0 = mem@;
        let ghost i0 = i as int;

        let token = &tokens[i];
        proof {
            assert(tv[i as int] == token@);
        }

        let r: Result<(), ParserError> = match token {
            Token::Word(_, word) => {
                if word_is(word, "dw") {
                    stmt_dw(tokens, &mut i, &mut table, &mut mem)
                } else if word_is(word, "halt") {
                    stmt_single(tokens, &mut i, &mut mem, 0x00)
                } else if word_is(word, "load") {
                    stmt_single(tokens, &mut i, &mut mem, 0x01)
                } else if word_is(word, "store") {
                    stmt_single(tokens, &mut i, &mut mem, 0x02)
                } else if word_is(word, "push") {
                    stmt_push(tokens, &mut i, &table, &mut mem)
                } else if word_is(word, "pop") {
                    stmt_single(tokens, &mut i, &mut mem, 0x04)
                } else if word_is(word, "add") {
                    stmt_single(tokens, &mut i, &mut mem, 0x05)
                } else if word_is(word, "sub") {
                    stmt_single(tokens, &mut i, &mut mem, 0x06)
                } else if word_is(word, "and") {
                    stmt_single(tokens, &mut i, &mut mem, 0x07)
                } else if word_is(word, "or") {
                    stmt_single(tokens, &mut i, &mut mem, 0x08)
                } else if word_is(word, "xor") {
                    stmt_single(tokens, &mut i, &mut mem, 0x09)
                } else if word_is(word, "jp") {
                    stmt_jp(tokens, &mut i, &mut mem)
                } else {
                    Err(err_at(token, Expected::Mnemonic))
                }
            },
            _ => Err(err_at(token, Expected::Mnemonic)),
        };

        match r {
            Ok(()) => {
                proof {
                    assert(spec_stmt(tv, i0, table0, mem0) == Ok::<StmtOut, ParseErrView>(
                        StmtOut { next: i as int, table: entries_map(table@), bytes: mem@ },
                    ));
                }
            },
            Err(e) => {
                proof {
                    assert(spec_stmt(tv, i0, table0, mem0) == Err::<StmtOut, ParseErrView>(e@));
                }
                return Err(e);
            },
        }
    }
    Ok(mem)
}

// ---------------------------------------------------------------------------
// Laws of label declaration and resolution
// ---------------------------------------------------------------------------

/// Tokens `4j .. 4j+3` form one `DW name literal ;` declaration.
pub open spec fn is_dw_decl(tokens: Seq<TokenView>, j: int) -> bool {
    &&& tokens[4 * j] matches TokenView::Word(_, w) && is_kw(w, "dw"@)
    &&& tokens[4 * j + 1] matches TokenView::Word(_, _)
    &&& tokens[4 * j + 2] matches TokenView::Number(_, _)
    &&& tokens[4 * j + 3] matches TokenView::EOL(_)
}

/// The label text of the word token at position `4j + 1`: for a declaration
/// shaped as in [`is_dw_decl`], the declared name.
pub open spec fn decl_name(tokens: Seq<TokenView>, j: int) -> Seq<char> {
    match tokens[4 * j + 1] {
        TokenView::Word(_, name) => name,
        _ => Seq::empty(),
    }
}

/// The literal byte of the `j`-th declaration.
pub open spec fn decl_value(tokens: Seq<TokenView>, j: int) -> u8 {
    match tokens[4 * j + 2] {
        TokenView::Number(_, v) => v,
        _ => 0,
    }
}

/// Induction step shared by the declaration-run laws: assemble the
/// declarations `j..k` and the final `HALT`, starting from an arbitrary
/// table and output.
proof fn lemma_dw_then_halt_seg(
    tokens: Seq<TokenView>,
    k: int,
    j: int,
    table: Map<Seq<char>, u8>,
    out: Seq<u8>,
)
    requires
        0 <= j <= k,
        tokens.len() == 4 * k + 2,
        forall|l: int| j <= l < k ==> is_dw_decl(tokens, l),
        tokens[4 * k] matches TokenView::Word(_, w) && is_kw(w, "halt"@),
        tokens[4 * k + 1] matches TokenView::EOL(_),
        forall|l1: int, l2: int|
            j <= l1 < l2 < k ==> decl_name(tokens, l1) != decl_name(tokens, l2),
        out.len() + (k - j) + 1 <= 256,
    ensures
        spec_asm(tokens, 4 * j, table, out) matches Ok(o) && {
            &&& forall|l: int|
                j <= l < k ==> o.table.contains_key(#[trigger] decl_name(tokens, l))
                    && o.table[decl_name(tokens, l)] == (out.len() + (l - j)) as u8
            &&& forall|key: Seq<char>|
                !(exists|l: int| j <= l < k && decl_name(tokens, l) == key) ==> (
                (#[trigger] o.table.contains_key(key) <==> table.contains_key(key))
                    && (table.contains_key(key) ==> o.table[key] == table[key]))
            &&& o.bytes.len() == out.len() + (k - j) + 1
        },
    decreases k - j,
{
    reveal_strlit("dw");
    reveal_strlit("halt");
    if j == k {
        let w = tokens[4 * k]->Word_1;
        assert(!is_kw(w, "dw"@)) by {
            assert(w.len() == 4);
        }
        assert(spec_stmt(tokens, 4 * k, table, out) == Ok::<StmtOut, ParseErrView>(
            StmtOut { next: 4 * k + 2, table, bytes: out.push(0x00) },
        ));
        assert(spec_asm(tokens, 4 * k + 2, table, out.push(0x00)) == Ok::<AsmOut, ParseErrView>(
            AsmOut { bytes: out.push(0x00), table },
        ));
    } else {
        assert(is_dw_decl(tokens, j));
        let name = decl_name(tokens, j);
        let v = decl_value(tokens, j);
        let table2 = table.insert(name, out.len() as u8);
        let out2 = out.push(v);
        assert(spec_stmt(tokens, 4 * j, table, out) == Ok::<StmtOut, ParseErrView>(
            StmtOut { next: 4 * j + 4, table: table2, bytes: out2 },
        ));
        assert(spec_asm(tokens, 4 * j, table, out) == spec_asm(tokens, 4 * (j + 1), table2, out2));
        lemma_dw_then_halt_seg(tokens, k, j + 1, table2, out2);
        let o = spec_asm(tokens, 4 * (j + 1), table2, out2)->Ok_0;
        assert(!(exists|l: int| j + 1 <= l < k && decl_name(tokens, l) == name));
        assert(o.table.contains_key(name) && o.table[name] == (out.len() + (j - j)) as u8);
        assert(forall|l: int|
            j <= l < k ==> o.table.contains_key(#[trigger] decl_name(tokens, l))
                && o.table[decl_name(tokens, l)] == (out.len() + (l - j)) as u8);
    }
}

/// Every program consisting solely of `DW name literal` declarations
/// followed by `HALT` assembles successfully, and its `k` declared labels
/// resolve to the strictly increasing run of addresses `0, 1, ..., k - 1`:
/// the `j`-th declared name is bound to address `j`.
pub proof fn lemma_dw_labels_increasing(tokens: Seq<TokenView>, k: int)
    requires
        0 <= k <= 255,
        tokens.len() == 4 * k + 2,
        forall|l: int| 0 <= l < k ==> is_dw_decl(tokens, l),
        tokens[4 * k] matches TokenView::Word(_, w) && is_kw(w, "halt"@),
        tokens[4 * k + 1] matches TokenView::EOL(_),
        forall|l1: int, l2: int|
            0 <= l1 < l2 < k ==> decl_name(tokens, l1) != decl_name(tokens, l2),
    ensures
        spec_assemble(tokens) matches Ok(o) && {
            &&& forall|l: int|
                0 <= l < k ==> o.table.contains_key(#[trigger] decl_name(tokens, l))
                    && o.table[decl_name(tokens, l)] == l as u8
            &&& o.bytes.len() == k + 1
        },
{
    lemma_dw_then_halt_seg(tokens, k, 0, Map::empty(), Seq::empty());
}

/// Induction step for the forward-reference law: the declarations `j..k`
/// never bind the referenced name, so the `PUSH` at `4k` still fails.
proof fn lemma_push_unresolved_seg(
    tokens: Seq<TokenView>,
    k: int,
    j: int,
    table: Map<Seq<char>, u8>,
    out: Seq<u8>,
)
    requires
        0 <= j <= k,
        4 * k + 3 <= tokens.len(),
        forall|l: int| j <= l < k ==> is_dw_decl(tokens, l),
        tokens[4 * k] matches TokenView::Word(_, w) && is_kw(w, "push"@),
        tokens[4 * k + 1] matches TokenView::Word(_, _),
        tokens[4 * k + 2] matches TokenView::EOL(_),
        !table.contains_key(decl_name(tokens, k)),
        forall|l: int| j <= l < k ==> decl_name(tokens, l) != decl_name(tokens, k),
        out.len() + (k - j) <= 256,
    ensures
        spec_asm(tokens, 4 * j, table, out) == Err::<AsmOut, ParseErrView>(
            ParseErrView { token: Some(tokens[4 * k + 1]), expected: Expected::DeclaredLabel },
        ),
    decreases k - j,
{
    reveal_strlit("dw");
    reveal_strlit("halt");
    reveal_strlit("load");
    reveal_strlit("store");
    reveal_strlit("push");
    if j == k {
        let w = tokens[4 * k]->Word_1;
        assert(!is_kw(w, "dw"@)) by {
            assert(w.len() == 4);
        }
        assert(!is_kw(w, "halt"@)) by {
            if is_kw(w, "halt"@) {
                assert(lower_char(w[0]) == 'h');
                assert(lower_char(w[0]) == 'p');
            }
        }
        assert(!is_kw(w, "load"@)) by {
            if is_kw(w, "load"@) {
                assert(lower_char(w[0]) == 'l');
                assert(lower_char(w[0]) == 'p');
            }
        }
        assert(!is_kw(w, "store"@)) by {
            assert(w.len() == 4);
        }
        assert(spec_stmt(tokens, 4 * k, table, out) == Err::<StmtOut, ParseErrView>(
            ParseErrView { token: Some(tokens[4 * k + 1]), expected: Expected::DeclaredLabel },
        ));
    } else {
        assert(is_dw_decl(tokens, j));
        let name = decl_name(tokens, j);
        let v = decl_value(tokens, j);
        let table2 = table.insert(name, out.len() as u8);
        let out2 = out.push(v);
        assert(spec_stmt(tokens, 4 * j, table, out) == Ok::<StmtOut, ParseErrView>(
            StmtOut { next: 4 * j + 4, table: table2, bytes: out2 },
        ));
        assert(!table2.contains_key(decl_name(tokens, k)));
        lemma_push_unresolved_seg(tokens, k, j + 1, table2, out2);
    }
}

/// Referencing a label in `PUSH` before its declaration is an error: if no
/// declaration among the `k` that precede the `PUSH` statement binds the
/// referenced name, assembly fails with the unresolved-label error on that
/// label's token, whatever follows. Forward references are illegal.
pub proof fn lemma_forward_reference_fails(tokens: Seq<TokenView>, k: int)
    requires
        0 <= k <= 256,
        4 * k + 3 <= tokens.len(),
        forall|l: int| 0 <= l < k ==> is_dw_decl(tokens, l),
        tokens[4 * k] matches TokenView::Word(_, w) && is_kw(w, "push"@),
        tokens[4 * k + 1] matches TokenView::Word(_, _),
        tokens[4 * k + 2] matches TokenView::EOL(_),
        forall|l: int| 0 <= l < k ==> decl_name(tokens, l) != decl_name(tokens, k),
    ensures
        spec_assemble(tokens) == Err::<AsmOut, ParseErrView>(
            ParseErrView { token: Some(tokens[4 * k + 1]), expected: Expected::DeclaredLabel },
        ),
{
    lemma_push_unresolved_seg(tokens, k, 0, Map::empty(), Seq::empty());
}

} // verus!
