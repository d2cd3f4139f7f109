use vstd::prelude::*;
use crate::chars::{
    all_single_byte, byte_cut, chars_match, cut_bytes, is_alphabetic, is_alphanumeric, is_numeric,
    is_whitespace, lemma_byte_cut_unique, lemma_bytes_of_single_byte, lemma_run_len,
    lemma_run_len_facts, run_len, spec_is_alphabetic, spec_is_alphanumeric, spec_is_numeric,
    spec_is_whitespace, spec_utf8_len, str_chars, str_matches, string_from_chars, string_push,
    utf8_len,
};

verus! {

/// Reserved words of the language.
#[derive(Debug, Clone, Copy, PartialEq, Eq, Structural)]
pub enum Keyword {
    Function,
    Let,
    If,
    Else,
    Elif,
}

/// The keyword spelled by `s`, if any.
pub open spec fn spec_keyword(s: Seq<char>) -> Option<Keyword> {
    if s == seq!['l', 'e', 't'] {
        Some(Keyword::Let)
    } else if s == seq!['f', 'u', 'n'] {
        Some(Keyword::Function)
    } else if s == seq!['i', 'f'] {
        Some(Keyword::If)
    } else if s == seq!['e', 'l', 's', 'e'] {
        Some(Keyword::Else)
    } else if s == seq!['e', 'l', 'i', 'f'] {
        Some(Keyword::Elif)
    } else {
        None
    }
}

impl Keyword {
    /// The keyword whose spelling is the string `s`.
    pub fn from_str(s: &str) -> (r: Option<Self>)
        ensures
            r == spec_keyword(s@),
    {
        let a = ['l', 'e', 't'];
        let b = ['f', 'u', 'n'];
        let c = ['i', 'f'];
        let d = ['e', 'l', 's', 'e'];
        let e = ['e', 'l', 'i', 'f'];
        assert(a@ =~= seq!['l', 'e', 't']);
        assert(b@ =~= seq!['f', 'u', 'n']);
        assert(c@ =~= seq!['i', 'f']);
        assert(d@ =~= seq!['e', 'l', 's', 'e']);
        assert(e@ =~= seq!['e', 'l', 'i', 'f']);
        if str_matches(s, &a) {
            Some(Keyword::Let)
        } else if str_matches(s, &b) {
            Some(Keyword::Function)
        } else if str_matches(s, &c) {
            Some(Keyword::If)
        } else if str_matches(s, &d) {
            Some(Keyword::Else)
        } else if str_matches(s, &e) {
            Some(Keyword::Elif)
        } else {
            None
        }
    }

    /// The keyword whose spelling is the character sequence `s`.
    pub fn from_chars(s: &[char]) -> (r: Option<Self>)
        ensures
            r == spec_keyword(s@),
    {
        let a = ['l', 'e', 't'];
        let b = ['f', 'u', 'n'];
        let c = ['i', 'f'];
        let d = ['e', 'l', 's', 'e'];
        let e = ['e', 'l', 'i', 'f'];
        assert(a@ =~= seq!['l', 'e', 't']);
        assert(b@ =~= seq!['f', 'u', 'n']);
        assert(c@ =~= seq!['i', 'f']);
        assert(d@ =~= seq!['e', 'l', 's', 'e']);
        assert(e@ =~= seq!['e', 'l', 'i', 'f']);
        if chars_match(s, &a) {
            Some(Keyword::Let)
        } else if chars_match(s, &b) {
            Some(Keyword::Function)
        } else if chars_match(s, &c) {
            Some(Keyword::If)
        } else if chars_match(s, &d) {
            Some(Keyword::Else)
        } else if chars_match(s, &e) {
            Some(Keyword::Elif)
        } else {
            None
        }
    }
}

/// Operators of the language.
#[derive(Debug, Clone, Copy, PartialEq, Eq, Structural)]
pub enum Operator {
    Plus,
    Minus,
    Assign,
}

/// The operator spelled by `s`: only assignment has a spelling.
pub open spec fn spec_operator(s: Seq<char>) -> Option<Operator> {
    if s == seq!['='] {
        Some(Operator::Assign)
    } else {
        None
    }
}

impl Operator {
    /// The operator whose spelling is `s`.
    pub fn from_str(s: &str) -> (r: Option<Self>)
        ensures
            r == spec_operator(s@),
    {
        let a = ['='];
        assert(a@ =~= seq!['=']);
        if str_matches(s, &a) {
            Some(Operator::Assign)
        } else {
            None
        }
    }
}

/// An operator together with whether it is used in unary position.
#[derive(Debug, Clone, Copy, PartialEq, Eq, Structural)]
pub struct OperatorTokenData {
    pub operator: Operator,
    pub unary: bool,
}

/// Binding priority of an operator.
pub open spec fn spec_operator_priority(op: Operator) -> i32 {
    match op {
        Operator::Plus => 6,
        Operator::Minus => 6,
        Operator::Assign => 1,
    }
}

impl OperatorTokenData {
    /// Binding priority of the operator.
    pub fn get_priority(&self) -> (r: i32)
        ensures
            r == spec_operator_priority(self.operator),
    {
        match &self.operator {
            Operator::Plus => 6,
            Operator::Minus => 6,
            Operator::Assign => 1,
        }
    }
}

/// Punctuation of the language.
#[derive(Debug, Clone, Copy, PartialEq, Eq, Structural)]
pub enum Separator {
    BracketOpen,
    BracketClose,
    BlockOpen,
    BlockClose,
    ArrayOpen,
    ArrayClose,
    Dot,
    Comma,
    End,
    Colon,
}

/// The separator written as the character `c`, if any.
pub open spec fn spec_separator(c: char) -> Option<Separator> {
    if c == '(' {
        Some(Separator::BracketOpen)
    } else if c == ')' {
        Some(Separator::BracketClose)
    } else if c == '{' {
        Some(Separator::BlockOpen)
    } else if c == '}' {
        Some(Separator::BlockClose)
    } else if c == '[' {
        Some(Separator::ArrayOpen)
    } else if c == ']' {
        Some(Separator::ArrayClose)
    } else if c == '.' {
        Some(Separator::Dot)
    } else if c == ',' {
        Some(Separator::Comma)
    } else if c == ';' {
        Some(Separator::End)
    } else if c == ':' {
        Some(Separator::Colon)
    } else {
        None
    }
}

/// Binding priority of a separator.
pub open spec fn spec_separator_priority(s: Separator) -> i32 {
    match s {
        Separator::BlockOpen => 1,
        Separator::BlockClose => 2,
        Separator::Dot => 2,
        _ => -1i32,
    }
}

impl Separator {
    /// The separator written as `ch`.
    pub fn from_char(ch: char) -> (r: Option<Self>)
        ensures
            r == spec_separator(ch),
    {
        match ch {
            '(' => Some(Separator::BracketOpen),
            ')' => Some(Separator::BracketClose),
            '{' => Some(Separator::BlockOpen),
            '}' => Some(Separator::BlockClose),
            '[' => Some(Separator::ArrayOpen),
            ']' => Some(Separator::ArrayClose),
            '.' => Some(Separator::Dot),
            ',' => Some(Separator::Comma),
            ';' => Some(Separator::End),
            ':' => Some(Separator::Colon),
            _ => None,
        }
    }

    /// Binding priority of the separator.
    pub fn get_priority(&self) -> (r: i32)
        ensures
            r == spec_separator_priority(*self),
    {
        match self {
            Separator::BracketOpen => -1,
            Separator::BracketClose => -1,
            Separator::BlockOpen => 1,
            Separator::BlockClose => 2,
            Separator::ArrayOpen => -1,
            Separator::ArrayClose => -1,
            Separator::Dot => 2,
            Separator::Comma => -1,
            Separator::End => -1,
            Separator::Colon => -1,
        }
    }
}

/// What went wrong while lexing.
#[derive(Debug, Clone, Copy, PartialEq, Eq, Structural)]
pub enum ParsingErrorKind {
    UnknownCharacter,
    InvalidIntegerConstant,
    InvalidNumberConstant,
}

/// A lexing error with the position at which it was found.
#[derive(Debug, Clone, Copy, PartialEq, Eq)]
pub struct ParsingError {
    pub error_type: ParsingErrorKind,
    pub message: Option<&'static str>,
    pub row: usize,
    pub column: usize,
}

impl ParsingError {
    /// An error of kind `error_type` at `row`, `column`, without a message.
    pub fn new(error_type: ParsingErrorKind, row: usize, column: usize) -> (r: Self)
        ensures
            r.error_type == error_type,
            r.message.is_none(),
            r.row == row,
            r.column == column,
    {
        Self { error_type, message: None, row, column }
    }
}

} // verus!

verus! {

/// What a token is.  A numeric literal with a fractional part is kept as the text that
/// spells it; its value is the decimal number that text denotes.
#[derive(Debug, Clone, PartialEq)]
pub enum TokenKind {
    Keyword(Keyword),
    Operator(OperatorTokenData),
    Separator(Separator),
    Identifier(String),
    ConstantString(String),
    Integer(i64),
    Number(String),
    Boolean(bool),
}

/// The mathematical content of a `TokenKind`.
pub enum TokenKindView {
    Keyword(Keyword),
    Operator(OperatorTokenData),
    Separator(Separator),
    Identifier(Seq<char>),
    ConstantString(Seq<char>),
    Integer(i64),
    Number(Seq<char>),
    Boolean(bool),
}

impl View for TokenKind {
    type V = TokenKindView;

    open spec fn view(&self) -> TokenKindView {
        match self {
            TokenKind::Keyword(k) => TokenKindView::Keyword(*k),
            TokenKind::Operator(o) => TokenKindView::Operator(*o),
            TokenKind::Separator(s) => TokenKindView::Separator(*s),
            TokenKind::Identifier(s) => TokenKindView::Identifier(s@),
            TokenKind::ConstantString(s) => TokenKindView::ConstantString(s@),
            TokenKind::Integer(i) => TokenKindView::Integer(*i),
            TokenKind::Number(s) => TokenKindView::Number(s@),
            TokenKind::Boolean(b) => TokenKindView::Boolean(*b),
        }
    }
}

/// A token and the row and column at which the lexer stood when it produced it.
#[derive(Debug, Clone)]
pub struct Token {
    token_kind: TokenKind,
    row: usize,
    column: usize,
}

/// The mathematical content of a `Token`.
pub struct TokenView {
    pub kind: TokenKindView,
    pub row: int,
    pub column: int,
}

impl View for Token {
    type V = TokenView;

    closed spec fn view(&self) -> TokenView {
        TokenView { kind: self.token_kind@, row: self.row as int, column: self.column as int }
    }
}

/// Priority of a token: that of its operator, or -1 for any other token.
pub open spec fn spec_token_priority(kind: TokenKindView) -> i32 {
    match kind {
        TokenKindView::Operator(d) => spec_operator_priority(d.operator),
        _ => -1i32,
    }
}

impl Token {
    /// A token of kind `token_kind` found at `row`, `column`.
    pub fn new(token_kind: TokenKind, row: usize, column: usize) -> (r: Self)
        ensures
            r@ == (TokenView { kind: token_kind@, row: row as int, column: column as int }),
    {
        Self { token_kind, row, column }
    }

    /// The row at which the token was found.
    pub fn get_row(&self) -> (r: usize)
        ensures
            r == self@.row,
    {
        self.row
    }

    /// The column at which the token was found.
    pub fn get_column(&self) -> (r: usize)
        ensures
            r == self@.column,
    {
        self.column
    }

    /// The kind of the token.
    pub fn kind(&self) -> (r: &TokenKind)
        ensures
            r@ == self@.kind,
    {
        &self.token_kind
    }

    /// Binding priority: that of an operator token, -1 for every other token.
    pub fn get_priority(&self) -> (r: i32)
        ensures
            r == spec_token_priority(self@.kind),
    {
        match &self.token_kind {
            TokenKind::Operator(operator_token_data) => operator_token_data.get_priority(),
            _ => -1,
        }
    }
}

} // verus!

verus! {

// ---------------------------------------------------------------------------
// The lexer's model: where it stands in the code, and what each step does.

/// The position of a lexer: the code, the index of the next character, and the row and
/// column it reports for that character.
pub struct LexView {
    pub code: Seq<char>,
    pub pos: int,
    pub row: int,
    pub column: int,
}

/// The characters not yet consumed.
pub open spec fn rest(v: LexView) -> Seq<char> {
    v.code.skip(v.pos)
}

/// The next character, if any.
pub open spec fn peek(v: LexView) -> Option<char> {
    if 0 <= v.pos < v.code.len() {
        Some(v.code[v.pos])
    } else {
        None
    }
}

/// Consuming one character: a newline starts a new row, any other character moves one column.
pub open spec fn next_view(v: LexView) -> LexView {
    if 0 <= v.pos < v.code.len() {
        if v.code[v.pos] == '\n' {
            LexView { pos: v.pos + 1, row: v.row + 1, column: 0, ..v }
        } else {
            LexView { pos: v.pos + 1, column: v.column + 1, ..v }
        }
    } else {
        v
    }
}

/// Consuming `n` characters one at a time, keeping rows and columns.
pub open spec fn consume(v: LexView, n: nat) -> LexView
    decreases n,
{
    if n == 0 {
        v
    } else {
        next_view(consume(v, (n - 1) as nat))
    }
}

/// Skipping `n` characters (or to the end) without touching the row or column.
pub open spec fn skip_view(v: LexView, n: int) -> LexView {
    LexView { pos: if v.pos + n <= v.code.len() { v.pos + n } else { v.code.len() as int }, ..v }
}

/// Alphabetic characters.
pub open spec fn alpha_pred() -> spec_fn(char) -> bool {
    |c: char| spec_is_alphabetic(c)
}

/// Numeric characters.
pub open spec fn numeric_pred() -> spec_fn(char) -> bool {
    |c: char| spec_is_numeric(c)
}

/// Numeric characters and the decimal point.
pub open spec fn number_pred() -> spec_fn(char) -> bool {
    |c: char| spec_is_numeric(c) || c == '.'
}

/// Characters that may continue an identifier.
pub open spec fn word_pred() -> spec_fn(char) -> bool {
    |c: char| spec_is_alphanumeric(c) || c == '_'
}

/// White space.
pub open spec fn whitespace_pred() -> spec_fn(char) -> bool {
    |c: char| spec_is_whitespace(c)
}

/// The characters that the text slice `code[byte(pos) .. byte(pos) + n]` holds,
/// where `n` counts characters but is applied to bytes; `None` where that byte range does not
/// end on a character boundary (slicing there panics).
pub open spec fn text_slice(v: LexView, n: int) -> Option<Seq<char>> {
    match byte_cut(rest(v), n) {
        Some(k) => Some(rest(v).take(k)),
        None => None,
    }
}

/// The boolean spelled by `s`.
pub open spec fn spec_bool(s: Seq<char>) -> Option<bool> {
    if s == seq!['t', 'r', 'u', 'e'] {
        Some(true)
    } else if s == seq!['f', 'a', 'l', 's', 'e'] {
        Some(false)
    } else {
        None
    }
}

/// The character that the two-character escape `a b` stands for.
pub open spec fn spec_escape(a: char, b: char) -> Option<char> {
    if a != '\\' {
        None
    } else if b == 'n' {
        Some('\n')
    } else if b == '"' {
        Some('"')
    } else if b == '\'' {
        Some('\'')
    } else if b == 't' {
        Some('\t')
    } else if b == '\\' {
        Some('\\')
    } else {
        None
    }
}

/// The escaped character spelled by `s`.
pub open spec fn spec_convert_special(s: Seq<char>) -> Option<char> {
    if s.len() == 2 {
        spec_escape(s[0], s[1])
    } else {
        None
    }
}

/// Whether `c` is one of the ASCII digits `0`..`9`.
pub open spec fn is_ascii_digit(c: char) -> bool {
    '0' <= c <= '9'
}

/// The number written by the ASCII digits `cs`.
pub open spec fn decimal_value(cs: Seq<char>) -> int
    decreases cs.len(),
{
    if cs.len() == 0 {
        0
    } else {
        decimal_value(cs.drop_last()) * 10 + (cs.last() as int - '0' as int)
    }
}

/// What `str::parse::<i64>` gives for a text without sign: a nonempty run of ASCII digits
/// whose value fits in `i64`.
pub open spec fn spec_parse_unsigned_i64(cs: Seq<char>) -> Option<i64> {
    if cs.len() > 0 && (forall|i: int| 0 <= i < cs.len() ==> is_ascii_digit(#[trigger] cs[i]))
        && decimal_value(cs) <= i64::MAX {
        Some(decimal_value(cs) as i64)
    } else {
        None
    }
}

/// Whether `cs` holds two decimal points.
pub open spec fn two_points(cs: Seq<char>) -> bool {
    exists|a: int, b: int| 0 <= a < b < cs.len() && #[trigger] cs[a] == '.' && #[trigger] cs[b] == '.'
}

/// Whether `str::parse::<f64>` accepts a text without sign or exponent: ASCII digits with at
/// most one decimal point and at least one digit.
pub open spec fn spec_decimal_text(cs: Seq<char>) -> bool {
    &&& forall|i: int| 0 <= i < cs.len() ==> is_ascii_digit(#[trigger] cs[i]) || cs[i] == '.'
    &&& !two_points(cs)
    &&& exists|i: int| 0 <= i < cs.len() && is_ascii_digit(#[trigger] cs[i])
}

/// The outcome of one lexing step.
pub enum LexStep {
    /// The step slices the text off a character boundary, which panics.
    Panic,
    /// The step reports an error.
    Fail(ParsingErrorKind),
    /// The step produces nothing and leaves the lexer where it was.
    Skip,
    /// The step produces a token and moves the lexer.
    Emit(TokenView, LexView),
}

/// A token of kind `k` at the lexer's current row and column.
pub open spec fn token_at(v: LexView, k: TokenKindView) -> TokenView {
    TokenView { kind: k, row: v.row, column: v.column }
}

/// `tokenize_keyword`: a run of letters that spells a keyword.
pub open spec fn keyword_step(v: LexView) -> LexStep {
    if peek(v) matches Some(c) && spec_is_alphabetic(c) {
        let n = run_len(rest(v), alpha_pred()) as int;
        match text_slice(v, n) {
            None => LexStep::Panic,
            Some(t) => match spec_keyword(t) {
                Some(k) => LexStep::Emit(token_at(v, TokenKindView::Keyword(k)), skip_view(v, n)),
                None => LexStep::Skip,
            },
        }
    } else {
        LexStep::Skip
    }
}

/// `tokenize_bool`: a run of letters that spells `true` or `false`.
pub open spec fn bool_step(v: LexView) -> LexStep {
    if peek(v) matches Some(c) && spec_is_alphabetic(c) {
        let n = run_len(rest(v), alpha_pred()) as int;
        match text_slice(v, n) {
            None => LexStep::Panic,
            Some(t) => match spec_bool(t) {
                Some(b) => LexStep::Emit(token_at(v, TokenKindView::Boolean(b)), skip_view(v, n)),
                None => LexStep::Skip,
            },
        }
    } else {
        LexStep::Skip
    }
}

/// `tokenize_id`: a letter or underscore followed by letters, digits and underscores.
pub open spec fn id_step(v: LexView) -> LexStep {
    if peek(v) matches Some(c) && (spec_is_alphabetic(c) || c == '_') {
        let n = run_len(rest(v), word_pred()) as int;
        match text_slice(v, n) {
            None => LexStep::Panic,
            Some(t) => LexStep::Emit(token_at(v, TokenKindView::Identifier(t)), skip_view(v, n)),
        }
    } else {
        LexStep::Skip
    }
}

/// `tokenize_integer`: a run of numeric characters read as an `i64`.
pub open spec fn integer_step(v: LexView) -> LexStep {
    if peek(v) matches Some(c) && spec_is_numeric(c) {
        let n = run_len(rest(v), numeric_pred()) as int;
        match text_slice(v, n) {
            None => LexStep::Panic,
            Some(t) => match spec_parse_unsigned_i64(t) {
                Some(i) => LexStep::Emit(token_at(v, TokenKindView::Integer(i)), skip_view(v, n)),
                None => LexStep::Fail(ParsingErrorKind::InvalidIntegerConstant),
            },
        }
    } else {
        LexStep::Skip
    }
}

/// `tokenize_number`: a run of numeric characters and at most one decimal point.
pub open spec fn number_step(v: LexView) -> LexStep {
    if peek(v) matches Some(c) && spec_is_numeric(c) {
        let n = run_len(rest(v), number_pred()) as int;
        if two_points(rest(v).take(n)) {
            LexStep::Fail(ParsingErrorKind::InvalidNumberConstant)
        } else {
            match text_slice(v, n) {
                None => LexStep::Panic,
                Some(t) => if spec_decimal_text(t) {
                    LexStep::Emit(token_at(v, TokenKindView::Number(t)), skip_view(v, n))
                } else {
                    LexStep::Fail(ParsingErrorKind::InvalidNumberConstant)
                },
            }
        }
    } else {
        LexStep::Skip
    }
}

/// Where the scan of a quoted string ends.
pub enum StringScan {
    /// The scan slices the text off a character boundary, which panics.
    Panic,
    /// The code ends before a closing quote.
    Open,
    /// A closing quote was found; the text read and the number of escapes in it.
    Closed(Seq<char>, int),
}

/// Scanning the body of a string literal from index `j`, having read `acc` with `esc`
/// escapes.  At each character with a successor, the scan slices two bytes of the text from
/// the character's start, which must end on a character boundary.
pub open spec fn string_scan(code: Seq<char>, j: int, acc: Seq<char>, esc: int) -> StringScan
    decreases code.len() - j,
{
    if j < 0 || j >= code.len() {
        StringScan::Open
    } else if code[j] == '"' {
        StringScan::Closed(acc, esc)
    } else if j + 1 < code.len() {
        let a = code[j];
        let b = code[j + 1];
        if !(spec_utf8_len(a) == 2 || (spec_utf8_len(a) == 1 && spec_utf8_len(b) == 1)) {
            StringScan::Panic
        } else if spec_utf8_len(a) == 1 && spec_escape(a, b) is Some {
            string_scan(code, j + 2, acc.push(spec_escape(a, b)->0), esc + 1)
        } else {
            string_scan(code, j + 1, acc.push(a), esc)
        }
    } else {
        string_scan(code, j + 1, acc.push(code[j]), esc)
    }
}

/// `tokenize_string`: a quoted string with escapes.  The lexer then skips only two characters
/// more than the number of escapes.
pub open spec fn string_step(v: LexView) -> LexStep {
    if peek(v) == Some('"') {
        match string_scan(v.code, v.pos + 1, Seq::empty(), 0) {
            StringScan::Panic => LexStep::Panic,
            StringScan::Open => LexStep::Skip,
            StringScan::Closed(s, e) => LexStep::Emit(
                token_at(v, TokenKindView::ConstantString(s)),
                skip_view(v, e + 2),
            ),
        }
    } else {
        LexStep::Skip
    }
}

/// `tokenize_separator`: one punctuation character.
pub open spec fn separator_step(v: LexView) -> LexStep {
    match peek(v) {
        Some(c) => match spec_separator(c) {
            Some(s) => LexStep::Emit(token_at(v, TokenKindView::Separator(s)), next_view(v)),
            None => LexStep::Skip,
        },
        None => LexStep::Skip,
    }
}

/// The first step among `a`, `b` that does something.
pub open spec fn or_else(a: LexStep, b: LexStep) -> LexStep {
    if a is Skip {
        b
    } else {
        a
    }
}

/// Keyword, boolean, identifier, string and separator, tried in this order.
pub open spec fn word_step(v: LexView) -> LexStep {
    or_else(
        keyword_step(v),
        or_else(bool_step(v), or_else(id_step(v), or_else(string_step(v), separator_step(v)))),
    )
}

/// How lexing a whole text ends.
pub enum LexRun {
    /// A step panics (slicing the text off a character boundary).
    Panic,
    /// A step made no progress (never happens; see `tokenize`).
    Stuck,
    /// All of the code was read; where the lexer stands and the tokens.
    Finished(LexView, Seq<TokenView>),
    /// An error of the given kind, reported at the lexer's row and column in the given view.
    Failed(ParsingErrorKind, LexView, Seq<TokenView>),
}

/// One round of lexing from a position inside the code.
pub enum LexRound {
    /// A token was produced; where the lexer stands and the tokens.
    Next(LexView, Seq<TokenView>),
    /// Lexing ends here.
    Stop(LexRun),
}

/// One round of lexing: white space is skipped, an integer is tried, then a number, and
/// failing that a keyword, boolean, identifier, string or separator.
pub open spec fn lex_round(v: LexView, toks: Seq<TokenView>) -> LexRound {
    let w = consume(v, run_len(rest(v), whitespace_pred()));
    match integer_step(w) {
        LexStep::Panic => LexRound::Stop(LexRun::Panic),
        LexStep::Fail(k) => LexRound::Stop(LexRun::Failed(k, w, toks)),
        s1 => {
            let w2 = match s1 {
                LexStep::Emit(_, x) => x,
                _ => w,
            };
            let t2 = match s1 {
                LexStep::Emit(t, _) => toks.push(t),
                _ => toks,
            };
            let s2 = match number_step(w2) {
                LexStep::Skip => word_step(w2),
                s => s,
            };
            match s2 {
                LexStep::Panic => LexRound::Stop(LexRun::Panic),
                LexStep::Fail(k) => LexRound::Stop(LexRun::Failed(k, w2, t2)),
                LexStep::Skip => LexRound::Stop(
                    LexRun::Failed(ParsingErrorKind::UnknownCharacter, w2, t2),
                ),
                LexStep::Emit(t, w3) => LexRound::Next(w3, t2.push(t)),
            }
        },
    }
}

/// Lexing from `v` onwards, having produced `toks`.
pub open spec fn lex_run(v: LexView, toks: Seq<TokenView>) -> LexRun
    decreases v.code.len() - v.pos,
{
    if !(0 <= v.pos < v.code.len()) {
        LexRun::Finished(v, toks)
    } else {
        match lex_round(v, toks) {
            LexRound::Stop(r) => r,
            LexRound::Next(w, t) => if w.code == v.code && w.pos > v.pos {
                lex_run(w, t)
            } else {
                LexRun::Stuck
            },
        }
    }
}

} // verus!

verus! {

/// Reading `n` characters one at a time moves exactly `n` places when they are there.
pub proof fn lemma_consume(v: LexView, n: nat)
    requires
        0 <= v.pos,
        v.pos + n <= v.code.len(),
    ensures
        consume(v, n).pos == v.pos + n,
        consume(v, n).code == v.code,
    decreases n,
{
    if n > 0 {
        lemma_consume(v, (n - 1) as nat);
    }
}

/// Every step that produces a token moves forward within the same code.
pub proof fn lemma_emit_progress(v: LexView)
    requires
        0 <= v.pos <= v.code.len(),
    ensures
        keyword_step(v) matches LexStep::Emit(_, w) ==> w.code == v.code && v.pos < w.pos
            <= v.code.len(),
        bool_step(v) matches LexStep::Emit(_, w) ==> w.code == v.code && v.pos < w.pos
            <= v.code.len(),
        id_step(v) matches LexStep::Emit(_, w) ==> w.code == v.code && v.pos < w.pos
            <= v.code.len(),
        integer_step(v) matches LexStep::Emit(_, w) ==> w.code == v.code && v.pos < w.pos
            <= v.code.len(),
        number_step(v) matches LexStep::Emit(_, w) ==> w.code == v.code && v.pos < w.pos
            <= v.code.len(),
        string_step(v) matches LexStep::Emit(_, w) ==> w.code == v.code && v.pos < w.pos
            <= v.code.len(),
        separator_step(v) matches LexStep::Emit(_, w) ==> w.code == v.code && v.pos < w.pos
            <= v.code.len(),
        word_step(v) matches LexStep::Emit(_, w) ==> w.code == v.code && v.pos < w.pos
            <= v.code.len(),
{
    if v.pos < v.code.len() {
        let r = rest(v);
        assert(r[0] == v.code[v.pos]);
        lemma_run_len_facts(r, alpha_pred());
        lemma_run_len_facts(r, numeric_pred());
        lemma_run_len_facts(r, number_pred());
        lemma_run_len_facts(r, word_pred());
        lemma_string_scan_escapes(v.code, v.pos + 1, Seq::empty(), 0);
    }
}

/// The escape count that a string scan reports is at least the count it started from.
pub proof fn lemma_string_scan_escapes(code: Seq<char>, j: int, acc: Seq<char>, esc: int)
    ensures
        string_scan(code, j, acc, esc) matches StringScan::Closed(_, e) ==> e >= esc,
    decreases code.len() - j,
{
    if 0 <= j < code.len() && code[j] != '"' {
        if j + 1 < code.len() {
            let a = code[j];
            let b = code[j + 1];
            if spec_utf8_len(a) == 1 && spec_escape(a, b) is Some {
                lemma_string_scan_escapes(code, j + 2, acc.push(spec_escape(a, b)->0), esc + 1);
            } else {
                lemma_string_scan_escapes(code, j + 1, acc.push(a), esc);
            }
        } else {
            lemma_string_scan_escapes(code, j + 1, acc.push(code[j]), esc);
        }
    }
}

/// Which characters a run is made of.
#[derive(Clone, Copy)]
pub enum CharClass {
    Alphabetic,
    Numeric,
    NumberPart,
    Word,
}

/// The predicate of a character class.
pub open spec fn class_pred(class: CharClass) -> spec_fn(char) -> bool {
    match class {
        CharClass::Alphabetic => alpha_pred(),
        CharClass::Numeric => numeric_pred(),
        CharClass::NumberPart => number_pred(),
        CharClass::Word => word_pred(),
    }
}

/// Whether `c` belongs to `class`.
pub fn class_test(class: CharClass, c: char) -> (r: bool)
    ensures
        r == class_pred(class)(c),
{
    match class {
        CharClass::Alphabetic => is_alphabetic(c),
        CharClass::Numeric => is_numeric(c),
        CharClass::NumberPart => is_numeric(c) || c == '.',
        CharClass::Word => is_alphanumeric(c) || c == '_',
    }
}

/// The number that `cs` writes in decimal, when it is a nonempty run of ASCII digits that
/// fits in `i64`: what `str::parse::<i64>` returns for a text without sign.
pub fn parse_unsigned_i64(cs: &[char]) -> (r: Option<i64>)
    ensures
        r == spec_parse_unsigned_i64(cs@),
{
    if cs.len() == 0 {
        return None;
    }
    let mut i: usize = 0;
    while i < cs.len()
        invariant
            i <= cs@.len(),
            forall|j: int| 0 <= j < i ==> is_ascii_digit(#[trigger] cs@[j]),
        decreases cs@.len() - i,
    {
        if !('0' <= cs[i] && cs[i] <= '9') {
            return None;
        }
        i = i + 1;
    }
    let mut acc: i64 = 0;
    let mut i: usize = 0;
    assert(cs@.take(0) =~= Seq::<char>::empty());
    while i < cs.len()
        invariant
            i <= cs@.len(),
            forall|j: int| 0 <= j < cs@.len() ==> is_ascii_digit(#[trigger] cs@[j]),
            acc as int == decimal_value(cs@.take(i as int)),
            0 <= acc,
        decreases cs@.len() - i,
    {
        let d = (cs[i] as u32 - '0' as u32) as i64;
        assert(cs@.take(i + 1).drop_last() =~= cs@.take(i as int));
        if acc > (i64::MAX - d) / 10 {
            proof {
                lemma_decimal_value_prefix(cs@, i + 1);
            }
            return None;
        }
        acc = acc * 10 + d;
        i = i + 1;
    }
    assert(cs@.take(cs@.len() as int) =~= cs@);
    Some(acc)
}

/// The value of a run of digits is at least the value of any of its prefixes.
pub proof fn lemma_decimal_value_prefix(cs: Seq<char>, k: int)
    requires
        0 <= k <= cs.len(),
        forall|j: int| 0 <= j < cs.len() ==> is_ascii_digit(#[trigger] cs[j]),
    ensures
        decimal_value(cs) >= decimal_value(cs.take(k)),
        decimal_value(cs.take(k)) >= 0,
    decreases cs.len(),
{
    if k == cs.len() {
        assert(cs.take(k) =~= cs);
        lemma_decimal_value_nonneg(cs);
    } else {
        let d = cs.drop_last();
        assert(d.take(k) =~= cs.take(k));
        assert forall|j: int| 0 <= j < d.len() implies is_ascii_digit(#[trigger] d[j]) by {
            assert(d[j] == cs[j]);
        }
        lemma_decimal_value_prefix(d, k);
        lemma_decimal_value_nonneg(d);
        assert(is_ascii_digit(cs[cs.len() - 1]));
    }
}

/// Runs of digits have nonnegative values.
pub proof fn lemma_decimal_value_nonneg(cs: Seq<char>)
    requires
        forall|j: int| 0 <= j < cs.len() ==> is_ascii_digit(#[trigger] cs[j]),
    ensures
        decimal_value(cs) >= 0,
    decreases cs.len(),
{
    if cs.len() > 0 {
        let d = cs.drop_last();
        assert forall|j: int| 0 <= j < d.len() implies is_ascii_digit(#[trigger] d[j]) by {
            assert(d[j] == cs[j]);
        }
        lemma_decimal_value_nonneg(d);
        assert(is_ascii_digit(cs[cs.len() - 1]));
    }
}

/// Whether `str::parse::<f64>` accepts `cs` (a text without sign or exponent).
pub fn decimal_text(cs: &[char]) -> (r: bool)
    ensures
        r == spec_decimal_text(cs@),
{
    let mut points: usize = 0;
    let mut digits = false;
    let mut i: usize = 0;
    while i < cs.len()
        invariant
            i <= cs@.len(),
            forall|j: int| 0 <= j < i ==> is_ascii_digit(#[trigger] cs@[j]) || cs@[j] == '.',
            points <= 1,
            points == 0 ==> forall|j: int| 0 <= j < i ==> cs@[j] != '.',
            points == 1 ==> exists|j: int| 0 <= j < i && cs@[j] == '.',
            points == 1 ==> forall|a: int, b: int|
                0 <= a < b < i && #[trigger] cs@[a] == '.' ==> #[trigger] cs@[b] != '.',
            digits == exists|j: int| 0 <= j < i && is_ascii_digit(#[trigger] cs@[j]),
        decreases cs@.len() - i,
    {
        let c = cs[i];
        if '0' <= c && c <= '9' {
            digits = true;
        } else if c == '.' {
            if points == 1 {
                assert(two_points(cs@));
                return false;
            }
            points = 1;
        } else {
            return false;
        }
        i = i + 1;
    }
    if !digits {
        return false;
    }
    assert(!two_points(cs@));
    true
}

/// Lexer over a text: the characters of the code, the index of the next one, the row and
/// column it reports, and the tokens found so far.
pub struct Lexer {
    code: Vec<char>,
    tokens: Vec<Token>,
    pos: usize,
    column: usize,
    row: usize,
}

impl Lexer {
    /// Where the lexer stands.
    pub closed spec fn state(&self) -> LexView {
        LexView {
            code: self.code@,
            pos: self.pos as int,
            row: self.row as int,
            column: self.column as int,
        }
    }

    /// The tokens found so far.
    pub closed spec fn token_views(&self) -> Seq<TokenView> {
        self.tokens@.map_values(|t: Token| t@)
    }

    /// The position is within the code; rows and columns never pass it.
    pub closed spec fn wf(&self) -> bool {
        &&& self.pos <= self.code@.len()
        &&& self.row <= self.pos
        &&& self.column <= self.pos
    }

    /// A lexer at the start of `code`, with no tokens.
    pub fn new(code: &str) -> (r: Self)
        ensures
            r.wf(),
            r.state() == (LexView { code: code@, pos: 0, row: 0, column: 0 }),
            r.token_views() == Seq::<TokenView>::empty(),
    {
        let r = Self { code: str_chars(code), tokens: Vec::new(), pos: 0, row: 0, column: 0 };
        assert(r.token_views() =~= Seq::<TokenView>::empty());
        r
    }

    /// The tokens found so far.
    pub fn tokens(&self) -> (r: &Vec<Token>)
        ensures
            r@.map_values(|t: Token| t@) == self.token_views(),
    {
        &self.tokens
    }

    /// The next character, without consuming it.
    pub fn peek_char(&self) -> (r: Option<char>)
        requires
            self.wf(),
        ensures
            r == peek(self.state()),
    {
        if self.pos < self.code.len() {
            Some(self.code[self.pos])
        } else {
            None
        }
    }

    /// Whether the code ahead starts with `value` followed by the end of the code or by a
    /// character that is not alphanumeric.  Does not move the lexer.
    pub fn is_string(&self, value: &str) -> (r: bool)
        requires
            self.wf(),
        ensures
            r == ({
                let v = self.state();
                let m = value@.len();
                &&& v.pos + m <= v.code.len()
                &&& v.code.subrange(v.pos, v.pos + m) == value@
                &&& (v.pos + m == v.code.len() || !spec_is_alphanumeric(v.code[v.pos + m]))
            }),
    {
        let m = value.unicode_len();
        let mut i: usize = 0;
        while i < m
            invariant
                self.wf(),
                m == value@.len(),
                i <= m,
                self.pos + i <= self.code@.len(),
                forall|j: int| 0 <= j < i ==> self.code@[self.pos + j] == value@[j],
            decreases m - i,
        {
            if i >= self.code.len() - self.pos || self.code[self.pos + i] != value.get_char(i) {
                return false;
            }
            i = i + 1;
        }
        assert(self.code@.subrange(self.pos as int, self.pos + m) =~= value@);
        if m < self.code.len() - self.pos {
            !is_alphanumeric(self.code[self.pos + m])
        } else {
            true
        }
    }

    /// Consumes the next character, moving the row on a newline and the column otherwise.
    fn next_char(&mut self) -> (r: Option<char>)
        requires
            old(self).wf(),
        ensures
            final(self).wf(),
            final(self).state() == next_view(old(self).state()),
            final(self).token_views() == old(self).token_views(),
            r == peek(old(self).state()),
    {
        if self.pos < self.code.len() {
            let ch = self.code[self.pos];
            self.pos = self.pos + 1;
            if ch == '\n' {
                self.row = self.row + 1;
                self.column = 0;
            } else {
                self.column = self.column + 1;
            }
            Some(ch)
        } else {
            None
        }
    }

    /// Skips `amount` characters, or to the end, without changing the row or column.
    pub fn advance_by(&mut self, amount: usize)
        requires
            old(self).wf(),
        ensures
            final(self).wf(),
            final(self).state() == skip_view(old(self).state(), amount as int),
            final(self).token_views() == old(self).token_views(),
    {
        let mut i: usize = 0;
        while i < amount && self.pos < self.code.len()
            invariant
                self.wf(),
                i <= amount,
                self.code == old(self).code,
                self.tokens == old(self).tokens,
                self.row == old(self).row,
                self.column == old(self).column,
                self.pos == old(self).pos + i,
            decreases amount - i,
        {
            self.pos = self.pos + 1;
            i = i + 1;
        }
    }

    /// Consumes the next character if `func` holds of it.
    fn next_char_if<F: Fn(char) -> bool>(&mut self, func: &F) -> (r: Option<char>)
        requires
            old(self).wf(),
            forall|c: char| func.requires((c,)),
        ensures
            final(self).wf(),
            final(self).token_views() == old(self).token_views(),
            match peek(old(self).state()) {
                None => r is None && final(self).state() == old(self).state(),
                Some(c) => (r == Some(c) && func.ensures((c,), true) && final(self).state()
                    == next_view(old(self).state())) || (r is None && func.ensures((c,), false)
                    && final(self).state() == old(self).state()),
            },
    {
        let c = match self.peek_char() {
            Some(c) => c,
            None => return None,
        };
        if func(c) {
            self.next_char()
        } else {
            None
        }
    }

    /// Consumes characters as long as `f` holds of them.
    pub fn skip_char_while<F: Fn(char) -> bool>(&mut self, f: F)
        requires
            old(self).wf(),
            forall|c: char| f.requires((c,)),
        ensures
            final(self).wf(),
            final(self).token_views() == old(self).token_views(),
            old(self).state().pos <= final(self).state().pos <= old(self).state().code.len(),
            final(self).state() == consume(
                old(self).state(),
                (final(self).state().pos - old(self).state().pos) as nat,
            ),
            forall|i: int|
                old(self).state().pos <= i < final(self).state().pos ==> f.ensures(
                    (#[trigger] old(self).state().code[i],),
                    true,
                ),
            final(self).state().pos == old(self).state().code.len() || f.ensures(
                (old(self).state().code[final(self).state().pos as int],),
                false,
            ),
    {
        loop
            invariant
                self.wf(),
                forall|c: char| f.requires((c,)),
                self.code@ == old(self).code@,
                self.token_views() == old(self).token_views(),
                old(self).pos <= self.pos,
                self.state() == consume(old(self).state(), (self.pos - old(self).pos) as nat),
                forall|i: int|
                    old(self).pos <= i < self.pos ==> f.ensures((#[trigger] old(self).code@[i],), true),
            ensures
                self.wf(),
                self.code@ == old(self).code@,
                self.token_views() == old(self).token_views(),
                old(self).pos <= self.pos,
                self.state() == consume(old(self).state(), (self.pos - old(self).pos) as nat),
                forall|i: int|
                    old(self).pos <= i < self.pos ==> f.ensures((#[trigger] old(self).code@[i],), true),
                self.pos == old(self).code@.len() || f.ensures(
                    (old(self).code@[self.pos as int],),
                    false,
                ),
            decreases self.code@.len() - self.pos,
        {
            let ghost before = self.state();
            let ghost k = (self.pos - old(self).pos) as nat;
            match self.next_char_if(&f) {
                Some(_) => {
                    assert(consume(old(self).state(), k + 1) == next_view(before));
                },
                None => {
                    break ;
                },
            }
        }
    }

    /// Consumes characters as long as `f` holds of them and returns them, or `None` if there
    /// were none.
    pub fn collect_char_while<F: Fn(char) -> bool>(&mut self, f: F) -> (r: Option<String>)
        requires
            old(self).wf(),
            forall|c: char| f.requires((c,)),
        ensures
            final(self).wf(),
            final(self).token_views() == old(self).token_views(),
            old(self).state().pos <= final(self).state().pos <= old(self).state().code.len(),
            final(self).state() == consume(
                old(self).state(),
                (final(self).state().pos - old(self).state().pos) as nat,
            ),
            forall|i: int|
                old(self).state().pos <= i < final(self).state().pos ==> f.ensures(
                    (#[trigger] old(self).state().code[i],),
                    true,
                ),
            final(self).state().pos == old(self).state().code.len() || f.ensures(
                (old(self).state().code[final(self).state().pos as int],),
                false,
            ),
            final(self).state().pos == old(self).state().pos ==> r is None,
            final(self).state().pos > old(self).state().pos ==> (r matches Some(s) && s@ == old(self).state().code.subrange(old(self).state().pos as int, final(self).state().pos as int)),
    {
        let mut s = String::new();
        let mut count: usize = 0;
        loop
            invariant
                self.wf(),
                forall|c: char| f.requires((c,)),
                self.code@ == old(self).code@,
                self.token_views() == old(self).token_views(),
                old(self).pos <= self.pos,
                count == self.pos - old(self).pos,
                s@ == old(self).code@.subrange(old(self).pos as int, self.pos as int),
                self.state() == consume(old(self).state(), (self.pos - old(self).pos) as nat),
                forall|i: int|
                    old(self).pos <= i < self.pos ==> f.ensures((#[trigger] old(self).code@[i],), true),
            ensures
                self.wf(),
                self.code@ == old(self).code@,
                self.token_views() == old(self).token_views(),
                old(self).pos <= self.pos,
                count == self.pos - old(self).pos,
                s@ == old(self).code@.subrange(old(self).pos as int, self.pos as int),
                self.state() == consume(old(self).state(), (self.pos - old(self).pos) as nat),
                forall|i: int|
                    old(self).pos <= i < self.pos ==> f.ensures((#[trigger] old(self).code@[i],), true),
                self.pos == old(self).code@.len() || f.ensures(
                    (old(self).code@[self.pos as int],),
                    false,
                ),
            decreases self.code@.len() - self.pos,
        {
            let ghost before = self.state();
            let ghost k = (self.pos - old(self).pos) as nat;
            match self.next_char_if(&f) {
                Some(ch) => {
                    assert(consume(old(self).state(), k + 1) == next_view(before));
                    string_push(&mut s, ch);
                    count = count + 1;
                    assert(s@ =~= old(self).code@.subrange(old(self).pos as int, self.pos as int));
                },
                None => {
                    break ;
                },
            }
        }
        if count == 0 {
            None
        } else {
            Some(s)
        }
    }
}

} // verus!

verus! {

/// The token that an option-returning step yields, and where it leaves the lexer.
pub open spec fn option_step_ok(step: LexStep, r: Option<Token>, before: LexView, after: LexView) -> bool {
    match step {
        LexStep::Emit(t, w) => (r matches Some(tok) && tok@ == t) && after == w,
        _ => r is None && after == before,
    }
}

/// The token or error that a result-returning step yields, and where it leaves the lexer.
pub open spec fn result_step_ok(
    step: LexStep,
    r: Result<Option<Token>, ParsingError>,
    before: LexView,
    after: LexView,
) -> bool {
    match step {
        LexStep::Emit(t, w) => (r matches Ok(Some(tok)) && tok@ == t) && after == w,
        LexStep::Fail(k) => (r matches Err(e) && e.error_type == k && e.message is None && e.row
            == before.row && e.column == before.column) && after == before,
        LexStep::Skip => r matches Ok(None) && after == before,
        LexStep::Panic => false,
    }
}

impl Lexer {
    /// The length of the run of characters of `class` starting at the next character.
    fn scan(&self, class: CharClass) -> (n: usize)
        requires
            self.wf(),
        ensures
            n == run_len(rest(self.state()), class_pred(class)),
            self.pos + n <= self.code@.len(),
    {
        let ghost r = rest(self.state());
        let mut i = self.pos;
        while i < self.code.len() && class_test(class, self.code[i])
            invariant
                self.wf(),
                r == rest(self.state()),
                self.pos <= i <= self.code@.len(),
                forall|j: int| 0 <= j < i - self.pos ==> class_pred(class)(#[trigger] r[j]),
            decreases self.code@.len() - i,
        {
            assert(r[i - self.pos] == self.code@[i as int]);
            i = i + 1;
        }
        proof {
            if i < self.code@.len() {
                assert(r[i - self.pos] == self.code@[i as int]);
            }
            lemma_run_len(r, class_pred(class), i - self.pos);
        }
        i - self.pos
    }

    /// The characters from index `start` on, `k` of them.
    fn sub_chars(&self, start: usize, k: usize) -> (r: Vec<char>)
        requires
            start + k <= self.code@.len(),
        ensures
            r@ == self.code@.subrange(start as int, start + k),
    {
        let mut v: Vec<char> = Vec::new();
        let mut i: usize = 0;
        while i < k
            invariant
                start + k <= self.code@.len(),
                i <= k,
                v@ == self.code@.subrange(start as int, start + i),
            decreases k - i,
        {
            assert(start + i < self.code.len());
            v.push(self.code[start + i]);
            i = i + 1;
            assert(v@ =~= self.code@.subrange(start as int, start + i));
        }
        v
    }

    /// The characters that slicing `n` bytes from the next character gives.  Where the cut
    /// falls inside a character, slicing the text would panic; the callers' preconditions
    /// exclude that input, and `None` is returned.
    fn slice_text(&self, n: usize) -> (r: Option<Vec<char>>)
        requires
            self.wf(),
        ensures
            match text_slice(self.state(), n as int) {
                Some(t) => r matches Some(v) && v@ == t,
                None => r is None,
            },
    {
        match cut_bytes(&self.code, self.pos, n) {
            Some(k) => {
                proof {
                    let rs = rest(self.state());
                    assert(0 <= k <= rs.len()) by {
                        let c = choose|j: int| 0 <= j <= rs.len() && crate::chars::bytes_of(
                            #[trigger] rs.take(j),
                        ) == n;
                    }
                }
                let v = self.sub_chars(self.pos, k);
                assert(v@ =~= rest(self.state()).take(k as int));
                Some(v)
            },
            None => None,
        }
    }

    /// A keyword: a run of letters that spells one.  Otherwise nothing is consumed.
    pub fn tokenize_keyword(&mut self) -> (r: Option<Token>)
        requires
            old(self).wf(),
            !(keyword_step(old(self).state()) is Panic),
        ensures
            final(self).wf(),
            final(self).token_views() == old(self).token_views(),
            option_step_ok(keyword_step(old(self).state()), r, old(self).state(), final(self).state()),
    {
        match self.peek_char() {
            Some(c) => {
                if !is_alphabetic(c) {
                    return None;
                }
            },
            None => return None,
        }
        let n = self.scan(CharClass::Alphabetic);
        let text = match self.slice_text(n) {
            Some(t) => t,
            None => return None,
        };
        match Keyword::from_chars(text.as_slice()) {
            Some(keyword) => {
                let tok = Token::new(TokenKind::Keyword(keyword), self.row, self.column);
                self.advance_by(n);
                Some(tok)
            },
            None => None,
        }
    }

    /// A boolean literal: a run of letters that spells `true` or `false`.
    pub fn tokenize_bool(&mut self) -> (r: Option<Token>)
        requires
            old(self).wf(),
            !(bool_step(old(self).state()) is Panic),
        ensures
            final(self).wf(),
            final(self).token_views() == old(self).token_views(),
            option_step_ok(bool_step(old(self).state()), r, old(self).state(), final(self).state()),
    {
        match self.peek_char() {
            Some(c) => {
                if !is_alphabetic(c) {
                    return None;
                }
            },
            None => return None,
        }
        let n = self.scan(CharClass::Alphabetic);
        let text = match self.slice_text(n) {
            Some(t) => t,
            None => return None,
        };
        match bool_from_chars(text.as_slice()) {
            Some(b) => {
                let tok = Token::new(TokenKind::Boolean(b), self.row, self.column);
                self.advance_by(n);
                Some(tok)
            },
            None => None,
        }
    }

    /// An identifier: a letter or underscore, then letters, digits and underscores.
    pub fn tokenize_id(&mut self) -> (r: Option<Token>)
        requires
            old(self).wf(),
            !(id_step(old(self).state()) is Panic),
        ensures
            final(self).wf(),
            final(self).token_views() == old(self).token_views(),
            option_step_ok(id_step(old(self).state()), r, old(self).state(), final(self).state()),
    {
        match self.peek_char() {
            Some(c) => {
                if !(is_alphabetic(c) || c == '_') {
                    return None;
                }
            },
            None => return None,
        }
        let n = self.scan(CharClass::Word);
        let text = match self.slice_text(n) {
            Some(t) => t,
            None => return None,
        };
        let name = string_from_chars(text.as_slice());
        let tok = Token::new(TokenKind::Identifier(name), self.row, self.column);
        self.advance_by(n);
        Some(tok)
    }

    /// One punctuation character.
    pub fn tokenize_separator(&mut self) -> (r: Option<Token>)
        requires
            old(self).wf(),
        ensures
            final(self).wf(),
            final(self).token_views() == old(self).token_views(),
            option_step_ok(separator_step(old(self).state()), r, old(self).state(), final(self).state()),
    {
        if let Some(ch) = self.peek_char() {
            if let Some(sep) = Separator::from_char(ch) {
                let tok = Token::new(TokenKind::Separator(sep), self.row, self.column);
                self.next_char();
                return Some(tok);
            }
        }
        None
    }

    /// An integer: a run of numeric characters read as an `i64`; an error where that text
    /// is not a valid `i64`.
    pub fn tokenize_integer(&mut self) -> (r: Result<Option<Token>, ParsingError>)
        requires
            old(self).wf(),
            !(integer_step(old(self).state()) is Panic),
        ensures
            final(self).wf(),
            final(self).token_views() == old(self).token_views(),
            result_step_ok(integer_step(old(self).state()), r, old(self).state(), final(self).state()),
    {
        match self.peek_char() {
            Some(c) => {
                if !is_numeric(c) {
                    return Ok(None);
                }
            },
            None => return Ok(None),
        }
        let n = self.scan(CharClass::Numeric);
        let text = match self.slice_text(n) {
            Some(t) => t,
            None => return Ok(None),
        };
        match parse_unsigned_i64(text.as_slice()) {
            Some(value) => {
                let tok = Token::new(TokenKind::Integer(value), self.row, self.column);
                self.advance_by(n);
                Ok(Some(tok))
            },
            None => Err(
                ParsingError::new(ParsingErrorKind::InvalidIntegerConstant, self.row, self.column),
            ),
        }
    }
}

/// The boolean spelled by `s`.
pub fn bool_from_chars(s: &[char]) -> (r: Option<bool>)
    ensures
        r == spec_bool(s@),
{
    let a = ['t', 'r', 'u', 'e'];
    let b = ['f', 'a', 'l', 's', 'e'];
    assert(a@ =~= seq!['t', 'r', 'u', 'e']);
    assert(b@ =~= seq!['f', 'a', 'l', 's', 'e']);
    if chars_match(s, &a) {
        Some(true)
    } else if chars_match(s, &b) {
        Some(false)
    } else {
        None
    }
}

} // verus!

verus! {

/// The character that the two-character escape `a b` stands for.
pub fn escape(a: char, b: char) -> (r: Option<char>)
    ensures
        r == spec_escape(a, b),
{
    if a != '\\' {
        None
    } else if b == 'n' {
        Some('\n')
    } else if b == '"' {
        Some('"')
    } else if b == '\'' {
        Some('\'')
    } else if b == 't' {
        Some('\t')
    } else if b == '\\' {
        Some('\\')
    } else {
        None
    }
}

impl Lexer {
    /// A number with at most one decimal point.  Two points, or a text that `f64` parsing
    /// rejects, are an error.
    pub fn tokenize_number(&mut self) -> (r: Result<Option<Token>, ParsingError>)
        requires
            old(self).wf(),
            !(number_step(old(self).state()) is Panic),
        ensures
            final(self).wf(),
            final(self).token_views() == old(self).token_views(),
            result_step_ok(number_step(old(self).state()), r, old(self).state(), final(self).state()),
    {
        match self.peek_char() {
            Some(c) => {
                if !is_numeric(c) {
                    return Ok(None);
                }
            },
            None => return Ok(None),
        }
        let ghost r = rest(self.state());
        let mut i = self.pos;
        let mut has_separator = false;
        while i < self.code.len() && (is_numeric(self.code[i]) || self.code[i] == '.')
            invariant
                self.wf(),
                r == rest(self.state()),
                self.pos <= i <= self.code@.len(),
                self.pos < self.code@.len(),
                spec_is_numeric(self.code@[self.pos as int]),
                forall|j: int| 0 <= j < i - self.pos ==> number_pred()(#[trigger] r[j]),
                has_separator == exists|j: int| 0 <= j < i - self.pos && #[trigger] r[j] == '.',
                forall|a: int, b: int|
                    0 <= a < b < i - self.pos && #[trigger] r[a] == '.' ==> #[trigger] r[b] != '.',
            decreases self.code@.len() - i,
        {
            let c = self.code[i];
            assert(r[i - self.pos] == c);
            if c == '.' && has_separator {
                proof {
                    let a = choose|j: int| 0 <= j < i - self.pos && #[trigger] r[j] == '.';
                    let b = i - self.pos;
                    lemma_run_len_facts(r, number_pred());
                    let n = run_len(r, number_pred()) as int;
                    if n <= b {
                        assert(number_pred()(r[n]));
                    }
                    assert(r.take(n)[a] == '.' && r.take(n)[b] == '.');
                    assert(two_points(r.take(n)));
                }
                return Err(
                    ParsingError::new(ParsingErrorKind::InvalidNumberConstant, self.row, self.column),
                );
            }
            if c == '.' {
                has_separator = true;
            }
            i = i + 1;
        }
        let n = i - self.pos;
        proof {
            if i < self.code@.len() {
                assert(r[n as int] == self.code@[i as int]);
            }
            lemma_run_len(r, number_pred(), n as int);
            assert(!two_points(r.take(n as int))) by {
                if two_points(r.take(n as int)) {
                    let (a, b) = choose|a: int, b: int|
                        0 <= a < b < r.take(n as int).len() && #[trigger] r.take(n as int)[a] == '.'
                            && #[trigger] r.take(n as int)[b] == '.';
                    assert(r[a] == '.' && r[b] == '.');
                }
            }
        }
        let text = match self.slice_text(n) {
            Some(t) => t,
            None => return Ok(None),
        };
        if decimal_text(text.as_slice()) {
            let literal = string_from_chars(text.as_slice());
            let tok = Token::new(TokenKind::Number(literal), self.row, self.column);
            self.advance_by(n);
            Ok(Some(tok))
        } else {
            Err(ParsingError::new(ParsingErrorKind::InvalidNumberConstant, self.row, self.column))
        }
    }

    /// The escaped character spelled by the two characters of `ch` (`\n`, `\"`, `\'`, `\t`,
    /// `\\`).
    pub fn convert_special(ch: &str) -> (r: Option<char>)
        ensures
            r == spec_convert_special(ch@),
    {
        if ch.unicode_len() != 2 {
            return None;
        }
        escape(ch.get_char(0), ch.get_char(1))
    }

    /// The boolean spelled by `s`.
    pub fn bool_from_str(s: &str) -> (r: Option<bool>)
        ensures
            r == spec_bool(s@),
    {
        let cs = str_chars(s);
        bool_from_chars(cs.as_slice())
    }

    /// A string literal between double quotes, with escapes.  Afterwards the lexer has moved
    /// on by only the number of escapes plus two characters.
    pub fn tokenize_string(&mut self) -> (r: Option<Token>)
        requires
            old(self).wf(),
            !(string_step(old(self).state()) is Panic),
        ensures
            final(self).wf(),
            final(self).token_views() == old(self).token_views(),
            option_step_ok(string_step(old(self).state()), r, old(self).state(), final(self).state()),
    {
        match self.peek_char() {
            Some(c) => {
                if c != '"' {
                    return None;
                }
            },
            None => return None,
        }
        let ghost whole = string_scan(self.code@, self.pos + 1, Seq::empty(), 0);
        let mut const_str = String::new();
        let mut offset: usize = 1;
        assert(self.pos < self.code.len());
        let mut j = self.pos + 1;
        while j < self.code.len() && self.code[j] != '"'
            invariant
                self.wf(),
                self.pos < j <= self.code@.len(),
                1 <= offset <= j - self.pos,
                !(whole is Panic),
                string_scan(self.code@, j as int, const_str@, offset - 1) == whole,
                whole == string_scan(self.code@, self.pos + 1, Seq::empty(), 0),
            decreases self.code@.len() - j,
        {
            let ch = self.code[j];
            if j + 1 < self.code.len() {
                let next = self.code[j + 1];
                if utf8_len(ch) == 1 {
                    if let Some(special) = escape(ch, next) {
                        string_push(&mut const_str, special);
                        offset = offset + 1;
                        j = j + 2;
                        continue ;
                    }
                }
            }
            string_push(&mut const_str, ch);
            j = j + 1;
        }
        if j >= self.code.len() {
            return None;
        }
        let tok = Token::new(TokenKind::ConstantString(const_str), self.row, self.column);
        self.advance_by(offset + 1);
        Some(tok)
    }

    /// A run of letters as a string, unless the next character is a double quote (then
    /// nothing).
    pub fn take_string(&mut self) -> (r: Option<String>)
        requires
            old(self).wf(),
        ensures
            final(self).wf(),
            final(self).token_views() == old(self).token_views(),
            ({
                let v = old(self).state();
                let n = run_len(rest(v), alpha_pred());
                if peek(v) == Some('"') {
                    r is None && final(self).state() == v
                } else {
                    &&& final(self).state() == consume(v, n)
                    &&& n == 0 ==> r is None
                    &&& n > 0 ==> (r matches Some(s) && s@ == rest(v).take(n as int))
                }
            }),
    {
        if self.peek_char() == Some('"') {
            return None;
        }
        let ghost v = self.state();
        let r = self.collect_char_while(is_alphabetic);
        proof {
            let k = self.pos - v.pos;
            let rs = rest(v);
            assert forall|i: int| 0 <= i < k implies alpha_pred()(#[trigger] rs[i]) by {
                assert(rs[i] == v.code[v.pos + i]);
            }
            if self.pos < v.code.len() {
                assert(rs[k] == v.code[self.pos as int]);
            }
            lemma_run_len(rs, alpha_pred(), k);
            assert(v.code.subrange(v.pos, self.pos as int) =~= rs.take(k));
        }
        r
    }
}

} // verus!

verus! {

/// How `tokenize` ends for a lexer: the error or success it returns and where it leaves the
/// lexer and its tokens.
pub open spec fn tokenize_ok(
    run: LexRun,
    r: Result<(), ParsingError>,
    after: LexView,
    tokens: Seq<TokenView>,
) -> bool {
    match run {
        LexRun::Finished(v, t) => r is Ok && after == v && tokens == t,
        LexRun::Failed(k, v, t) => (r matches Err(e) && e.error_type == k && e.message is None
            && e.row == v.row && e.column == v.column) && after == v && tokens == t,
        _ => false,
    }
}

impl Lexer {
    /// Appends a token.
    fn push_token(&mut self, t: Token)
        requires
            old(self).wf(),
        ensures
            final(self).wf(),
            final(self).state() == old(self).state(),
            final(self).token_views() == old(self).token_views().push(t@),
    {
        self.tokens.push(t);
        assert(self.token_views() =~= old(self).token_views().push(t@));
    }

    /// A keyword, boolean, identifier, string or separator, tried in this order.
    fn tokenize_word(&mut self) -> (r: Option<Token>)
        requires
            old(self).wf(),
            !(word_step(old(self).state()) is Panic),
        ensures
            final(self).wf(),
            final(self).token_views() == old(self).token_views(),
            option_step_ok(word_step(old(self).state()), r, old(self).state(), final(self).state()),
    {
        if let Some(t) = self.tokenize_keyword() {
            return Some(t);
        }
        if let Some(t) = self.tokenize_bool() {
            return Some(t);
        }
        if let Some(t) = self.tokenize_id() {
            return Some(t);
        }
        if let Some(t) = self.tokenize_string() {
            return Some(t);
        }
        self.tokenize_separator()
    }

    /// One round of `tokenize` from a position inside the code.
    fn tokenize_round(&mut self) -> (r: Result<(), ParsingError>)
        requires
            old(self).wf(),
            old(self).state().pos < old(self).state().code.len(),
            !(lex_round(old(self).state(), old(self).token_views()) matches LexRound::Stop(
                LexRun::Panic,
            )),
        ensures
            final(self).wf(),
            r is Ok ==> lex_round(old(self).state(), old(self).token_views()) == LexRound::Next(
                final(self).state(),
                final(self).token_views(),
            ),
            r is Err ==> (lex_round(old(self).state(), old(self).token_views()) matches LexRound::Stop(
                run,
            ) && tokenize_ok(run, r, final(self).state(), final(self).token_views())),
    {
        let ghost v = self.state();
        self.skip_char_while(is_whitespace);
        let ghost w = self.state();
        proof {
            let rs = rest(v);
            let k = w.pos - v.pos;
            assert forall|i: int| 0 <= i < k implies whitespace_pred()(#[trigger] rs[i]) by {
                assert(rs[i] == v.code[v.pos + i]);
            }
            if w.pos < v.code.len() {
                assert(rs[k] == v.code[w.pos]);
            }
            lemma_run_len(rs, whitespace_pred(), k);
            lemma_emit_progress(w);
        }
        match self.tokenize_integer() {
            Ok(Some(t)) => self.push_token(t),
            Ok(None) => {},
            Err(e) => return Err(e),
        }
        let ghost w2 = self.state();
        proof {
            lemma_emit_progress(w2);
        }
        match self.tokenize_number() {
            Ok(Some(t)) => {
                self.push_token(t);
                Ok(())
            },
            Ok(None) => {
                match self.tokenize_word() {
                    Some(t) => {
                        self.push_token(t);
                        Ok(())
                    },
                    None => Err(
                        ParsingError::new(ParsingErrorKind::UnknownCharacter, self.row, self.column),
                    ),
                }
            },
            Err(e) => Err(e),
        }
    }

    /// Reads the whole code into tokens: white space is skipped; then an integer is tried,
    /// then a number, and failing that a keyword, boolean, identifier, string or separator;
    /// a position where none applies is an error.
    pub fn tokenize(&mut self) -> (r: Result<(), ParsingError>)
        requires
            old(self).wf(),
            !(lex_run(old(self).state(), old(self).token_views()) is Panic),
        ensures
            final(self).wf(),
            tokenize_ok(
                lex_run(old(self).state(), old(self).token_views()),
                r,
                final(self).state(),
                final(self).token_views(),
            ),
    {
        let ghost outcome = lex_run(self.state(), self.token_views());
        let ghost code = self.code@;
        proof {
            lemma_lex_run_not_stuck(self.state(), self.token_views());
        }
        while self.peek_char().is_some()
            invariant
                self.wf(),
                self.code@ == code,
                lex_run(self.state(), self.token_views()) == outcome,
                outcome == lex_run(old(self).state(), old(self).token_views()),
                !(outcome is Panic),
                !(outcome is Stuck),
            decreases code.len() - self.pos,
        {
            let ghost v = self.state();
            let ghost toks = self.token_views();
            let res = self.tokenize_round();
            match res {
                Ok(()) => {
                    assert(lex_run(v, toks) == lex_run(self.state(), self.token_views()));
                },
                Err(e) => {
                    assert(lex_round(v, toks) matches LexRound::Stop(run) && lex_run(v, toks)
                        == run);
                    return Err(e);
                },
            }
        }
        Ok(())
    }

    /// Reads the whole code into tokens, as `tokenize` does, where every character of the
    /// code is a one-byte (ASCII) character; otherwise returns `None` and reads nothing.
    pub fn tokenize_ascii(&mut self) -> (r: Option<Result<(), ParsingError>>)
        requires
            old(self).wf(),
        ensures
            final(self).wf(),
            r is None <==> !all_single_byte(old(self).state().code),
            r is None ==> final(self).state() == old(self).state() && final(self).token_views()
                == old(self).token_views(),
            r matches Some(res) ==> tokenize_ok(
                lex_run(old(self).state(), old(self).token_views()),
                res,
                final(self).state(),
                final(self).token_views(),
            ),
    {
        let mut i: usize = 0;
        while i < self.code.len()
            invariant
                self.wf(),
                i <= self.code@.len(),
                forall|j: int| 0 <= j < i ==> spec_utf8_len(#[trigger] self.code@[j]) == 1,
            decreases self.code@.len() - i,
        {
            if utf8_len(self.code[i]) != 1 {
                return None;
            }
            i = i + 1;
        }
        proof {
            lemma_ascii_never_panics(self.state(), self.token_views());
        }
        Some(self.tokenize())
    }
}

/// Lexing never stops without progress: every step that produces a token moves forward.
pub proof fn lemma_lex_run_not_stuck(v: LexView, toks: Seq<TokenView>)
    requires
        0 <= v.pos <= v.code.len(),
    ensures
        !(lex_run(v, toks) is Stuck),
    decreases v.code.len() - v.pos,
{
    if 0 <= v.pos < v.code.len() {
        lemma_round_progress(v, toks);
        if let LexRound::Next(w, t) = lex_round(v, toks) {
            lemma_lex_run_not_stuck(w, t);
        }
    }
}

/// A round that produces a token moves forward within the same code.
pub proof fn lemma_round_progress(v: LexView, toks: Seq<TokenView>)
    requires
        0 <= v.pos < v.code.len(),
    ensures
        lex_round(v, toks) matches LexRound::Next(w, _) ==> w.code == v.code && v.pos < w.pos
            <= v.code.len(),
{
    let n = run_len(rest(v), whitespace_pred());
    lemma_run_len_facts(rest(v), whitespace_pred());
    lemma_consume(v, n);
    let w = consume(v, n);
    lemma_emit_progress(w);
    if let LexStep::Emit(_, x) = integer_step(w) {
        lemma_emit_progress(x);
    }
}


/// On code of one-byte characters every slice of the rest of the code is a character slice.
pub proof fn lemma_ascii_text_slice(v: LexView, n: int)
    requires
        all_single_byte(v.code),
        0 <= v.pos <= v.code.len(),
        0 <= n <= rest(v).len(),
    ensures
        text_slice(v, n) == Some(rest(v).take(n)),
{
    let t = rest(v).take(n);
    assert(all_single_byte(t)) by {
        assert forall|i: int| 0 <= i < t.len() implies spec_utf8_len(#[trigger] t[i]) == 1 by {
            assert(t[i] == v.code[v.pos + i]);
        }
    }
    lemma_bytes_of_single_byte(t);
    lemma_byte_cut_unique(rest(v), n, n);
}

/// Scanning a string literal in code of one-byte characters never slices off a boundary.
pub proof fn lemma_ascii_string_scan(code: Seq<char>, j: int, acc: Seq<char>, esc: int)
    requires
        all_single_byte(code),
    ensures
        !(string_scan(code, j, acc, esc) is Panic),
    decreases code.len() - j,
{
    if 0 <= j < code.len() && code[j] != '"' {
        if j + 1 < code.len() {
            let a = code[j];
            let b = code[j + 1];
            assert(spec_utf8_len(a) == 1 && spec_utf8_len(b) == 1);
            if spec_escape(a, b) is Some {
                lemma_ascii_string_scan(code, j + 2, acc.push(spec_escape(a, b)->0), esc + 1);
            } else {
                lemma_ascii_string_scan(code, j + 1, acc.push(a), esc);
            }
        } else {
            lemma_ascii_string_scan(code, j + 1, acc.push(code[j]), esc);
        }
    }
}

/// No step of the lexer panics at a position of code made of one-byte characters.
pub proof fn lemma_ascii_steps(v: LexView)
    requires
        all_single_byte(v.code),
        0 <= v.pos <= v.code.len(),
    ensures
        !(integer_step(v) is Panic),
        !(number_step(v) is Panic),
        !(word_step(v) is Panic),
{
    lemma_run_len_facts(rest(v), alpha_pred());
    lemma_run_len_facts(rest(v), word_pred());
    lemma_run_len_facts(rest(v), numeric_pred());
    lemma_run_len_facts(rest(v), number_pred());
    lemma_ascii_text_slice(v, run_len(rest(v), alpha_pred()) as int);
    lemma_ascii_text_slice(v, run_len(rest(v), word_pred()) as int);
    lemma_ascii_text_slice(v, run_len(rest(v), numeric_pred()) as int);
    lemma_ascii_text_slice(v, run_len(rest(v), number_pred()) as int);
    lemma_ascii_string_scan(v.code, v.pos + 1, Seq::empty(), 0);
}

/// Lexing code made only of one-byte (ASCII) characters never panics: every slice the lexer
/// takes ends on a character boundary.
pub proof fn lemma_ascii_never_panics(v: LexView, toks: Seq<TokenView>)
    requires
        all_single_byte(v.code),
        0 <= v.pos <= v.code.len(),
    ensures
        !(lex_run(v, toks) is Panic),
    decreases v.code.len() - v.pos,
{
    if 0 <= v.pos < v.code.len() {
        lemma_round_progress(v, toks);
        let n = run_len(rest(v), whitespace_pred());
        lemma_run_len_facts(rest(v), whitespace_pred());
        lemma_consume(v, n);
        let w = consume(v, n);
        lemma_ascii_steps(w);
        lemma_emit_progress(w);
        if let LexStep::Emit(_, x) = integer_step(w) {
            lemma_ascii_steps(x);
        }
        if let LexRound::Next(w3, t) = lex_round(v, toks) {
            lemma_ascii_never_panics(w3, t);
        }
    }
}


/// An identifier may start with an underscore: at an underscore the identifier step reads
/// the longest run of letters, digits and underscores from there and emits it as an
/// identifier at the lexer's row and column, moving past it.
pub proof fn lemma_identifier_from_underscore(v: LexView)
    requires
        all_single_byte(v.code),
        0 <= v.pos < v.code.len(),
        v.code[v.pos] == '_',
    ensures
        id_step(v) matches LexStep::Emit(t, w) && t.kind matches TokenKindView::Identifier(s) && {
            &&& t.row == v.row && t.column == v.column
            &&& 0 < s.len() <= v.code.len() - v.pos
            &&& s == v.code.subrange(v.pos, v.pos + s.len())
            &&& s[0] == '_'
            &&& forall|k: int| 0 <= k < s.len() ==> #[trigger] s[k] == '_' || spec_is_alphanumeric(s[k])
            &&& (v.pos + s.len() == v.code.len() || !(v.code[v.pos + s.len()] == '_'
                || spec_is_alphanumeric(v.code[v.pos + s.len()])))
            &&& w == (LexView { pos: v.pos + s.len(), ..v })
        },
{
    let r = rest(v);
    lemma_run_len_facts(r, word_pred());
    let n = run_len(r, word_pred()) as int;
    assert(r[0] == '_');
    assert((word_pred())(r[0]));
    assert(n > 0);
    lemma_ascii_text_slice(v, n);
    let s = r.take(n);
    assert(s =~= v.code.subrange(v.pos, v.pos + n));
    assert forall|k: int| 0 <= k < s.len() implies #[trigger] s[k] == '_' || spec_is_alphanumeric(s[k]) by {
        assert(s[k] == r[k]);
        assert((word_pred())(r[k]));
    }
    if v.pos + n < v.code.len() {
        assert(r[n] == v.code[v.pos + n]);
        assert(!(word_pred())(r[n]));
    }
}

} // verus!
