//! Tokens, the literals they carry and the values a program computes.

use vstd::prelude::*;
use vstd::string::*;
use crate::number::{equal, number_eq};

use once_cell::sync::OnceCell;

verus! {

/// The kinds of token.
#[allow(non_camel_case_types)]
#[derive(Debug, Clone, Copy, PartialEq, Eq, Structural)]
pub enum TokenType {
    // Single-character tokens.
    LEFT_PAREN,
    RIGHT_PAREN,
    LEFT_BRACE,
    RIGHT_BRACE,
    COMMA,
    DOT,
    MINUS,
    PLUS,
    SEMICOLON,
    SLASH,
    STAR,
    // One or two character tokens.
    BANG,
    BANG_EQUAL,
    EQUAL,
    EQUAL_EQUAL,
    GREATER,
    GREATER_EQUAL,
    LESS,
    LESS_EQUAL,
    // Literals.
    IDENTIFIER,
    STRING,
    NUMBER,
    // Keywords.
    AND,
    CLASS,
    ELSE,
    FALSE,
    FUN,
    FOR,
    IF,
    NIL,
    OR,
    PRINT,
    RETURN,
    SUPER,
    THIS,
    TRUE,
    VAR,
    WHILE,
    EOF,
}

/// The reserved words, each with the kind of token it stands for.
pub open spec fn reserved() -> Seq<(Seq<char>, TokenType)> {
    seq![
        ("and"@, TokenType::AND),
        ("class"@, TokenType::CLASS),
        ("else"@, TokenType::ELSE),
        ("false"@, TokenType::FALSE),
        ("for"@, TokenType::FOR),
        ("fun"@, TokenType::FUN),
        ("if"@, TokenType::IF),
        ("nil"@, TokenType::NIL),
        ("or"@, TokenType::OR),
        ("print"@, TokenType::PRINT),
        ("return"@, TokenType::RETURN),
        ("super"@, TokenType::SUPER),
        ("this"@, TokenType::THIS),
        ("true"@, TokenType::TRUE),
        ("var"@, TokenType::VAR),
        ("while"@, TokenType::WHILE),
    ]
}

/// The kind beside the first `word` in `table`, from `from` on.
pub open spec fn lookup_from(table: Seq<(Seq<char>, TokenType)>, word: Seq<char>, from: int) -> Option<
    TokenType,
>
    decreases table.len() - from,
{
    if from < 0 || from >= table.len() {
        None
    } else if table[from].0 == word {
        Some(table[from].1)
    } else {
        lookup_from(table, word, from + 1)
    }
}

/// The kind that the reserved word `word` stands for, if it is one.
pub open spec fn keyword_of(word: Seq<char>) -> Option<TokenType> {
    lookup_from(reserved(), word, 0)
}

/// A reserved word is never the end of the tokens.
pub proof fn lemma_keyword_of(word: Seq<char>)
    ensures
        keyword_of(word) != Some(TokenType::EOF),
{
    reveal_with_fuel(lookup_from, 17);
}

/// A table of words and kinds as it is held: the words are strings.
pub type Words = Vec<(String, TokenType)>;

/// What a table of words and kinds holds.
pub open spec fn words_view(table: Seq<(String, TokenType)>) -> Seq<(Seq<char>, TokenType)> {
    table.map_values(|entry: (String, TokenType)| (entry.0@, entry.1))
}

/// Whether two strings hold the same characters.
pub fn same_text(a: &str, b: &str) -> (r: bool)
    ensures
        r == (a@ == b@),
{
    let n = a.unicode_len();
    if n != b.unicode_len() {
        return false;
    }
    let mut i: usize = 0;
    while i < n
        invariant
            n == a@.len(),
            n == b@.len(),
            i <= n,
            forall|j: int| 0 <= j < i ==> a@[j] == b@[j],
        decreases n - i,
    {
        if a.get_char(i) != b.get_char(i) {
            return false;
        }
        i += 1;
    }
    assert(a@ =~= b@);
    true
}

/// The table of the reserved words.
pub fn reserved_words() -> (r: Words)
    ensures
        words_view(r@) == reserved(),
{
    let mut table: Words = Vec::new();
    table.push((String::from_str("and"), TokenType::AND));
    table.push((String::from_str("class"), TokenType::CLASS));
    table.push((String::from_str("else"), TokenType::ELSE));
    table.push((String::from_str("false"), TokenType::FALSE));
    table.push((String::from_str("for"), TokenType::FOR));
    table.push((String::from_str("fun"), TokenType::FUN));
    table.push((String::from_str("if"), TokenType::IF));
    table.push((String::from_str("nil"), TokenType::NIL));
    table.push((String::from_str("or"), TokenType::OR));
    table.push((String::from_str("print"), TokenType::PRINT));
    table.push((String::from_str("return"), TokenType::RETURN));
    table.push((String::from_str("super"), TokenType::SUPER));
    table.push((String::from_str("this"), TokenType::THIS));
    table.push((String::from_str("true"), TokenType::TRUE));
    table.push((String::from_str("var"), TokenType::VAR));
    table.push((String::from_str("while"), TokenType::WHILE));
    assert(words_view(table@) =~= reserved());
    table
}

/// A cell that is written once, from `once_cell`.
#[verifier::external_type_specification]
#[verifier::external_body]
#[verifier::reject_recursive_types(T)]
pub struct ExOnceCell<T>(once_cell::sync::OnceCell<T>);

/// The table that a cell of words gives when it is read with the function
/// that builds the table of the reserved words: what the cell holds, or,
/// for a cell that holds nothing, what that function gives. A cell is
/// written once, so that this is the same at every reading.
pub uninterp spec fn words_in(cell: OnceCell<Words>) -> Seq<(Seq<char>, TokenType)>;

/// `OnceCell::new`: a cell that holds nothing yet, so that it gives the
/// reserved words when it is read.
#[verifier::external_body]
pub(crate) fn empty_words() -> (r: OnceCell<Words>)
    ensures
        words_in(r) == reserved(),
{
    OnceCell::new()
}

/// `OnceCell::get_or_init`, with the function that builds the table of the
/// reserved words: what the cell holds, after it was filled with that table
/// if it held nothing.
#[verifier::external_body]
pub(crate) fn words_of(cell: &OnceCell<Words>) -> (r: &Words)
    ensures
        words_view(r@) == words_in(*cell),
{
    cell.get_or_init(reserved_words)
}

/// Looks `word` up in a table of words.
pub fn keyword(table: &Words, word: &str) -> (r: Option<TokenType>)
    ensures
        r == lookup_from(words_view(table@), word@, 0),
{
    let mut i: usize = 0;
    while i < table.len()
        invariant
            i <= table.len(),
            lookup_from(words_view(table@), word@, i as int) == lookup_from(
                words_view(table@),
                word@,
                0,
            ),
        decreases table.len() - i,
    {
        if same_text(table[i].0.as_str(), word) {
            return Some(table[i].1);
        }
        i += 1;
    }
    None
}

/// What a token of a literal kind stands for. A number is kept as the decimal
/// numeral that was written; the interpreter's host turns it into a double.
#[derive(Debug)]
pub enum Literal {
    String(String),
    Number(String),
    Boolean(bool),
    Nil,
}

/// The view of a `Literal`.
pub enum LiteralView {
    String(Seq<char>),
    Number(Seq<char>),
    Boolean(bool),
    Nil,
}

impl View for Literal {
    type V = LiteralView;

    open spec fn view(&self) -> LiteralView {
        match self {
            Literal::String(s) => LiteralView::String(s@),
            Literal::Number(n) => LiteralView::Number(n@),
            Literal::Boolean(b) => LiteralView::Boolean(*b),
            Literal::Nil => LiteralView::Nil,
        }
    }
}

impl Clone for Literal {
    fn clone(&self) -> (r: Self)
        ensures
            r == *self,
    {
        match self {
            Literal::String(s) => Literal::String(s.clone()),
            Literal::Number(n) => Literal::Number(n.clone()),
            Literal::Boolean(b) => Literal::Boolean(*b),
            Literal::Nil => Literal::Nil,
        }
    }
}

/// What the literal evaluates to without the host's help: every literal but
/// a number has a value of its own.
pub open spec fn literal_value(literal: LiteralView) -> Option<ValueView> {
    match literal {
        LiteralView::String(s) => Some(ValueView::String(s)),
        LiteralView::Number(_) => None,
        LiteralView::Boolean(b) => Some(ValueView::Boolean(b)),
        LiteralView::Nil => Some(ValueView::Nil),
    }
}

impl Literal {
    /// The value of a string, a boolean or nil; `None` for a numeral, whose
    /// value is the double nearest to it.
    pub fn val(&self) -> (r: Option<Value>)
        ensures
            r matches Some(v) ==> literal_value(self@) == Some(v@),
            r is None ==> literal_value(self@) is None,
    {
        match self {
            Literal::String(s) => Some(Value::String(s.clone())),
            Literal::Number(_) => None,
            Literal::Boolean(b) => Some(Value::Boolean(*b)),
            Literal::Nil => Some(Value::Nil),
        }
    }
}

/// What an expression evaluates to. A number is the bit pattern of a double;
/// a callable is its index in the interpreter's table of callables.
#[derive(Debug)]
pub enum Value {
    String(String),
    Number(u64),
    Boolean(bool),
    Nil,
    Callable(usize),
}

/// The view of a `Value`; a callable is known by its place among the
/// callables.
pub enum ValueView {
    String(Seq<char>),
    Number(u64),
    Boolean(bool),
    Nil,
    Callable(int),
}

impl View for Value {
    type V = ValueView;

    open spec fn view(&self) -> ValueView {
        match self {
            Value::String(s) => ValueView::String(s@),
            Value::Number(n) => ValueView::Number(*n),
            Value::Boolean(b) => ValueView::Boolean(*b),
            Value::Nil => ValueView::Nil,
            Value::Callable(c) => ValueView::Callable(*c as int),
        }
    }
}

impl Clone for Value {
    fn clone(&self) -> (r: Self)
        ensures
            r == *self,
    {
        match self {
            Value::String(s) => Value::String(s.clone()),
            Value::Number(n) => Value::Number(*n),
            Value::Boolean(b) => Value::Boolean(*b),
            Value::Nil => Value::Nil,
            Value::Callable(c) => Value::Callable(*c),
        }
    }
}

/// Nil and false are falsy; every other value is truthy.
pub open spec fn truthy(v: ValueView) -> bool {
    match v {
        ValueView::Nil => false,
        ValueView::Boolean(b) => b,
        _ => true,
    }
}

/// Two values are equal if they are of one kind and hold the same: numbers as
/// doubles compare, strings character by character. Values of different kinds
/// are never equal.
pub open spec fn values_equal(a: ValueView, b: ValueView) -> bool {
    match (a, b) {
        (ValueView::Number(x), ValueView::Number(y)) => number_eq(x, y),
        (ValueView::String(x), ValueView::String(y)) => x == y,
        (ValueView::Boolean(x), ValueView::Boolean(y)) => x == y,
        (ValueView::Nil, ValueView::Nil) => true,
        (ValueView::Callable(x), ValueView::Callable(y)) => x == y,
        _ => false,
    }
}

/// Whether two values are of one kind.
pub open spec fn same_kind(a: ValueView, b: ValueView) -> bool {
    match (a, b) {
        (ValueView::Number(_), ValueView::Number(_)) => true,
        (ValueView::String(_), ValueView::String(_)) => true,
        (ValueView::Boolean(_), ValueView::Boolean(_)) => true,
        (ValueView::Nil, ValueView::Nil) => true,
        (ValueView::Callable(_), ValueView::Callable(_)) => true,
        _ => false,
    }
}

/// Whether `thing` counts as true where a condition is asked for.
pub fn is_truthy(thing: &Value) -> (r: bool)
    ensures
        r == truthy(thing@),
{
    match thing {
        Value::Nil => false,
        Value::Boolean(b) => *b,
        _ => true,
    }
}

/// Whether `a` and `b` are equal values.
pub fn is_equal(a: &Value, b: &Value) -> (r: bool)
    ensures
        r == values_equal(a@, b@),
{
    match (a, b) {
        (Value::Number(x), Value::Number(y)) => equal(*x, *y),
        (Value::String(x), Value::String(y)) => same_text(x.as_str(), y.as_str()),
        (Value::Boolean(x), Value::Boolean(y)) => *x == *y,
        (Value::Nil, Value::Nil) => true,
        (Value::Callable(x), Value::Callable(y)) => *x == *y,
        _ => false,
    }
}

/// Equality of values is symmetric; it is reflexive on every value but a
/// number that is a NaN; nil equals nil; values of different kinds are
/// never equal.
pub proof fn lemma_values_equal(a: ValueView, b: ValueView)
    ensures
        values_equal(a, b) == values_equal(b, a),
        !(a matches ValueView::Number(n) && crate::number::is_nan(n)) ==> values_equal(a, a),
        values_equal(ValueView::Nil, ValueView::Nil),
        !same_kind(a, b) ==> !values_equal(a, b),
{
}

/// A token: its kind, the text it was scanned from, the literal it stands
/// for (nil unless it is a string or a number) and the line it is on.
#[derive(Debug)]
pub struct Token {
    pub token_type: TokenType,
    pub lexeme: String,
    pub literal: Literal,
    pub line: usize,
}

/// The view of a `Token`.
pub struct TokenView {
    pub token_type: TokenType,
    pub lexeme: Seq<char>,
    pub literal: LiteralView,
    pub line: usize,
}

impl View for Token {
    type V = TokenView;

    open spec fn view(&self) -> TokenView {
        TokenView {
            token_type: self.token_type,
            lexeme: self.lexeme@,
            literal: self.literal@,
            line: self.line,
        }
    }
}

impl Clone for Token {
    fn clone(&self) -> (r: Self)
        ensures
            r == *self,
    {
        Token {
            token_type: self.token_type,
            lexeme: self.lexeme.clone(),
            literal: self.literal.clone(),
            line: self.line,
        }
    }
}

/// The views of the tokens of a list, in order.
pub open spec fn tokens_view(tokens: Seq<Token>) -> Seq<TokenView> {
    tokens.map_values(|t: Token| t@)
}

/// The name of a kind of token.
pub open spec fn kind_name(kind: TokenType) -> Seq<char> {
    match kind {
        TokenType::LEFT_PAREN => "LEFT_PAREN"@,
        TokenType::RIGHT_PAREN => "RIGHT_PAREN"@,
        TokenType::LEFT_BRACE => "LEFT_BRACE"@,
        TokenType::RIGHT_BRACE => "RIGHT_BRACE"@,
        TokenType::COMMA => "COMMA"@,
        TokenType::DOT => "DOT"@,
        TokenType::MINUS => "MINUS"@,
        TokenType::PLUS => "PLUS"@,
        TokenType::SEMICOLON => "SEMICOLON"@,
        TokenType::SLASH => "SLASH"@,
        TokenType::STAR => "STAR"@,
        TokenType::BANG => "BANG"@,
        TokenType::BANG_EQUAL => "BANG_EQUAL"@,
        TokenType::EQUAL => "EQUAL"@,
        TokenType::EQUAL_EQUAL => "EQUAL_EQUAL"@,
        TokenType::GREATER => "GREATER"@,
        TokenType::GREATER_EQUAL => "GREATER_EQUAL"@,
        TokenType::LESS => "LESS"@,
        TokenType::LESS_EQUAL => "LESS_EQUAL"@,
        TokenType::IDENTIFIER => "IDENTIFIER"@,
        TokenType::STRING => "STRING"@,
        TokenType::NUMBER => "NUMBER"@,
        TokenType::AND => "AND"@,
        TokenType::CLASS => "CLASS"@,
        TokenType::ELSE => "ELSE"@,
        TokenType::FALSE => "FALSE"@,
        TokenType::FUN => "FUN"@,
        TokenType::FOR => "FOR"@,
        TokenType::IF => "IF"@,
        TokenType::NIL => "NIL"@,
        TokenType::OR => "OR"@,
        TokenType::PRINT => "PRINT"@,
        TokenType::RETURN => "RETURN"@,
        TokenType::SUPER => "SUPER"@,
        TokenType::THIS => "THIS"@,
        TokenType::TRUE => "TRUE"@,
        TokenType::VAR => "VAR"@,
        TokenType::WHILE => "WHILE"@,
        TokenType::EOF => "EOF"@,
    }
}

/// A literal with the name of its kind: `String("text")`, `Number(1.5)`,
/// `Boolean(true)`, `Nil`.
pub open spec fn literal_name(literal: LiteralView) -> Seq<char> {
    match literal {
        LiteralView::String(s) => "String(\""@ + s + "\")"@,
        LiteralView::Number(n) => "Number("@ + n + ")"@,
        LiteralView::Boolean(b) => if b {
            "Boolean(true)"@
        } else {
            "Boolean(false)"@
        },
        LiteralView::Nil => "Nil"@,
    }
}

/// A token as text: the name of its kind, its lexeme and its literal, with
/// a space between them.
pub open spec fn token_text(token: TokenView) -> Seq<char> {
    kind_name(token.token_type) + " "@ + token.lexeme + " "@ + literal_name(token.literal)
}

impl TokenType {
    /// The name of the kind, as it is written in the program text.
    pub fn name(&self) -> (r: &'static str)
        ensures
            r@ == kind_name(*self),
    {
        match self {
            TokenType::LEFT_PAREN => "LEFT_PAREN",
            TokenType::RIGHT_PAREN => "RIGHT_PAREN",
            TokenType::LEFT_BRACE => "LEFT_BRACE",
            TokenType::RIGHT_BRACE => "RIGHT_BRACE",
            TokenType::COMMA => "COMMA",
            TokenType::DOT => "DOT",
            TokenType::MINUS => "MINUS",
            TokenType::PLUS => "PLUS",
            TokenType::SEMICOLON => "SEMICOLON",
            TokenType::SLASH => "SLASH",
            TokenType::STAR => "STAR",
            TokenType::BANG => "BANG",
            TokenType::BANG_EQUAL => "BANG_EQUAL",
            TokenType::EQUAL => "EQUAL",
            TokenType::EQUAL_EQUAL => "EQUAL_EQUAL",
            TokenType::GREATER => "GREATER",
            TokenType::GREATER_EQUAL => "GREATER_EQUAL",
            TokenType::LESS => "LESS",
            TokenType::LESS_EQUAL => "LESS_EQUAL",
            TokenType::IDENTIFIER => "IDENTIFIER",
            TokenType::STRING => "STRING",
            TokenType::NUMBER => "NUMBER",
            TokenType::AND => "AND",
            TokenType::CLASS => "CLASS",
            TokenType::ELSE => "ELSE",
            TokenType::FALSE => "FALSE",
            TokenType::FUN => "FUN",
            TokenType::FOR => "FOR",
            TokenType::IF => "IF",
            TokenType::NIL => "NIL",
            TokenType::OR => "OR",
            TokenType::PRINT => "PRINT",
            TokenType::RETURN => "RETURN",
            TokenType::SUPER => "SUPER",
            TokenType::THIS => "THIS",
            TokenType::TRUE => "TRUE",
            TokenType::VAR => "VAR",
            TokenType::WHILE => "WHILE",
            TokenType::EOF => "EOF",
        }
    }
}

impl Token {
    /// The token as text, for a listing of tokens.
    pub fn to_string(&self) -> (r: String)
        ensures
            r@ == token_text(self@),
    {
        let mut s = String::from_str(self.token_type.name());
        s.append(" ");
        s.append(self.lexeme.as_str());
        s.append(" ");
        match &self.literal {
            Literal::String(text) => {
                s.append("String(\"");
                s.append(text.as_str());
                s.append("\")");
            },
            Literal::Number(text) => {
                s.append("Number(");
                s.append(text.as_str());
                s.append(")");
            },
            Literal::Boolean(b) => {
                if *b {
                    s.append("Boolean(true)");
                } else {
                    s.append("Boolean(false)");
                }
            },
            Literal::Nil => {
                s.append("Nil");
            },
        }
        assert(s@ =~= token_text(self@));
        s
    }

/// A token of these parts.
    pub fn new(token_type: TokenType, lexeme: String, literal: Literal, line: usize) -> (r: Self)
        ensures
            r == (Token { token_type, lexeme, literal, line }),
    {
        Token { token_type, lexeme, literal, line }
    }
}

} // verus!
