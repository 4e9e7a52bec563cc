//! The scanner: from source text to a list of tokens that ends in an
//! end-of-file token, with the errors met on the way.

use vstd::prelude::*;
use vstd::string::*;
use crate::text::{chars_of, push_char, string_of};
use crate::token_type::{
    empty_words, keyword, keyword_of, reserved, words_in, words_of, Literal, LiteralView, Token,
    TokenType, TokenView, Words, tokens_view,
};
use once_cell::sync::OnceCell;

verus! {

/// A malformed piece of source text: the line it is on and what is wrong.
#[derive(Debug)]
pub struct ScanError {
    pub line: usize,
    pub message: String,
}

/// The view of a `ScanError`.
pub struct ScanErrorView {
    pub line: usize,
    pub message: Seq<char>,
}

impl View for ScanError {
    type V = ScanErrorView;

    open spec fn view(&self) -> ScanErrorView {
        ScanErrorView { line: self.line, message: self.message@ }
    }
}

impl Clone for ScanError {
    fn clone(&self) -> (r: Self)
        ensures
            r == *self,
    {
        ScanError { line: self.line, message: self.message.clone() }
    }
}

/// The views of the errors of a list, in order.
pub open spec fn errors_view(errors: Seq<ScanError>) -> Seq<ScanErrorView> {
    errors.map_values(|e: ScanError| e@)
}

/// Whether `c` is one of the digits `0` to `9`.
pub open spec fn is_digit_char(c: char) -> bool {
    '0' <= c <= '9'
}

/// Whether `c` is a letter of the English alphabet or an underscore.
pub open spec fn is_alpha_char(c: char) -> bool {
    ('a' <= c <= 'z') || ('A' <= c <= 'Z') || c == '_'
}

/// Whether `c` can stand inside a word.
pub open spec fn is_alphanumeric_char(c: char) -> bool {
    is_alpha_char(c) || is_digit_char(c)
}

/// Where the longest run of digits that starts at `pos` ends.
pub open spec fn digits_end(src: Seq<char>, pos: int) -> int
    decreases src.len() - pos,
{
    if 0 <= pos < src.len() && is_digit_char(src[pos]) {
        digits_end(src, pos + 1)
    } else {
        pos
    }
}

/// Where the longest run of letters, digits and underscores that starts at
/// `pos` ends.
pub open spec fn word_end(src: Seq<char>, pos: int) -> int
    decreases src.len() - pos,
{
    if 0 <= pos < src.len() && is_alphanumeric_char(src[pos]) {
        word_end(src, pos + 1)
    } else {
        pos
    }
}

/// The place of the first `c` at or after `pos`; the length of the text if
/// there is none.
pub open spec fn find_char(src: Seq<char>, pos: int, c: char) -> int
    decreases src.len() - pos,
{
    if 0 <= pos < src.len() && src[pos] != c {
        find_char(src, pos + 1, c)
    } else {
        pos
    }
}

/// How many newlines `src[from..to]` holds.
pub open spec fn newlines(src: Seq<char>, from: int, to: int) -> int
    decreases to - from,
{
    if 0 <= from < to <= src.len() {
        newlines(src, from, to - 1) + if src[to - 1] == '\n' {
            1int
        } else {
            0int
        }
    } else {
        0
    }
}

/// Where the numeral that starts at `pos` ends: digits, then a dot and more
/// digits if a digit follows the dot.
pub open spec fn number_end(src: Seq<char>, pos: int) -> int {
    let whole = digits_end(src, pos);
    if whole + 1 < src.len() && src[whole] == '.' && is_digit_char(src[whole + 1]) {
        digits_end(src, whole + 1)
    } else {
        whole
    }
}

/// What the scanner makes of the text at one place: where it goes on, on
/// which line, and the token or the error that the text there gives.
pub struct Lexed {
    pub next: int,
    pub line: int,
    pub token: Option<TokenView>,
    pub error: Option<ScanErrorView>,
}

/// A token without a literal, made of `src[from..to]`.
pub open spec fn plain_token(kind: TokenType, src: Seq<char>, from: int, to: int, line: int) -> TokenView {
    TokenView {
        token_type: kind,
        lexeme: src.subrange(from, to),
        literal: LiteralView::Nil,
        line: line as usize,
    }
}

/// The token of one character at `pos`.
pub open spec fn one_char(kind: TokenType, src: Seq<char>, pos: int, line: int) -> Lexed {
    Lexed {
        next: pos + 1,
        line,
        token: Some(plain_token(kind, src, pos, pos + 1, line)),
        error: None,
    }
}

/// The token at `pos` that is `double` if an equals sign follows and `single`
/// if not.
pub open spec fn one_or_two(single: TokenType, double: TokenType, src: Seq<char>, pos: int, line: int) -> Lexed {
    if pos + 1 < src.len() && src[pos + 1] == '=' {
        Lexed {
            next: pos + 2,
            line,
            token: Some(plain_token(double, src, pos, pos + 2, line)),
            error: None,
        }
    } else {
        one_char(single, src, pos, line)
    }
}

/// Text that gives neither a token nor an error.
pub open spec fn skipped(next: int, line: int) -> Lexed {
    Lexed { next, line, token: None, error: None }
}

/// The message for a character that starts no token.
pub open spec fn unexpected_character(c: char) -> Seq<char> {
    "Unexpected character '"@.push(c) + "'."@
}

/// What the scanner makes of the text at `pos`, which is on line `line`.
pub open spec fn lexeme_at(src: Seq<char>, pos: int, line: int) -> Lexed
    recommends
        0 <= pos < src.len(),
{
    let c = src[pos];
    if c == '(' {
        one_char(TokenType::LEFT_PAREN, src, pos, line)
    } else if c == ')' {
        one_char(TokenType::RIGHT_PAREN, src, pos, line)
    } else if c == '{' {
        one_char(TokenType::LEFT_BRACE, src, pos, line)
    } else if c == '}' {
        one_char(TokenType::RIGHT_BRACE, src, pos, line)
    } else if c == ',' {
        one_char(TokenType::COMMA, src, pos, line)
    } else if c == '.' {
        one_char(TokenType::DOT, src, pos, line)
    } else if c == '-' {
        one_char(TokenType::MINUS, src, pos, line)
    } else if c == '+' {
        one_char(TokenType::PLUS, src, pos, line)
    } else if c == ';' {
        one_char(TokenType::SEMICOLON, src, pos, line)
    } else if c == '*' {
        one_char(TokenType::STAR, src, pos, line)
    } else if c == '!' {
        one_or_two(TokenType::BANG, TokenType::BANG_EQUAL, src, pos, line)
    } else if c == '=' {
        one_or_two(TokenType::EQUAL, TokenType::EQUAL_EQUAL, src, pos, line)
    } else if c == '<' {
        one_or_two(TokenType::LESS, TokenType::LESS_EQUAL, src, pos, line)
    } else if c == '>' {
        one_or_two(TokenType::GREATER, TokenType::GREATER_EQUAL, src, pos, line)
    } else if c == '/' {
        if pos + 1 < src.len() && src[pos + 1] == '/' {
            // A comment runs to the end of its line.
            let end = find_char(src, pos + 2, '\n');
            if end < src.len() {
                skipped(end + 1, line + 1)
            } else {
                skipped(end, line)
            }
        } else {
            one_char(TokenType::SLASH, src, pos, line)
        }
    } else if c == ' ' || c == '\r' || c == '\t' {
        skipped(pos + 1, line)
    } else if c == '\n' {
        skipped(pos + 1, line + 1)
    } else if c == '"' {
        let end = find_char(src, pos + 1, '"');
        let last = line + newlines(src, pos + 1, end);
        if end < src.len() {
            Lexed {
                next: end + 1,
                line: last,
                token: Some(
                    TokenView {
                        token_type: TokenType::STRING,
                        lexeme: src.subrange(pos, end + 1),
                        literal: LiteralView::String(src.subrange(pos + 1, end)),
                        line: last as usize,
                    },
                ),
                error: None,
            }
        } else {
            Lexed {
                next: end,
                line: last,
                token: None,
                error: Some(ScanErrorView { line: last as usize, message: "Unterminated string."@ }),
            }
        }
    } else if is_digit_char(c) {
        let end = number_end(src, pos);
        Lexed {
            next: end,
            line,
            token: Some(
                TokenView {
                    token_type: TokenType::NUMBER,
                    lexeme: src.subrange(pos, end),
                    literal: LiteralView::Number(src.subrange(pos, end)),
                    line: line as usize,
                },
            ),
            error: None,
        }
    } else if is_alpha_char(c) {
        let end = word_end(src, pos);
        let kind = match keyword_of(src.subrange(pos, end)) {
            Some(k) => k,
            None => TokenType::IDENTIFIER,
        };
        Lexed { next: end, line, token: Some(plain_token(kind, src, pos, end, line)), error: None }
    } else {
        Lexed {
            next: pos + 1,
            line,
            token: None,
            error: Some(ScanErrorView { line: line as usize, message: unexpected_character(c) }),
        }
    }
}

/// The token that ends every scan.
pub open spec fn end_token(line: int) -> TokenView {
    TokenView {
        token_type: TokenType::EOF,
        lexeme: Seq::empty(),
        literal: LiteralView::Nil,
        line: line as usize,
    }
}

/// What an option holds, as a sequence of one or of nothing.
pub open spec fn option_seq<T>(o: Option<T>) -> Seq<T> {
    match o {
        Some(t) => seq![t],
        None => Seq::empty(),
    }
}

/// The tokens of `src[pos..]`, where `pos` is on line `line`, with the
/// end-of-file token that closes them.
pub open spec fn tokens_from(src: Seq<char>, pos: int, line: int) -> Seq<TokenView>
    decreases src.len() - pos,
{
    if 0 <= pos < src.len() {
        let l = lexeme_at(src, pos, line);
        proof {
            lemma_lexeme_advances(src, pos, line);
        }
        option_seq(l.token) + tokens_from(src, l.next, l.line)
    } else {
        seq![end_token(line)]
    }
}

/// The errors that scanning `src[pos..]` meets, where `pos` is on line `line`.
pub open spec fn errors_from(src: Seq<char>, pos: int, line: int) -> Seq<ScanErrorView>
    decreases src.len() - pos,
{
    if 0 <= pos < src.len() {
        let l = lexeme_at(src, pos, line);
        proof {
            lemma_lexeme_advances(src, pos, line);
        }
        option_seq(l.error) + errors_from(src, l.next, l.line)
    } else {
        Seq::empty()
    }
}

/// A run of digits ends inside the text, holds digits only, and no digit
/// follows it.
pub proof fn lemma_digits_end(src: Seq<char>, pos: int)
    requires
        0 <= pos <= src.len(),
    ensures
        pos <= digits_end(src, pos) <= src.len(),
        forall|i: int| pos <= i < digits_end(src, pos) ==> is_digit_char(#[trigger] src[i]),
        digits_end(src, pos) < src.len() ==> !is_digit_char(src[digits_end(src, pos)]),
    decreases src.len() - pos,
{
    if pos < src.len() && is_digit_char(src[pos]) {
        lemma_digits_end(src, pos + 1);
    }
}

/// A word ends inside the text, holds letters, digits and underscores only,
/// and none of them follows it.
pub proof fn lemma_word_end(src: Seq<char>, pos: int)
    requires
        0 <= pos <= src.len(),
    ensures
        pos <= word_end(src, pos) <= src.len(),
        forall|i: int| pos <= i < word_end(src, pos) ==> is_alphanumeric_char(#[trigger] src[i]),
        word_end(src, pos) < src.len() ==> !is_alphanumeric_char(src[word_end(src, pos)]),
    decreases src.len() - pos,
{
    if pos < src.len() && is_alphanumeric_char(src[pos]) {
        lemma_word_end(src, pos + 1);
    }
}

/// `find_char` gives the first place of the character, or the end of the
/// text.
pub proof fn lemma_find_char(src: Seq<char>, pos: int, c: char)
    requires
        0 <= pos <= src.len(),
    ensures
        pos <= find_char(src, pos, c) <= src.len(),
        forall|i: int| pos <= i < find_char(src, pos, c) ==> #[trigger] src[i] != c,
        find_char(src, pos, c) < src.len() ==> src[find_char(src, pos, c)] == c,
    decreases src.len() - pos,
{
    if pos < src.len() && src[pos] != c {
        lemma_find_char(src, pos + 1, c);
    }
}

/// A piece of text holds no more newlines than characters.
pub proof fn lemma_newlines(src: Seq<char>, from: int, to: int)
    requires
        0 <= from <= to <= src.len(),
    ensures
        0 <= newlines(src, from, to) <= to - from,
    decreases to - from,
{
    if from < to {
        lemma_newlines(src, from, to - 1);
    }
}

/// A numeral ends inside the text, and behind its first digit.
pub proof fn lemma_number_end(src: Seq<char>, pos: int)
    requires
        0 <= pos <= src.len(),
    ensures
        pos <= number_end(src, pos) <= src.len(),
        pos < src.len() && is_digit_char(src[pos]) ==> pos < number_end(src, pos),
{
    lemma_digits_end(src, pos);
    let whole = digits_end(src, pos);
    if whole + 1 < src.len() {
        lemma_digits_end(src, whole + 1);
    }
}

/// Every step of the scanner moves on by at least one character and stays
/// inside the text; the line grows by no more than the characters passed.
pub proof fn lemma_lexeme_advances(src: Seq<char>, pos: int, line: int)
    requires
        0 <= pos < src.len(),
    ensures
        pos < lexeme_at(src, pos, line).next <= src.len(),
        line <= lexeme_at(src, pos, line).line <= line + (lexeme_at(src, pos, line).next - pos),
{
    lemma_find_char(src, pos + 1, '"');
    lemma_newlines(src, pos + 1, find_char(src, pos + 1, '"'));
    if pos + 1 < src.len() {
        lemma_find_char(src, pos + 2, '\n');
    }
    lemma_number_end(src, pos);
    lemma_word_end(src, pos);
}

/// The scan of a text ends in the end-of-file token, and holds no other
/// token of that kind.
pub proof fn lemma_tokens_end(src: Seq<char>, pos: int, line: int)
    requires
        0 <= pos <= src.len(),
    ensures
        tokens_from(src, pos, line).len() >= 1,
        tokens_from(src, pos, line).last().token_type == TokenType::EOF,
        forall|i: int|
            0 <= i < tokens_from(src, pos, line).len() - 1 ==> (#[trigger] tokens_from(
                src,
                pos,
                line,
            )[i]).token_type != TokenType::EOF,
        tokens_from(src, pos, line).len() <= src.len() - pos + 1,
    decreases src.len() - pos,
{
    if pos < src.len() {
        let l = lexeme_at(src, pos, line);
        lemma_lexeme_advances(src, pos, line);
        lemma_tokens_end(src, l.next, l.line);
        let rest = tokens_from(src, l.next, l.line);
        let all = tokens_from(src, pos, line);
        assert(all == option_seq(l.token) + rest);
        match l.token {
            Some(t) => {
                assert(t.token_type != TokenType::EOF) by {
                    crate::token_type::lemma_keyword_of(
                        src.subrange(pos, word_end(src, pos)),
                    );
                }
                assert forall|i: int| 0 <= i < all.len() - 1 implies (#[trigger] all[i]).token_type
                    != TokenType::EOF by {
                    if i > 0 {
                        assert(all[i] == rest[i - 1]);
                    }
                }
            },
            None => {
                assert(all =~= rest);
            },
        }
    }
}


/// Scans one source text. The tokens and the errors gather as the scan moves
/// on; `start` is where the token being scanned begins, `current` the next
/// character to read, `line` the line that character is on. The table of
/// reserved words is built when the first word is scanned.
pub struct Scanner {
    source: Vec<char>,
    keywords: OnceCell<Words>,
    tokens: Vec<Token>,
    errors: Vec<ScanError>,
    start: usize,
    current: usize,
    line: usize,
}

/// The view of a `Scanner`.
pub struct ScannerView {
    pub source: Seq<char>,
    pub tokens: Seq<TokenView>,
    pub errors: Seq<ScanErrorView>,
    pub start: int,
    pub current: int,
    pub line: int,
}

impl View for Scanner {
    type V = ScannerView;

    closed spec fn view(&self) -> ScannerView {
        ScannerView {
            source: self.source@,
            tokens: tokens_view(self.tokens@),
            errors: errors_view(self.errors@),
            start: self.start as int,
            current: self.current as int,
            line: self.line as int,
        }
    }
}

impl ScannerView {
    /// The scanner is inside its text, and its line is one more than the
    /// newlines it can have passed.
    pub open spec fn wf(self) -> bool {
        &&& 0 <= self.start <= self.current <= self.source.len() < usize::MAX
        &&& 1 <= self.line <= self.current + 1
    }

    /// The state with `token` added at the end of the tokens.
    pub open spec fn with_token(self, token: TokenView) -> ScannerView {
        ScannerView { tokens: self.tokens.push(token), ..self }
    }

    /// The state after the scanner has dealt with the text at `self.current`.
    pub open spec fn after(self, l: Lexed) -> ScannerView {
        ScannerView {
            tokens: self.tokens + option_seq(l.token),
            errors: self.errors + option_seq(l.error),
            current: l.next,
            line: l.line,
            ..self
        }
    }
}

impl Scanner {
    /// The scanner is inside its text, and its table of words is that of
    /// the reserved words.
    pub closed spec fn wf(&self) -> bool {
        self@.wf() && words_in(self.keywords) == reserved()
    }

    /// A scanner at the start of `source`, on line 1, with no tokens yet.
    pub fn new(source: String) -> (r: Self)
        requires
            source@.len() < usize::MAX,
        ensures
            r@ == (ScannerView {
                source: source@,
                tokens: Seq::empty(),
                errors: Seq::empty(),
                start: 0,
                current: 0,
                line: 1,
            }),
            r.wf(),
    {
        let r = Scanner {
            source: chars_of(source.as_str()),
            keywords: empty_words(),
            tokens: Vec::new(),
            errors: Vec::new(),
            start: 0,
            current: 0,
            line: 1,
        };
        assert(r@.tokens =~= Seq::empty());
        assert(r@.errors =~= Seq::empty());
        r
    }

    /// Scans the rest of the text and returns all tokens scanned so far, the
    /// end-of-file token last.
    pub fn scan_tokens(&mut self) -> (r: Vec<Token>)
        requires
            old(self).wf(),
        ensures
            final(self).wf(),
            final(self)@.source == old(self)@.source,
            final(self)@.current == old(self)@.source.len(),
            final(self)@.tokens == old(self)@.tokens + tokens_from(
                old(self)@.source,
                old(self)@.current,
                old(self)@.line,
            ),
            final(self)@.errors == old(self)@.errors + errors_from(
                old(self)@.source,
                old(self)@.current,
                old(self)@.line,
            ),
            tokens_view(r@) == final(self)@.tokens,
            r@.len() > 0,
            tokens_view(r@).last().token_type == TokenType::EOF,
    {
        let ghost src = self@.source;
        proof {
            lemma_tokens_end(src, self@.current, self@.line);
        }
        let ghost all_tokens = self@.tokens + tokens_from(src, self@.current, self@.line);
        let ghost all_errors = self@.errors + errors_from(src, self@.current, self@.line);
        while !self.is_at_end()
            invariant
                self.wf(),
                self@.source == src,
                self@.tokens + tokens_from(src, self@.current, self@.line) == all_tokens,
                self@.errors + errors_from(src, self@.current, self@.line) == all_errors,
            decreases src.len() - self@.current,
        {
            self.start = self.current;
            let ghost before = self@;
            let ghost l = lexeme_at(src, before.current, before.line);
            proof {
                lemma_lexeme_advances(src, before.current, before.line);
            }
            self.scan_token();
            assert(self@.tokens + tokens_from(src, self@.current, self@.line) =~= before.tokens
                + tokens_from(src, before.current, before.line));
            assert(self@.errors + errors_from(src, self@.current, self@.line) =~= before.errors
                + errors_from(src, before.current, before.line));
        }
        let ghost before = self@;
        self.tokens.push(Token::new(TokenType::EOF, String::new(), Literal::Nil, self.line));
        assert(self@.tokens =~= before.tokens.push(end_token(before.line)));
        assert(self@.tokens =~= all_tokens);
        assert(self@.errors =~= all_errors);
        clone_tokens(&self.tokens)
    }

    /// The errors met so far.
    pub fn errors(&self) -> (r: &Vec<ScanError>)
        ensures
            errors_view(r@) == self@.errors,
    {
        &self.errors
    }

    fn is_at_end(&self) -> (r: bool)
        ensures
            r == (self@.current >= self@.source.len()),
    {
        self.current >= self.source.len()
    }

    /// Deals with the text at `current`: one token, one error, or text that
    /// is passed over.
    #[verifier::rlimit(40)]
    fn scan_token(&mut self)
        requires
            old(self).wf(),
            old(self)@.start == old(self)@.current,
            old(self)@.current < old(self)@.source.len(),
        ensures
            final(self)@ == old(self)@.after(
                lexeme_at(old(self)@.source, old(self)@.current, old(self)@.line),
            ),
            final(self).wf(),
    {
        let ghost before = self@;
        let ghost src = self@.source;
        proof {
            lemma_lexeme_advances(src, before.current, before.line);
        }
        if let Some(c) = self.advance() {
            match c {
                '(' => self.add_token(TokenType::LEFT_PAREN),
                ')' => self.add_token(TokenType::RIGHT_PAREN),
                '{' => self.add_token(TokenType::LEFT_BRACE),
                '}' => self.add_token(TokenType::RIGHT_BRACE),
                ',' => self.add_token(TokenType::COMMA),
                '.' => self.add_token(TokenType::DOT),
                '-' => self.add_token(TokenType::MINUS),
                '+' => self.add_token(TokenType::PLUS),
                ';' => self.add_token(TokenType::SEMICOLON),
                '*' => self.add_token(TokenType::STAR),
                '!' => {
                    if self.match_next('=') {
                        self.add_token(TokenType::BANG_EQUAL);
                    } else {
                        self.add_token(TokenType::BANG);
                    }
                },
                '=' => {
                    if self.match_next('=') {
                        self.add_token(TokenType::EQUAL_EQUAL);
                    } else {
                        self.add_token(TokenType::EQUAL);
                    }
                },
                '<' => {
                    if self.match_next('=') {
                        self.add_token(TokenType::LESS_EQUAL);
                    } else {
                        self.add_token(TokenType::LESS);
                    }
                },
                '>' => {
                    if self.match_next('=') {
                        self.add_token(TokenType::GREATER_EQUAL);
                    } else {
                        self.add_token(TokenType::GREATER);
                    }
                },
                '/' => {
                    if self.match_next('/') {
                        self.comment();
                    } else {
                        self.add_token(TokenType::SLASH);
                    }
                },
                ' ' | '\r' | '\t' => {},
                '\n' => {
                    self.line += 1;
                },
                '"' => {
                    self.string();
                },
                _ => {
                    if Scanner::is_digit(c) {
                        self.number();
                    } else if Scanner::is_alpha(c) {
                        self.identifier();
                    } else {
                        let mut message = String::from_str("Unexpected character '");
                        push_char(&mut message, c);
                        message.append("'.");
                        self.errors.push(ScanError { line: self.line, message });
                        assert(self@.errors =~= before.errors.push(
                            ScanErrorView {
                                line: before.line as usize,
                                message: unexpected_character(c),
                            },
                        ));
                    }
                },
            }
        }
        assert(self@.tokens =~= before.after(
            lexeme_at(src, before.current, before.line),
        ).tokens);
        assert(self@.errors =~= before.after(
            lexeme_at(src, before.current, before.line),
        ).errors);
    }

    /// Passes over the rest of a comment, its newline included.
    fn comment(&mut self)
        requires
            old(self).wf(),
        ensures
            final(self)@ == ({
                let end = find_char(old(self)@.source, old(self)@.current, '\n');
                if end < old(self)@.source.len() {
                    ScannerView { current: end + 1, line: old(self)@.line + 1, ..old(self)@ }
                } else {
                    ScannerView { current: end, ..old(self)@ }
                }
            }),
            final(self).wf(),
    {
        let ghost before = self@;
        let ghost src = self@.source;
        loop
            invariant_except_break
                self.wf(),
                self@ == (ScannerView { current: self@.current, ..before }),
                before.current <= self@.current,
                find_char(src, self@.current, '\n') == find_char(src, before.current, '\n'),
            invariant
                before.source == src,
                before.wf(),
            ensures
                self@ == ({
                    let end = find_char(src, before.current, '\n');
                    if end < src.len() {
                        ScannerView { current: end + 1, line: before.line + 1, ..before }
                    } else {
                        ScannerView { current: end, ..before }
                    }
                }),
                self.wf(),
            decreases src.len() - self@.current,
        {
            match self.advance() {
                Some(c) => {
                    if c == '\n' {
                        self.line += 1;
                        break ;
                    }
                },
                None => {
                    break ;
                },
            }
        }
    }

    fn is_alpha(c: char) -> (r: bool)
        ensures
            r == is_alpha_char(c),
    {
        (c >= 'a' && c <= 'z') || (c >= 'A' && c <= 'Z') || c == '_'
    }

    fn is_alphanumeric(c: char) -> (r: bool)
        ensures
            r == is_alphanumeric_char(c),
    {
        Scanner::is_alpha(c) || Scanner::is_digit(c)
    }

    /// Scans the rest of a word and adds it as a keyword or an identifier.
    fn identifier(&mut self)
        requires
            old(self).wf(),
            old(self)@.current == old(self)@.start + 1,
            is_alpha_char(old(self)@.source[old(self)@.start]),
        ensures
            final(self)@ == ({
                let end = word_end(old(self)@.source, old(self)@.start);
                let kind = match keyword_of(old(self)@.source.subrange(old(self)@.start, end)) {
                    Some(k) => k,
                    None => TokenType::IDENTIFIER,
                };
                (ScannerView { current: end, ..old(self)@ }).with_token(
                    plain_token(kind, old(self)@.source, old(self)@.start, end, old(self)@.line),
                )
            }),
            final(self).wf(),
    {
        let ghost before = self@;
        let ghost src = self@.source;
        while Scanner::is_alphanumeric(self.peek())
            invariant
                self.wf(),
                self@ == (ScannerView { current: self@.current, ..before }),
                before.source == src,
                before.wf(),
                before.current <= self@.current,
                word_end(src, self@.current) == word_end(src, before.start),
            decreases src.len() - self@.current,
        {
            self.advance();
        }
        let id = self.current_to_string();
        match keyword(words_of(&self.keywords), id.as_str()) {
            Some(id_type) => self.add_token(id_type),
            None => self.add_token(TokenType::IDENTIFIER),
        }
    }

    fn current_to_string(&self) -> (r: String)
        requires
            self.wf(),
        ensures
            r@ == self@.source.subrange(self@.start, self@.current),
    {
        string_of(&self.source, self.start, self.current)
    }

    fn is_digit(c: char) -> (r: bool)
        ensures
            r == is_digit_char(c),
    {
        c >= '0' && c <= '9'
    }

    /// Passes over a run of digits.
    fn digits(&mut self)
        requires
            old(self).wf(),
        ensures
            final(self)@ == (ScannerView {
                current: digits_end(old(self)@.source, old(self)@.current),
                ..old(self)@
            }),
            final(self).wf(),
    {
        let ghost before = self@;
        let ghost src = self@.source;
        while Scanner::is_digit(self.peek())
            invariant
                self.wf(),
                self@ == (ScannerView { current: self@.current, ..before }),
                before.source == src,
                before.wf(),
                before.current <= self@.current,
                digits_end(src, self@.current) == digits_end(src, before.current),
            decreases src.len() - self@.current,
        {
            self.advance();
        }
    }

    /// Scans the rest of a numeral and adds it with its text as the literal.
    fn number(&mut self)
        requires
            old(self).wf(),
            old(self)@.current == old(self)@.start + 1,
            is_digit_char(old(self)@.source[old(self)@.start]),
        ensures
            final(self)@ == ({
                let end = number_end(old(self)@.source, old(self)@.start);
                (ScannerView { current: end, ..old(self)@ }).with_token(
                    TokenView {
                        token_type: TokenType::NUMBER,
                        lexeme: old(self)@.source.subrange(old(self)@.start, end),
                        literal: LiteralView::Number(
                            old(self)@.source.subrange(old(self)@.start, end),
                        ),
                        line: old(self)@.line as usize,
                    },
                )
            }),
            final(self).wf(),
    {
        self.digits();
        if self.peek() == '.' && Scanner::is_digit(self.peek_next()) {
            self.advance();
            self.digits();
        }
        let text = self.current_to_string();
        self.add_token2(TokenType::NUMBER, Some(Literal::Number(text)));
    }

    /// Scans the rest of a string, which may run over several lines, and
    /// adds it with its contents as the literal; reports a string that the
    /// text ends in.
    fn string(&mut self)
        requires
            old(self).wf(),
            old(self)@.current == old(self)@.start + 1,
        ensures
            final(self)@ == ({
                let src = old(self)@.source;
                let end = find_char(src, old(self)@.current, '"');
                let last = old(self)@.line + newlines(src, old(self)@.current, end);
                if end < src.len() {
                    (ScannerView { current: end + 1, line: last, ..old(self)@ }).with_token(
                        TokenView {
                            token_type: TokenType::STRING,
                            lexeme: src.subrange(old(self)@.start, end + 1),
                            literal: LiteralView::String(src.subrange(old(self)@.current, end)),
                            line: last as usize,
                        },
                    )
                } else {
                    ScannerView {
                        current: end,
                        line: last,
                        errors: old(self)@.errors.push(
                            ScanErrorView { line: last as usize, message: "Unterminated string."@ },
                        ),
                        ..old(self)@
                    }
                }
            }),
            final(self).wf(),
    {
        let ghost before = self@;
        let ghost src = self@.source;
        while self.peek() != '"' && !self.is_at_end()
            invariant
                self.wf(),
                self@ == (ScannerView { current: self@.current, line: self@.line, ..before }),
                before.source == src,
                before.wf(),
                before.current <= self@.current,
                self@.line == before.line + newlines(src, before.current, self@.current),
                find_char(src, self@.current, '"') == find_char(src, before.current, '"'),
            decreases src.len() - self@.current,
        {
            if let Some(c) = self.advance() {
                if c == '\n' {
                    self.line += 1;
                }
            }
        }
        if self.is_at_end() {
            let ghost at = self@;
            self.errors.push(
                ScanError { line: self.line, message: String::from_str("Unterminated string.") },
            );
            assert(self@.errors =~= at.errors.push(
                ScanErrorView { line: at.line as usize, message: "Unterminated string."@ },
            ));
            return ;
        }
        // The closing quote.
        self.advance();
        let value = string_of(&self.source, self.start + 1, self.current - 1);
        self.add_token2(TokenType::STRING, Some(Literal::String(value)));
    }

    /// Passes over the next character if it is `expected`.
    fn match_next(&mut self, expected: char) -> (r: bool)
        requires
            old(self).wf(),
        ensures
            r == (old(self)@.current < old(self)@.source.len() && old(self)@.source[old(self)@.current] == expected),
            final(self)@ == (ScannerView {
                current: if r {
                    old(self)@.current + 1
                } else {
                    old(self)@.current
                },
                ..old(self)@
            }),
            final(self).wf(),
    {
        if self.is_at_end() {
            return false;
        }
        if self.source[self.current] != expected {
            return false;
        }
        self.current += 1;
        true
    }

    /// The next character, `'\0'` at the end of the text.
    fn peek(&self) -> (r: char)
        requires
            self.wf(),
        ensures
            r == if self@.current < self@.source.len() {
                self@.source[self@.current]
            } else {
                '\0'
            },
    {
        if self.is_at_end() {
            return '\0';
        }
        self.source[self.current]
    }

    /// The character after the next, `'\0'` past the end of the text.
    fn peek_next(&self) -> (r: char)
        requires
            self.wf(),
        ensures
            r == if self@.current + 1 < self@.source.len() {
                self@.source[self@.current + 1]
            } else {
                '\0'
            },
    {
        if self.current + 1 >= self.source.len() {
            return '\0';
        }
        self.source[self.current + 1]
    }

    /// Reads the next character, if there is one, and moves past it.
    fn advance(&mut self) -> (r: Option<char>)
        requires
            old(self).wf(),
        ensures
            r == if old(self)@.current < old(self)@.source.len() {
                Some(old(self)@.source[old(self)@.current])
            } else {
                None
            },
            final(self)@ == (ScannerView {
                current: if old(self)@.current < old(self)@.source.len() {
                    old(self)@.current + 1
                } else {
                    old(self)@.current
                },
                ..old(self)@
            }),
            final(self).wf(),
    {
        if self.is_at_end() {
            return None;
        }
        let c = self.source[self.current];
        self.current += 1;
        Some(c)
    }

    fn add_token(&mut self, token_type: TokenType)
        requires
            old(self).wf(),
        ensures
            final(self)@ == old(self)@.with_token(
                plain_token(
                    token_type,
                    old(self)@.source,
                    old(self)@.start,
                    old(self)@.current,
                    old(self)@.line,
                ),
            ),
            final(self).wf(),
    {
        self.add_token2(token_type, None)
    }

    /// Adds a token made of the text from `start` to `current`.
    fn add_token2(&mut self, token_type: TokenType, literal: Option<Literal>)
        requires
            old(self).wf(),
        ensures
            final(self)@ == old(self)@.with_token(
                TokenView {
                    token_type,
                    lexeme: old(self)@.source.subrange(old(self)@.start, old(self)@.current),
                    literal: match literal {
                        Some(l) => l@,
                        None => LiteralView::Nil,
                    },
                    line: old(self)@.line as usize,
                },
            ),
            final(self).wf(),
    {
        let ghost before = self@;
        let text = self.current_to_string();
        let literal = match literal {
            Some(l) => l,
            None => Literal::Nil,
        };
        let token = Token::new(token_type, text, literal, self.line);
        self.tokens.push(token);
        assert(self@.tokens =~= before.tokens.push(token@));
    }
}

/// A copy of a list of tokens.
pub fn clone_tokens(tokens: &Vec<Token>) -> (r: Vec<Token>)
    ensures
        r@ == tokens@,
{
    let mut out: Vec<Token> = Vec::new();
    let mut i: usize = 0;
    while i < tokens.len()
        invariant
            i <= tokens.len(),
            out@ == tokens@.subrange(0, i as int),
        decreases tokens.len() - i,
    {
        out.push(tokens[i].clone());
        assert(out@ =~= tokens@.subrange(0, i + 1));
        i += 1;
    }
    assert(out@ =~= tokens@);
    out
}

} // verus!
