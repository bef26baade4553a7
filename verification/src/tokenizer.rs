//! Lexical analysis: text to a flat sequence of classified tokens.
//!
//! The model of the lexer is [`lex`], a function from a sequence of
//! characters to a sequence of token models. [`Tokenizer::tokenize`] computes
//! it, followed by the end-of-input sentinel, or reports the first character
//! that belongs to no class.

use crate::text::{char_to_string, decimal, push_decimal};
use vstd::prelude::*;
use vstd::string::StringExecFns;

verus! {

/// The class of a lexical token.
#[derive(Debug, PartialEq, Eq, Structural, Clone, Copy)]
pub enum TokenType {
    /// An identifier, keyword or numeric literal.
    Value,
    /// A single structural character.
    Punctuation,
    /// The sentinel that ends every token sequence.
    EOF,
}

/// What a token is, as a mathematical value: its class and its text.
pub struct TokenModel {
    pub kind: TokenType,
    pub text: Seq<char>,
}

/// A classified lexical unit.
#[derive(Debug, PartialEq)]
pub struct Token {
    pub token_type: TokenType,
    pub lexeme: String,
}

impl View for Token {
    type V = TokenModel;

    open spec fn view(&self) -> TokenModel {
        TokenModel { kind: self.token_type, text: self.lexeme@ }
    }
}

impl Token {
    /// A token of the given class and text.
    pub fn new(token_type: TokenType, lexeme: String) -> (token: Token)
        ensures
            token.token_type == token_type,
            token.lexeme == lexeme,
            token@ == (TokenModel { kind: token_type, text: lexeme@ }),
    {
        Token { token_type, lexeme }
    }
}

/// The models of a sequence of tokens, in order.
pub open spec fn models(tokens: Seq<Token>) -> Seq<TokenModel> {
    tokens.map_values(|t: Token| t@)
}

/// Whitespace: skipped between tokens.
pub open spec fn is_blank(c: char) -> bool {
    c == ' ' || c == '\t' || c == '\n' || c == '\r'
}

/// Structural punctuation: each such character is a token by itself.
pub open spec fn is_structural(c: char) -> bool {
    c == '{' || c == '}' || c == '(' || c == ')' || c == ';'
}

/// A character of a value: an ASCII letter, an ASCII digit or an underscore.
pub open spec fn is_word_char(c: char) -> bool {
    ('a' <= c && c <= 'z') || ('A' <= c && c <= 'Z') || ('0' <= c && c <= '9') || c == '_'
}

/// A character that belongs to one of the three classes.
pub open spec fn is_recognized(c: char) -> bool {
    is_blank(c) || is_structural(c) || is_word_char(c)
}

/// The length of the longest prefix of `s` made of value characters.
pub open spec fn word_len(s: Seq<char>) -> nat
    decreases s.len(),
{
    if s.len() > 0 && is_word_char(s[0]) {
        1 + word_len(s.skip(1))
    } else {
        0
    }
}

/// The length of the longest prefix of `s` made of recognized characters:
/// the index of the first character that belongs to no class, or the length
/// of `s` where there is none.
pub open spec fn recognized_len(s: Seq<char>) -> nat
    decreases s.len(),
{
    if s.len() > 0 && is_recognized(s[0]) {
        1 + recognized_len(s.skip(1))
    } else {
        0
    }
}

/// The token for the structural character `c`.
pub open spec fn punctuation(c: char) -> TokenModel {
    TokenModel { kind: TokenType::Punctuation, text: seq![c] }
}

/// The token for the value run `text`.
pub open spec fn value(text: Seq<char>) -> TokenModel {
    TokenModel { kind: TokenType::Value, text }
}

/// The end-of-input sentinel: the only token with empty text.
pub open spec fn sentinel() -> TokenModel {
    TokenModel { kind: TokenType::EOF, text: Seq::empty() }
}

/// The tokens of `s`, without the sentinel. Whitespace separates tokens and
/// is dropped, a structural character is a token by itself, and a value is a
/// maximal run of value characters. Reading stops at the first character
/// that belongs to no class.
pub open spec fn lex(s: Seq<char>) -> Seq<TokenModel>
    decreases s.len(),
    via lex_decreases
{
    if s.len() == 0 {
        Seq::empty()
    } else if is_blank(s[0]) {
        lex(s.skip(1))
    } else if is_structural(s[0]) {
        seq![punctuation(s[0])] + lex(s.skip(1))
    } else if is_word_char(s[0]) {
        let n = word_len(s) as int;
        seq![value(s.take(n))] + lex(s.skip(n))
    } else {
        Seq::empty()
    }
}

#[via_fn]
proof fn lex_decreases(s: Seq<char>) {
    lemma_word_len_bounds(s);
}

/// A run of value characters is no longer than the text, and not empty where
/// the text starts with a value character.
pub proof fn lemma_word_len_bounds(s: Seq<char>)
    ensures
        word_len(s) <= s.len(),
        s.len() > 0 && is_word_char(s[0]) ==> word_len(s) >= 1,
    decreases s.len(),
{
    if s.len() > 0 && is_word_char(s[0]) {
        lemma_word_len_bounds(s.skip(1));
    }
}

/// The line of the character at index `k` of `s`, counted from 0: the number
/// of line feeds before it.
pub open spec fn line_at(s: Seq<char>, k: int) -> nat
    decreases k,
{
    if k <= 0 {
        0
    } else if s[k - 1] == '\n' {
        line_at(s, k - 1) + 1
    } else {
        line_at(s, k - 1)
    }
}

/// The column of the character at index `k` of `s`, counted from 1: one more
/// than the number of characters between it and the line feed before it.
pub open spec fn column_at(s: Seq<char>, k: int) -> nat
    decreases k,
{
    if k <= 0 {
        1
    } else if s[k - 1] == '\n' {
        1
    } else {
        column_at(s, k - 1) + 1
    }
}

/// The message for a character `c` of no class, found at `line` and `column`.
pub open spec fn unexpected_character(c: char, line: nat, column: nat) -> Seq<char> {
    "Unexpected character "@ + seq![c] + ", at line "@ + decimal(line) + " column "@ + decimal(
        column,
    )
}

/// A line number never exceeds the index, and a column number exceeds it by
/// one at most.
pub proof fn lemma_position_bounds(s: Seq<char>, k: int)
    requires
        0 <= k,
    ensures
        line_at(s, k) <= k,
        1 <= column_at(s, k) <= k + 1,
    decreases k,
{
    if k > 0 {
        lemma_position_bounds(s, k - 1);
    }
}

/// Past a run of value characters the recognized prefix goes on as it does
/// from there: value characters are recognized.
pub proof fn lemma_recognized_past_word(s: Seq<char>)
    ensures
        recognized_len(s) == word_len(s) + recognized_len(s.skip(word_len(s) as int)),
    decreases s.len(),
{
    if s.len() > 0 && is_word_char(s[0]) {
        let rest = s.skip(1);
        lemma_recognized_past_word(rest);
        lemma_word_len_bounds(rest);
        assert(rest.skip(word_len(rest) as int) =~= s.skip(word_len(s) as int));
    } else {
        assert(s.skip(0) =~= s);
    }
}

/// The texts of `tokens`, one after another.
pub open spec fn joined(tokens: Seq<TokenModel>) -> Seq<char>
    decreases tokens.len(),
{
    if tokens.len() == 0 {
        Seq::empty()
    } else {
        tokens[0].text + joined(tokens.skip(1))
    }
}

/// `s` with its whitespace taken out.
pub open spec fn without_blanks(s: Seq<char>) -> Seq<char> {
    s.filter(|c: char| !is_blank(c))
}

/// Every character of `s` belongs to one of the three classes.
pub open spec fn all_recognized(s: Seq<char>) -> bool {
    forall|i: int| 0 <= i < s.len() ==> is_recognized(#[trigger] s[i])
}

/// The recognized prefix ends at the first character of no class: every
/// character before that index is recognized and the one at it, if there is
/// one, is not. It is the whole text exactly where every character is
/// recognized.
pub proof fn lemma_recognized_len(s: Seq<char>)
    ensures
        recognized_len(s) <= s.len(),
        forall|i: int| 0 <= i < recognized_len(s) ==> is_recognized(#[trigger] s[i]),
        recognized_len(s) < s.len() ==> !is_recognized(s[recognized_len(s) as int]),
        recognized_len(s) == s.len() <==> all_recognized(s),
    decreases s.len(),
{
    if s.len() > 0 && is_recognized(s[0]) {
        let rest = s.skip(1);
        lemma_recognized_len(rest);
        assert forall|i: int| 0 <= i < recognized_len(s) implies is_recognized(#[trigger] s[i]) by {
            if i > 0 {
                assert(s[i] == rest[i - 1]);
            }
        }
        if all_recognized(s) {
            assert forall|i: int| 0 <= i < rest.len() implies is_recognized(#[trigger] rest[i]) by {
                assert(rest[i] == s[i + 1]);
            }
        }
        if recognized_len(s) == s.len() {
            assert(all_recognized(s));
        }
    }
}

/// Every character of a value run is a value character.
pub proof fn lemma_word_chars(s: Seq<char>)
    ensures
        forall|i: int| 0 <= i < word_len(s) ==> is_word_char(#[trigger] s[i]),
    decreases s.len(),
{
    lemma_word_len_bounds(s);
    if s.len() > 0 && is_word_char(s[0]) {
        let rest = s.skip(1);
        lemma_word_chars(rest);
        assert forall|i: int| 0 <= i < word_len(s) implies is_word_char(#[trigger] s[i]) by {
            if i > 0 {
                assert(s[i] == rest[i - 1]);
            }
        }
    }
}

/// The texts of two token sequences put together are the texts of the first
/// followed by those of the second.
pub proof fn lemma_joined_concat(a: Seq<TokenModel>, b: Seq<TokenModel>)
    ensures
        joined(a + b) == joined(a) + joined(b),
    decreases a.len(),
{
    if a.len() == 0 {
        assert(a + b =~= b);
        assert(joined(a) + joined(b) =~= joined(b));
    } else {
        lemma_joined_concat(a.skip(1), b);
        assert((a + b).skip(1) =~= a.skip(1) + b);
        assert(joined(a + b) =~= joined(a) + joined(b));
    }
}

/// Text without whitespace loses nothing when its whitespace is taken out.
proof fn lemma_without_blanks_keeps(s: Seq<char>)
    requires
        forall|i: int| 0 <= i < s.len() ==> !is_blank(#[trigger] s[i]),
    ensures
        without_blanks(s) == s,
    decreases s.len(),
{
    reveal(Seq::filter);
    if s.len() > 0 {
        lemma_without_blanks_keeps(s.drop_last());
        assert(s.drop_last().push(s.last()) =~= s);
    }
}

/// Taking whitespace out of a text takes it out of its first character and
/// out of what follows.
proof fn lemma_without_blanks_split(s: Seq<char>, n: int)
    requires
        0 <= n <= s.len(),
    ensures
        without_blanks(s) == without_blanks(s.take(n)) + without_blanks(s.skip(n)),
{
    assert(s =~= s.take(n) + s.skip(n));
    Seq::filter_distributes_over_add(s.take(n), s.skip(n), |c: char| !is_blank(c));
}

/// Round trip: where every character of `s` is recognized, the texts of its
/// tokens, one after another, are `s` with the whitespace taken out. The
/// sentinel adds nothing to them.
pub proof fn lemma_lex_round_trip(s: Seq<char>)
    requires
        all_recognized(s),
    ensures
        joined(lex(s)) == without_blanks(s),
        joined(lex(s).push(sentinel())) == without_blanks(s),
    decreases s.len(),
{
    reveal(Seq::filter);
    if s.len() == 0 {
        assert(without_blanks(s) =~= Seq::<char>::empty());
    } else {
        assert(is_recognized(s[0]));
        lemma_word_len_bounds(s);
        let n: int = if is_word_char(s[0]) {
            word_len(s) as int
        } else {
            1
        };
        let head = s.take(n);
        let tail = s.skip(n);
        assert forall|i: int| 0 <= i < tail.len() implies is_recognized(#[trigger] tail[i]) by {
            assert(tail[i] == s[i + n]);
        }
        lemma_lex_round_trip(tail);
        lemma_without_blanks_split(s, n);
        if is_blank(s[0]) {
            assert(head.drop_last() =~= Seq::<char>::empty());
            assert(head.drop_last().filter(|c: char| !is_blank(c)) =~= Seq::<char>::empty());
            assert(without_blanks(head) =~= Seq::<char>::empty());
            assert(joined(lex(s)) =~= without_blanks(s));
        } else {
            if is_structural(s[0]) {
                assert(head =~= seq![s[0]]);
            } else {
                lemma_word_chars(s);
            }
            lemma_without_blanks_keeps(head);
            let first = lex(s)[0];
            assert(first.text == head);
            assert(lex(s).skip(1) =~= lex(tail));
            assert(joined(lex(s)) =~= without_blanks(s));
        }
    }
    let last = seq![sentinel()];
    lemma_joined_concat(lex(s), last);
    assert(lex(s).push(sentinel()) =~= lex(s) + last);
    assert(joined(last.skip(1)) =~= Seq::<char>::empty());
    assert(joined(last) =~= Seq::<char>::empty());
    assert(joined(lex(s)) + joined(last) =~= joined(lex(s)));
}

/// No token that the text itself gives is the sentinel, and none has empty
/// text.
pub proof fn lemma_lex_tokens(s: Seq<char>)
    ensures
        forall|i: int|
            0 <= i < lex(s).len() ==> {
                &&& (#[trigger] lex(s)[i]).text.len() > 0
                &&& lex(s)[i].kind != TokenType::EOF
            },
    decreases s.len(),
{
    if s.len() > 0 {
        lemma_word_len_bounds(s);
        if is_blank(s[0]) {
            lemma_lex_tokens(s.skip(1));
        } else if is_structural(s[0]) {
            lemma_lex_tokens(s.skip(1));
        } else if is_word_char(s[0]) {
            lemma_lex_tokens(s.skip(word_len(s) as int));
        }
    }
}

/// Sentinel: a token sequence that ends a text's tokens with the sentinel
/// has the sentinel as its last token, and that is its only token with
/// empty text.
pub proof fn lemma_sentinel_last(s: Seq<char>)
    ensures
        lex(s).push(sentinel()).last() == sentinel(),
        forall|i: int|
            0 <= i < lex(s).len() + 1 ==> ((#[trigger] lex(s).push(sentinel())[i]).text.len() == 0
                <==> i == lex(s).len()),
{
    lemma_lex_tokens(s);
    let all = lex(s).push(sentinel());
    assert forall|i: int| 0 <= i < lex(s).len() + 1 implies ((#[trigger] all[i]).text.len() == 0
        <==> i == lex(s).len()) by {
        if i < lex(s).len() {
            assert(all[i] == lex(s)[i]);
        }
    }
}

fn blank(c: char) -> (b: bool)
    ensures
        b == is_blank(c),
{
    c == ' ' || c == '\t' || c == '\n' || c == '\r'
}

fn structural(c: char) -> (b: bool)
    ensures
        b == is_structural(c),
{
    c == '{' || c == '}' || c == '(' || c == ')' || c == ';'
}

fn word_char(c: char) -> (b: bool)
    ensures
        b == is_word_char(c),
{
    ('a' <= c && c <= 'z') || ('A' <= c && c <= 'Z') || ('0' <= c && c <= '9') || c == '_'
}

/// The characters of `input`, in order.
fn collect_chars(input: &str) -> (chars: Vec<char>)
    ensures
        chars@ == input@,
{
    let mut chars: Vec<char> = Vec::new();
    for c in it: input.chars()
        invariant
            it.seq() == input@,
            chars@ == input@.take(it.index() as int),
    {
        chars.push(c);
    }
    chars
}

/// The message that reports the character `c` of no class at `line` and
/// `column`.
fn unexpected_character_message(c: char, line: usize, column: usize) -> (message: String)
    ensures
        message@ == unexpected_character(c, line as nat, column as nat),
{
    let mut message = "Unexpected character ".to_owned();
    message.push(c);
    message.append(", at line ");
    push_decimal(&mut message, line);
    message.append(" column ");
    push_decimal(&mut message, column);
    assert(message@ =~= unexpected_character(c, line as nat, column as nat));
    message
}

/// A lexer over one text. It reads from its current offset on and keeps the
/// line and the column of that offset.
pub struct Tokenizer {
    input: Vec<char>,
    position: usize,
    column: usize,
    line: usize,
}

impl Tokenizer {
    /// The whole text that the lexer was made for.
    pub closed spec fn text(&self) -> Seq<char> {
        self.input@
    }

    /// The number of characters read so far.
    pub closed spec fn offset(&self) -> nat {
        self.position as nat
    }

    /// The part of the text that is still to be read.
    pub open spec fn rest(&self) -> Seq<char> {
        self.text().skip(self.offset() as int)
    }

    /// The offset lies within the text, and the line and column kept are
    /// those of the offset.
    pub closed spec fn wf(&self) -> bool {
        &&& self.position <= self.input.len()
        &&& self.line == line_at(self.input@, self.position as int)
        &&& self.column + 1 == column_at(self.input@, self.position as int)
    }

    /// A lexer at the start of `input`.
    pub fn new(input: &str) -> (tokenizer: Tokenizer)
        ensures
            tokenizer.wf(),
            tokenizer.text() == input@,
            tokenizer.offset() == 0,
    {
        Tokenizer { input: collect_chars(input), position: 0, column: 0, line: 0 }
    }

    fn is_at_end(&self) -> (at_end: bool)
        requires
            self.wf(),
        ensures
            at_end == (self.offset() == self.text().len()),
    {
        self.position >= self.input.len()
    }

    fn peek(&self) -> (next: Option<char>)
        requires
            self.wf(),
        ensures
            next == if self.offset() < self.text().len() {
                Some(self.text()[self.offset() as int])
            } else {
                None
            },
    {
        if self.position < self.input.len() {
            Some(self.input[self.position])
        } else {
            None
        }
    }

    fn advance(&mut self) -> (read: Option<char>)
        requires
            old(self).wf(),
        ensures
            final(self).wf(),
            final(self).text() == old(self).text(),
            read == if old(self).offset() < old(self).text().len() {
                Some(old(self).text()[old(self).offset() as int])
            } else {
                None
            },
            final(self).offset() == if read is Some {
                old(self).offset() + 1
            } else {
                old(self).offset()
            },
    {
        if self.is_at_end() {
            return None;
        }
        let c = self.input[self.position];
        proof {
            lemma_position_bounds(self.input@, self.position as int);
        }
        self.position += 1;
        if c == '\n' {
            self.line += 1;
            self.column = 0;
        } else {
            self.column += 1;
        }
        Some(c)
    }

    fn tokenize_value(&mut self) -> (token: Token)
        requires
            old(self).wf(),
        ensures
            final(self).wf(),
            final(self).text() == old(self).text(),
            final(self).offset() == old(self).offset() + word_len(old(self).rest()),
            token@ == value(old(self).rest().take(word_len(old(self).rest()) as int)),
    {
        let ghost text = self.input@;
        let ghost start = self.position as int;
        let mut lexeme = String::new();
        assert(text.skip(start).take(0) =~= Seq::<char>::empty());
        loop
            invariant
                self.wf(),
                self.input@ == text,
                text == old(self).input@,
                start == old(self).position,
                start <= self.position <= text.len(),
                word_len(text.skip(start)) == (self.position - start) + word_len(
                    text.skip(self.position as int),
                ),
                lexeme@ == text.skip(start).take(self.position - start),
            ensures
                word_len(text.skip(self.position as int)) == 0,
            decreases text.len() - self.position,
        {
            let ghost here = self.position as int;
            match self.peek() {
                Some(c) => {
                    if !word_char(c) {
                        break ;
                    }
                    lexeme.push(c);
                    self.advance();
                    assert(text.skip(here).skip(1) =~= text.skip(here + 1));
                    assert(text.skip(start).take(here + 1 - start) =~= text.skip(start).take(
                        here - start,
                    ).push(text.skip(start)[here - start]));
                },
                None => {
                    break ;
                },
            }
        }
        Token::new(TokenType::Value, lexeme)
    }

    /// Reads the rest of the text into tokens and ends them with the
    /// sentinel. Where a character belongs to no class, the call fails with
    /// the message for the first such character, and the lexer stops in
    /// front of it.
    pub fn tokenize(&mut self) -> (result: Result<Vec<Token>, String>)
        requires
            old(self).wf(),
        ensures
            final(self).wf(),
            final(self).text() == old(self).text(),
            final(self).offset() == old(self).offset() + recognized_len(old(self).rest()),
            match result {
                Ok(tokens) => {
                    &&& all_recognized(old(self).rest())
                    &&& models(tokens@) == lex(old(self).rest()).push(sentinel())
                    &&& joined(models(tokens@)) == without_blanks(old(self).rest())
                    &&& tokens@.last()@ == sentinel()
                    &&& forall|i: int|
                        0 <= i < tokens.len() ==> ((#[trigger] tokens[i]).lexeme@.len() == 0 <==> i
                            == tokens.len() - 1)
                },
                Err(message) => {
                    &&& !all_recognized(old(self).rest())
                    &&& message@ == unexpected_character(
                        final(self).text()[final(self).offset() as int],
                        line_at(final(self).text(), final(self).offset() as int),
                        column_at(final(self).text(), final(self).offset() as int),
                    )
                },
            },
    {
        let ghost text = self.input@;
        let ghost start = self.position as int;
        let mut tokens: Vec<Token> = Vec::new();
        proof {
            lemma_recognized_len(text.skip(start));
            assert(models(tokens@) + lex(text.skip(start)) =~= lex(text.skip(start)));
        }
        while !self.is_at_end()
            invariant
                self.wf(),
                self.input@ == text,
                text == old(self).input@,
                start == old(self).position,
                start <= self.position <= text.len(),
                recognized_len(text.skip(start)) == (self.position - start) + recognized_len(
                    text.skip(self.position as int),
                ),
                lex(text.skip(start)) == models(tokens@) + lex(text.skip(self.position as int)),
            decreases text.len() - self.position,
        {
            let ghost here = self.position as int;
            let ghost before = tokens@;
            let ghost tail = text.skip(here);
            let c = self.input[self.position];
            assert(tail[0] == c);
            assert(tail.skip(1) =~= text.skip(here + 1));
            if blank(c) {
                self.advance();
            } else if structural(c) {
                let token = Token::new(TokenType::Punctuation, char_to_string(c));
                tokens.push(token);
                self.advance();
                assert(models(tokens@) =~= models(before).push(punctuation(c)));
                assert(models(tokens@) + lex(text.skip(here + 1)) =~= models(before) + lex(tail));
            } else if word_char(c) {
                let token = self.tokenize_value();
                tokens.push(token);
                proof {
                    let n = word_len(tail) as int;
                    lemma_word_len_bounds(tail);
                    lemma_recognized_past_word(tail);
                    assert(tail.skip(n) =~= text.skip(here + n));
                    assert(models(tokens@) =~= models(before).push(value(tail.take(n))));
                    assert(models(tokens@) + lex(text.skip(here + n)) =~= models(before) + lex(
                        tail,
                    ));
                }
            } else {
                proof {
                    lemma_position_bounds(text, here);
                    lemma_recognized_len(text.skip(start));
                    assert(text.skip(start)[here - start] == c);
                }
                return Err(unexpected_character_message(c, self.line, self.column + 1));
            }
        }
        tokens.push(Token::new(TokenType::EOF, String::new()));
        proof {
            let end = self.position as int;
            assert(text.skip(end) =~= Seq::<char>::empty());
            assert(models(tokens@) =~= lex(text.skip(start)).push(sentinel()));
            lemma_lex_round_trip(text.skip(start));
            lemma_sentinel_last(text.skip(start));
            assert forall|i: int| 0 <= i < tokens.len() implies ((#[trigger] tokens[i]).lexeme@.len()
                == 0 <==> i == tokens.len() - 1) by {
                assert(models(tokens@)[i] == tokens[i]@);
            }
        }
        Ok(tokens)
    }
}

} // verus!
