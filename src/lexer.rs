use vstd::prelude::*;
use vstd::std_specs::iter::IteratorSpec;

verus! {

broadcast use vstd::string::group_string_axioms;

/// The classification of a token.
#[derive(Debug, Clone, Copy, PartialEq, Eq, Structural)]
pub enum TokenType {
    Unknown,
    Space,
    Tab,
    LineBreak,
    Slash,
    DoubleQuote,
    Comma,
    Dot,
    SemiColon,
    Number,
    Identifier,
    EndOfInput,
}

/// A classified lexical unit. For a `Number` the literal holds the hexadecimal
/// digits that followed the `$`, without the `$` itself.
#[derive(Debug, Clone)]
pub struct Token {
    pub literal: String,
    pub token_type: TokenType,
}

/// The lexer has no more characters to read.
#[derive(Debug)]
pub struct LexingError {}

/// What `char::is_alphabetic` returns: the Unicode `Alphabetic` property.
pub uninterp spec fn alphabetic(c: char) -> bool;

/// What `char::is_alphanumeric` returns: `Alphabetic` or `Numeric`.
pub uninterp spec fn alphanumeric(c: char) -> bool;

/// An ASCII letter.
pub open spec fn is_ascii_letter(c: char) -> bool {
    ('a' <= c && c <= 'z') || ('A' <= c && c <= 'Z')
}

/// An ASCII character.
pub open spec fn is_ascii_char(c: char) -> bool {
    (c as u32) < 128
}

/// Relies on `char::is_alphabetic`, which depends on the character alone;
/// among ASCII characters exactly the letters are alphabetic.
#[verifier::external_body]
fn is_alphabetic(c: char) -> (r: bool)
    ensures
        r == alphabetic(c),
        is_ascii_char(c) ==> (r <==> is_ascii_letter(c)),
{
    c.is_alphabetic()
}

/// Relies on `char::is_alphanumeric`, which depends on the character alone;
/// among ASCII characters exactly the letters and the digits are alphanumeric.
#[verifier::external_body]
fn is_alphanumeric(c: char) -> (r: bool)
    ensures
        r == alphanumeric(c),
        is_ascii_char(c) ==> (r <==> (is_ascii_letter(c) || ('0' <= c && c <= '9'))),
{
    c.is_alphanumeric()
}

/// Relies on `String::push`: appends one character.
#[verifier::external_body]
pub(crate) fn push_char(s: &mut String, c: char)
    ensures
        final(s)@ == old(s)@.push(c),
{
    s.push(c)
}

pub open spec fn is_hex_digit(c: char) -> bool {
    ('0' <= c && c <= '9') || ('a' <= c && c <= 'f') || ('A' <= c && c <= 'F')
}

pub(crate) fn is_hex_char(c: char) -> (r: bool)
    ensures
        r == is_hex_digit(c),
{
    ('0' <= c && c <= '9') || ('a' <= c && c <= 'f') || ('A' <= c && c <= 'F')
}

/// A character that may start an identifier: an alphabetic one (among ASCII
/// characters, exactly the letters).
pub open spec fn starts_identifier(c: char) -> bool {
    if is_ascii_char(c) {
        is_ascii_letter(c)
    } else {
        alphabetic(c)
    }
}

/// A character that may continue an identifier: `_` or an alphanumeric one
/// (among ASCII characters, exactly the letters and the digits).
pub open spec fn continues_identifier(c: char) -> bool {
    c == '_' || if is_ascii_char(c) {
        is_ascii_letter(c) || ('0' <= c && c <= '9')
    } else {
        alphanumeric(c)
    }
}

/// The kind of a character that forms a token on its own, if it is one.
pub open spec fn single_char_kind(c: char) -> Option<TokenType> {
    if c == '\n' {
        Some(TokenType::LineBreak)
    } else if c == ' ' {
        Some(TokenType::Space)
    } else if c == '\t' {
        Some(TokenType::Tab)
    } else if c == '"' {
        Some(TokenType::DoubleQuote)
    } else if c == '.' {
        Some(TokenType::Dot)
    } else if c == ',' {
        Some(TokenType::Comma)
    } else if c == '/' {
        Some(TokenType::Slash)
    } else if c == ';' {
        Some(TokenType::SemiColon)
    } else {
        None
    }
}

fn single_kind(c: char) -> (r: Option<TokenType>)
    ensures
        r == single_char_kind(c),
{
    if c == '\n' {
        Some(TokenType::LineBreak)
    } else if c == ' ' {
        Some(TokenType::Space)
    } else if c == '\t' {
        Some(TokenType::Tab)
    } else if c == '"' {
        Some(TokenType::DoubleQuote)
    } else if c == '.' {
        Some(TokenType::Dot)
    } else if c == ',' {
        Some(TokenType::Comma)
    } else if c == '/' {
        Some(TokenType::Slash)
    } else if c == ';' {
        Some(TokenType::SemiColon)
    } else {
        None
    }
}

/// Length of the maximal run of hexadecimal digits of `s` that starts at `i`.
pub open spec fn hex_run(s: Seq<char>, i: int) -> nat
    decreases s.len() - i,
{
    if 0 <= i < s.len() && is_hex_digit(s[i]) {
        1 + hex_run(s, i + 1)
    } else {
        0
    }
}

/// Length of the maximal run of identifier characters of `s` that starts at `i`.
pub open spec fn ident_run(s: Seq<char>, i: int) -> nat
    decreases s.len() - i,
{
    if 0 <= i < s.len() && continues_identifier(s[i]) {
        1 + ident_run(s, i + 1)
    } else {
        0
    }
}

/// How many characters after its first one the token that starts at `i` takes.
pub open spec fn token_tail(s: Seq<char>, i: int) -> nat {
    let c = s[i];
    if c == '$' {
        hex_run(s, i + 1)
    } else if single_char_kind(c) is Some {
        0
    } else if starts_identifier(c) {
        ident_run(s, i + 1)
    } else {
        0
    }
}

/// The position just after the token that starts at `i`.
pub open spec fn token_end(s: Seq<char>, i: int) -> int {
    i + 1 + token_tail(s, i)
}

/// The kind and the literal of the token that starts at position `i` of `s`.
pub open spec fn token_at(s: Seq<char>, i: int) -> (TokenType, Seq<char>)
    recommends
        0 <= i < s.len(),
{
    let c = s[i];
    if c == '$' {
        (TokenType::Number, s.subrange(i + 1, token_end(s, i)))
    } else if single_char_kind(c) is Some {
        (single_char_kind(c)->0, seq![c])
    } else if starts_identifier(c) {
        (TokenType::Identifier, s.subrange(i, token_end(s, i)))
    } else {
        (TokenType::Unknown, seq![c])
    }
}

/// The kinds and literals of all tokens of `s` from position `i` on.
pub open spec fn tokens_from(s: Seq<char>, i: int) -> Seq<(TokenType, Seq<char>)>
    decreases s.len() - i,
    via tokens_from_decreases
{
    if 0 <= i < s.len() {
        seq![token_at(s, i)] + tokens_from(s, token_end(s, i))
    } else {
        Seq::empty()
    }
}

#[via_fn]
proof fn tokens_from_decreases(s: Seq<char>, i: int) {
    if 0 <= i < s.len() {
        lemma_token_end_bounded(s, i);
    }
}

proof fn lemma_hex_run_bounded(s: Seq<char>, i: int)
    requires
        0 <= i <= s.len(),
    ensures
        i + hex_run(s, i) <= s.len(),
    decreases s.len() - i,
{
    if i < s.len() {
        lemma_hex_run_bounded(s, i + 1);
    }
}

proof fn lemma_ident_run_bounded(s: Seq<char>, i: int)
    requires
        0 <= i <= s.len(),
    ensures
        i + ident_run(s, i) <= s.len(),
    decreases s.len() - i,
{
    if i < s.len() {
        lemma_ident_run_bounded(s, i + 1);
    }
}

/// A token ends after it starts and no later than the text.
pub proof fn lemma_token_end_bounded(s: Seq<char>, i: int)
    requires
        0 <= i < s.len(),
    ensures
        i < token_end(s, i) <= s.len(),
{
    lemma_hex_run_bounded(s, i + 1);
    lemma_ident_run_bounded(s, i + 1);
}

/// The kinds and literals of all tokens of `s`.
pub open spec fn tokens_of(s: Seq<char>) -> Seq<(TokenType, Seq<char>)> {
    tokens_from(s, 0)
}

/// `toks` holds exactly the kinds and literals of `model`, in order.
pub open spec fn tokens_match(toks: Seq<Token>, model: Seq<(TokenType, Seq<char>)>) -> bool {
    &&& toks.len() == model.len()
    &&& forall|k: int|
        0 <= k < toks.len() ==> (#[trigger] toks[k]).token_type == model[k].0
            && toks[k].literal@ == model[k].1
}

/// A single forward-only cursor over the characters of the source text.
pub struct Lexer {
    input: Vec<char>,
    position: usize,
}

impl Lexer {
    /// The characters that the lexer reads.
    pub closed spec fn text(&self) -> Seq<char> {
        self.input@
    }

    /// The position of the next character to read.
    pub closed spec fn cursor(&self) -> int {
        self.position as int
    }

    pub closed spec fn well_formed(&self) -> bool {
        self.position <= self.input.len()
    }

    pub fn new(c: String) -> (l: Self)
        ensures
            l.well_formed(),
            l.text() == c@,
            l.cursor() == 0,
    {
        let mut input: Vec<char> = Vec::new();
        let mut it = c.as_str().chars();
        loop
            invariant
                it.obeys_prophetic_iter_laws(),
                it.decrease() is Some,
                input@ + it.remaining() == c@,
            ensures
                input@ == c@,
            decreases it.decrease()->0,
        {
            match it.next() {
                Some(ch) => {
                    input.push(ch);
                },
                None => {
                    break ;
                },
            }
        }
        Lexer { input, position: 0 }
    }

    /// The character under the cursor, if any, without moving the cursor.
    fn peek_char(&self) -> (r: Option<char>)
        requires
            self.well_formed(),
        ensures
            self.cursor() < self.text().len() ==> r == Some(self.text()[self.cursor()]),
            self.cursor() >= self.text().len() ==> r is None,
    {
        if self.position < self.input.len() {
            Some(self.input[self.position])
        } else {
            None
        }
    }

    /// Takes the character under the cursor, if any, and moves past it.
    fn read_char(&mut self) -> (r: Option<char>)
        requires
            old(self).well_formed(),
        ensures
            final(self).well_formed(),
            final(self).text() == old(self).text(),
            old(self).cursor() < old(self).text().len() ==> r == Some(
                old(self).text()[old(self).cursor()],
            ) && final(self).cursor() == old(self).cursor() + 1,
            old(self).cursor() >= old(self).text().len() ==> r is None && final(self).cursor()
                == old(self).cursor(),
    {
        if self.position < self.input.len() {
            let c = self.input[self.position];
            self.position = self.position + 1;
            Some(c)
        } else {
            None
        }
    }

    /// Reads the maximal run of hexadecimal digits under the cursor.
    fn read_number(&mut self) -> (r: String)
        requires
            old(self).well_formed(),
        ensures
            final(self).well_formed(),
            final(self).text() == old(self).text(),
            final(self).cursor() == old(self).cursor() + hex_run(old(self).text(), old(self).cursor()),
            r@ == old(self).text().subrange(old(self).cursor(), final(self).cursor()),
    {
        let ghost text = self.input@;
        let ghost start = self.position as int;
        let mut digits = String::new();
        loop
            invariant
                self.well_formed(),
                self.input@ == text,
                start <= self.position,
                hex_run(text, start) == (self.position - start) + hex_run(text, self.position as int),
                digits@ == text.subrange(start, self.position as int),
            ensures
                self.well_formed(),
                self.input@ == text,
                hex_run(text, start) == self.position - start,
                digits@ == text.subrange(start, self.position as int),
            decreases self.input.len() - self.position,
        {
            match self.peek_char() {
                Some(c) => {
                    if !is_hex_char(c) {
                        break ;
                    }
                    self.read_char();
                    push_char(&mut digits, c);
                    assert(digits@ =~= text.subrange(start, self.position as int));
                },
                None => {
                    break ;
                },
            }
        }
        digits
    }

    /// Reads an identifier whose first character `first` was just taken: it
    /// goes on over the maximal run of identifier characters under the cursor.
    fn read_identifier(&mut self, first: char) -> (r: String)
        requires
            old(self).well_formed(),
        ensures
            final(self).well_formed(),
            final(self).text() == old(self).text(),
            final(self).cursor() == old(self).cursor() + ident_run(old(self).text(), old(self).cursor()),
            r@ == seq![first] + old(self).text().subrange(old(self).cursor(), final(self).cursor()),
    {
        let ghost text = self.input@;
        let ghost start = self.position as int;
        let mut identifier = String::new();
        push_char(&mut identifier, first);
        loop
            invariant
                self.well_formed(),
                self.input@ == text,
                start <= self.position,
                ident_run(text, start) == (self.position - start) + ident_run(
                    text,
                    self.position as int,
                ),
                identifier@ == seq![first] + text.subrange(start, self.position as int),
            ensures
                self.well_formed(),
                self.input@ == text,
                ident_run(text, start) == self.position - start,
                identifier@ == seq![first] + text.subrange(start, self.position as int),
            decreases self.input.len() - self.position,
        {
            match self.peek_char() {
                Some(c) => {
                    if !(is_alphanumeric(c) || c == '_') {
                        break ;
                    }
                    self.read_char();
                    push_char(&mut identifier, c);
                    assert(identifier@ =~= seq![first] + text.subrange(start, self.position as int));
                },
                None => {
                    break ;
                },
            }
        }
        identifier
    }

    /// Yields the token under the cursor and moves past it, or fails once the
    /// input is exhausted.
    pub fn retrieve_next_token(&mut self) -> (r: Result<Token, LexingError>)
        requires
            old(self).well_formed(),
        ensures
            final(self).well_formed(),
            final(self).text() == old(self).text(),
            0 <= final(self).cursor() <= final(self).text().len(),
            old(self).cursor() >= old(self).text().len() ==> r is Err && final(self).cursor()
                == old(self).cursor(),
            old(self).cursor() < old(self).text().len() ==> {
                &&& r is Ok
                &&& r->Ok_0.token_type == token_at(old(self).text(), old(self).cursor()).0
                &&& r->Ok_0.literal@ == token_at(old(self).text(), old(self).cursor()).1
                &&& final(self).cursor() == token_end(old(self).text(), old(self).cursor())
            },
    {
        let ghost text = self.input@;
        let ghost start = self.position as int;
        proof {
            if start < text.len() {
                lemma_token_end_bounded(text, start);
            }
        }
        match self.read_char() {
            None => Err(LexingError {  }),
            Some(c) => {
                if c == '$' {
                    let digits = self.read_number();
                    Ok(Token { literal: digits, token_type: TokenType::Number })
                } else {
                    match single_kind(c) {
                        Some(kind) => {
                            let mut literal = String::new();
                            push_char(&mut literal, c);
                            assert(literal@ =~= seq![c]);
                            Ok(Token { literal, token_type: kind })
                        },
                        None => {
                            if is_alphabetic(c) {
                                let literal = self.read_identifier(c);
                                assert(literal@ =~= text.subrange(start, self.position as int));
                                Ok(Token { literal, token_type: TokenType::Identifier })
                            } else {
                                let mut literal = String::new();
                                push_char(&mut literal, c);
                                assert(literal@ =~= seq![c]);
                                Ok(Token { literal, token_type: TokenType::Unknown })
                            }
                        },
                    }
                }
            },
        }
    }
}

/// The source text of `lines`, each line followed by a line break.
pub open spec fn joined_lines(lines: Seq<String>) -> Seq<char>
    decreases lines.len(),
{
    if lines.len() == 0 {
        Seq::empty()
    } else {
        joined_lines(lines.drop_last()) + lines.last()@ + seq!['\n']
    }
}

/// Joins `content`, each line followed by a line break, and lexes the result
/// until the input is exhausted.
pub fn lex_content(content: Vec<String>) -> (r: Vec<Token>)
    ensures
        tokens_match(r@, tokens_of(joined_lines(content@))),
{
    let mut c = String::new();
    let mut i: usize = 0;
    while i < content.len()
        invariant
            i <= content.len(),
            c@ == joined_lines(content@.take(i as int)),
        decreases content.len() - i,
    {
        c.append(content[i].as_str());
        push_char(&mut c, '\n');
        assert(content@.take(i + 1).drop_last() =~= content@.take(i as int));
        i = i + 1;
    }
    assert(content@.take(content.len() as int) =~= content@);
    let mut lexer = Lexer::new(c);
    let ghost text = lexer.text();
    let ghost mut done: Seq<(TokenType, Seq<char>)> = Seq::empty();
    let mut tokens: Vec<Token> = Vec::new();
    loop
        invariant
            lexer.well_formed(),
            lexer.text() == text,
            0 <= lexer.cursor() <= text.len(),
            tokens_match(tokens@, done),
            done + tokens_from(text, lexer.cursor()) == tokens_of(text),
        ensures
            tokens_match(tokens@, tokens_of(text)),
        decreases text.len() - lexer.cursor(),
    {
        let ghost cur = lexer.cursor();
        match lexer.retrieve_next_token() {
            Ok(t) => {
                proof {
                    let x = token_at(text, cur);
                    assert(done.push(x) + tokens_from(text, token_end(text, cur)) =~= done + (seq![x]
                        + tokens_from(text, token_end(text, cur))));
                    done = done.push(x);
                }
                tokens.push(t);
            },
            Err(_) => {
                assert(done =~= done + tokens_from(text, cur));
                break ;
            },
        }
    }
    tokens
}

/// The source text of one token: its literal, with the `$` put back before
/// the digits of a `Number`.
pub open spec fn rendered(t: (TokenType, Seq<char>)) -> Seq<char> {
    if t.0 == TokenType::Number {
        seq!['$'] + t.1
    } else {
        t.1
    }
}

/// The source texts of `ts`, joined in order.
pub open spec fn render_all(ts: Seq<(TokenType, Seq<char>)>) -> Seq<char>
    decreases ts.len(),
{
    if ts.len() == 0 {
        Seq::empty()
    } else {
        rendered(ts[0]) + render_all(ts.drop_first())
    }
}

/// The literals of `ts`, joined in order.
pub open spec fn literals_joined(ts: Seq<(TokenType, Seq<char>)>) -> Seq<char>
    decreases ts.len(),
{
    if ts.len() == 0 {
        Seq::empty()
    } else {
        ts[0].1 + literals_joined(ts.drop_first())
    }
}

/// No identifier in `ts` is followed by a token that could have continued it,
/// and no number by a token that starts with a hexadecimal digit.
pub open spec fn runs_are_maximal(ts: Seq<(TokenType, Seq<char>)>) -> bool
    decreases ts.len(),
{
    ts.len() < 2 || ({
        &&& rendered(ts[1]).len() > 0
        &&& ts[0].0 == TokenType::Identifier ==> !continues_identifier(rendered(ts[1])[0])
        &&& ts[0].0 == TokenType::Number ==> !is_hex_digit(rendered(ts[1])[0])
        &&& runs_are_maximal(ts.drop_first())
    })
}

proof fn lemma_hex_run_stops(s: Seq<char>, i: int)
    requires
        0 <= i <= s.len(),
    ensures
        i + hex_run(s, i) < s.len() ==> !is_hex_digit(s[i + hex_run(s, i)]),
    decreases s.len() - i,
{
    if i < s.len() && is_hex_digit(s[i]) {
        lemma_hex_run_stops(s, i + 1);
    }
}

proof fn lemma_ident_run_stops(s: Seq<char>, i: int)
    requires
        0 <= i <= s.len(),
    ensures
        i + ident_run(s, i) < s.len() ==> !continues_identifier(s[i + ident_run(s, i)]),
    decreases s.len() - i,
{
    if i < s.len() && continues_identifier(s[i]) {
        lemma_ident_run_stops(s, i + 1);
    }
}

/// The source text of the token at `i` is the text from `i` to its end.
proof fn lemma_token_text(s: Seq<char>, i: int)
    requires
        0 <= i < s.len(),
    ensures
        rendered(token_at(s, i)) == s.subrange(i, token_end(s, i)),
        s[i] != '$' ==> token_at(s, i).0 != TokenType::Number,
{
    lemma_token_end_bounded(s, i);
    let c = s[i];
    if c == '$' {
        assert(seq!['$'] + s.subrange(i + 1, token_end(s, i)) =~= s.subrange(i, token_end(s, i)));
    } else if single_char_kind(c) is Some {
        assert(seq![c] =~= s.subrange(i, i + 1));
    } else if !starts_identifier(c) {
        assert(seq![c] =~= s.subrange(i, i + 1));
    }
}

proof fn lemma_tokens_from_text(s: Seq<char>, i: int)
    requires
        0 <= i <= s.len(),
    ensures
        render_all(tokens_from(s, i)) == s.subrange(i, s.len() as int),
        (forall|k: int| i <= k < s.len() ==> s[k] != '$') ==> literals_joined(tokens_from(s, i))
            == s.subrange(i, s.len() as int),
        runs_are_maximal(tokens_from(s, i)),
    decreases s.len() - i,
{
    if i < s.len() {
        lemma_token_end_bounded(s, i);
        lemma_token_text(s, i);
        let e = token_end(s, i);
        lemma_tokens_from_text(s, e);
        let ts = tokens_from(s, i);
        let rest = tokens_from(s, e);
        assert(ts.drop_first() =~= rest);
        assert(s.subrange(i, e) + s.subrange(e, s.len() as int) =~= s.subrange(i, s.len() as int));
        if e < s.len() {
            lemma_token_end_bounded(s, e);
            lemma_token_text(s, e);
            lemma_hex_run_stops(s, i + 1);
            lemma_ident_run_stops(s, i + 1);
            assert(rendered(rest[0])[0] == s[e]);
        } else {
            assert(rest.len() == 0);
        }
    } else {
        assert(s.subrange(i, s.len() as int) =~= Seq::<char>::empty());
    }
}

/// Lexing loses nothing and cuts nowhere but at the ends of maximal runs: the
/// tokens of `s`, each `Number` with its `$` put back, join to give `s`
/// again; where `s` holds no `$`, their literals alone do; and no identifier
/// or number is followed by a token that could have continued it.
pub proof fn lemma_lexing_is_lossless(s: Seq<char>)
    ensures
        render_all(tokens_of(s)) == s,
        !s.contains('$') ==> literals_joined(tokens_of(s)) == s,
        runs_are_maximal(tokens_of(s)),
{
    lemma_tokens_from_text(s, 0);
    assert(s.subrange(0, s.len() as int) =~= s);
}

proof fn lemma_runs_shift(a: Seq<char>, r: Seq<char>, j: int)
    requires
        0 <= j <= r.len(),
    ensures
        hex_run(a + r, a.len() + j) == hex_run(r, j),
        ident_run(a + r, a.len() + j) == ident_run(r, j),
    decreases r.len() - j,
{
    if j < r.len() {
        lemma_runs_shift(a, r, j + 1);
        assert((a + r)[a.len() + j] == r[j]);
    }
}

proof fn lemma_tokens_shift(a: Seq<char>, r: Seq<char>, j: int)
    requires
        0 <= j <= r.len(),
    ensures
        tokens_from(a + r, a.len() + j) == tokens_from(r, j),
    decreases r.len() - j,
{
    if j < r.len() {
        let s = a + r;
        let i = a.len() + j;
        assert(s[i] == r[j]);
        lemma_runs_shift(a, r, j + 1);
        lemma_token_end_bounded(r, j);
        lemma_token_end_bounded(s, i);
        assert(token_end(s, i) == a.len() + token_end(r, j));
        assert(s.subrange(i + 1, token_end(s, i)) =~= r.subrange(j + 1, token_end(r, j)));
        assert(s.subrange(i, token_end(s, i)) =~= r.subrange(j, token_end(r, j)));
        assert(token_at(s, i) == token_at(r, j));
        lemma_tokens_shift(a, r, token_end(r, j));
    }
}

/// Runs that start before the last character of `a`, a line break, stop
/// there whatever follows `a`.
proof fn lemma_runs_prefix(a: Seq<char>, r: Seq<char>, m: int)
    requires
        a.len() > 0,
        a.last() == '\n',
        0 <= m < a.len(),
    ensures
        hex_run(a + r, m) == hex_run(a, m),
        ident_run(a + r, m) == ident_run(a, m),
        m + hex_run(a, m) < a.len(),
        m + ident_run(a, m) < a.len(),
    decreases a.len() - m,
{
    assert((a + r)[m] == a[m]);
    if m < a.len() - 1 {
        lemma_runs_prefix(a, r, m + 1);
    }
}

proof fn lemma_tokens_prefix(a: Seq<char>, r: Seq<char>, i: int)
    requires
        a.len() > 0,
        a.last() == '\n',
        0 <= i <= a.len(),
    ensures
        tokens_from(a + r, i) == tokens_from(a, i) + tokens_from(a + r, a.len() as int),
    decreases a.len() - i,
{
    let s = a + r;
    if i < a.len() {
        assert(s[i] == a[i]);
        if i < a.len() - 1 {
            lemma_runs_prefix(a, r, i + 1);
        }
        lemma_token_end_bounded(a, i);
        lemma_token_end_bounded(s, i);
        assert(token_end(s, i) == token_end(a, i));
        let e = token_end(a, i);
        assert(s.subrange(i + 1, e) =~= a.subrange(i + 1, e));
        assert(s.subrange(i, e) =~= a.subrange(i, e));
        assert(token_at(s, i) == token_at(a, i));
        lemma_tokens_prefix(a, r, e);
        assert(seq![token_at(a, i)] + (tokens_from(a, e) + tokens_from(s, a.len() as int)) =~= (
        seq![token_at(a, i)] + tokens_from(a, e)) + tokens_from(s, a.len() as int));
    } else {
        assert(tokens_from(a, i) + tokens_from(s, a.len() as int) =~= tokens_from(
            s,
            a.len() as int,
        ));
    }
}

/// The tokens of text that holds a single line break, at its end: the last
/// is that line break, and no other is one.
proof fn lemma_tokens_of_line(a: Seq<char>, i: int)
    requires
        a.len() > 0,
        a.last() == '\n',
        forall|k: int| 0 <= k < a.len() - 1 ==> a[k] != '\n',
        0 <= i < a.len(),
    ensures
        tokens_from(a, i).len() > 0,
        tokens_from(a, i).last() == (TokenType::LineBreak, seq!['\n']),
        forall|k: int|
            0 <= k < tokens_from(a, i).len() - 1 ==> (#[trigger] tokens_from(a, i)[k]).0
                != TokenType::LineBreak,
    decreases a.len() - i,
{
    lemma_token_end_bounded(a, i);
    let e = token_end(a, i);
    if i == a.len() - 1 {
        assert(tokens_from(a, e).len() == 0);
        assert(tokens_from(a, i) =~= seq![(TokenType::LineBreak, seq!['\n'])]);
    } else {
        lemma_runs_prefix(a, Seq::empty(), i + 1);
        assert(e < a.len());
        lemma_tokens_of_line(a, e);
        assert(token_at(a, i).0 != TokenType::LineBreak);
        let ts = tokens_from(a, i);
        assert(ts == seq![token_at(a, i)] + tokens_from(a, e));
        assert forall|k: int| 0 <= k < ts.len() - 1 implies (#[trigger] ts[k]).0
            != TokenType::LineBreak by {
            if k > 0 {
                assert(ts[k] == tokens_from(a, e)[k - 1]);
            }
        }
    }
}

/// A comment line lexes apart from what follows it: the tokens of `;`, then
/// `comment` (with no line break), then a line break, then `rest`, are the
/// `;`, some tokens none of which is a line break, the line break, and then
/// exactly the tokens of `rest`.
pub proof fn lemma_comment_line_tokens(comment: Seq<char>, rest: Seq<char>)
    requires
        !comment.contains('\n'),
    ensures
        ({
            let ts = tokens_of(seq![';'] + comment + seq!['\n'] + rest);
            let n = ts.len() - tokens_of(rest).len();
            &&& 2 <= n <= ts.len()
            &&& ts[0].0 == TokenType::SemiColon
            &&& ts[n - 1].0 == TokenType::LineBreak
            &&& forall|k: int| 1 <= k < n - 1 ==> (#[trigger] ts[k]).0 != TokenType::LineBreak
            &&& ts.subrange(n, ts.len() as int) == tokens_of(rest)
        }),
{
    let a = seq![';'] + comment + seq!['\n'];
    assert(seq![';'] + comment + seq!['\n'] + rest == a + rest);
    assert forall|k: int| 0 <= k < a.len() - 1 implies a[k] != '\n' by {
        if k > 0 {
            assert(a[k] == comment[k - 1]);
        }
    }
    assert(a.last() == '\n');
    lemma_tokens_prefix(a, rest, 0);
    lemma_tokens_shift(a, rest, 0);
    assert(a + rest =~= (a + rest));
    let s = a + rest;
    assert(s.len() == a.len() + rest.len());
    assert(a.len() + 0 == a.len());
    let head = tokens_from(a, 0);
    assert(token_end(a, 0) == 1);
    lemma_tokens_of_line(a, 1);
    assert(head == seq![token_at(a, 0)] + tokens_from(a, 1));
    let ts = tokens_of(s);
    assert(ts == head + tokens_of(rest));
    let n = head.len() as int;
    assert(ts.subrange(n, ts.len() as int) =~= tokens_of(rest));
    assert forall|k: int| 1 <= k < n - 1 implies (#[trigger] ts[k]).0 != TokenType::LineBreak by {
        assert(ts[k] == tokens_from(a, 1)[k - 1]);
    }
    assert(ts[n - 1] == tokens_from(a, 1).last());
}

/// `t` holds no double quote.
pub open spec fn quote_free(t: Seq<char>) -> bool {
    forall|m: int| 0 <= m < t.len() ==> t[m] != '"'
}

proof fn lemma_runs_quote_free(s: Seq<char>, m: int)
    requires
        0 <= m <= s.len(),
    ensures
        quote_free(s.subrange(m, m + hex_run(s, m))),
        quote_free(s.subrange(m, m + ident_run(s, m))),
    decreases s.len() - m,
{
    lemma_hex_run_bounded(s, m);
    lemma_ident_run_bounded(s, m);
    if m < s.len() {
        lemma_runs_quote_free(s, m + 1);
        let h = s.subrange(m, m + hex_run(s, m));
        assert forall|k: int| 0 <= k < h.len() implies h[k] != '"' by {
            if k > 0 {
                assert(h[k] == s.subrange(m + 1, m + 1 + hex_run(s, m + 1))[k - 1]);
            }
        }
        let d = s.subrange(m, m + ident_run(s, m));
        assert forall|k: int| 0 <= k < d.len() implies d[k] != '"' by {
            if k > 0 {
                assert(d[k] == s.subrange(m + 1, m + 1 + ident_run(s, m + 1))[k - 1]);
            }
        }
    }
}

proof fn lemma_tokens_quote_free(s: Seq<char>, i: int)
    requires
        0 <= i <= s.len(),
    ensures
        forall|k: int|
            0 <= k < tokens_from(s, i).len() && (#[trigger] tokens_from(s, i)[k]).0
                != TokenType::DoubleQuote ==> quote_free(tokens_from(s, i)[k].1),
    decreases s.len() - i,
{
    if i < s.len() {
        lemma_token_end_bounded(s, i);
        let e = token_end(s, i);
        lemma_tokens_quote_free(s, e);
        lemma_runs_quote_free(s, i + 1);
        let t = token_at(s, i);
        if t.0 != TokenType::DoubleQuote {
            if s[i] == '$' {
                assert(t.1 == s.subrange(i + 1, i + 1 + hex_run(s, i + 1)));
            } else if single_char_kind(s[i]) is None && starts_identifier(s[i]) {
                let r = s.subrange(i + 1, i + 1 + ident_run(s, i + 1));
                assert forall|m: int| 0 <= m < t.1.len() implies t.1[m] != '"' by {
                    if m > 0 {
                        assert(t.1[m] == r[m - 1]);
                    }
                }
            }
        }
        let ts = tokens_from(s, i);
        assert forall|k: int|
            0 <= k < ts.len() && (#[trigger] ts[k]).0 != TokenType::DoubleQuote implies quote_free(
            ts[k].1) by {
            if k > 0 {
                assert(ts[k] == tokens_from(s, e)[k - 1]);
            }
        }
    }
}

/// Only a double-quote token holds a double quote: every other token of `s`
/// has a literal without one.
pub proof fn lemma_only_quote_tokens_hold_quotes(s: Seq<char>)
    ensures
        forall|k: int|
            0 <= k < tokens_of(s).len() && (#[trigger] tokens_of(s)[k]).0 != TokenType::DoubleQuote
                ==> quote_free(tokens_of(s)[k].1),
{
    lemma_tokens_quote_free(s, 0);
}

/// The tokens of `IF`, then `body` (which starts with no identifier character
/// and ends with a line break), then an `ENDC` line: the `IF` identifier, the
/// tokens of `body` on its own, the `ENDC` identifier and the line break.
pub proof fn lemma_if_block_tokens(body: Seq<char>)
    requires
        body.len() > 0,
        body.last() == '\n',
        !continues_identifier(body[0]),
    ensures
        tokens_of(seq!['I', 'F'] + body + seq!['E', 'N', 'D', 'C', '\n']) == seq![
            (TokenType::Identifier, seq!['I', 'F']),
        ] + tokens_of(body) + seq![
            (TokenType::Identifier, seq!['E', 'N', 'D', 'C']),
            (TokenType::LineBreak, seq!['\n']),
        ],
{
    let kw = seq!['I', 'F'];
    let a = kw + body;
    let tail = seq!['E', 'N', 'D', 'C', '\n'];
    let s = a + tail;
    assert(a.last() == '\n');
    lemma_tokens_prefix(a, tail, 0);
    lemma_tokens_shift(a, tail, 0);
    assert(a.len() + 0 == a.len());
    // the `IF` identifier
    assert(a[0] == 'I' && a[1] == 'F' && a[2] == body[0]);
    assert(ident_run(a, 2) == 0);
    assert(ident_run(a, 1) == 1);
    assert(token_end(a, 0) == 2);
    assert(a.subrange(0, 2) =~= kw);
    lemma_tokens_shift(kw, body, 0);
    assert(kw.len() + 0 == 2);
    assert(tokens_from(a, 0) == seq![(TokenType::Identifier, kw)] + tokens_of(body));
    // the `ENDC` line
    assert(ident_run(tail, 4) == 0);
    assert(ident_run(tail, 3) == 1);
    assert(ident_run(tail, 2) == 2);
    assert(ident_run(tail, 1) == 3);
    assert(token_end(tail, 0) == 4);
    assert(tail.subrange(0, 4) =~= seq!['E', 'N', 'D', 'C']);
    assert(token_end(tail, 4) == 5);
    assert(tokens_from(tail, 5).len() == 0);
    assert(tokens_from(tail, 4) =~= seq![(TokenType::LineBreak, seq!['\n'])]);
    assert(tokens_of(tail) =~= seq![
        (TokenType::Identifier, seq!['E', 'N', 'D', 'C']),
        (TokenType::LineBreak, seq!['\n']),
    ]);
    assert(kw + body + tail == s);
}

/// Where the cursor stands after `k` tokens are pulled from position `i`.
pub open spec fn position_after(s: Seq<char>, i: int, k: nat) -> int
    decreases k,
{
    if k == 0 || i < 0 || i >= s.len() {
        i
    } else {
        position_after(s, token_end(s, i), (k - 1) as nat)
    }
}

proof fn lemma_pulls_from(s: Seq<char>, i: int, k: nat)
    requires
        0 <= i <= s.len(),
        k <= tokens_from(s, i).len(),
    ensures
        0 <= position_after(s, i, k) <= s.len(),
        tokens_from(s, position_after(s, i, k)) == tokens_from(s, i).skip(k as int),
    decreases k,
{
    if k == 0 {
        assert(tokens_from(s, i).skip(0) =~= tokens_from(s, i));
    } else {
        assert(i < s.len());
        lemma_token_end_bounded(s, i);
        let e = token_end(s, i);
        lemma_pulls_from(s, e, (k - 1) as nat);
        assert(tokens_from(s, i).skip(k as int) =~= tokens_from(s, e).skip(k - 1));
    }
}

/// Pulling tokens one at a time from the start of `s`: after `k` successful
/// pulls the cursor stands where the remaining tokens of `s` begin, and the
/// next pull fails (the cursor is at the end) exactly when `k` is the number
/// of tokens of `s`.
pub proof fn lemma_pulls(s: Seq<char>, k: nat)
    requires
        k <= tokens_of(s).len(),
    ensures
        tokens_from(s, position_after(s, 0, k)) == tokens_of(s).skip(k as int),
        position_after(s, 0, k) >= s.len() <==> k == tokens_of(s).len(),
{
    lemma_pulls_from(s, 0, k);
    let p = position_after(s, 0, k);
    if p < s.len() {
        assert(tokens_from(s, p).len() > 0);
    }
}

} // verus!
