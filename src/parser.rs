use vstd::prelude::*;
use crate::ast::{
    error_kind_of, models, Ast, CharMapStatement, DefStatement, IfStatement, IncludeStatement, NewCharMapStatement,
    SectionStatement, Statement, StatementModel,
};
use crate::lexer::{
    continues_identifier, is_ascii_char, lemma_comment_line_tokens, lemma_if_block_tokens, lemma_only_quote_tokens_hold_quotes, quote_free,
    tokens_match, is_hex_char, is_hex_digit, tokens_of, Token, TokenType};

verus! {

/// Why a statement could not be parsed.
#[derive(Debug, Clone, Copy, PartialEq, Eq, Structural)]
pub enum ParseErrorKind {
    NoTokensLeft,
    UnsupportedToken,
    MissingQuoteAfterInclude,
    MissingQuoteAfterSection,
    MissingCommaAfterSectionName,
    MissingSectionType,
    NoIdentifierAfterNewCharMap,
    MissingCommaAfterCharMapValue,
    MissingNumberAfterCharMapValue,
    InvalidNumber,
}

/// A failure to parse a statement.
#[derive(Debug, Clone, Copy)]
pub struct ParsingError {
    pub kind: ParseErrorKind,
}

/// The fixed description of each kind of failure.
pub open spec fn message_of(k: ParseErrorKind) -> Seq<char> {
    match k {
        ParseErrorKind::NoTokensLeft => "no tokens left"@,
        ParseErrorKind::UnsupportedToken => "unsupported token found"@,
        ParseErrorKind::MissingQuoteAfterInclude => "missing quote after include"@,
        ParseErrorKind::MissingQuoteAfterSection => "missing quote after section"@,
        ParseErrorKind::MissingCommaAfterSectionName => "missing comma after section name"@,
        ParseErrorKind::MissingSectionType => "missing type after section name"@,
        ParseErrorKind::NoIdentifierAfterNewCharMap => "no identifier after newcharmap"@,
        ParseErrorKind::MissingCommaAfterCharMapValue => "missing comma after charmap value"@,
        ParseErrorKind::MissingNumberAfterCharMapValue => "missing number after charmap value"@,
        ParseErrorKind::InvalidNumber => "invalid hexadecimal number"@,
    }
}

impl ParsingError {
    /// A fixed human-readable description of the failure.
    pub fn error_message(&self) -> (r: &'static str)
        ensures
            r@ == message_of(self.kind),
    {
        match self.kind {
            ParseErrorKind::NoTokensLeft => "no tokens left",
            ParseErrorKind::UnsupportedToken => "unsupported token found",
            ParseErrorKind::MissingQuoteAfterInclude => "missing quote after include",
            ParseErrorKind::MissingQuoteAfterSection => "missing quote after section",
            ParseErrorKind::MissingCommaAfterSectionName => "missing comma after section name",
            ParseErrorKind::MissingSectionType => "missing type after section name",
            ParseErrorKind::NoIdentifierAfterNewCharMap => "no identifier after newcharmap",
            ParseErrorKind::MissingCommaAfterCharMapValue => "missing comma after charmap value",
            ParseErrorKind::MissingNumberAfterCharMapValue => "missing number after charmap value",
            ParseErrorKind::InvalidNumber => "invalid hexadecimal number",
        }
    }
}

/// A directive introduced by a keyword of its own.
#[derive(Debug, Clone, Copy, PartialEq, Eq, Structural)]
pub enum Directive {
    Include,
    Section,
    If,
    NewCharMap,
    CharMap,
}

/// What `str::to_lowercase` returns.
pub uninterp spec fn lower_of(s: Seq<char>) -> Seq<char>;

/// `c` made small where it is an ASCII capital letter, else `c` itself.
pub open spec fn ascii_small(c: char) -> char {
    if 'A' <= c && c <= 'Z' {
        ((c as u32) + 32) as char
    } else {
        c
    }
}

/// `lower` is `s` with each ASCII capital letter made small, where `s` is all ASCII.
pub open spec fn ascii_lowered(s: Seq<char>, lower: Seq<char>) -> bool {
    (forall|k: int| 0 <= k < s.len() ==> is_ascii_char(#[trigger] s[k])) ==> {
        &&& lower.len() == s.len()
        &&& forall|k: int|
            0 <= k < s.len() ==> #[trigger] lower[k] == ascii_small(s[k])
    }
}

/// Relies on `str::to_lowercase`, whose result depends on the characters
/// alone; on ASCII text it makes each capital letter small and keeps the rest.
#[verifier::external_body]
fn lowercase(s: &str) -> (r: String)
    ensures
        r@ == lower_of(s@),
        ascii_lowered(s@, r@),
{
    s.to_lowercase()
}

/// `s` is all ASCII.
pub open spec fn all_ascii(s: Seq<char>) -> bool {
    forall|k: int| 0 <= k < s.len() ==> is_ascii_char(#[trigger] s[k])
}

/// What `str::to_lowercase` gives for `s`: on ASCII text each capital letter
/// made small and the rest kept.
pub open spec fn lowered(s: Seq<char>) -> Seq<char> {
    if all_ascii(s) {
        s.map_values(|c: char| ascii_small(c))
    } else {
        lower_of(s)
    }
}

/// The text of `s` lower-cased.
fn lower_word(s: &str) -> (r: String)
    ensures
        r@ == lowered(s@),
{
    let r = lowercase(s);
    assert(all_ascii(s@) ==> r@ =~= s@.map_values(|c: char| ascii_small(c)));
    r
}

/// The value of a hexadecimal digit.
pub open spec fn hex_digit_value(c: char) -> int {
    if '0' <= c && c <= '9' {
        c as int - '0' as int
    } else if 'a' <= c && c <= 'f' {
        c as int - 'a' as int + 10
    } else {
        c as int - 'A' as int + 10
    }
}

/// The value of a run of hexadecimal digits, most significant first.
pub open spec fn hex_value(s: Seq<char>) -> int
    decreases s.len(),
{
    if s.len() == 0 {
        0
    } else {
        hex_value(s.drop_last()) * 16 + hex_digit_value(s.last())
    }
}

/// `s` is a non-empty run of hexadecimal digits.
pub open spec fn is_hex_numeral(s: Seq<char>) -> bool {
    s.len() > 0 && forall|k: int| 0 <= k < s.len() ==> is_hex_digit(#[trigger] s[k])
}

/// Relies on `i32::from_str_radix` in base 16: a non-empty run of hexadecimal
/// digits is read as their value, and is refused where that exceeds `i32::MAX`.
#[verifier::external_body]
fn parse_hex(s: &str) -> (r: Option<i32>)
    requires
        is_hex_numeral(s@),
    ensures
        hex_value(s@) <= i32::MAX ==> r == Some(hex_value(s@) as i32),
        hex_value(s@) > i32::MAX ==> r is None,
{
    i32::from_str_radix(s, 16).ok()
}

/// The directive that a lower-cased keyword introduces, if any.
pub open spec fn directive_spec(lower: Seq<char>) -> Option<Directive> {
    if lower == "include"@ {
        Some(Directive::Include)
    } else if lower == "section"@ {
        Some(Directive::Section)
    } else if lower == "if"@ {
        Some(Directive::If)
    } else if lower == "newcharmap"@ {
        Some(Directive::NewCharMap)
    } else if lower == "charmap"@ {
        Some(Directive::CharMap)
    } else {
        None
    }
}

/// The directive that `lower`, a lower-cased keyword, introduces, if any.
pub fn directive_of(lower: &String) -> (r: Option<Directive>)
    ensures
        r == directive_spec(lower@),
{
    if *lower == String::from_str("include") {
        Some(Directive::Include)
    } else if *lower == String::from_str("section") {
        Some(Directive::Section)
    } else if *lower == String::from_str("if") {
        Some(Directive::If)
    } else if *lower == String::from_str("newcharmap") {
        Some(Directive::NewCharMap)
    } else if *lower == String::from_str("charmap") {
        Some(Directive::CharMap)
    } else {
        None
    }
}

pub open spec fn is_blank(t: Token) -> bool {
    t.token_type == TokenType::Space || t.token_type == TokenType::Tab || t.token_type
        == TokenType::LineBreak
}

/// The first position at or after `i` that holds no space, tab or line break.
pub open spec fn skip_blank(toks: Seq<Token>, i: int) -> int
    decreases toks.len() - i,
{
    if 0 <= i < toks.len() && is_blank(toks[i]) {
        skip_blank(toks, i + 1)
    } else {
        i
    }
}

/// The first position at or after `i` that holds a line break, or the end.
pub open spec fn next_line_break(toks: Seq<Token>, i: int) -> int
    decreases toks.len() - i,
{
    if 0 <= i < toks.len() && toks[i].token_type != TokenType::LineBreak {
        next_line_break(toks, i + 1)
    } else {
        i
    }
}

/// The first position at or after `i` that holds a double quote, or the end.
pub open spec fn next_quote(toks: Seq<Token>, i: int) -> int
    decreases toks.len() - i,
{
    if 0 <= i < toks.len() && toks[i].token_type != TokenType::DoubleQuote {
        next_quote(toks, i + 1)
    } else {
        i
    }
}

/// `t` is an identifier that reads `ENDC` in any case.
pub open spec fn is_endc(t: Token) -> bool {
    t.token_type == TokenType::Identifier && lowered(t.literal@) == "endc"@
}

/// The first position at or after `i` that holds an `ENDC` identifier, or the end.
pub open spec fn next_endc(toks: Seq<Token>, i: int) -> int
    decreases toks.len() - i,
{
    if 0 <= i < toks.len() && !is_endc(toks[i]) {
        next_endc(toks, i + 1)
    } else {
        i
    }
}

/// The literals of the tokens in `[a, b)`, joined in order.
pub open spec fn joined(toks: Seq<Token>, a: int, b: int) -> Seq<char>
    decreases b - a,
{
    if a < b {
        joined(toks, a, b - 1) + toks[b - 1].literal@
    } else {
        Seq::empty()
    }
}

/// The position just after `i`, if `i` holds a token.
pub open spec fn step_over(toks: Seq<Token>, i: int) -> int {
    if i < toks.len() {
        i + 1
    } else {
        i
    }
}

/// A quoted string whose opening quote stands at `i`: its content, and the
/// position after its closing quote.
pub open spec fn string_at(toks: Seq<Token>, i: int) -> (Seq<char>, int) {
    let start = step_over(toks, i);
    let q = next_quote(toks, start);
    (joined(toks, start, q), step_over(toks, q))
}

/// The outcome of parsing one statement from position `i`, and the position
/// after it.
pub type Step = (Result<StatementModel, ParseErrorKind>, int);

/// `INCLUDE` whose keyword ends just before `i`.
pub open spec fn include_step(toks: Seq<Token>, i: int) -> Step {
    let q = skip_blank(toks, i);
    if q >= toks.len() || toks[q].token_type != TokenType::DoubleQuote {
        (Err(ParseErrorKind::MissingQuoteAfterInclude), q)
    } else {
        let s = string_at(toks, q);
        (Ok(StatementModel::Include { path: s.0 }), s.1)
    }
}

/// `SECTION` whose keyword ends just before `i`.
pub open spec fn section_step(toks: Seq<Token>, i: int) -> Step {
    let q = skip_blank(toks, i);
    if q >= toks.len() || toks[q].token_type != TokenType::DoubleQuote {
        (Err(ParseErrorKind::MissingQuoteAfterSection), q)
    } else {
        let s = string_at(toks, q);
        let c = s.1;
        if c >= toks.len() || toks[c].token_type != TokenType::Comma {
            (Err(ParseErrorKind::MissingCommaAfterSectionName), c)
        } else {
            let t = skip_blank(toks, c + 1);
            if t >= toks.len() {
                (Err(ParseErrorKind::MissingSectionType), t)
            } else {
                (Ok(StatementModel::Section { name: s.0, section_type: toks[t].literal@ }), t + 1)
            }
        }
    }
}

/// `IF` whose keyword ends just before `i`: everything up to and including
/// the first `ENDC` is skipped.
pub open spec fn if_step(toks: Seq<Token>, i: int) -> Step {
    (Ok(StatementModel::If), step_over(toks, next_endc(toks, i)))
}

/// `NEWCHARMAP` whose keyword ends just before `i`.
pub open spec fn new_char_map_step(toks: Seq<Token>, i: int) -> Step {
    let q = skip_blank(toks, i);
    if q >= toks.len() || toks[q].token_type != TokenType::Identifier {
        (Err(ParseErrorKind::NoIdentifierAfterNewCharMap), q)
    } else {
        (Ok(StatementModel::NewCharMap { name: toks[q].literal@ }), q + 1)
    }
}

/// `CHARMAP` whose keyword ends just before `i`.
pub open spec fn char_map_step(toks: Seq<Token>, i: int) -> Step {
    let q = skip_blank(toks, i);
    let s = string_at(toks, q);
    let c = s.1;
    if c >= toks.len() || toks[c].token_type != TokenType::Comma {
        (Err(ParseErrorKind::MissingCommaAfterCharMapValue), c)
    } else {
        let t = skip_blank(toks, c + 1);
        if t >= toks.len() || toks[t].token_type != TokenType::Number {
            (Err(ParseErrorKind::MissingNumberAfterCharMapValue), t)
        } else if !is_hex_numeral(toks[t].literal@) || hex_value(toks[t].literal@) > i32::MAX {
            (Err(ParseErrorKind::InvalidNumber), t)
        } else {
            (Ok(StatementModel::CharMap { value: s.0, code: hex_value(toks[t].literal@) }), t + 1)
        }
    }
}

/// The first position at or after `i` that holds no space or tab.
pub open spec fn skip_line_space(toks: Seq<Token>, i: int) -> int
    decreases toks.len() - i,
{
    if 0 <= i < toks.len() && (toks[i].token_type == TokenType::Space || toks[i].token_type
        == TokenType::Tab) {
        skip_line_space(toks, i + 1)
    } else {
        i
    }
}

/// A definition whose name stands at `i`, followed by `EQU`: the value runs
/// from the first token after `EQU` that is no space or tab up to the next
/// line break (it is empty where the line ends right after `EQU`).
pub open spec fn def_step(toks: Seq<Token>, i: int) -> Step {
    let e = skip_blank(toks, i + 1);
    let v = skip_line_space(toks, e + 1);
    let end = next_line_break(toks, v);
    (Ok(StatementModel::Def { name: toks[i].literal@, value: joined(toks, v, end) }), end)
}

/// The token at `i` is followed, past blanks, by a token that reads `EQU` in any case.
pub open spec fn followed_by_equ(toks: Seq<Token>, i: int) -> bool {
    let e = skip_blank(toks, i + 1);
    e < toks.len() && lowered(toks[e].literal@) == "equ"@
}

/// One statement parsed from position `i`, comments skipped.
pub open spec fn statement_step(toks: Seq<Token>, i: int) -> Step
    decreases toks.len() - i,
    via statement_step_decreases
{
    let q = skip_blank(toks, i);
    if q < 0 || q >= toks.len() {
        (Err(ParseErrorKind::NoTokensLeft), q)
    } else if toks[q].token_type == TokenType::SemiColon {
        statement_step(toks, next_line_break(toks, q + 1))
    } else if toks[q].token_type == TokenType::Identifier {
        match directive_spec(lowered(toks[q].literal@)) {
            Some(Directive::Include) => include_step(toks, q + 1),
            Some(Directive::Section) => section_step(toks, q + 1),
            Some(Directive::If) => if_step(toks, q + 1),
            Some(Directive::NewCharMap) => new_char_map_step(toks, q + 1),
            Some(Directive::CharMap) => char_map_step(toks, q + 1),
            None => if followed_by_equ(toks, q) {
                def_step(toks, q)
            } else {
                (Err(ParseErrorKind::UnsupportedToken), q)
            },
        }
    } else {
        (Err(ParseErrorKind::UnsupportedToken), q)
    }
}

#[via_fn]
proof fn statement_step_decreases(toks: Seq<Token>, i: int) {
    lemma_skip_blank_bounds(toks, i);
    let q = skip_blank(toks, i);
    if 0 <= q < toks.len() {
        lemma_next_line_break_bounds(toks, q + 1);
    }
}

pub proof fn lemma_skip_blank_bounds(toks: Seq<Token>, i: int)
    ensures
        i <= skip_blank(toks, i),
        i <= toks.len() ==> skip_blank(toks, i) <= toks.len(),
    decreases toks.len() - i,
{
    if 0 <= i < toks.len() && is_blank(toks[i]) {
        lemma_skip_blank_bounds(toks, i + 1);
    }
}

/// `skip_blank` stops on a token that is no blank, and skipping again moves nowhere.
pub proof fn lemma_skip_blank_stops(toks: Seq<Token>, i: int)
    requires
        0 <= i,
    ensures
        skip_blank(toks, i) < toks.len() ==> !is_blank(toks[skip_blank(toks, i)]),
        skip_blank(toks, skip_blank(toks, i)) == skip_blank(toks, i),
    decreases toks.len() - i,
{
    if 0 <= i < toks.len() && is_blank(toks[i]) {
        lemma_skip_blank_stops(toks, i + 1);
    }
}

pub proof fn lemma_hex_value_nonnegative(s: Seq<char>)
    requires
        forall|k: int| 0 <= k < s.len() ==> is_hex_digit(#[trigger] s[k]),
    ensures
        hex_value(s) >= 0,
    decreases s.len(),
{
    if s.len() > 0 {
        lemma_hex_value_nonnegative(s.drop_last());
        assert(is_hex_digit(s[s.len() - 1]));
    }
}

pub proof fn lemma_skip_line_space_bounds(toks: Seq<Token>, i: int)
    ensures
        i <= skip_line_space(toks, i),
        i <= toks.len() ==> skip_line_space(toks, i) <= toks.len(),
    decreases toks.len() - i,
{
    if 0 <= i < toks.len() && (toks[i].token_type == TokenType::Space || toks[i].token_type
        == TokenType::Tab) {
        lemma_skip_line_space_bounds(toks, i + 1);
    }
}

pub proof fn lemma_next_line_break_bounds(toks: Seq<Token>, i: int)
    ensures
        i <= next_line_break(toks, i),
        i <= toks.len() ==> next_line_break(toks, i) <= toks.len(),
    decreases toks.len() - i,
{
    if 0 <= i < toks.len() && toks[i].token_type != TokenType::LineBreak {
        lemma_next_line_break_bounds(toks, i + 1);
    }
}

pub proof fn lemma_next_quote_bounds(toks: Seq<Token>, i: int)
    ensures
        i <= next_quote(toks, i),
        i <= toks.len() ==> next_quote(toks, i) <= toks.len(),
    decreases toks.len() - i,
{
    if 0 <= i < toks.len() && toks[i].token_type != TokenType::DoubleQuote {
        lemma_next_quote_bounds(toks, i + 1);
    }
}

pub proof fn lemma_next_endc_bounds(toks: Seq<Token>, i: int)
    ensures
        i <= next_endc(toks, i),
        i <= toks.len() ==> next_endc(toks, i) <= toks.len(),
    decreases toks.len() - i,
{
    if 0 <= i < toks.len() && !is_endc(toks[i]) {
        lemma_next_endc_bounds(toks, i + 1);
    }
}

/// A quoted string ends after its opening quote and no later than the tokens.
pub proof fn lemma_string_at_bounds(toks: Seq<Token>, q: int)
    requires
        0 <= q < toks.len(),
    ensures
        q < string_at(toks, q).1 <= toks.len(),
{
    lemma_next_quote_bounds(toks, q + 1);
}

/// A statement that parses ends after the position it was parsed from, and
/// no later than the tokens.
pub proof fn lemma_statement_step_progress(toks: Seq<Token>, i: int)
    requires
        0 <= i,
    ensures
        statement_step(toks, i).0 is Ok ==> i < statement_step(toks, i).1 <= toks.len(),
    decreases toks.len() - i,
{
    lemma_skip_blank_bounds(toks, i);
    let q = skip_blank(toks, i);
    if 0 <= q < toks.len() {
        if toks[q].token_type == TokenType::SemiColon {
            lemma_next_line_break_bounds(toks, q + 1);
            lemma_statement_step_progress(toks, next_line_break(toks, q + 1));
        } else {
            lemma_skip_blank_bounds(toks, q + 1);
            lemma_next_endc_bounds(toks, q + 1);
            let q1 = skip_blank(toks, q + 1);
            if q1 < toks.len() {
                lemma_string_at_bounds(toks, q1);
                lemma_skip_blank_bounds(toks, q1 + 1);
                lemma_skip_line_space_bounds(toks, q1 + 1);
                lemma_next_line_break_bounds(toks, skip_line_space(toks, q1 + 1));
                let c = string_at(toks, q1).1;
                if c < toks.len() {
                    lemma_skip_blank_bounds(toks, c + 1);
                }
            }
        }
    }
}

/// The statements parsed one after another from position `i`, up to the end
/// of the tokens or the first failure, and that failure unless it is the end
/// of the tokens.
pub open spec fn parse_from(toks: Seq<Token>, i: int) -> (
    Seq<StatementModel>,
    Option<ParseErrorKind>,
)
    decreases toks.len() - i,
    via parse_from_decreases
{
    let s = statement_step(toks, i);
    if i < 0 {
        (Seq::empty(), None)
    } else if s.0 is Ok {
        let rest = parse_from(toks, s.1);
        (seq![s.0->Ok_0] + rest.0, rest.1)
    } else if s.0->Err_0 == ParseErrorKind::NoTokensLeft {
        (Seq::empty(), None)
    } else {
        (Seq::empty(), Some(s.0->Err_0))
    }
}

#[via_fn]
proof fn parse_from_decreases(toks: Seq<Token>, i: int) {
    if 0 <= i {
        lemma_statement_step_progress(toks, i);
    }
}

/// All the statements of `toks`, and the failure that stopped parsing, if any.
pub open spec fn parse_tokens(toks: Seq<Token>) -> (Seq<StatementModel>, Option<ParseErrorKind>) {
    parse_from(toks, 0)
}

/// The value of a parse outcome.
pub open spec fn result_model(r: Result<Statement, ParsingError>) -> Result<
    StatementModel,
    ParseErrorKind,
> {
    match r {
        Ok(s) => Ok(s@),
        Err(e) => Err(e.kind),
    }
}

/// Whether `s` is a non-empty run of hexadecimal digits.
fn all_hex(s: &str) -> (r: bool)
    ensures
        r == is_hex_numeral(s@),
{
    let n = s.unicode_len();
    if n == 0 {
        return false;
    }
    let mut k: usize = 0;
    while k < n
        invariant
            n == s@.len(),
            k <= n,
            forall|j: int| 0 <= j < k ==> is_hex_digit(#[trigger] s@[j]),
        decreases n - k,
    {
        if !is_hex_char(s.get_char(k)) {
            return false;
        }
        k = k + 1;
    }
    true
}

/// A forward-only cursor over a token stream.
pub struct Parser {
    tokens: Vec<Token>,
    position: usize,
}

impl Parser {
    /// The tokens that the parser reads.
    pub closed spec fn tokens(&self) -> Seq<Token> {
        self.tokens@
    }

    /// The position of the current token.
    pub closed spec fn cursor(&self) -> int {
        self.position as int
    }

    pub closed spec fn well_formed(&self) -> bool {
        self.position <= self.tokens.len()
    }

    pub fn new(tokens: Vec<Token>) -> (p: Self)
        ensures
            p.well_formed(),
            p.tokens() == tokens@,
            p.cursor() == 0,
    {
        Parser { tokens, position: 0 }
    }

    /// Parses the next statement, skipping blanks and comments before it.
    pub fn next_statement(&mut self) -> (r: Result<Statement, ParsingError>)
        requires
            old(self).well_formed(),
        ensures
            final(self).well_formed(),
            final(self).tokens() == old(self).tokens(),
            (result_model(r), final(self).cursor()) == statement_step(
                old(self).tokens(),
                old(self).cursor(),
            ),
    {
        let ghost toks = self.tokens@;
        let ghost start = self.position as int;
        loop
            invariant
                self.well_formed(),
                self.tokens@ == toks,
                toks == old(self).tokens@,
                start == old(self).position,
                statement_step(toks, self.position as int) == statement_step(toks, start),
            ensures
                self.well_formed(),
                self.tokens@ == toks,
                statement_step(toks, self.position as int) == statement_step(toks, start),
                self.position < self.tokens.len(),
                !is_blank(toks[self.position as int]),
                toks[self.position as int].token_type != TokenType::SemiColon,
            decreases self.tokens.len() - self.position,
        {
            let ghost before = self.position as int;
            proof {
                lemma_skip_blank_stops(toks, before);
                lemma_skip_blank_bounds(toks, before);
            }
            self.skip_spaces();
            if self.position >= self.tokens.len() {
                return Err(ParsingError { kind: ParseErrorKind::NoTokensLeft });
            }
            if self.tokens[self.position].token_type != TokenType::SemiColon {
                break ;
            }
            proof {
                lemma_next_line_break_bounds(toks, self.position + 1);
            }
            self.skip_comment();
        }
        let q = self.position;
        proof {
            lemma_skip_blank_bounds(toks, q + 1);
        }
        if self.tokens[q].token_type != TokenType::Identifier {
            return Err(ParsingError { kind: ParseErrorKind::UnsupportedToken });
        }
        let lower = lower_word(self.tokens[q].literal.as_str());
        match directive_of(&lower) {
            Some(Directive::Include) => {
                self.next_token();
                self.parse_include()
            },
            Some(Directive::Section) => {
                self.next_token();
                self.parse_section()
            },
            Some(Directive::If) => {
                self.next_token();
                self.parse_if()
            },
            Some(Directive::NewCharMap) => {
                self.next_token();
                self.parse_new_char_map()
            },
            Some(Directive::CharMap) => {
                self.next_token();
                self.parse_char_map()
            },
            None => {
                match self.peek_token() {
                    Some(e) => {
                        let next_lower = lower_word(self.tokens[e].literal.as_str());
                        if next_lower == String::from_str("equ") {
                            self.parse_def()
                        } else {
                            Err(ParsingError { kind: ParseErrorKind::UnsupportedToken })
                        }
                    },
                    None => Err(ParsingError { kind: ParseErrorKind::UnsupportedToken }),
                }
            },
        }
    }

    fn parse_include(&mut self) -> (r: Result<Statement, ParsingError>)
        requires
            old(self).well_formed(),
        ensures
            final(self).well_formed(),
            final(self).tokens() == old(self).tokens(),
            (result_model(r), final(self).cursor()) == include_step(
                old(self).tokens(),
                old(self).cursor(),
            ),
    {
        self.skip_spaces();
        if self.position >= self.tokens.len() || self.tokens[self.position].token_type
            != TokenType::DoubleQuote {
            return Err(ParsingError { kind: ParseErrorKind::MissingQuoteAfterInclude });
        }
        let path = self.next_string();
        Ok(Statement::Include(IncludeStatement { path }))
    }

    fn parse_section(&mut self) -> (r: Result<Statement, ParsingError>)
        requires
            old(self).well_formed(),
        ensures
            final(self).well_formed(),
            final(self).tokens() == old(self).tokens(),
            (result_model(r), final(self).cursor()) == section_step(
                old(self).tokens(),
                old(self).cursor(),
            ),
    {
        self.skip_spaces();
        if self.position >= self.tokens.len() || self.tokens[self.position].token_type
            != TokenType::DoubleQuote {
            return Err(ParsingError { kind: ParseErrorKind::MissingQuoteAfterSection });
        }
        let name = self.next_string();
        if self.position >= self.tokens.len() || self.tokens[self.position].token_type
            != TokenType::Comma {
            return Err(ParsingError { kind: ParseErrorKind::MissingCommaAfterSectionName });
        }
        self.next_token();
        self.skip_spaces();
        if self.position >= self.tokens.len() {
            return Err(ParsingError { kind: ParseErrorKind::MissingSectionType });
        }
        let section_type = self.tokens[self.position].literal.clone();
        self.next_token();
        Ok(Statement::Section(SectionStatement { name, section_type }))
    }

    fn parse_if(&mut self) -> (r: Result<Statement, ParsingError>)
        requires
            old(self).well_formed(),
        ensures
            final(self).well_formed(),
            final(self).tokens() == old(self).tokens(),
            (result_model(r), final(self).cursor()) == if_step(
                old(self).tokens(),
                old(self).cursor(),
            ),
    {
        let ghost toks = self.tokens@;
        let ghost start = self.position as int;
        while self.position < self.tokens.len()
            invariant
                self.well_formed(),
                self.tokens@ == toks,
                next_endc(toks, start) == next_endc(toks, self.position as int),
            ensures
                self.well_formed(),
                self.tokens@ == toks,
                next_endc(toks, start) == self.position,
            decreases self.tokens.len() - self.position,
        {
            if self.tokens[self.position].token_type == TokenType::Identifier {
                let lower = lower_word(self.tokens[self.position].literal.as_str());
                if lower == String::from_str("endc") {
                    break ;
                }
            }
            self.position = self.position + 1;
        }
        self.next_token();
        Ok(Statement::If(IfStatement {  }))
    }

    fn parse_new_char_map(&mut self) -> (r: Result<Statement, ParsingError>)
        requires
            old(self).well_formed(),
        ensures
            final(self).well_formed(),
            final(self).tokens() == old(self).tokens(),
            (result_model(r), final(self).cursor()) == new_char_map_step(
                old(self).tokens(),
                old(self).cursor(),
            ),
    {
        self.skip_spaces();
        if self.position >= self.tokens.len() || self.tokens[self.position].token_type
            != TokenType::Identifier {
            return Err(ParsingError { kind: ParseErrorKind::NoIdentifierAfterNewCharMap });
        }
        let name = self.tokens[self.position].literal.clone();
        self.next_token();
        Ok(Statement::NewCharMap(NewCharMapStatement { name }))
    }

    fn parse_char_map(&mut self) -> (r: Result<Statement, ParsingError>)
        requires
            old(self).well_formed(),
        ensures
            final(self).well_formed(),
            final(self).tokens() == old(self).tokens(),
            (result_model(r), final(self).cursor()) == char_map_step(
                old(self).tokens(),
                old(self).cursor(),
            ),
    {
        self.skip_spaces();
        let value = self.next_string();
        if self.position >= self.tokens.len() || self.tokens[self.position].token_type
            != TokenType::Comma {
            return Err(ParsingError { kind: ParseErrorKind::MissingCommaAfterCharMapValue });
        }
        self.next_token();
        self.skip_spaces();
        if self.position >= self.tokens.len() || self.tokens[self.position].token_type
            != TokenType::Number {
            return Err(ParsingError { kind: ParseErrorKind::MissingNumberAfterCharMapValue });
        }
        let digits = self.tokens[self.position].literal.as_str();
        if !all_hex(digits) {
            return Err(ParsingError { kind: ParseErrorKind::InvalidNumber });
        }
        proof {
            lemma_hex_value_nonnegative(digits@);
        }
        match parse_hex(digits) {
            Some(code) => {
                self.next_token();
                Ok(Statement::CharMap(CharMapStatement { value, code }))
            },
            None => Err(ParsingError { kind: ParseErrorKind::InvalidNumber }),
        }
    }

    fn parse_def(&mut self) -> (r: Result<Statement, ParsingError>)
        requires
            old(self).well_formed(),
            old(self).cursor() < old(self).tokens().len(),
            followed_by_equ(old(self).tokens(), old(self).cursor()),
        ensures
            final(self).well_formed(),
            final(self).tokens() == old(self).tokens(),
            (result_model(r), final(self).cursor()) == def_step(
                old(self).tokens(),
                old(self).cursor(),
            ),
    {
        let ghost toks = self.tokens@;
        let name = self.tokens[self.position].literal.clone();
        self.next_token();
        self.skip_spaces();
        self.next_token();
        self.skip_line_spaces();
        let ghost start = self.position as int;
        let mut value = String::new();
        while self.position < self.tokens.len() && self.tokens[self.position].token_type
            != TokenType::LineBreak
            invariant
                self.well_formed(),
                self.tokens@ == toks,
                start <= self.position,
                value@ == joined(toks, start, self.position as int),
                next_line_break(toks, start) == next_line_break(toks, self.position as int),
            decreases self.tokens.len() - self.position,
        {
            value.append(self.tokens[self.position].literal.as_str());
            self.position = self.position + 1;
        }
        Ok(Statement::Def(DefStatement { name, value }))
    }

    /// Moves past the spaces, tabs and line breaks under the cursor.
    fn skip_spaces(&mut self)
        requires
            old(self).well_formed(),
        ensures
            final(self).well_formed(),
            final(self).tokens() == old(self).tokens(),
            final(self).cursor() == skip_blank(old(self).tokens(), old(self).cursor()),
    {
        let ghost toks = self.tokens@;
        let ghost start = self.position as int;
        while self.position < self.tokens.len() && (self.tokens[self.position].token_type
            == TokenType::Space || self.tokens[self.position].token_type == TokenType::Tab
            || self.tokens[self.position].token_type == TokenType::LineBreak)
            invariant
                self.well_formed(),
                self.tokens@ == toks,
                skip_blank(toks, start) == skip_blank(toks, self.position as int),
            decreases self.tokens.len() - self.position,
        {
            self.position = self.position + 1;
        }
    }

    /// Moves past the spaces and tabs under the cursor, stopping at a line break.
    fn skip_line_spaces(&mut self)
        requires
            old(self).well_formed(),
        ensures
            final(self).well_formed(),
            final(self).tokens() == old(self).tokens(),
            final(self).cursor() == skip_line_space(old(self).tokens(), old(self).cursor()),
    {
        let ghost toks = self.tokens@;
        let ghost start = self.position as int;
        while self.position < self.tokens.len() && (self.tokens[self.position].token_type
            == TokenType::Space || self.tokens[self.position].token_type == TokenType::Tab)
            invariant
                self.well_formed(),
                self.tokens@ == toks,
                skip_line_space(toks, start) == skip_line_space(toks, self.position as int),
            decreases self.tokens.len() - self.position,
        {
            self.position = self.position + 1;
        }
    }

    /// Moves from the `;` under the cursor to the line break that ends the comment.
    fn skip_comment(&mut self)
        requires
            old(self).well_formed(),
            old(self).cursor() < old(self).tokens().len(),
        ensures
            final(self).well_formed(),
            final(self).tokens() == old(self).tokens(),
            final(self).cursor() == next_line_break(old(self).tokens(), old(self).cursor() + 1),
    {
        let ghost toks = self.tokens@;
        self.next_token();
        let ghost start = self.position as int;
        while self.position < self.tokens.len() && self.tokens[self.position].token_type
            != TokenType::LineBreak
            invariant
                self.well_formed(),
                self.tokens@ == toks,
                next_line_break(toks, start) == next_line_break(toks, self.position as int),
            decreases self.tokens.len() - self.position,
        {
            self.position = self.position + 1;
        }
    }

    /// Reads a quoted string whose opening quote is under the cursor: the
    /// literals up to the closing quote, joined; the closing quote is skipped.
    fn next_string(&mut self) -> (r: String)
        requires
            old(self).well_formed(),
        ensures
            final(self).well_formed(),
            final(self).tokens() == old(self).tokens(),
            (r@, final(self).cursor()) == string_at(old(self).tokens(), old(self).cursor()),
    {
        let ghost toks = self.tokens@;
        self.next_token();
        let ghost start = self.position as int;
        let mut data = String::new();
        while self.position < self.tokens.len() && self.tokens[self.position].token_type
            != TokenType::DoubleQuote
            invariant
                self.well_formed(),
                self.tokens@ == toks,
                start <= self.position,
                data@ == joined(toks, start, self.position as int),
                next_quote(toks, start) == next_quote(toks, self.position as int),
            decreases self.tokens.len() - self.position,
        {
            data.append(self.tokens[self.position].literal.as_str());
            self.position = self.position + 1;
        }
        self.next_token();
        data
    }

    /// Moves past the current token, if there is one.
    fn next_token(&mut self)
        requires
            old(self).well_formed(),
        ensures
            final(self).well_formed(),
            final(self).tokens() == old(self).tokens(),
            final(self).cursor() == step_over(old(self).tokens(), old(self).cursor()),
    {
        if self.position < self.tokens.len() {
            self.position = self.position + 1;
        }
    }

    /// The position of the first token after the current one that is no
    /// space, tab or line break, if there is one.
    fn peek_token(&self) -> (r: Option<usize>)
        requires
            self.well_formed(),
            self.cursor() < self.tokens().len(),
        ensures
            skip_blank(self.tokens(), self.cursor() + 1) < self.tokens().len() ==> r == Some(
                skip_blank(self.tokens(), self.cursor() + 1) as usize,
            ),
            skip_blank(self.tokens(), self.cursor() + 1) >= self.tokens().len() ==> r is None,
    {
        let ghost toks = self.tokens@;
        let mut k = self.position + 1;
        while k < self.tokens.len() && (self.tokens[k].token_type == TokenType::Space
            || self.tokens[k].token_type == TokenType::Tab || self.tokens[k].token_type
            == TokenType::LineBreak)
            invariant
                self.position < k <= self.tokens.len(),
                self.tokens@ == toks,
                skip_blank(toks, self.position + 1) == skip_blank(toks, k as int),
            decreases self.tokens.len() - k,
        {
            k = k + 1;
        }
        if k < self.tokens.len() {
            Some(k)
        } else {
            None
        }
    }
}

/// Parses statements one after another, in source order, until the tokens
/// run out or a statement fails; a failure other than running out of tokens
/// is kept beside the statements parsed before it.
pub fn parse_ast(tokens: Vec<Token>) -> (r: Ast)
    ensures
        models(r.statements@) == parse_tokens(tokens@).0,
        error_kind_of(r.error) == parse_tokens(tokens@).1,
{
    let mut parser = Parser::new(tokens);
    let ghost toks = parser.tokens();
    let mut statements: Vec<Statement> = Vec::new();
    let mut error: Option<ParsingError> = None;
    loop
        invariant_except_break
            models(statements@) + parse_from(toks, parser.cursor()).0 == parse_tokens(toks).0,
            parse_from(toks, parser.cursor()).1 == parse_tokens(toks).1,
            error is None,
        invariant
            parser.well_formed(),
            parser.tokens() == toks,
            toks == tokens@,
            0 <= parser.cursor(),
        ensures
            models(statements@) == parse_tokens(toks).0,
            error_kind_of(error) == parse_tokens(toks).1,
        decreases toks.len() - parser.cursor(),
    {
        let ghost cur = parser.cursor();
        proof {
            lemma_statement_step_progress(toks, cur);
        }
        match parser.next_statement() {
            Ok(statement) => {
                proof {
                    let rest = parse_from(toks, parser.cursor()).0;
                    assert(models(statements@.push(statement)) =~= models(statements@).push(
                        statement@,
                    ));
                    assert(models(statements@).push(statement@) + rest =~= models(statements@) + (
                    seq![statement@] + rest));
                }
                statements.push(statement);
            },
            Err(e) => {
                assert(models(statements@) + Seq::<StatementModel>::empty() =~= models(
                    statements@,
                ));
                if e.kind != ParseErrorKind::NoTokensLeft {
                    error = Some(e);
                }
                break ;
            },
        }
    }
    Ast { statements, error }
}

/// A comment yields no statement and leaves what follows it alone: parsing
/// from a `;` (blanks before it skipped) gives exactly what parsing from the
/// line break that ends the comment gives.
pub proof fn lemma_comment_is_skipped(toks: Seq<Token>, i: int)
    requires
        0 <= i,
        skip_blank(toks, i) < toks.len(),
        toks[skip_blank(toks, i)].token_type == TokenType::SemiColon,
    ensures
        parse_from(toks, i) == parse_from(toks, next_line_break(toks, skip_blank(toks, i) + 1)),
{
    lemma_skip_blank_bounds(toks, i);
    lemma_next_line_break_bounds(toks, skip_blank(toks, i) + 1);
    assert(statement_step(toks, i) == statement_step(
        toks,
        next_line_break(toks, skip_blank(toks, i) + 1),
    ));
}

proof fn lemma_skip_all_blank(toks: Seq<Token>, i: int)
    requires
        0 <= i <= toks.len(),
        forall|k: int| 0 <= k < toks.len() ==> is_blank(#[trigger] toks[k]),
    ensures
        skip_blank(toks, i) == toks.len(),
    decreases toks.len() - i,
{
    if i < toks.len() {
        lemma_skip_all_blank(toks, i + 1);
    }
}

/// Empty input is no failure: it has no tokens, and tokens that are all
/// spaces, tabs or line breaks (none at all among them) give no statement
/// and no failure.
pub proof fn lemma_empty_input_parses_to_nothing(toks: Seq<Token>)
    requires
        forall|k: int| 0 <= k < toks.len() ==> is_blank(#[trigger] toks[k]),
    ensures
        tokens_of(Seq::empty()).len() == 0,
        parse_tokens(toks).0.len() == 0,
        parse_tokens(toks).1 is None,
{
    lemma_skip_all_blank(toks, 0);
}

/// An `IF` block is one marker whatever it holds: parsing from an `IF`
/// keyword (blanks before it skipped) yields the marker, then what parsing
/// yields from just after the first `ENDC` identifier; with no `ENDC`, the
/// rest of the tokens is consumed.
pub proof fn lemma_if_block_is_one_marker(toks: Seq<Token>, i: int)
    requires
        0 <= i,
        skip_blank(toks, i) < toks.len(),
        toks[skip_blank(toks, i)].token_type == TokenType::Identifier,
        lowered(toks[skip_blank(toks, i)].literal@) == "if"@,
    ensures
        ({
            let after = step_over(toks, next_endc(toks, skip_blank(toks, i) + 1));
            &&& parse_from(toks, i).0 == seq![StatementModel::If] + parse_from(toks, after).0
            &&& parse_from(toks, i).1 == parse_from(toks, after).1
        }),
{
    reveal_strlit("if");
    reveal_strlit("include");
    reveal_strlit("section");
    assert("if"@.len() != "include"@.len());
    assert("if"@.len() != "section"@.len());
    assert(directive_spec("if"@) == Some(Directive::If));
    let q = skip_blank(toks, i);
    lemma_skip_blank_bounds(toks, i);
    assert(toks[q].token_type != TokenType::SemiColon);
    assert(statement_step(toks, i) == if_step(toks, q + 1));
    assert(statement_step(toks, i).0 is Ok);
}

proof fn lemma_next_line_break_at(toks: Seq<Token>, i: int, m: int)
    requires
        0 <= i <= m < toks.len(),
        toks[m].token_type == TokenType::LineBreak,
        forall|k: int| i <= k < m ==> (#[trigger] toks[k]).token_type != TokenType::LineBreak,
    ensures
        next_line_break(toks, i) == m,
    decreases m - i,
{
    if i < m {
        lemma_next_line_break_at(toks, i + 1, m);
    }
}

/// A comment line yields no statement and leaves the lines after it alone:
/// parsing the tokens of `;`, `comment`, a line break and `rest` gives exactly
/// what parsing gives from where the tokens of `rest` begin, and from there on
/// the tokens are exactly those of `rest` lexed on its own.
pub proof fn lemma_comment_line_is_skipped(comment: Seq<char>, rest: Seq<char>, toks: Seq<Token>)
    requires
        !comment.contains('\n'),
        tokens_match(toks, tokens_of(seq![';'] + comment + seq!['\n'] + rest)),
    ensures
        ({
            let n = toks.len() - tokens_of(rest).len();
            &&& 0 <= n <= toks.len()
            &&& parse_tokens(toks) == parse_from(toks, n)
            &&& tokens_match(toks.subrange(n, toks.len() as int), tokens_of(rest))
        }),
{
    lemma_comment_line_tokens(comment, rest);
    let ts = tokens_of(seq![';'] + comment + seq!['\n'] + rest);
    let n = toks.len() - tokens_of(rest).len();
    assert(toks[0].token_type == ts[0].0);
    assert(toks[n - 1].token_type == ts[n - 1].0);
    assert forall|k: int| 1 <= k < n - 1 implies (#[trigger] toks[k]).token_type
        != TokenType::LineBreak by {
        assert(toks[k].token_type == ts[k].0);
    }
    assert(skip_blank(toks, 0) == 0);
    lemma_comment_is_skipped(toks, 0);
    lemma_next_line_break_at(toks, 1, n - 1);
    assert(skip_blank(toks, n - 1) == skip_blank(toks, n));
    assert(statement_step(toks, n - 1) == statement_step(toks, n));
    assert(parse_from(toks, n - 1) == parse_from(toks, n));
    let tail = toks.subrange(n, toks.len() as int);
    assert forall|k: int| 0 <= k < tail.len() implies (#[trigger] tail[k]).token_type
        == tokens_of(rest)[k].0 && tail[k].literal@ == tokens_of(rest)[k].1 by {
        assert(tail[k] == toks[n + k]);
        assert(ts.subrange(n, ts.len() as int)[k] == ts[n + k]);
    }
}

/// From position `i` on, `a` holds tokens of the same kinds and literals as `b`.
pub open spec fn same_suffix(a: Seq<Token>, i: int, b: Seq<Token>) -> bool {
    &&& 0 <= i
    &&& a.len() - i == b.len()
    &&& forall|k: int|
        0 <= k < b.len() ==> (#[trigger] b[k]).token_type == a[i + k].token_type
            && b[k].literal@ == a[i + k].literal@
}

proof fn lemma_scans_shift(a: Seq<Token>, i: int, b: Seq<Token>, j: int)
    requires
        same_suffix(a, i, b),
        0 <= j <= b.len(),
    ensures
        skip_blank(a, i + j) == i + skip_blank(b, j),
        skip_line_space(a, i + j) == i + skip_line_space(b, j),
        next_line_break(a, i + j) == i + next_line_break(b, j),
        next_quote(a, i + j) == i + next_quote(b, j),
        next_endc(a, i + j) == i + next_endc(b, j),
        step_over(a, i + j) == i + step_over(b, j),
    decreases b.len() - j,
{
    if j < b.len() {
        assert(b[j].token_type == a[i + j].token_type && b[j].literal@ == a[i + j].literal@);
        lemma_scans_shift(a, i, b, j + 1);
    }
}

proof fn lemma_joined_shift(a: Seq<Token>, i: int, b: Seq<Token>, x: int, y: int)
    requires
        same_suffix(a, i, b),
        0 <= x,
        y <= b.len(),
    ensures
        joined(a, i + x, i + y) == joined(b, x, y),
    decreases y - x,
{
    if x < y {
        lemma_joined_shift(a, i, b, x, y - 1);
        assert(b[y - 1].literal@ == a[i + y - 1].literal@);
    }
}

proof fn lemma_string_at_shift(a: Seq<Token>, i: int, b: Seq<Token>, q: int)
    requires
        same_suffix(a, i, b),
        0 <= q <= b.len(),
    ensures
        string_at(a, i + q) == (string_at(b, q).0, i + string_at(b, q).1),
{
    lemma_scans_shift(a, i, b, q);
    let start = step_over(b, q);
    lemma_scans_shift(a, i, b, start);
    lemma_next_quote_bounds(b, start);
    let nq = next_quote(b, start);
    lemma_scans_shift(a, i, b, nq);
    lemma_joined_shift(a, i, b, start, nq);
}

proof fn lemma_statement_step_shift(a: Seq<Token>, i: int, b: Seq<Token>, j: int)
    requires
        same_suffix(a, i, b),
        0 <= j <= b.len(),
    ensures
        statement_step(a, i + j) == (statement_step(b, j).0, i + statement_step(b, j).1),
    decreases b.len() - j,
{
    lemma_scans_shift(a, i, b, j);
    lemma_skip_blank_bounds(b, j);
    let q = skip_blank(b, j);
    if q < b.len() {
        assert(b[q].token_type == a[i + q].token_type && b[q].literal@ == a[i + q].literal@);
        if b[q].token_type == TokenType::SemiColon {
            lemma_scans_shift(a, i, b, q + 1);
            lemma_next_line_break_bounds(b, q + 1);
            lemma_statement_step_shift(a, i, b, next_line_break(b, q + 1));
        } else {
            lemma_scans_shift(a, i, b, q + 1);
            lemma_skip_blank_bounds(b, q + 1);
            let q1 = skip_blank(b, q + 1);
            lemma_string_at_shift(a, i, b, q1);
            if q1 < b.len() {
                assert(b[q1].token_type == a[i + q1].token_type && b[q1].literal@ == a[i
                    + q1].literal@);
                lemma_scans_shift(a, i, b, q1 + 1);
                lemma_skip_line_space_bounds(b, q1 + 1);
                let v = skip_line_space(b, q1 + 1);
                lemma_scans_shift(a, i, b, v);
                lemma_next_line_break_bounds(b, v);
                lemma_joined_shift(a, i, b, v, next_line_break(b, v));
            }
            lemma_next_quote_bounds(b, step_over(b, q1));
            let c = string_at(b, q1).1;
            if c < b.len() {
                assert(b[c].token_type == a[i + c].token_type);
                lemma_scans_shift(a, i, b, c + 1);
                lemma_skip_blank_bounds(b, c + 1);
                let t = skip_blank(b, c + 1);
                if t < b.len() {
                    assert(b[t].token_type == a[i + t].token_type && b[t].literal@ == a[i
                        + t].literal@);
                }
            }
            lemma_next_endc_bounds(b, q + 1);
            lemma_scans_shift(a, i, b, next_endc(b, q + 1));
        }
    }
}

proof fn lemma_parse_from_shift(a: Seq<Token>, i: int, b: Seq<Token>, j: int)
    requires
        same_suffix(a, i, b),
        0 <= j <= b.len(),
    ensures
        parse_from(a, i + j) == parse_from(b, j),
    decreases b.len() - j,
{
    lemma_statement_step_shift(a, i, b, j);
    lemma_statement_step_progress(b, j);
    let s = statement_step(b, j);
    if s.0 is Ok {
        lemma_parse_from_shift(a, i, b, s.1);
    }
}

/// A comment line yields no statement and does not disturb the lines after
/// it: the tokens of `;`, `comment` (with no line break), a line break and
/// `rest` parse to exactly the statements, and the failure, that the tokens
/// of `rest` alone parse to.
pub proof fn lemma_comment_line_parses_like_the_rest(
    comment: Seq<char>,
    rest: Seq<char>,
    toks: Seq<Token>,
    rest_toks: Seq<Token>,
)
    requires
        !comment.contains('\n'),
        tokens_match(toks, tokens_of(seq![';'] + comment + seq!['\n'] + rest)),
        tokens_match(rest_toks, tokens_of(rest)),
    ensures
        parse_tokens(toks) == parse_tokens(rest_toks),
{
    lemma_comment_line_is_skipped(comment, rest, toks);
    let n = toks.len() - tokens_of(rest).len();
    let tail = toks.subrange(n, toks.len() as int);
    assert forall|k: int| 0 <= k < rest_toks.len() implies (#[trigger] rest_toks[k]).token_type
        == toks[n + k].token_type && rest_toks[k].literal@ == toks[n + k].literal@ by {
        assert(tail[k] == toks[n + k]);
    }
    lemma_parse_from_shift(toks, n, rest_toks, 0);
}

/// Every token of `toks` but a double quote has a literal without a double quote.
pub open spec fn quotes_only_in_quote_tokens(toks: Seq<Token>) -> bool {
    forall|k: int|
        0 <= k < toks.len() && (#[trigger] toks[k]).token_type != TokenType::DoubleQuote
            ==> quote_free(toks[k].literal@)
}

proof fn lemma_before_next_quote(toks: Seq<Token>, i: int)
    requires
        0 <= i,
    ensures
        forall|k: int|
            i <= k < next_quote(toks, i) ==> (#[trigger] toks[k]).token_type
                != TokenType::DoubleQuote,
    decreases toks.len() - i,
{
    if 0 <= i < toks.len() && toks[i].token_type != TokenType::DoubleQuote {
        lemma_before_next_quote(toks, i + 1);
    }
}

proof fn lemma_joined_quote_free(toks: Seq<Token>, a: int, b: int)
    requires
        quotes_only_in_quote_tokens(toks),
        0 <= a,
        b <= toks.len(),
        forall|k: int| a <= k < b ==> (#[trigger] toks[k]).token_type != TokenType::DoubleQuote,
    ensures
        quote_free(joined(toks, a, b)),
    decreases b - a,
{
    if a < b {
        lemma_joined_quote_free(toks, a, b - 1);
        assert(toks[b - 1].token_type != TokenType::DoubleQuote);
        let j = joined(toks, a, b - 1);
        let l = toks[b - 1].literal@;
        assert forall|m: int| 0 <= m < (j + l).len() implies (j + l)[m] != '"' by {
            if m >= j.len() {
                assert((j + l)[m] == l[m - j.len()]);
            }
        }
    }
}

proof fn lemma_step_path_quote_free(toks: Seq<Token>, j: int)
    requires
        quotes_only_in_quote_tokens(toks),
        0 <= j,
    ensures
        statement_step(toks, j).0 matches Ok(StatementModel::Include { path }) ==> quote_free(path),
    decreases toks.len() - j,
{
    lemma_skip_blank_bounds(toks, j);
    let q = skip_blank(toks, j);
    if q < toks.len() {
        if toks[q].token_type == TokenType::SemiColon {
            lemma_next_line_break_bounds(toks, q + 1);
            lemma_step_path_quote_free(toks, next_line_break(toks, q + 1));
        } else {
            lemma_skip_blank_bounds(toks, q + 1);
            let q1 = skip_blank(toks, q + 1);
            if q1 < toks.len() {
                lemma_before_next_quote(toks, q1 + 1);
                lemma_next_quote_bounds(toks, q1 + 1);
                lemma_joined_quote_free(toks, q1 + 1, next_quote(toks, q1 + 1));
            }
        }
    }
}

proof fn lemma_parse_from_paths_quote_free(toks: Seq<Token>, j: int)
    requires
        quotes_only_in_quote_tokens(toks),
        0 <= j,
    ensures
        forall|k: int|
            0 <= k < parse_from(toks, j).0.len() ==> ((#[trigger] parse_from(toks, j).0[k]) matches StatementModel::Include {
                path,
            } ==> quote_free(path)),
    decreases toks.len() - j,
{
    lemma_statement_step_progress(toks, j);
    lemma_step_path_quote_free(toks, j);
    let st = statement_step(toks, j);
    if st.0 is Ok {
        lemma_parse_from_paths_quote_free(toks, st.1);
        let ms = parse_from(toks, j).0;
        assert forall|k: int| 0 <= k < ms.len() implies ((#[trigger] ms[k]) matches StatementModel::Include {
            path,
        } ==> quote_free(path)) by {
            if k > 0 {
                assert(ms[k] == parse_from(toks, st.1).0[k - 1]);
            }
        }
    }
}

/// A path recorded by `INCLUDE` holds no double quote, wherever the tokens
/// come from the lexer.
pub proof fn lemma_include_path_has_no_quote(s: Seq<char>, toks: Seq<Token>)
    requires
        tokens_match(toks, tokens_of(s)),
    ensures
        forall|k: int|
            0 <= k < parse_tokens(toks).0.len() ==> ((#[trigger] parse_tokens(toks).0[k]) matches StatementModel::Include {
                path,
            } ==> quote_free(path)),
{
    lemma_only_quote_tokens_hold_quotes(s);
    assert forall|k: int|
        0 <= k < toks.len() && (#[trigger] toks[k]).token_type
            != TokenType::DoubleQuote implies quote_free(toks[k].literal@) by {
        assert(toks[k].token_type == tokens_of(s)[k].0);
    }
    lemma_parse_from_paths_quote_free(toks, 0);
}

proof fn lemma_next_endc_at(toks: Seq<Token>, i: int, m: int)
    requires
        0 <= i <= m < toks.len(),
        is_endc(toks[m]),
        forall|k: int| i <= k < m ==> !is_endc(#[trigger] toks[k]),
    ensures
        next_endc(toks, i) == m,
    decreases m - i,
{
    if i < m {
        lemma_next_endc_at(toks, i + 1, m);
    }
}

/// An `IF` block is one marker whatever its body holds: the tokens of `IF`,
/// then `body` (the rest of that line and whole lines after it, with no `ENDC`
/// identifier among its tokens), then an `ENDC` line, parse to the marker
/// alone and no failure.
pub proof fn lemma_if_block_text(body: Seq<char>, toks: Seq<Token>)
    requires
        body.len() > 0,
        body.last() == '\n',
        !continues_identifier(body[0]),
        forall|k: int|
            0 <= k < tokens_of(body).len() ==> !((#[trigger] tokens_of(body)[k]).0
                == TokenType::Identifier && lowered(tokens_of(body)[k].1) == "endc"@),
        tokens_match(toks, tokens_of(seq!['I', 'F'] + body + seq!['E', 'N', 'D', 'C', '\n'])),
    ensures
        parse_tokens(toks).0 == seq![StatementModel::If],
        parse_tokens(toks).1 is None,
{
    lemma_if_block_tokens(body);
    let ts = tokens_of(seq!['I', 'F'] + body + seq!['E', 'N', 'D', 'C', '\n']);
    let bt = tokens_of(body);
    let n = bt.len() as int;
    assert(ts.len() == n + 3);
    assert(ts[0] == (TokenType::Identifier, seq!['I', 'F']));
    assert(ts[n + 1] == (TokenType::Identifier, seq!['E', 'N', 'D', 'C']));
    assert(ts[n + 2] == (TokenType::LineBreak, seq!['\n']));
    assert(toks[0].token_type == ts[0].0 && toks[0].literal@ == ts[0].1);
    assert(toks[n + 1].token_type == ts[n + 1].0 && toks[n + 1].literal@ == ts[n + 1].1);
    assert(toks[n + 2].token_type == ts[n + 2].0);
    reveal_strlit("if");
    reveal_strlit("endc");
    assert(lowered(seq!['I', 'F']) =~= "if"@);
    assert(lowered(seq!['E', 'N', 'D', 'C']) =~= "endc"@);
    assert forall|k: int| 1 <= k < n + 1 implies !is_endc(#[trigger] toks[k]) by {
        assert(ts[k] == bt[k - 1]);
        assert(toks[k].token_type == ts[k].0 && toks[k].literal@ == ts[k].1);
    }
    assert(skip_blank(toks, 0) == 0);
    lemma_if_block_is_one_marker(toks, 0);
    lemma_next_endc_at(toks, 1, n + 1);
    assert(step_over(toks, n + 1) == n + 2);
    assert(skip_blank(toks, n + 3) == n + 3);
    assert(skip_blank(toks, n + 2) == n + 3);
    assert(statement_step(toks, n + 2).0 == Err::<StatementModel, ParseErrorKind>(
        ParseErrorKind::NoTokensLeft,
    ));
    assert(parse_from(toks, n + 2).0.len() == 0);
    assert(parse_tokens(toks).0 =~= seq![StatementModel::If]);
}

} // verus!
