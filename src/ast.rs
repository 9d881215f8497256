use vstd::prelude::*;
use crate::parser::{ParseErrorKind, ParsingError};

verus! {

/// The directive that a statement stands for.
#[derive(Debug, Clone, Copy, PartialEq, Eq, Structural)]
pub enum StatementType {
    Section,
    Include,
    If,
    Def,
    NewCharMap,
    CharMap,
}

/// `INCLUDE "<path>"`: the path is recorded, not opened.
#[derive(Debug, Clone)]
pub struct IncludeStatement {
    pub path: String,
}

/// `SECTION "<name>", <type>`.
#[derive(Debug, Clone)]
pub struct SectionStatement {
    pub name: String,
    pub section_type: String,
}

/// `IF ... ENDC`: a marker; the body is skipped.
#[derive(Debug, Clone)]
pub struct IfStatement {}

/// `NEWCHARMAP <name>`.
#[derive(Debug, Clone)]
pub struct NewCharMapStatement {
    pub name: String,
}

/// `CHARMAP "<value>", $<hex>`.
#[derive(Debug, Clone)]
pub struct CharMapStatement {
    pub value: String,
    pub code: i32,
}

/// `<name> EQU <value>`: the value is the raw, unevaluated text.
#[derive(Debug, Clone)]
pub struct DefStatement {
    pub name: String,
    pub value: String,
}

/// One parsed directive.
#[derive(Debug, Clone)]
pub enum Statement {
    Include(IncludeStatement),
    Section(SectionStatement),
    If(IfStatement),
    NewCharMap(NewCharMapStatement),
    CharMap(CharMapStatement),
    Def(DefStatement),
}

/// The mathematical value of a statement.
pub enum StatementModel {
    Include { path: Seq<char> },
    Section { name: Seq<char>, section_type: Seq<char> },
    If,
    NewCharMap { name: Seq<char> },
    CharMap { value: Seq<char>, code: int },
    Def { name: Seq<char>, value: Seq<char> },
}

impl View for Statement {
    type V = StatementModel;

    open spec fn view(&self) -> StatementModel {
        match self {
            Statement::Include(s) => StatementModel::Include { path: s.path@ },
            Statement::Section(s) => StatementModel::Section {
                name: s.name@,
                section_type: s.section_type@,
            },
            Statement::If(_) => StatementModel::If,
            Statement::NewCharMap(s) => StatementModel::NewCharMap { name: s.name@ },
            Statement::CharMap(s) => StatementModel::CharMap { value: s.value@, code: s.code as int },
            Statement::Def(s) => StatementModel::Def { name: s.name@, value: s.value@ },
        }
    }
}

pub open spec fn type_of_model(m: StatementModel) -> StatementType {
    match m {
        StatementModel::Include { .. } => StatementType::Include,
        StatementModel::Section { .. } => StatementType::Section,
        StatementModel::If => StatementType::If,
        StatementModel::NewCharMap { .. } => StatementType::NewCharMap,
        StatementModel::CharMap { .. } => StatementType::CharMap,
        StatementModel::Def { .. } => StatementType::Def,
    }
}

/// The decimal digits of a natural number, most significant first.
pub open spec fn decimal_digits(n: nat) -> Seq<char>
    decreases n,
{
    if n < 10 {
        seq![(n + '0' as nat) as char]
    } else {
        decimal_digits(n / 10) + seq![((n % 10) + '0' as nat) as char]
    }
}

/// The decimal text of an integer: a `-` before the digits of a negative one.
pub open spec fn decimal_text(n: int) -> Seq<char> {
    if n < 0 {
        seq!['-'] + decimal_digits((-n) as nat)
    } else {
        decimal_digits(n as nat)
    }
}

/// Relies on `i32`'s `Display` through `to_string`: the decimal digits, with a
/// leading `-` for a negative value.
#[verifier::external_body]
fn decimal(n: i32) -> (r: String)
    ensures
        r@ == decimal_text(n as int),
{
    n.to_string()
}

/// The one-line description of a statement.
pub open spec fn statement_text(m: StatementModel) -> Seq<char> {
    match m {
        StatementModel::Include { path } => "INCLUDE \""@ + path + "\""@,
        StatementModel::Section { name, .. } => "SECTION \""@ + name + "\""@,
        StatementModel::If => "IF "@,
        StatementModel::NewCharMap { name } => "New Char Map "@ + name,
        StatementModel::CharMap { value, code } => "Char Map \""@ + value + "\" "@ + decimal_text(
            code,
        ),
        StatementModel::Def { name, value } => "DEF \""@ + name + "\" "@ + value,
    }
}

impl Statement {
    /// A one-line description of the statement.
    pub fn to_string(&self) -> (r: String)
        ensures
            r@ == statement_text(self@),
    {
        match self {
            Statement::Include(s) => {
                let mut r = String::from_str("INCLUDE \"");
                r.append(s.path.as_str());
                r.append("\"");
                r
            },
            Statement::Section(s) => {
                let mut r = String::from_str("SECTION \"");
                r.append(s.name.as_str());
                r.append("\"");
                r
            },
            Statement::If(_) => String::from_str("IF "),
            Statement::NewCharMap(s) => {
                let mut r = String::from_str("New Char Map ");
                r.append(s.name.as_str());
                r
            },
            Statement::CharMap(s) => {
                let mut r = String::from_str("Char Map \"");
                r.append(s.value.as_str());
                r.append("\" ");
                let code = decimal(s.code);
                r.append(code.as_str());
                r
            },
            Statement::Def(s) => {
                let mut r = String::from_str("DEF \"");
                r.append(s.name.as_str());
                r.append("\" ");
                r.append(s.value.as_str());
                r
            },
        }
    }

    pub fn my_type(&self) -> (r: StatementType)
        ensures
            r == type_of_model(self@),
    {
        match self {
            Statement::Include(_) => StatementType::Include,
            Statement::Section(_) => StatementType::Section,
            Statement::If(_) => StatementType::If,
            Statement::NewCharMap(_) => StatementType::NewCharMap,
            Statement::CharMap(_) => StatementType::CharMap,
            Statement::Def(_) => StatementType::Def,
        }
    }
}

/// The values of a sequence of statements, in order.
pub open spec fn models(s: Seq<Statement>) -> Seq<StatementModel> {
    s.map_values(|x: Statement| x@)
}

/// The statements parsed from a token stream, in source order, and the
/// failure that stopped parsing, if one did.
#[derive(Debug)]
pub struct Ast {
    pub statements: Vec<Statement>,
    pub error: Option<ParsingError>,
}

/// The kind of the failure that an `Ast` carries, if any.
pub open spec fn error_kind_of(e: Option<ParsingError>) -> Option<ParseErrorKind> {
    match e {
        Some(err) => Some(err.kind),
        None => None,
    }
}

/// The descriptions of `s`, each followed by a line break.
pub open spec fn statement_lines(s: Seq<StatementModel>) -> Seq<char>
    decreases s.len(),
{
    if s.len() == 0 {
        Seq::empty()
    } else {
        statement_lines(s.drop_last()) + statement_text(s.last()) + seq!['\n']
    }
}

impl Ast {
    /// A listing of the statements, one per line, between a header and a
    /// closing bracket.
    pub fn to_string(&self) -> (r: String)
        ensures
            r@ == "Ast\nStatements: [\n"@ + statement_lines(models(self.statements@)) + "]\n"@,
    {
        let mut r = String::from_str("Ast\nStatements: [\n");
        let ghost head = r@;
        let mut i: usize = 0;
        while i < self.statements.len()
            invariant
                i <= self.statements.len(),
                head == "Ast\nStatements: [\n"@,
                r@ == head + statement_lines(models(self.statements@.take(i as int))),
            decreases self.statements.len() - i,
        {
            let line = self.statements[i].to_string();
            r.append(line.as_str());
            r.append("\n");
            proof {
                let prefix = self.statements@.take(i as int);
                assert(models(self.statements@.take(i + 1)).drop_last() =~= models(prefix));
                assert(models(self.statements@.take(i + 1)).last() == self.statements@[i as int]@);
                reveal_strlit("\n");
                assert(r@ =~= head + statement_lines(models(self.statements@.take(i + 1))));
            }
            i = i + 1;
        }
        assert(self.statements@.take(self.statements.len() as int) =~= self.statements@);
        r.append("]\n");
        r
    }
}

} // verus!
