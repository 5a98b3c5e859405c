//! Reading bank statements in the 1C client-bank exchange format.
//!
//! A statement is a text of lines. Its first section header is
//! `1CClientBankExchange`, then come header attributes `key=value`, then
//! account sections (`СекцияРасчСчет` ... `КонецРасчСчет`) and document
//! sections (`СекцияДокумент=type` ... `КонецДокумента`) holding
//! attributes, and the statement ends with `КонецФайла`. Blank lines are
//! skipped; line numbers count from one over all lines.
use crate::maps::{
    entries_get, entries_insert, key_index, lemma_insert_unique, lemma_key_index, text_entries, text_map_insert,
    text_map_new, unique_keys,
    Entries,
};
use crate::parser::decode::{parse_text, text_of};
use crate::parser::hooks::{hook_result_view, HookError, HookErrorView, SectionHook, SectionType};
use crate::parser::statement::{
    lemma_with_account_well_formed, lemma_with_document_well_formed, statement_well_formed,
    with_account, with_document, StatementView,
};
use crate::text::{
    chars_eq, chars_of, is_blank, is_blank_chars, lines, lines_chars, push_chars, push_text,
    split_once, split_once_chars, string_of,
};
use indexmap::IndexMap;
use std::ops::ControlFlow;
use vstd::prelude::*;

pub mod decode;
pub mod fields;
pub mod hooks;
pub mod statement;

pub use statement::{Account, Document, Interval, Statement};

verus! {

/// The text encoding a statement was read in.
#[derive(Clone, Copy, Debug, PartialEq, Eq, Structural)]
pub enum Encoding {
    Cp1251,
    Utf8,
}

/// Why a statement could not be read.
#[derive(Debug)]
pub enum Error {
    /// A line, by its number, and what is wrong there.
    Syntax { lineno: usize, text: String },
    InvalidDocument,
    /// The text ended before `КонецФайла`.
    Unfinished,
    /// The bytes are neither UTF-8 nor Windows-1251 text.
    NotText,
    Empty,
}

pub enum ErrorView {
    Syntax { lineno: usize, text: Seq<char> },
    InvalidDocument,
    Unfinished,
    NotText,
    Empty,
}

impl View for Error {
    type V = ErrorView;

    open spec fn view(&self) -> ErrorView {
        match self {
            Error::Syntax { lineno, text } => ErrorView::Syntax { lineno: *lineno, text: text@ },
            Error::InvalidDocument => ErrorView::InvalidDocument,
            Error::Unfinished => ErrorView::Unfinished,
            Error::NotText => ErrorView::NotText,
            Error::Empty => ErrorView::Empty,
        }
    }
}

/// A section boundary line.
#[derive(Debug)]
pub enum Section {
    StartOfFile,
    Account,
    EndOfAccount,
    Document(String),
    EndOfDocument,
    EndOfFile,
}

pub enum SectionView {
    StartOfFile,
    Account,
    EndOfAccount,
    Document(Seq<char>),
    EndOfDocument,
    EndOfFile,
}

impl View for Section {
    type V = SectionView;

    open spec fn view(&self) -> SectionView {
        match self {
            Section::StartOfFile => SectionView::StartOfFile,
            Section::Account => SectionView::Account,
            Section::EndOfAccount => SectionView::EndOfAccount,
            Section::Document(t) => SectionView::Document(t@),
            Section::EndOfDocument => SectionView::EndOfDocument,
            Section::EndOfFile => SectionView::EndOfFile,
        }
    }
}

/// The section that a line is, if it is one: a line without `=` that is
/// one of the section names, or `СекцияДокумент=` followed by the type.
pub open spec fn section_of(v: Seq<char>) -> Option<SectionView> {
    match split_once(v, '=') {
        None => if v == "1CClientBankExchange"@ {
            Some(SectionView::StartOfFile)
        } else if v == "СекцияРасчСчет"@ {
            Some(SectionView::Account)
        } else if v == "КонецРасчСчет"@ {
            Some(SectionView::EndOfAccount)
        } else if v == "КонецДокумента"@ {
            Some(SectionView::EndOfDocument)
        } else if v == "КонецФайла"@ {
            Some(SectionView::EndOfFile)
        } else {
            None
        },
        Some((k, typ)) => if k == "СекцияДокумент"@ {
            Some(SectionView::Document(typ))
        } else {
            None
        },
    }
}

/// How a section is written.
pub open spec fn section_text(s: SectionView) -> Seq<char> {
    match s {
        SectionView::StartOfFile => "1CClientBankExchange"@,
        SectionView::Account => "СекцияРасчСчет"@,
        SectionView::EndOfAccount => "КонецРасчСчет"@,
        SectionView::Document(typ) => "СекцияДокумент="@ + typ,
        SectionView::EndOfDocument => "КонецДокумента"@,
        SectionView::EndOfFile => "КонецФайла"@,
    }
}

fn is_named(v: &Vec<char>, name: &str) -> (r: bool)
    ensures
        r == (v@ == name@),
{
    let n = chars_of(name);
    chars_eq(v, &n)
}

fn section_of_chars(v: &Vec<char>) -> (r: Option<Section>)
    ensures
        match section_of(v@) {
            Some(s) => r matches Some(x) && x@ == s,
            None => r is None,
        },
{
    match split_once_chars(v, '=') {
        None => {
            if is_named(v, "1CClientBankExchange") {
                Some(Section::StartOfFile)
            } else if is_named(v, "СекцияРасчСчет") {
                Some(Section::Account)
            } else if is_named(v, "КонецРасчСчет") {
                Some(Section::EndOfAccount)
            } else if is_named(v, "КонецДокумента") {
                Some(Section::EndOfDocument)
            } else if is_named(v, "КонецФайла") {
                Some(Section::EndOfFile)
            } else {
                None
            }
        },
        Some((k, typ)) => {
            if is_named(&k, "СекцияДокумент") {
                Some(Section::Document(string_of(&typ)))
            } else {
                None
            }
        },
    }
}

impl Section {
    /// The section that a line is, if it is one.
    pub fn try_from(value: &str) -> (r: Result<Section, ()>)
        ensures
            match section_of(value@) {
                Some(s) => r matches Ok(x) && x@ == s,
                None => r is Err,
            },
    {
        let v = chars_of(value);
        match section_of_chars(&v) {
            Some(s) => Ok(s),
            None => Err(()),
        }
    }

    /// How the section is written.
    pub fn to_string(&self) -> (r: String)
        ensures
            r@ == section_text(self@),
    {
        let mut r = String::new();
        match self {
            Section::StartOfFile => push_text(&mut r, "1CClientBankExchange"),
            Section::Account => push_text(&mut r, "СекцияРасчСчет"),
            Section::EndOfAccount => push_text(&mut r, "КонецРасчСчет"),
            Section::Document(typ) => {
                push_text(&mut r, "СекцияДокумент=");
                push_text(&mut r, typ.as_str());
            },
            Section::EndOfDocument => push_text(&mut r, "КонецДокумента"),
            Section::EndOfFile => push_text(&mut r, "КонецФайла"),
        }
        r
    }

    fn copy(&self) -> (r: Section)
        ensures
            r@ == self@,
    {
        match self {
            Section::StartOfFile => Section::StartOfFile,
            Section::Account => Section::Account,
            Section::EndOfAccount => Section::EndOfAccount,
            Section::Document(typ) => Section::Document(typ.clone()),
            Section::EndOfDocument => Section::EndOfDocument,
            Section::EndOfFile => Section::EndOfFile,
        }
    }
}

/// A non-blank line: a section boundary or an attribute `key=value`.
#[derive(Debug)]
pub enum Line {
    Section(Section),
    Attr(String, String),
}

pub enum LineView {
    Section(SectionView),
    Attr(Seq<char>, Seq<char>),
}

impl View for Line {
    type V = LineView;

    open spec fn view(&self) -> LineView {
        match self {
            Line::Section(s) => LineView::Section(s@),
            Line::Attr(k, v) => LineView::Attr(k@, v@),
        }
    }
}

/// What a line is: a section, else an attribute split at its first `=`;
/// a line that is neither is the error.
pub open spec fn line_of(v: Seq<char>) -> Result<LineView, Seq<char>> {
    match section_of(v) {
        Some(s) => Ok(LineView::Section(s)),
        None => match split_once(v, '=') {
            Some((k, val)) => Ok(LineView::Attr(k, val)),
            None => Err(v),
        },
    }
}

fn line_of_chars(v: &Vec<char>) -> (r: Result<Line, ()>)
    ensures
        match line_of(v@) {
            Ok(l) => r matches Ok(x) && x@ == l,
            Err(_) => r is Err,
        },
{
    if let Some(s) = section_of_chars(v) {
        return Ok(Line::Section(s));
    }
    match split_once_chars(v, '=') {
        Some((k, val)) => Ok(Line::Attr(string_of(&k), string_of(&val))),
        None => Err(()),
    }
}

impl Line {
    /// What a line is; the line itself where it is neither a section nor an
    /// attribute.
    pub fn try_from(s: &str) -> (r: Result<Line, String>)
        ensures
            match line_of(s@) {
                Ok(l) => r matches Ok(x) && x@ == l,
                Err(e) => r matches Err(t) && t@ == e,
            },
    {
        let v = chars_of(s);
        match line_of_chars(&v) {
            Ok(l) => Ok(l),
            Err(()) => Err(string_of(&v)),
        }
    }
}

pub open spec fn bad_line_message(line: Seq<char>) -> Seq<char> {
    "cannot parse line: '"@ + line + "'"@
}

/// The non-blank lines among the first `n`, with their numbers, or the
/// first line that is neither a section nor an attribute.
pub open spec fn parsed_lines_upto(ls: Seq<Seq<char>>, n: int) -> Result<Seq<(usize, LineView)>, (usize, Seq<char>)>
    decreases n,
{
    if n <= 0 {
        Ok(Seq::empty())
    } else {
        match parsed_lines_upto(ls, n - 1) {
            Err(e) => Err(e),
            Ok(acc) => if is_blank(ls[n - 1]) {
                Ok(acc)
            } else {
                match line_of(ls[n - 1]) {
                    Ok(l) => Ok(acc.push((n as usize, l))),
                    Err(bad) => Err((n as usize, bad_line_message(bad))),
                }
            },
        }
    }
}

/// The non-blank lines of a text with their numbers, or the first line
/// that is neither a section nor an attribute, with its number.
pub open spec fn parsed_lines(raw: Seq<char>) -> Result<Seq<(usize, LineView)>, (usize, Seq<char>)> {
    parsed_lines_upto(lines(raw), lines(raw).len() as int)
}

proof fn lemma_parsed_lines_err(ls: Seq<Seq<char>>, n: int, m: int)
    requires
        0 <= n <= m,
        parsed_lines_upto(ls, n) is Err,
    ensures
        parsed_lines_upto(ls, m) == parsed_lines_upto(ls, n),
    decreases m - n,
{
    if m > n {
        lemma_parsed_lines_err(ls, n, m - 1);
    }
}

pub open spec fn lines_view(v: Seq<(usize, Line)>) -> Seq<(usize, LineView)> {
    v.map_values(|p: (usize, Line)| (p.0, p.1@))
}

fn parse_lines_chars(raw: &Vec<char>) -> (r: Result<Vec<(usize, Line)>, Error>)
    ensures
        match parsed_lines(raw@) {
            Ok(ls) => r matches Ok(v) && lines_view(v@) == ls,
            Err((n, t)) => r matches Err(e) && e@ == (ErrorView::Syntax { lineno: n, text: t }),
        },
{
    let ls = lines_chars(raw);
    let ghost lsv = ls@.map_values(|l: Vec<char>| l@);
    assert(lsv == lines(raw@));
    let mut out: Vec<(usize, Line)> = Vec::new();
    assert(lines_view(out@) =~= Seq::<(usize, LineView)>::empty());
    let mut i: usize = 0;
    while i < ls.len()
        invariant
            i <= ls.len(),
            lsv == ls@.map_values(|l: Vec<char>| l@),
            lsv == lines(raw@),
            parsed_lines_upto(lsv, i as int) == Ok::<Seq<(usize, LineView)>, (usize, Seq<char>)>(
                lines_view(out@),
            ),
        decreases ls.len() - i,
    {
        let l = &ls[i];
        assert(l@ == lsv[i as int]);
        if !is_blank_chars(l) {
            match line_of_chars(l) {
                Ok(line) => {
                    let ghost before = out@;
                    out.push((i + 1, line));
                    assert(lines_view(out@) =~= lines_view(before).push(((i + 1) as usize, line@)));
                },
                Err(()) => {
                    let mut text = String::new();
                    push_text(&mut text, "cannot parse line: '");
                    push_chars(&mut text, l);
                    push_text(&mut text, "'");
                    proof {
                        assert(line_of(l@) == Err::<LineView, Seq<char>>(l@));
                        assert(parsed_lines_upto(lsv, i + 1) == Err::<Seq<(usize, LineView)>, (usize, Seq<char>)>(((i + 1) as usize, bad_line_message(l@))));
                        lemma_parsed_lines_err(lsv, i + 1, lsv.len() as int);
                    }
                    return Err(Error::Syntax { lineno: i + 1, text });
                },
            }
        }
        i = i + 1;
    }
    Ok(out)
}

/// The non-blank lines of a text with their numbers (counted from one
/// over all lines), or the syntax error of the first line that is neither
/// a section nor an attribute.
pub fn parse_lines(raw: &str) -> (r: Result<Vec<(usize, Line)>, Error>)
    ensures
        match parsed_lines(raw@) {
            Ok(ls) => r matches Ok(v) && lines_view(v@) == ls,
            Err((n, t)) => r matches Err(e) && e@ == (ErrorView::Syntax { lineno: n, text: t }),
        },
{
    let v = chars_of(raw);
    parse_lines_chars(&v)
}


/// Where the reading of a statement stands.
pub enum State {
    /// Before `1CClientBankExchange`.
    Init,
    /// Reading header attributes.
    Header(IndexMap<String, String>),
    /// Reading the attributes of a document section of a type.
    Document { statement: Statement, typ: String, attrs: IndexMap<String, String> },
    /// Reading the attributes of an account section.
    Account { statement: Statement, attrs: IndexMap<String, String> },
    /// After a section, before the next one.
    ReadNextSection { statement: Statement, prev_section: Section },
    /// After `КонецФайла`.
    Finished(Statement),
}

pub enum StateView {
    Init,
    Header(Entries<Seq<char>>),
    Document { statement: StatementView, typ: Seq<char>, attrs: Entries<Seq<char>> },
    Account { statement: StatementView, attrs: Entries<Seq<char>> },
    ReadNextSection { statement: StatementView, prev_section: SectionView },
    Finished(StatementView),
}

impl View for State {
    type V = StateView;

    open spec fn view(&self) -> StateView {
        match self {
            State::Init => StateView::Init,
            State::Header(a) => StateView::Header(text_entries(*a)),
            State::Document { statement, typ, attrs } => StateView::Document {
                statement: statement@,
                typ: typ@,
                attrs: text_entries(*attrs),
            },
            State::Account { statement, attrs } => StateView::Account {
                statement: statement@,
                attrs: text_entries(*attrs),
            },
            State::ReadNextSection { statement, prev_section } => StateView::ReadNextSection {
                statement: statement@,
                prev_section: prev_section@,
            },
            State::Finished(s) => StateView::Finished(s@),
        }
    }
}

/// The outcome of a step: the next state, or a stop at a line with a message.
pub enum StepView {
    Continue(StateView),
    Break(usize, Seq<char>),
}

pub open spec fn flow_view(c: ControlFlow<(usize, String), State>) -> StepView {
    match c {
        ControlFlow::Continue(s) => StepView::Continue(s@),
        ControlFlow::Break((l, t)) => StepView::Break(l, t@),
    }
}


pub open spec fn new_statement(enc: Encoding, header: Entries<Seq<char>>) -> StatementView {
    StatementView {
        encoding: enc,
        header,
        accounts: Seq::empty(),
        documents: Seq::empty(),
        warnings: Seq::empty(),
    }
}

pub open spec fn with_warning(st: StatementView, lineno: usize, w: Seq<char>) -> StatementView {
    StatementView { warnings: st.warnings.push((lineno, w)), ..st }
}

pub open spec fn unexpected_section(s: SectionView, rest: Seq<char>) -> Seq<char> {
    "Неожиданная секция '"@ + section_text(s) + rest
}

pub open spec fn attr_message(prefix: Seq<char>, k: Seq<char>, v: Seq<char>, rest: Seq<char>) -> Seq<char> {
    prefix + k + "="@ + v + rest
}

pub open spec fn no_attrs() -> Entries<Seq<char>> {
    Seq::empty()
}

/// One step of reading: the state after a line, given the state before it
/// (with its attributes as the hooks left them) and the hooks' result.
pub open spec fn transition(
    state: StateView,
    lineno: usize,
    line: LineView,
    enc: Encoding,
    hook: Result<(), HookErrorView>,
) -> StepView {
    match line {
        LineView::Attr(k, v) => match state {
            StateView::Header(attrs) => StepView::Continue(
                StateView::Header(entries_insert(attrs, k, v)),
            ),
            StateView::Document { statement, typ, attrs } => StepView::Continue(
                StateView::Document { statement, typ, attrs: entries_insert(attrs, k, v) },
            ),
            StateView::Account { statement, attrs } => StepView::Continue(
                StateView::Account { statement, attrs: entries_insert(attrs, k, v) },
            ),
            StateView::ReadNextSection { .. } => StepView::Break(
                lineno,
                attr_message("Атрибут '"@, k, v, "' не принадлежит ни одной секции"@),
            ),
            StateView::Init => StepView::Break(
                lineno,
                attr_message("Неожиданный атрибут '"@, k, v, "' до секции 1CClientBankExchange"@),
            ),
            StateView::Finished(_) => StepView::Break(
                lineno,
                attr_message("Неожиданный атрибут '"@, k, v, "' после секции КонецФайла"@),
            ),
        },
        LineView::Section(s) => match state {
            StateView::Init => match s {
                SectionView::StartOfFile => StepView::Continue(StateView::Header(no_attrs())),
                _ => StepView::Break(
                    lineno,
                    unexpected_section(s, "' до секции 1CClientBankExchange"@),
                ),
            },
            StateView::Header(attrs) => match s {
                SectionView::Document(typ) => StepView::Continue(
                    StateView::Document {
                        statement: new_statement(enc, attrs),
                        typ,
                        attrs: no_attrs(),
                    },
                ),
                SectionView::Account => StepView::Continue(
                    StateView::Account { statement: new_statement(enc, attrs), attrs: no_attrs() },
                ),
                _ => StepView::Break(lineno, unexpected_section(s, "' на этапе разбора заголовков"@)),
            },
            StateView::Document { statement, typ, attrs } => match s {
                SectionView::EndOfDocument => match hook {
                    Ok(()) => match with_document(statement, typ, attrs) {
                        Ok(st) => StepView::Continue(
                            StateView::ReadNextSection { statement: st, prev_section: s },
                        ),
                        Err(e) => StepView::Continue(
                            StateView::ReadNextSection {
                                statement: with_warning(statement, lineno, e),
                                prev_section: s,
                            },
                        ),
                    },
                    Err(HookErrorView::Warning(w)) => StepView::Continue(
                        StateView::ReadNextSection {
                            statement: with_warning(statement, lineno, w),
                            prev_section: s,
                        },
                    ),
                    Err(HookErrorView::Error(e)) => StepView::Break(lineno, e),
                },
                _ => StepView::Break(lineno, unexpected_section(s, "' на этапе разбора документа"@)),
            },
            StateView::Account { statement, attrs } => match s {
                SectionView::EndOfAccount => match hook {
                    Ok(()) => match with_account(statement, attrs) {
                        Ok(st) => StepView::Continue(
                            StateView::ReadNextSection { statement: st, prev_section: s },
                        ),
                        Err(e) => StepView::Break(lineno, e),
                    },
                    Err(HookErrorView::Warning(w)) => StepView::Continue(
                        StateView::ReadNextSection {
                            statement: with_warning(statement, lineno, w),
                            prev_section: s,
                        },
                    ),
                    Err(HookErrorView::Error(e)) => StepView::Break(lineno, e),
                },
                _ => StepView::Break(lineno, unexpected_section(s, "' на этапе разбора счёта"@)),
            },
            StateView::ReadNextSection { statement, prev_section } => match s {
                SectionView::Account => StepView::Continue(
                    StateView::Account { statement, attrs: no_attrs() },
                ),
                SectionView::Document(typ) => StepView::Continue(
                    StateView::Document { statement, typ, attrs: no_attrs() },
                ),
                SectionView::EndOfFile => StepView::Continue(StateView::Finished(statement)),
                _ => StepView::Break(
                    lineno,
                    unexpected_section(s, "' после '"@ + section_text(prev_section) + "'"@),
                ),
            },
            StateView::Finished(_) => StepView::Break(
                lineno,
                unexpected_section(s, "' после секции КонецФайла"@),
            ),
        },
    }
}

fn unexpected_section_message(s: &Section, rest: &str) -> (r: String)
    ensures
        r@ == unexpected_section(s@, rest@),
{
    let mut m = String::new();
    push_text(&mut m, "Неожиданная секция '");
    let t = s.to_string();
    push_text(&mut m, t.as_str());
    push_text(&mut m, rest);
    m
}

fn unexpected_after_message(s: &Section, prev: &Section) -> (r: String)
    ensures
        r@ == unexpected_section(s@, "' после '"@ + section_text(prev@) + "'"@),
{
    let mut m = String::new();
    push_text(&mut m, "Неожиданная секция '");
    let t = s.to_string();
    push_text(&mut m, t.as_str());
    push_text(&mut m, "' после '");
    let p = prev.to_string();
    push_text(&mut m, p.as_str());
    push_text(&mut m, "'");
    m
}

fn attr_message_text(prefix: &str, k: &String, v: &String, rest: &str) -> (r: String)
    ensures
        r@ == attr_message(prefix@, k@, v@, rest@),
{
    let mut m = String::new();
    push_text(&mut m, prefix);
    push_text(&mut m, k.as_str());
    push_text(&mut m, "=");
    push_text(&mut m, v.as_str());
    push_text(&mut m, rest);
    m
}

/// One step of reading a statement: the state after a line, given the state
/// before it (with its attributes as the hooks left them) and the hooks'
/// result.
pub fn transition_exec(
    state: State,
    lineno: usize,
    line: Line,
    encoding: Encoding,
    hook: Result<(), HookError>,
) -> (r: ControlFlow<(usize, String), State>)
    ensures
        flow_view(r) == transition(state@, lineno, line@, encoding, hook_result_view(hook)),
{
    match line {
        Line::Attr(k, v) => match state {
            State::Header(mut attrs) => {
                text_map_insert(&mut attrs, k, v);
                ControlFlow::Continue(State::Header(attrs))
            },
            State::Document { statement, typ, mut attrs } => {
                text_map_insert(&mut attrs, k, v);
                ControlFlow::Continue(State::Document { statement, typ, attrs })
            },
            State::Account { statement, mut attrs } => {
                text_map_insert(&mut attrs, k, v);
                ControlFlow::Continue(State::Account { statement, attrs })
            },
            State::ReadNextSection { .. } => ControlFlow::Break(
                (lineno, attr_message_text("Атрибут '", &k, &v, "' не принадлежит ни одной секции")),
            ),
            State::Init => ControlFlow::Break(
                (
                    lineno,
                    attr_message_text(
                        "Неожиданный атрибут '",
                        &k,
                        &v,
                        "' до секции 1CClientBankExchange",
                    ),
                ),
            ),
            State::Finished(_) => ControlFlow::Break(
                (
                    lineno,
                    attr_message_text("Неожиданный атрибут '", &k, &v, "' после секции КонецФайла"),
                ),
            ),
        },
        Line::Section(s) => match state {
            State::Init => match s {
                Section::StartOfFile => ControlFlow::Continue(State::Header(text_map_new())),
                other => ControlFlow::Break(
                    (lineno, unexpected_section_message(&other, "' до секции 1CClientBankExchange")),
                ),
            },
            State::Header(attrs) => match s {
                Section::Document(typ) => ControlFlow::Continue(
                    State::Document {
                        statement: Statement::new(encoding, attrs),
                        typ,
                        attrs: text_map_new(),
                    },
                ),
                Section::Account => ControlFlow::Continue(
                    State::Account { statement: Statement::new(encoding, attrs), attrs: text_map_new() },
                ),
                other => ControlFlow::Break(
                    (lineno, unexpected_section_message(&other, "' на этапе разбора заголовков")),
                ),
            },
            State::Document { mut statement, typ, attrs } => match s {
                Section::EndOfDocument => match hook {
                    Ok(()) => {
                        match statement.add_document(typ.as_str(), attrs) {
                            Ok(()) => {},
                            Err(e) => statement.add_warning((lineno, e)),
                        }
                        ControlFlow::Continue(
                            State::ReadNextSection { statement, prev_section: Section::EndOfDocument },
                        )
                    },
                    Err(HookError::Warning(w)) => {
                        statement.add_warning((lineno, w));
                        ControlFlow::Continue(
                            State::ReadNextSection { statement, prev_section: Section::EndOfDocument },
                        )
                    },
                    Err(HookError::Error(e)) => ControlFlow::Break((lineno, e)),
                },
                other => ControlFlow::Break(
                    (lineno, unexpected_section_message(&other, "' на этапе разбора документа")),
                ),
            },
            State::Account { mut statement, attrs } => match s {
                Section::EndOfAccount => match hook {
                    Ok(()) => match statement.add_account(attrs) {
                        Ok(()) => ControlFlow::Continue(
                            State::ReadNextSection { statement, prev_section: Section::EndOfAccount },
                        ),
                        Err(e) => ControlFlow::Break((lineno, e)),
                    },
                    Err(HookError::Warning(w)) => {
                        statement.add_warning((lineno, w));
                        ControlFlow::Continue(
                            State::ReadNextSection { statement, prev_section: Section::EndOfAccount },
                        )
                    },
                    Err(HookError::Error(e)) => ControlFlow::Break((lineno, e)),
                },
                other => ControlFlow::Break(
                    (lineno, unexpected_section_message(&other, "' на этапе разбора счёта")),
                ),
            },
            State::ReadNextSection { statement, prev_section } => match s {
                Section::Account => ControlFlow::Continue(
                    State::Account { statement, attrs: text_map_new() },
                ),
                Section::Document(typ) => ControlFlow::Continue(
                    State::Document { statement, typ, attrs: text_map_new() },
                ),
                Section::EndOfFile => ControlFlow::Continue(State::Finished(statement)),
                other => ControlFlow::Break(
                    (lineno, unexpected_after_message(&other, &prev_section)),
                ),
            },
            State::Finished(_) => ControlFlow::Break(
                (lineno, unexpected_section_message(&s, "' после секции КонецФайла")),
            ),
        },
    }
}


/// What the hooks did at a line: the attributes they left and their
/// result, or nothing.
pub type HookOutcome = Option<(Entries<Seq<char>>, Result<(), HookErrorView>)>;

/// The hooks are called at the end of a document or an account section.
pub open spec fn hook_applies(state: StateView, line: LineView) -> bool {
    ||| state is Document && line == LineView::Section(SectionView::EndOfDocument)
    ||| state is Account && line == LineView::Section(SectionView::EndOfAccount)
}

pub open spec fn attrs_of(state: StateView) -> Entries<Seq<char>> {
    match state {
        StateView::Document { attrs, .. } => attrs,
        StateView::Account { attrs, .. } => attrs,
        _ => Seq::empty(),
    }
}

pub open spec fn with_attrs(state: StateView, a: Entries<Seq<char>>) -> StateView {
    match state {
        StateView::Document { statement, typ, .. } => StateView::Document { statement, typ, attrs: a },
        StateView::Account { statement, .. } => StateView::Account { statement, attrs: a },
        _ => state,
    }
}

/// The state and hook result that a step starts from, given what the hooks
/// did.
pub open spec fn hooked(state: StateView, line: LineView, o: HookOutcome) -> (StateView, Result<(), HookErrorView>) {
    match o {
        Some((a, res)) => if hook_applies(state, line) {
            (with_attrs(state, a), res)
        } else {
            (state, Ok(()))
        },
        None => (state, Ok(())),
    }
}

/// Reading a sequence of lines from the start, the hooks at line `i` doing
/// what `o(i)` says.
pub open spec fn run(ls: Seq<(usize, LineView)>, enc: Encoding, o: spec_fn(int) -> HookOutcome) -> StepView
    decreases ls.len(),
{
    if ls.len() == 0 {
        StepView::Continue(StateView::Init)
    } else {
        match run(ls.drop_last(), enc, o) {
            StepView::Break(l, t) => StepView::Break(l, t),
            StepView::Continue(s) => {
                let k = ls.len() - 1;
                let (s2, res) = hooked(s, ls[k].1, o(k));
                transition(s2, ls[k].0, ls[k].1, enc, res)
            },
        }
    }
}

/// No hooks: they never change anything.
pub open spec fn no_hooks() -> spec_fn(int) -> HookOutcome {
    |i: int| None
}

/// The kind of section that a document or account state reads.
pub open spec fn section_type_of(s: StateView) -> SectionType {
    match s {
        StateView::Document { .. } => SectionType::Document,
        _ => SectionType::Account,
    }
}

/// The statement read so far, in a document or account state.
pub open spec fn statement_of(s: StateView) -> StatementView {
    match s {
        StateView::Document { statement, .. } => statement,
        StateView::Account { statement, .. } => statement,
        _ => new_statement(Encoding::Utf8, Seq::empty()),
    }
}

/// The first `n` hooks, called in turn, each return `Ok`, hook `i` taking
/// the attributes `mids[i]` and leaving `mids[i + 1]`.
pub open spec fn ok_chain(
    hooks: Seq<Box<dyn SectionHook>>,
    section: SectionType,
    st: StatementView,
    mids: Seq<Entries<Seq<char>>>,
    n: int,
) -> bool {
    &&& 0 <= n <= hooks.len()
    &&& mids.len() == n + 1
    &&& forall|i: int|
        #![trigger hooks[i]]
        0 <= i < n ==> hooks[i].permits(section, mids[i], st, mids[i + 1], Ok(()))
}

/// Calling the hooks in order, starting from the attributes `before`, may
/// end with the attributes `after` and the result `res`: every hook returns
/// `Ok` and the last leaves `after`, or the first `n` return `Ok` and hook `n`
/// returns the error `res`, leaving `after`, and no later hook is called.
pub open spec fn chain_permits(
    hooks: Seq<Box<dyn SectionHook>>,
    section: SectionType,
    before: Entries<Seq<char>>,
    st: StatementView,
    after: Entries<Seq<char>>,
    res: Result<(), HookErrorView>,
) -> bool {
    ||| res is Ok && exists|mids: Seq<Entries<Seq<char>>>|
        #![trigger ok_chain(hooks, section, st, mids, hooks.len() as int)]
        ok_chain(hooks, section, st, mids, hooks.len() as int) && mids[0] == before && mids.last()
            == after
    ||| res is Err && exists|mids: Seq<Entries<Seq<char>>>, n: int|
        #![trigger ok_chain(hooks, section, st, mids, n)]
        ok_chain(hooks, section, st, mids, n) && n < hooks.len() && mids[0] == before
            && hooks[n].permits(section, mids[n], st, after, res)
}

/// The outcomes `o` are what the hooks gave: at each line that ends a
/// document or account section reached, the outcome of calling the hooks in
/// order on that section's kind, attributes and statement; nothing at other
/// lines, nor at any line after the reading stopped.
pub open spec fn hooks_gave(
    ls: Seq<(usize, LineView)>,
    enc: Encoding,
    hooks: Seq<Box<dyn SectionHook>>,
    o: spec_fn(int) -> HookOutcome,
) -> bool
    decreases ls.len(),
{
    if ls.len() == 0 {
        true
    } else {
        &&& hooks_gave(ls.drop_last(), enc, hooks, o)
        &&& match run(ls.drop_last(), enc, o) {
            StepView::Break(_, _) => o(ls.len() - 1) is None,
            StepView::Continue(s) => {
                let k = ls.len() - 1;
                if hook_applies(s, ls[k].1) {
                    match o(k) {
                        Some((a, res)) => chain_permits(
                            hooks,
                            section_type_of(s),
                            attrs_of(s),
                            statement_of(s),
                            a,
                            res,
                        ),
                        None => false,
                    }
                } else {
                    o(k) is None
                }
            },
        }
    }
}

/// The outcomes `o` are what the hooks gave, when reading the bytes.
pub open spec fn hooks_gave_for(content: Seq<u8>, hooks: Seq<Box<dyn SectionHook>>, o: spec_fn(int) -> HookOutcome) -> bool {
    match text_of(content) {
        Some((raw, enc)) => match parsed_lines(raw) {
            Ok(ls) => hooks_gave(ls, enc, hooks, o),
            Err(_) => true,
        },
        None => true,
    }
}

/// Every hook never changes the attributes and always returns `Ok`.
pub open spec fn all_inert(hooks: Seq<Box<dyn SectionHook>>) -> bool {
    forall|i: int, sec: SectionType, b: Entries<Seq<char>>, st: StatementView, a: Entries<Seq<char>>, r: Result<(), HookErrorView>|
        0 <= i < hooks.len() && #[trigger] hooks[i].permits(sec, b, st, a, r) ==> a == b && r is Ok
}

proof fn lemma_ok_chain_inert(
    hooks: Seq<Box<dyn SectionHook>>,
    section: SectionType,
    st: StatementView,
    mids: Seq<Entries<Seq<char>>>,
    n: int,
    j: int,
)
    requires
        all_inert(hooks),
        ok_chain(hooks, section, st, mids, n),
        0 <= j <= n,
    ensures
        mids[j] == mids[0],
    decreases j,
{
    if j > 0 {
        lemma_ok_chain_inert(hooks, section, st, mids, n, j - 1);
        assert(hooks[j - 1].permits(section, mids[j - 1], st, mids[j], Ok(())));
    }
}

/// Hooks that never change anything give back the attributes and `Ok`.
proof fn lemma_chain_inert(
    hooks: Seq<Box<dyn SectionHook>>,
    section: SectionType,
    before: Entries<Seq<char>>,
    st: StatementView,
    after: Entries<Seq<char>>,
    res: Result<(), HookErrorView>,
)
    requires
        all_inert(hooks),
        chain_permits(hooks, section, before, st, after, res),
    ensures
        after == before,
        res is Ok,
{
    if res is Ok {
        let mids = choose|mids: Seq<Entries<Seq<char>>>|
            #![trigger ok_chain(hooks, section, st, mids, hooks.len() as int)]
            ok_chain(hooks, section, st, mids, hooks.len() as int) && mids[0] == before
                && mids.last() == after;
        lemma_ok_chain_inert(hooks, section, st, mids, hooks.len() as int, hooks.len() as int);
    } else {
        let (mids, n) = choose|mids: Seq<Entries<Seq<char>>>, n: int|
            #![trigger ok_chain(hooks, section, st, mids, n)]
            ok_chain(hooks, section, st, mids, n) && n < hooks.len() && mids[0] == before
                && hooks[n].permits(section, mids[n], st, after, res);
    }
}

/// Reading with hooks that never change anything is reading without hooks.
proof fn lemma_run_inert(
    ls: Seq<(usize, LineView)>,
    enc: Encoding,
    hooks: Seq<Box<dyn SectionHook>>,
    o: spec_fn(int) -> HookOutcome,
)
    requires
        all_inert(hooks),
        hooks_gave(ls, enc, hooks, o),
    ensures
        run(ls, enc, o) == run(ls, enc, no_hooks()),
    decreases ls.len(),
{
    if ls.len() > 0 {
        lemma_run_inert(ls.drop_last(), enc, hooks, o);
        if let StepView::Continue(s) = run(ls.drop_last(), enc, o) {
            let k = ls.len() - 1;
            if hook_applies(s, ls[k].1) {
                let (a, res) = o(k)->0;
                lemma_chain_inert(hooks, section_type_of(s), attrs_of(s), statement_of(s), a, res);
                assert(with_attrs(s, attrs_of(s)) == s);
            }
        }
    }
}

/// Hooks that never change the attributes and always return `Ok` give the
/// result of reading without hooks.
pub proof fn lemma_parse_inert_hooks(
    content: Seq<u8>,
    hooks: Seq<Box<dyn SectionHook>>,
    o: spec_fn(int) -> HookOutcome,
)
    requires
        all_inert(hooks),
        hooks_gave_for(content, hooks, o),
    ensures
        parse_with(content, o) == parse_spec(content),
{
    if let Some((raw, enc)) = text_of(content) {
        if let Ok(ls) = parsed_lines(raw) {
            lemma_run_inert(ls, enc, hooks, o);
        }
    }
}

/// Whether the hooks gave what they did only depends on the outcomes at
/// the lines read.
proof fn lemma_hooks_gave_prefix(
    ls: Seq<(usize, LineView)>,
    enc: Encoding,
    hooks: Seq<Box<dyn SectionHook>>,
    o1: spec_fn(int) -> HookOutcome,
    o2: spec_fn(int) -> HookOutcome,
    n: int,
)
    requires
        ls.len() <= n,
        forall|j: int| 0 <= j < n ==> #[trigger] o1(j) == o2(j),
        hooks_gave(ls, enc, hooks, o1),
    ensures
        hooks_gave(ls, enc, hooks, o2),
    decreases ls.len(),
{
    if ls.len() > 0 {
        lemma_hooks_gave_prefix(ls.drop_last(), enc, hooks, o1, o2, n);
        lemma_run_prefix_outcomes(ls.drop_last(), enc, o1, o2, n);
        assert(o1(ls.len() - 1) == o2(ls.len() - 1));
    }
}

/// The result of reading a statement from its bytes, the hooks doing what
/// `o` says.
pub open spec fn parse_with(content: Seq<u8>, o: spec_fn(int) -> HookOutcome) -> Result<StatementView, ErrorView> {
    match text_of(content) {
        None => Err(ErrorView::NotText),
        Some((raw, enc)) => match parsed_lines(raw) {
            Err((l, t)) => Err(ErrorView::Syntax { lineno: l, text: t }),
            Ok(ls) => match run(ls, enc, o) {
                StepView::Continue(StateView::Finished(st)) => Ok(st),
                StepView::Break(l, t) => Err(ErrorView::Syntax { lineno: l, text: t }),
                StepView::Continue(_) => Err(ErrorView::Unfinished),
            },
        },
    }
}

/// The result of reading a statement from its bytes with no hooks.
pub open spec fn parse_spec(content: Seq<u8>) -> Result<StatementView, ErrorView> {
    parse_with(content, no_hooks())
}

pub open spec fn result_view(r: Result<Statement, Error>) -> Result<StatementView, ErrorView> {
    match r {
        Ok(s) => Ok(s@),
        Err(e) => Err(e@),
    }
}

proof fn lemma_run_break(ls: Seq<(usize, LineView)>, enc: Encoding, o: spec_fn(int) -> HookOutcome, n: int)
    requires
        0 <= n <= ls.len(),
        run(ls.take(n), enc, o) is Break,
    ensures
        run(ls, enc, o) == run(ls.take(n), enc, o),
    decreases ls.len() - n,
{
    if n < ls.len() {
        assert(ls.take(n + 1).drop_last() =~= ls.take(n));
        lemma_run_break(ls, enc, o, n + 1);
    } else {
        assert(ls.take(n) =~= ls);
    }
}

impl Line {
    fn copy(&self) -> (r: Line)
        ensures
            r@ == self@,
    {
        match self {
            Line::Section(s) => Line::Section(s.copy()),
            Line::Attr(k, v) => Line::Attr(k.clone(), v.clone()),
        }
    }

    fn ends_document(&self) -> (r: bool)
        ensures
            r == (self@ == LineView::Section(SectionView::EndOfDocument)),
    {
        match self {
            Line::Section(Section::EndOfDocument) => true,
            _ => false,
        }
    }

    fn ends_account(&self) -> (r: bool)
        ensures
            r == (self@ == LineView::Section(SectionView::EndOfAccount)),
    {
        match self {
            Line::Section(Section::EndOfAccount) => true,
            _ => false,
        }
    }
}

/// Builds a parser with hooks.
pub struct ParserBuilder {
    section_hooks: Vec<Box<dyn SectionHook>>,
}

impl ParserBuilder {
    /// The hooks, in the order they are called.
    pub closed spec fn hooks(&self) -> Seq<Box<dyn SectionHook>> {
        self.section_hooks@
    }

    /// The number of hooks.
    pub open spec fn hook_count(&self) -> nat {
        self.hooks().len()
    }

    /// A builder with no hooks.
    pub fn new() -> (r: Self)
        ensures
            r.hook_count() == 0,
    {
        ParserBuilder { section_hooks: Vec::new() }
    }

    /// The builder with the given hooks, in the order they are called.
    pub fn with_hooks(self, hooks: Vec<Box<dyn SectionHook>>) -> (r: Self)
        ensures
            r.hooks() == hooks@,
    {
        let mut b = self;
        b.section_hooks = hooks;
        b
    }

    /// The parser with the builder's hooks.
    pub fn build(self) -> (r: Parser)
        ensures
            r.hooks() == self.hooks(),
    {
        Parser { section_hooks: self.section_hooks }
    }
}

impl Default for ParserBuilder {
    fn default() -> (r: Self)
        ensures
            r.hook_count() == 0,
    {
        ParserBuilder::new()
    }
}

/// Reads statements, calling its hooks at the end of each document and
/// account section.
pub struct Parser {
    section_hooks: Vec<Box<dyn SectionHook>>,
}

impl Default for Parser {
    fn default() -> (r: Self)
        ensures
            r.hook_count() == 0,
    {
        ParserBuilder::new().build()
    }
}

impl Parser {
    /// The hooks, in the order they are called.
    pub closed spec fn hooks(&self) -> Seq<Box<dyn SectionHook>> {
        self.section_hooks@
    }

    /// The number of hooks.
    pub open spec fn hook_count(&self) -> nat {
        self.hooks().len()
    }

    /// Reads a statement from its bytes. The result is the reading with the
    /// outcomes that the hooks gave, called in order at the end of each
    /// document and account section on its kind, attributes and statement;
    /// with no hooks, or hooks that never change anything, it is
    /// `parse_spec` of the bytes.
    pub fn parse(&self, content: &[u8]) -> (r: Result<Statement, Error>)
        ensures
            exists|o: spec_fn(int) -> HookOutcome|
                #![trigger parse_with(content@, o)]
                hooks_gave_for(content@, self.hooks(), o) && result_view(r) == parse_with(
                    content@,
                    o,
                ),
            all_inert(self.hooks()) ==> result_view(r) == parse_spec(content@),
            self.hook_count() == 0 ==> result_view(r) == parse_spec(content@),
    {
        let (raw, encoding) = match parse_text(content) {
            Some(p) => p,
            None => {
                assert(result_view(Err(Error::NotText)) == parse_with(content@, no_hooks()));
                assert(hooks_gave_for(content@, self.hooks(), no_hooks()));
                return Err(Error::NotText);
            },
        };
        let (res, Ghost(o)) = self.parse_internal(&raw, encoding);
        let r = match res {
            Err(e) => Err(e),
            Ok(ControlFlow::Continue(State::Finished(statement))) => Ok(statement),
            Ok(ControlFlow::Break((lineno, text))) => Err(Error::Syntax { lineno, text }),
            Ok(ControlFlow::Continue(_)) => Err(Error::Unfinished),
        };
        assert(result_view(r) == parse_with(content@, o));
        assert(hooks_gave_for(content@, self.hooks(), o));
        proof {
            if all_inert(self.hooks()) {
                lemma_parse_inert_hooks(content@, self.hooks(), o);
            }
        }
        r
    }

    /// Calls the hooks in order, stopping at the first error.
    fn call_hooks(
        &self,
        section: SectionType,
        attrs: &mut IndexMap<String, String>,
        statement: &Statement,
    ) -> (r: Result<(), HookError>)
        ensures
            chain_permits(
                self.hooks(),
                section,
                text_entries(*old(attrs)),
                statement@,
                text_entries(*final(attrs)),
                hook_result_view(r),
            ),
    {
        let ghost hooks = self.hooks();
        let ghost mut mids: Seq<Entries<Seq<char>>> = seq![text_entries(*attrs)];
        let mut i: usize = 0;
        while i < self.section_hooks.len()
            invariant
                hooks == self.hooks(),
                hooks == self.section_hooks@,
                i <= hooks.len(),
                ok_chain(hooks, section, statement@, mids, i as int),
                mids[0] == text_entries(*old(attrs)),
                mids[i as int] == text_entries(*attrs),
            decreases self.section_hooks@.len() - i,
        {
            let ghost before = text_entries(*attrs);
            match self.section_hooks[i].call(section, attrs, statement) {
                Ok(()) => {
                    proof {
                        let old_mids = mids;
                        mids = mids.push(text_entries(*attrs));
                        assert forall|j: int| #![trigger hooks[j]] 0 <= j < i + 1 implies hooks[j].permits(
                            section,
                            mids[j],
                            statement@,
                            mids[j + 1],
                            Ok(()),
                        ) by {
                            if j < i {
                                assert(mids[j] == old_mids[j] && mids[j + 1] == old_mids[j + 1]);
                            }
                        }
                    }
                },
                Err(e) => {
                    let r: Result<(), HookError> = Err(e);
                    proof {
                        assert(ok_chain(hooks, section, statement@, mids, i as int));
                        assert(hooks[i as int].permits(section, mids[i as int], statement@, text_entries(*attrs), hook_result_view(r)));
                    }
                    return r;
                },
            }
            i = i + 1;
        }
        proof {
            assert(ok_chain(hooks, section, statement@, mids, hooks.len() as int));
        }
        Ok(())
    }

    /// Calls the hooks where the line ends a document or an account section.
    fn apply_hooks(&self, state: State, line: &Line) -> (r: (State, Result<(), HookError>))
        ensures
            !hook_applies(state@, line@) ==> r.0@ == state@ && r.1 is Ok,
            hook_applies(state@, line@) ==> r.0@ == with_attrs(state@, attrs_of(r.0@))
                && chain_permits(
                self.hooks(),
                section_type_of(state@),
                attrs_of(state@),
                statement_of(state@),
                attrs_of(r.0@),
                hook_result_view(r.1),
            ),
    {
        match state {
            State::Document { statement, typ, mut attrs } => {
                if line.ends_document() {
                    let res = self.call_hooks(SectionType::Document, &mut attrs, &statement);
                    (State::Document { statement, typ, attrs }, res)
                } else {
                    (State::Document { statement, typ, attrs }, Ok(()))
                }
            },
            State::Account { statement, mut attrs } => {
                if line.ends_account() {
                    let res = self.call_hooks(SectionType::Account, &mut attrs, &statement);
                    (State::Account { statement, attrs }, res)
                } else {
                    (State::Account { statement, attrs }, Ok(()))
                }
            },
            other => (other, Ok(())),
        }
    }

    fn parse_internal(&self, raw: &String, encoding: Encoding) -> (r: (
        Result<ControlFlow<(usize, String), State>, Error>,
        Ghost<spec_fn(int) -> HookOutcome>,
    ))
        ensures
            match parsed_lines(raw@) {
                Err((l, t)) => r.0 matches Err(e) && e@ == (ErrorView::Syntax { lineno: l, text: t }),
                Ok(ls) => r.0 matches Ok(c) && flow_view(c) == run(ls, encoding, r.1@)
                    && hooks_gave(ls, encoding, self.hooks(), r.1@),
            },
    {
        let lines = match parse_lines(raw.as_str()) {
            Ok(ls) => ls,
            Err(e) => return (Err(e), Ghost(no_hooks())),
        };
        assert(hooks_gave(lines_view(lines@).take(0), encoding, self.hooks(), no_hooks()));
        let ghost lv = lines_view(lines@);
        let ghost mut o: spec_fn(int) -> HookOutcome = no_hooks();
        let mut state = State::Init;
        assert(lv.take(0) =~= Seq::<(usize, LineView)>::empty());
        let mut i: usize = 0;
        while i < lines.len()
            invariant
                i <= lines.len(),
                lv == lines_view(lines@),
                lv.len() == lines.len(),
                parsed_lines(raw@) == Ok::<Seq<(usize, LineView)>, (usize, Seq<char>)>(lv),
                run(lv.take(i as int), encoding, o) == StepView::Continue(state@),
                hooks_gave(lv.take(i as int), encoding, self.hooks(), o),
                forall|j: int| i <= j ==> #[trigger] o(j) is None,
            decreases lines.len() - i,
        {
            let lineno = lines[i].0;
            let line = lines[i].1.copy();
            assert(lv[i as int] == (lineno, line@));
            let ghost before = state@;
            let (s2, res) = self.apply_hooks(state, &line);
            let ghost oi: HookOutcome = if hook_applies(before, line@) {
                Some((attrs_of(s2@), hook_result_view(res)))
            } else {
                None
            };
            let ghost o_prev = o;
            proof {
                o = |j: int| if j == i { oi } else { o_prev(j) };
                assert(hooked(before, line@, oi) == (s2@, hook_result_view(res)));
                assert(lv.take(i + 1).drop_last() =~= lv.take(i as int));
                lemma_run_prefix_outcomes(lv.take(i as int), encoding, o_prev, o, i as int);
                lemma_hooks_gave_prefix(lv.take(i as int), encoding, self.hooks(), o_prev, o, i as int);
                assert(o(i as int) == oi);
                assert(hooks_gave(lv.take(i + 1), encoding, self.hooks(), o));
            }
            match transition_exec(s2, lineno, line, encoding, res) {
                ControlFlow::Continue(s) => {
                    state = s;
                },
                ControlFlow::Break(b) => {
                    proof {
                        lemma_run_break(lv, encoding, o, i + 1);
                        lemma_hooks_gave_break(lv, encoding, self.hooks(), o, i + 1);
                    }
                    return (Ok(ControlFlow::Break(b)), Ghost(o));
                },
            }
            i = i + 1;
        }
        assert(lv.take(lines.len() as int) =~= lv);
        (Ok(ControlFlow::Continue(state)), Ghost(o))
    }
}

/// After reading stops, no hook is called: the outcomes of the lines
/// before the stop are all that matters.
proof fn lemma_hooks_gave_break(
    ls: Seq<(usize, LineView)>,
    enc: Encoding,
    hooks: Seq<Box<dyn SectionHook>>,
    o: spec_fn(int) -> HookOutcome,
    n: int,
)
    requires
        0 <= n <= ls.len(),
        run(ls.take(n), enc, o) is Break,
        hooks_gave(ls.take(n), enc, hooks, o),
        forall|j: int| n <= j < ls.len() ==> #[trigger] o(j) is None,
    ensures
        hooks_gave(ls, enc, hooks, o),
    decreases ls.len() - n,
{
    if n < ls.len() {
        assert(ls.take(n + 1).drop_last() =~= ls.take(n));
        assert(o(n) is None);
        lemma_run_break(ls.take(n + 1), enc, o, n);
        assert(ls.take(n + 1).take(n) =~= ls.take(n));
        lemma_hooks_gave_break(ls, enc, hooks, o, n + 1);
    } else {
        assert(ls.take(n) =~= ls);
    }
}

/// Running a prefix only looks at the outcomes of its own lines.
proof fn lemma_run_prefix_outcomes(
    ls: Seq<(usize, LineView)>,
    enc: Encoding,
    o1: spec_fn(int) -> HookOutcome,
    o2: spec_fn(int) -> HookOutcome,
    n: int,
)
    requires
        ls.len() <= n,
        forall|j: int| 0 <= j < n ==> #[trigger] o1(j) == o2(j),
    ensures
        run(ls, enc, o1) == run(ls, enc, o2),
    decreases ls.len(),
{
    if ls.len() > 0 {
        lemma_run_prefix_outcomes(ls.drop_last(), enc, o1, o2, n);
    }
}


/// What every state of reading keeps: header keys occur once, and the
/// statement read so far is well formed.
pub open spec fn state_well_formed(s: StateView) -> bool {
    match s {
        StateView::Init => true,
        StateView::Header(a) => unique_keys(a),
        StateView::Document { statement, .. } => statement_well_formed(statement),
        StateView::Account { statement, .. } => statement_well_formed(statement),
        StateView::ReadNextSection { statement, .. } => statement_well_formed(statement),
        StateView::Finished(statement) => statement_well_formed(statement),
    }
}

/// Every step keeps the state well formed, whatever the hooks did.
pub proof fn lemma_step_well_formed(
    state: StateView,
    lineno: usize,
    line: LineView,
    enc: Encoding,
    o: HookOutcome,
)
    requires
        state_well_formed(state),
    ensures
        ({
            let (s2, res) = hooked(state, line, o);
            transition(s2, lineno, line, enc, res) matches StepView::Continue(next)
                ==> state_well_formed(next)
        }),
{
    let (s2, res) = hooked(state, line, o);
    assert(state_well_formed(s2));
    match (s2, line) {
        (StateView::Header(attrs), LineView::Attr(k, v)) => {
            lemma_insert_unique(attrs, k, v);
        },
        (StateView::Document { statement, typ, attrs }, LineView::Section(SectionView::EndOfDocument)) => {
            lemma_with_document_well_formed(statement, typ, attrs);
        },
        (StateView::Account { statement, attrs }, LineView::Section(SectionView::EndOfAccount)) => {
            lemma_with_account_well_formed(statement, attrs);
        },
        _ => {},
    }
}

/// Reading any lines keeps the state well formed, whatever the hooks do.
pub proof fn lemma_run_well_formed(ls: Seq<(usize, LineView)>, enc: Encoding, o: spec_fn(int) -> HookOutcome)
    ensures
        run(ls, enc, o) matches StepView::Continue(s) ==> state_well_formed(s),
    decreases ls.len(),
{
    if ls.len() > 0 {
        lemma_run_well_formed(ls.drop_last(), enc, o);
        if let StepView::Continue(s) = run(ls.drop_last(), enc, o) {
            let k = ls.len() - 1;
            lemma_step_well_formed(s, ls[k].0, ls[k].1, enc, o(k));
        }
    }
}

/// Every statement that is read is well formed: header keys occur once,
/// accounts are kept by number, and each account's intervals are ordered by
/// start date with no two equal; whatever the hooks do.
pub proof fn lemma_parse_well_formed(content: Seq<u8>, o: spec_fn(int) -> HookOutcome)
    ensures
        parse_with(content, o) matches Ok(st) ==> statement_well_formed(st),
{
    if let Some((raw, enc)) = text_of(content) {
        if let Ok(ls) = parsed_lines(raw) {
            lemma_run_well_formed(ls, enc, o);
        }
    }
}


/// A section written out is read back as the same section.
pub proof fn lemma_section_round_trip(s: SectionView)
    ensures
        section_of(section_text(s)) == Some(s),
{
    reveal_strlit("1CClientBankExchange");
    reveal_strlit("СекцияРасчСчет");
    reveal_strlit("КонецРасчСчет");
    reveal_strlit("КонецДокумента");
    reveal_strlit("КонецФайла");
    reveal_strlit("СекцияДокумент");
    reveal_strlit("СекцияДокумент=");
    let t = section_text(s);
    match s {
        SectionView::Document(typ) => {
            let head = "СекцияДокумент="@;
            assert(t[14] == '=');
            assert forall|j: int| 0 <= j < 14 implies t[j] != '=' by {
                assert(t[j] == head[j]);
            }
            crate::text::lemma_find_char_at(t, '=', 14);
            assert(t.take(14) =~= "СекцияДокумент"@);
            assert(t.skip(15) =~= typ);
        },
        _ => {
            assert forall|j: int| 0 <= j < t.len() implies t[j] != '=' by {}
            crate::text::lemma_find_char_none(t, '=');
        },
    }
}

/// Where a sequence of lines stands in the grammar of a statement,
/// `1CClientBankExchange Attr* (СекцияДокумент Attr* КонецДокумента |
/// СекцияРасчСчет Attr* КонецРасчСчет)+ КонецФайла`: before the start, in
/// the header, in a document, in an account, between sections, after the
/// end, or out of the grammar.
pub enum Phase {
    Start,
    Header,
    Document,
    Account,
    Between,
    Done,
    Out,
}

/// The grammar's step on one line.
pub open spec fn phase_step(p: Phase, line: LineView) -> Phase {
    match line {
        LineView::Attr(_, _) => match p {
            Phase::Header => Phase::Header,
            Phase::Document => Phase::Document,
            Phase::Account => Phase::Account,
            _ => Phase::Out,
        },
        LineView::Section(s) => match (p, s) {
            (Phase::Start, SectionView::StartOfFile) => Phase::Header,
            (Phase::Header, SectionView::Document(_)) => Phase::Document,
            (Phase::Between, SectionView::Document(_)) => Phase::Document,
            (Phase::Header, SectionView::Account) => Phase::Account,
            (Phase::Between, SectionView::Account) => Phase::Account,
            (Phase::Document, SectionView::EndOfDocument) => Phase::Between,
            (Phase::Account, SectionView::EndOfAccount) => Phase::Between,
            (Phase::Between, SectionView::EndOfFile) => Phase::Done,
            _ => Phase::Out,
        },
    }
}

/// Where the lines stand in the grammar, read from the start.
pub open spec fn grammar_phase(ls: Seq<(usize, LineView)>) -> Phase
    decreases ls.len(),
{
    if ls.len() == 0 {
        Phase::Start
    } else {
        phase_step(grammar_phase(ls.drop_last()), ls.last().1)
    }
}

/// The place in the grammar of a state of reading.
pub open spec fn phase_of(s: StateView) -> Phase {
    match s {
        StateView::Init => Phase::Start,
        StateView::Header(_) => Phase::Header,
        StateView::Document { .. } => Phase::Document,
        StateView::Account { .. } => Phase::Account,
        StateView::ReadNextSection { .. } => Phase::Between,
        StateView::Finished(_) => Phase::Done,
    }
}

/// Reading stops with the message `msg` at a line that ends a document or
/// an account section: a hook returned that error there, or the account
/// section, as the hooks left it, could not be added.
pub open spec fn stopped_at_end(s: StateView, line: LineView, o: HookOutcome, msg: Seq<char>) -> bool {
    let (s2, res) = hooked(s, line, o);
    &&& hook_applies(s, line)
    &&& (res matches Err(HookErrorView::Error(m)) && m == msg) || (s is Account && res is Ok && with_account(
        statement_of(s2),
        attrs_of(s2),
    ) == Err::<StatementView, Seq<char>>(msg))
}

proof fn lemma_step_phase(s: StateView, lineno: usize, line: LineView, enc: Encoding, o: HookOutcome)
    ensures
        ({
            let (s2, res) = hooked(s, line, o);
            match transition(s2, lineno, line, enc, res) {
                StepView::Continue(n) => phase_of(n) == phase_step(phase_of(s), line),
                StepView::Break(l, m) => l == lineno && (phase_step(phase_of(s), line) is Out
                    || stopped_at_end(s, line, o, m)),
            }
        }),
{
}

proof fn lemma_out_stays(ls: Seq<(usize, LineView)>, n: int)
    requires
        0 <= n <= ls.len(),
        grammar_phase(ls.take(n)) is Out,
    ensures
        grammar_phase(ls) is Out,
    decreases ls.len() - n,
{
    if n < ls.len() {
        assert(ls.take(n + 1).drop_last() =~= ls.take(n));
        lemma_out_stays(ls, n + 1);
    } else {
        assert(ls.take(n) =~= ls);
    }
}

/// Reading stopped at line `j` with the message `m`: up to line `j` the
/// lines are in the grammar, and line `j` takes them out of it, or it ends a
/// section where a hook returned the error `m` or the account could not be
/// added.
pub open spec fn stopped_at(ls: Seq<(usize, LineView)>, enc: Encoding, o: spec_fn(int) -> HookOutcome, j: int, m: Seq<char>) -> bool {
    &&& 0 <= j < ls.len()
    &&& !(grammar_phase(ls.take(j)) is Out)
    &&& run(ls.take(j), enc, o) matches StepView::Continue(s) && (grammar_phase(ls.take(j + 1)) is Out
        || stopped_at_end(s, ls[j].1, o(j), m))
}

proof fn lemma_stopped_at_extend(ls: Seq<(usize, LineView)>, enc: Encoding, o: spec_fn(int) -> HookOutcome, j: int, m: Seq<char>)
    requires
        ls.len() > 0,
        stopped_at(ls.drop_last(), enc, o, j, m),
    ensures
        stopped_at(ls, enc, o, j, m),
        ls.drop_last()[j] == ls[j],
{
    let d = ls.drop_last();
    assert(d.take(j) =~= ls.take(j));
    assert(d.take(j + 1) =~= ls.take(j + 1));
}

/// Reading follows the grammar: while it goes on, its state is where the
/// lines stand in the grammar; lines out of the grammar stop it; and where
/// it stops, at the line number `l` with the message `m`, it stops at a line
/// `j` numbered `l` as `stopped_at` says.
#[verifier::rlimit(30)]
pub proof fn lemma_run_grammar(ls: Seq<(usize, LineView)>, enc: Encoding, o: spec_fn(int) -> HookOutcome)
    ensures
        run(ls, enc, o) matches StepView::Continue(s) ==> phase_of(s) == grammar_phase(ls),
        grammar_phase(ls) is Out ==> run(ls, enc, o) is Break,
        run(ls, enc, o) matches StepView::Break(l, m) ==> exists|j: int|
            stopped_at(ls, enc, o, j, m) && l == #[trigger] ls[j].0,
    decreases ls.len(),
{
    if ls.len() > 0 {
        let d = ls.drop_last();
        let k = d.len() as int;
        lemma_run_grammar(d, enc, o);
        assert(ls.take(k) =~= d);
        assert(ls.take(k + 1) =~= ls);
        match run(d, enc, o) {
            StepView::Break(l, m) => {
                let j = choose|j: int| stopped_at(d, enc, o, j, m) && l == #[trigger] d[j].0;
                lemma_stopped_at_extend(ls, enc, o, j, m);
            },
            StepView::Continue(s) => {
                lemma_step_phase(s, ls[k].0, ls[k].1, enc, o(k));
                assert(ls.last() == ls[k]);
                if let StepView::Break(l, m) = run(ls, enc, o) {
                    assert(stopped_at(ls, enc, o, k, m));
                }
            },
        }
    }
}

/// A text's lines are read to the end exactly when they form a statement
/// and no section end stops the reading; where they form a statement and
/// the reading stops, a hook's error or an account that could not be added
/// stopped it at a section end.
pub proof fn lemma_run_finished_grammar(ls: Seq<(usize, LineView)>, enc: Encoding, o: spec_fn(int) -> HookOutcome)
    ensures
        (run(ls, enc, o) matches StepView::Continue(s) && s is Finished) <==> (grammar_phase(ls) is Done
            && !(run(ls, enc, o) is Break)),
        grammar_phase(ls) is Done ==> (run(ls, enc, o) matches StepView::Break(l, m) ==> exists|j: int|
            stopped_at(ls, enc, o, j, m) && l == #[trigger] ls[j].0 && !(grammar_phase(ls.take(j + 1)) is Out)),
{
    lemma_run_grammar(ls, enc, o);
    if grammar_phase(ls) is Done {
        if let StepView::Break(l, m) = run(ls, enc, o) {
            let j = choose|j: int| stopped_at(ls, enc, o, j, m) && l == #[trigger] ls[j].0;
            if grammar_phase(ls.take(j + 1)) is Out {
                lemma_out_stays(ls, j + 1);
            }
        }
    }
}

/// The statement a state of reading holds, once the header is read.
pub open spec fn statement_in(s: StateView) -> Option<StatementView> {
    match s {
        StateView::Document { statement, .. } => Some(statement),
        StateView::Account { statement, .. } => Some(statement),
        StateView::ReadNextSection { statement, .. } => Some(statement),
        StateView::Finished(statement) => Some(statement),
        _ => None,
    }
}

/// The statement `b` grows out of `a` at its ends only: the same encoding
/// and header; the documents and warnings of `a` first in `b`, in their
/// order; and the accounts of `a` first in `b`, under the same numbers in
/// the same order.
pub open spec fn grows_into(a: StatementView, b: StatementView) -> bool {
    &&& b.encoding == a.encoding
    &&& b.header == a.header
    &&& a.documents.len() <= b.documents.len()
    &&& b.documents.take(a.documents.len() as int) == a.documents
    &&& a.warnings.len() <= b.warnings.len()
    &&& b.warnings.take(a.warnings.len() as int) == a.warnings
    &&& a.accounts.len() <= b.accounts.len()
    &&& forall|i: int| 0 <= i < a.accounts.len() ==> #[trigger] b.accounts[i].0 == a.accounts[i].0
}

proof fn lemma_grows_into_trans(a: StatementView, b: StatementView, c: StatementView)
    requires
        grows_into(a, b),
        grows_into(b, c),
    ensures
        grows_into(a, c),
{
    assert(c.documents.take(a.documents.len() as int) =~= b.documents.take(a.documents.len() as int));
    assert(c.warnings.take(a.warnings.len() as int) =~= b.warnings.take(a.warnings.len() as int));
    assert forall|i: int| 0 <= i < a.accounts.len() implies #[trigger] c.accounts[i].0 == a.accounts[i].0 by {
        assert(c.accounts[i].0 == b.accounts[i].0);
    }
}

proof fn lemma_insert_keeps_keys<V>(e: Entries<V>, k: Seq<char>, v: V)
    ensures
        e.len() <= entries_insert(e, k, v).len(),
        forall|i: int| 0 <= i < e.len() ==> #[trigger] entries_insert(e, k, v)[i].0 == e[i].0,
{
    lemma_key_index(e, k);
}

/// One step keeps what the statement holds and adds only at its ends.
proof fn lemma_step_grows(s: StateView, lineno: usize, line: LineView, enc: Encoding, o: HookOutcome)
    ensures
        ({
            let (s2, res) = hooked(s, line, o);
            statement_in(s) matches Some(a) ==> (transition(s2, lineno, line, enc, res) matches StepView::Continue(
                n,
            ) ==> (statement_in(n) matches Some(b) && grows_into(a, b)))
        }),
{
    let (s2, res) = hooked(s, line, o);
    if let Some(a) = statement_in(s) {
        assert(a.warnings.take(a.warnings.len() as int) =~= a.warnings);
        assert(a.documents.take(a.documents.len() as int) =~= a.documents);
        assert forall|d| #[trigger] a.documents.push(d).take(a.documents.len() as int) == a.documents by {
            assert(a.documents.push(d).take(a.documents.len() as int) =~= a.documents);
        }
        assert forall|w: (usize, Seq<char>)| #[trigger] a.warnings.push(w).take(a.warnings.len() as int)
            == a.warnings by {
            assert(a.warnings.push(w).take(a.warnings.len() as int) =~= a.warnings);
        }
        if let StepView::Continue(n) = transition(s2, lineno, line, enc, res) {
            if let Some(b) = statement_in(n) {
                if b.accounts != a.accounts {
                    let attrs = attrs_of(s2);
                    let number = entries_get(attrs, crate::parser::statement::KEY_ACCOUNT_NUMBER@)->0;
                    let acc = choose|acc: crate::parser::statement::AccountView| b.accounts == entries_insert(
                        a.accounts,
                        number,
                        acc,
                    );
                    lemma_insert_keeps_keys(a.accounts, number, acc);
                }
            }
        }
    }
}

/// While the reading goes on, the statement only grows at its ends: once
/// the header is read it stays the same, documents and warnings are added
/// after those before them (so documents come in the order of their
/// sections and warnings in the order of their lines), and an account
/// keeps its place, a new account number coming after the others.
pub proof fn lemma_run_grows(ls: Seq<(usize, LineView)>, enc: Encoding, o: spec_fn(int) -> HookOutcome, i: int)
    requires
        0 <= i <= ls.len(),
    ensures
        run(ls.take(i), enc, o) matches StepView::Continue(si) ==> (statement_in(si) matches Some(a) ==> (
        run(ls, enc, o) matches StepView::Continue(sn) ==> (statement_in(sn) matches Some(b)
            && grows_into(a, b)))),
    decreases ls.len() - i,
{
    if i == ls.len() {
        assert(ls.take(i) =~= ls);
        if let StepView::Continue(si) = run(ls, enc, o) {
            if let Some(a) = statement_in(si) {
                assert(a.documents.take(a.documents.len() as int) =~= a.documents);
                assert(a.warnings.take(a.warnings.len() as int) =~= a.warnings);
            }
        }
    } else {
        let t = ls.take(i + 1);
        assert(t.drop_last() =~= ls.take(i));
        assert(t.last() == ls[i]);
        if let StepView::Continue(si) = run(ls.take(i), enc, o) {
            lemma_step_grows(si, ls[i].0, ls[i].1, enc, o(i));
            lemma_run_grows(ls, enc, o, i + 1);
            if let Some(a) = statement_in(si) {
                if let StepView::Continue(sj) = run(t, enc, o) {
                    if let StepView::Continue(sn) = run(ls, enc, o) {
                        let b = statement_in(sj)->0;
                        let c = statement_in(sn)->0;
                        lemma_grows_into_trans(a, b, c);
                    }
                } else {
                    lemma_run_break(ls, enc, o, i + 1);
                }
            }
        }
    }
}

/// The line numbers go up strictly.
pub open spec fn numbers_ascending(ls: Seq<(usize, LineView)>) -> bool {
    forall|a: int, b: int| 0 <= a < b < ls.len() ==> #[trigger] ls[a].0 < #[trigger] ls[b].0
}

/// The warnings' line numbers go up strictly.
pub open spec fn warnings_ascending(w: Seq<(usize, Seq<char>)>) -> bool {
    forall|a: int, b: int| 0 <= a < b < w.len() ==> #[trigger] w[a].0 < #[trigger] w[b].0
}

/// The lines read from a text are numbered in strictly ascending order, from
/// 1 up to at most the number of lines.
pub proof fn lemma_parsed_lines_ascending(ls: Seq<Seq<char>>, n: int)
    requires
        0 <= n <= ls.len(),
        ls.len() <= usize::MAX,
    ensures
        parsed_lines_upto(ls, n) matches Ok(acc) ==> numbers_ascending(acc) && forall|a: int|
            0 <= a < acc.len() ==> 1 <= #[trigger] acc[a].0 <= n,
    decreases n,
{
    if n > 0 {
        lemma_parsed_lines_ascending(ls, n - 1);
        if let Ok(acc) = parsed_lines_upto(ls, n) {
            let prev = parsed_lines_upto(ls, n - 1)->Ok_0;
            if acc != prev {
                assert(acc.drop_last() =~= prev);
                assert forall|a: int, b: int| 0 <= a < b < acc.len() implies #[trigger] acc[a].0
                    < #[trigger] acc[b].0 by {
                    assert(acc[a] == prev[a]);
                    if b < prev.len() {
                        assert(acc[b] == prev[b]);
                    }
                }
                assert forall|a: int| 0 <= a < acc.len() implies 1 <= #[trigger] acc[a].0 <= n by {
                    if a < prev.len() {
                        assert(acc[a] == prev[a]);
                    }
                }
            }
        }
    }
}

proof fn lemma_step_warnings(s: StateView, lineno: usize, line: LineView, enc: Encoding, o: HookOutcome)
    ensures
        ({
            let (s2, res) = hooked(s, line, o);
            transition(s2, lineno, line, enc, res) matches StepView::Continue(n) ==> (statement_in(n) matches Some(
                b,
            ) ==> match statement_in(s) {
                Some(a) => b.warnings == a.warnings || exists|w: Seq<char>| b.warnings == a.warnings.push(
                    (lineno, w),
                ),
                None => b.warnings.len() == 0,
            })
        }),
{
    let (s2, res) = hooked(s, line, o);
    if let StepView::Continue(n) = transition(s2, lineno, line, enc, res) {
        if let Some(b) = statement_in(n) {
            if let Some(a) = statement_in(s) {
                if b.warnings != a.warnings {
                    if let StateView::ReadNextSection { statement, .. } = n {
                        if let Err(HookErrorView::Warning(w)) = res {
                            assert(b.warnings == a.warnings.push((lineno, w)));
                        } else if s is Document {
                            let e = with_document(statement_of(s2), s2->typ, attrs_of(s2))->Err_0;
                            assert(b.warnings == a.warnings.push((lineno, e)));
                        }
                    }
                }
            }
        }
    }
}

/// Warnings are recorded in the order of their lines: reading lines
/// numbered in ascending order, the statement's warnings are in ascending
/// order of line, none after the last line read.
pub proof fn lemma_run_warnings_ascending(ls: Seq<(usize, LineView)>, enc: Encoding, o: spec_fn(int) -> HookOutcome)
    requires
        numbers_ascending(ls),
    ensures
        run(ls, enc, o) matches StepView::Continue(s) ==> (statement_in(s) matches Some(st) ==> (
        warnings_ascending(st.warnings) && ls.len() > 0 && forall|a: int|
            0 <= a < st.warnings.len() ==> #[trigger] st.warnings[a].0 <= ls.last().0)),
    decreases ls.len(),
{
    if ls.len() > 0 {
        let d = ls.drop_last();
        let k = d.len() as int;
        assert forall|a: int, b: int| 0 <= a < b < d.len() implies #[trigger] d[a].0 < #[trigger] d[b].0 by {
            assert(d[a] == ls[a] && d[b] == ls[b]);
        }
        lemma_run_warnings_ascending(d, enc, o);
        if let StepView::Continue(s) = run(d, enc, o) {
            lemma_step_warnings(s, ls[k].0, ls[k].1, enc, o(k));
            assert(ls.last() == ls[k]);
            if k > 0 {
                assert(d.last() == ls[k - 1]);
                assert(ls[k - 1].0 < ls[k].0);
            }
            if let StepView::Continue(n) = run(ls, enc, o) {
                if let Some(b) = statement_in(n) {
                    if let Some(a) = statement_in(s) {
                        if b.warnings != a.warnings {
                            let w = choose|w: Seq<char>| b.warnings == a.warnings.push((ls[k].0, w));
                            assert forall|x: int, y: int| 0 <= x < y < b.warnings.len() implies #[trigger] b.warnings[x].0
                                < #[trigger] b.warnings[y].0 by {
                                assert(b.warnings[x] == a.warnings[x]);
                                if y < a.warnings.len() {
                                    assert(b.warnings[y] == a.warnings[y]);
                                }
                            }
                            assert forall|x: int| 0 <= x < b.warnings.len() implies #[trigger] b.warnings[x].0
                                <= ls.last().0 by {
                                if x < a.warnings.len() {
                                    assert(b.warnings[x] == a.warnings[x]);
                                }
                            }
                        }
                    }
                }
            }
        }
    }
}

/// The warnings of a statement that is read are in ascending order of line
/// (for a text of at most `usize::MAX` lines).
pub proof fn lemma_parse_warnings_ascending(content: Seq<u8>, o: spec_fn(int) -> HookOutcome)
    requires
        text_of(content) matches Some((raw, _)) ==> lines(raw).len() <= usize::MAX,
    ensures
        parse_with(content, o) matches Ok(st) ==> warnings_ascending(st.warnings),
{
    if let Some((raw, enc)) = text_of(content) {
        lemma_parsed_lines_ascending(lines(raw), lines(raw).len() as int);
        if let Ok(ls) = parsed_lines(raw) {
            lemma_run_warnings_ascending(ls, enc, o);
        }
    }
}

/// The header that the lines give: the attributes after
/// `1CClientBankExchange` and before the first section, inserted in turn,
/// so that each key occurs once, in the order it first occurs, with the
/// last value it is given.
pub open spec fn header_of(ls: Seq<(usize, LineView)>) -> Entries<Seq<char>>
    decreases ls.len(),
{
    if ls.len() == 0 {
        Seq::empty()
    } else {
        let d = ls.drop_last();
        match ls.last().1 {
            LineView::Attr(k, v) => if grammar_phase(d) is Header {
                entries_insert(header_of(d), k, v)
            } else {
                header_of(d)
            },
            _ => header_of(d),
        }
    }
}

/// The statement's header and encoding: while the reading goes on, the
/// header read so far, and then the statement's header, is `header_of` the
/// lines, and the statement is in the encoding the text was read in.
pub proof fn lemma_run_header(ls: Seq<(usize, LineView)>, enc: Encoding, o: spec_fn(int) -> HookOutcome)
    ensures
        run(ls, enc, o) matches StepView::Continue(s) ==> ((s matches StateView::Header(a) ==> a == header_of(
            ls,
        )) && (statement_in(s) matches Some(st) ==> st.header == header_of(ls) && st.encoding == enc)),
    decreases ls.len(),
{
    if ls.len() > 0 {
        let d = ls.drop_last();
        let k = d.len() as int;
        lemma_run_header(d, enc, o);
        lemma_run_grammar(d, enc, o);
        if let StepView::Continue(s) = run(d, enc, o) {
            lemma_step_grows(s, ls[k].0, ls[k].1, enc, o(k));
            assert(ls.last() == ls[k]);
            if d.len() > 0 {
                assert(!(grammar_phase(d) is Start));
            }
            let line = ls[k].1;
            let (s2, res) = hooked(s, line, o(k));
            assert(run(ls, enc, o) == transition(s2, ls[k].0, line, enc, res));
            match s {
                StateView::Init => {
                    assert(header_of(d) == Seq::<(Seq<char>, Seq<char>)>::empty());
                    assert(header_of(ls) == header_of(d));
                },
                StateView::Header(a) => {
                    assert(s2 == s);
                    match line {
                        LineView::Attr(key, v) => {
                            assert(header_of(ls) == entries_insert(header_of(d), key, v));
                        },
                        _ => {
                            assert(header_of(ls) == header_of(d));
                        },
                    }
                },
                _ => {
                    assert(!(grammar_phase(d) is Header));
                    assert(header_of(ls) == header_of(d));
                },
            }
        }
    }
}

/// Where the first hook always returns the error `msg`, so does the chain.
proof fn lemma_chain_first_error(
    hooks: Seq<Box<dyn SectionHook>>,
    section: SectionType,
    before: Entries<Seq<char>>,
    st: StatementView,
    after: Entries<Seq<char>>,
    res: Result<(), HookErrorView>,
    msg: Seq<char>,
)
    requires
        hooks.len() > 0,
        forall|sec: SectionType, b: Entries<Seq<char>>, s: StatementView, a: Entries<Seq<char>>, r: Result<(), HookErrorView>|
            #[trigger] hooks[0].permits(sec, b, s, a, r) ==> (r matches Err(HookErrorView::Error(m)) && m == msg),
        chain_permits(hooks, section, before, st, after, res),
    ensures
        res matches Err(HookErrorView::Error(m)) && m == msg,
{
    if res is Ok {
        let mids = choose|mids: Seq<Entries<Seq<char>>>|
            #![trigger ok_chain(hooks, section, st, mids, hooks.len() as int)]
            ok_chain(hooks, section, st, mids, hooks.len() as int) && mids[0] == before && mids.last()
                == after;
        assert(hooks[0].permits(section, mids[0], st, mids[1], Ok(())));
    } else {
        let (mids, n) = choose|mids: Seq<Entries<Seq<char>>>, n: int|
            #![trigger ok_chain(hooks, section, st, mids, n)]
            ok_chain(hooks, section, st, mids, n) && n < hooks.len() && mids[0] == before
                && hooks[n].permits(section, mids[n], st, after, res);
        if n > 0 {
            assert(hooks[0].permits(section, mids[0], st, mids[1], Ok(())));
        }
    }
}

/// A first hook that always returns the error `msg` stops the reading at
/// the end of the first document or account section, with `msg`: no
/// section is ever read to its end, and where the reading stops, it stops
/// at a line out of the grammar or with `msg`.
pub proof fn lemma_erring_hook_stops(
    ls: Seq<(usize, LineView)>,
    enc: Encoding,
    hooks: Seq<Box<dyn SectionHook>>,
    o: spec_fn(int) -> HookOutcome,
    msg: Seq<char>,
)
    requires
        hooks.len() > 0,
        forall|sec: SectionType, b: Entries<Seq<char>>, s: StatementView, a: Entries<Seq<char>>, r: Result<(), HookErrorView>|
            #[trigger] hooks[0].permits(sec, b, s, a, r) ==> (r matches Err(HookErrorView::Error(m)) && m == msg),
        hooks_gave(ls, enc, hooks, o),
    ensures
        run(ls, enc, o) matches StepView::Continue(s) ==> !(s is ReadNextSection) && !(s is Finished),
        run(ls, enc, o) matches StepView::Break(l, m) ==> exists|j: int|
            stopped_at(ls, enc, o, j, m) && l == #[trigger] ls[j].0 && (grammar_phase(ls.take(j + 1)) is Out
                || m == msg),
    decreases ls.len(),
{
    if ls.len() > 0 {
        let d = ls.drop_last();
        let k = d.len() as int;
        lemma_erring_hook_stops(d, enc, hooks, o, msg);
        lemma_run_grammar(d, enc, o);
        assert(ls.take(k) =~= d);
        assert(ls.take(k + 1) =~= ls);
        assert(ls.last() == ls[k]);
        match run(d, enc, o) {
            StepView::Break(l, m) => {
                let j = choose|j: int|
                    stopped_at(d, enc, o, j, m) && l == #[trigger] d[j].0 && (grammar_phase(d.take(j + 1)) is Out
                        || m == msg);
                lemma_stopped_at_extend(ls, enc, o, j, m);
                assert(d.take(j + 1) =~= ls.take(j + 1));
            },
            StepView::Continue(s) => {
                let line = ls[k].1;
                lemma_step_phase(s, ls[k].0, line, enc, o(k));
                if hook_applies(s, line) {
                    let (a, res) = o(k)->0;
                    lemma_chain_first_error(
                        hooks,
                        section_type_of(s),
                        attrs_of(s),
                        statement_of(s),
                        a,
                        res,
                        msg,
                    );
                }
                if let StepView::Break(l, m) = run(ls, enc, o) {
                    assert(stopped_at(ls, enc, o, k, m));
                }
            },
        }
    }
}

/// What the hooks gave holds of every first part of the lines too.
proof fn lemma_hooks_gave_take(
    ls: Seq<(usize, LineView)>,
    enc: Encoding,
    hooks: Seq<Box<dyn SectionHook>>,
    o: spec_fn(int) -> HookOutcome,
    n: int,
)
    requires
        0 <= n <= ls.len(),
        hooks_gave(ls, enc, hooks, o),
    ensures
        hooks_gave(ls.take(n), enc, hooks, o),
    decreases ls.len() - n,
{
    if n < ls.len() {
        lemma_hooks_gave_take(ls, enc, hooks, o, n + 1);
        assert(ls.take(n + 1).drop_last() =~= ls.take(n));
    } else {
        assert(ls.take(n) =~= ls);
    }
}

/// No hook is called at a line after the reading stopped.
pub proof fn lemma_no_hooks_after_stop(
    ls: Seq<(usize, LineView)>,
    enc: Encoding,
    hooks: Seq<Box<dyn SectionHook>>,
    o: spec_fn(int) -> HookOutcome,
)
    requires
        hooks_gave(ls, enc, hooks, o),
    ensures
        forall|k: int| 0 <= k < ls.len() && #[trigger] run(ls.take(k), enc, o) is Break ==> o(k) is None,
{
    assert forall|k: int| 0 <= k < ls.len() && #[trigger] run(ls.take(k), enc, o) is Break implies o(k) is None by {
        lemma_hooks_gave_take(ls, enc, hooks, o, k + 1);
        assert(ls.take(k + 1).drop_last() =~= ls.take(k));
    }
}

/// Reading a statement from its bytes follows the grammar of its lines
/// `ls`: it gives a statement exactly when `ls` form a statement and no
/// section end stops the reading; it ends unfinished exactly when `ls`
/// stop short of a statement, still within its grammar, and nothing stops
/// the reading; and a syntax error after the lines are split is a stop at
/// a line `j` as `stopped_at` says: up to `j` the lines are in the grammar,
/// and line `j` takes them out of it or ends a section where a hook's error
/// or an account that could not be added stopped the reading.
pub proof fn lemma_parse_grammar(content: Seq<u8>, o: spec_fn(int) -> HookOutcome)
    ensures
        text_of(content) matches Some((raw, enc)) ==> (parsed_lines(raw) matches Ok(ls) ==> {
            &&& (parse_with(content, o) is Ok <==> (grammar_phase(ls) is Done && !(run(ls, enc, o) is Break)))
            &&& (parse_with(content, o) == Err::<StatementView, ErrorView>(ErrorView::Unfinished) <==> (
            !(grammar_phase(ls) is Done) && !(grammar_phase(ls) is Out) && !(run(ls, enc, o) is Break)))
            &&& (parse_with(content, o) matches Err(ErrorView::Syntax { lineno, text }) ==> exists|j: int|
                stopped_at(ls, enc, o, j, text) && lineno == #[trigger] ls[j].0)
        }),
{
    if let Some((raw, enc)) = text_of(content) {
        if let Ok(ls) = parsed_lines(raw) {
            lemma_run_grammar(ls, enc, o);
            lemma_run_finished_grammar(ls, enc, o);
        }
    }
}

/// The document that a step adds: at the end of a document section whose
/// hooks all returned `Ok`, the document its attributes (as the hooks left
/// them) describe, where they describe one.
pub open spec fn document_added(s: StateView, line: LineView, o: HookOutcome) -> Option<crate::parser::statement::DocumentView> {
    let (s2, res) = hooked(s, line, o);
    if hook_applies(s, line) && s is Document && res is Ok {
        match crate::parser::statement::document_from(s2->typ, attrs_of(s2)) {
            Ok(d) => Some(d),
            Err(_) => None,
        }
    } else {
        None
    }
}

/// The warning that a step records: at a section end where a hook returned
/// a warning, that warning; at a document end whose hooks returned `Ok` but
/// whose attributes describe no document, why not; each with the line's
/// number.
pub open spec fn warning_added(s: StateView, lineno: usize, line: LineView, o: HookOutcome) -> Option<(usize, Seq<char>)> {
    let (s2, res) = hooked(s, line, o);
    if !hook_applies(s, line) {
        None
    } else {
        match res {
            Err(HookErrorView::Warning(w)) => Some((lineno, w)),
            Err(HookErrorView::Error(_)) => None,
            Ok(()) => if s is Document {
                match crate::parser::statement::document_from(s2->typ, attrs_of(s2)) {
                    Ok(_) => None,
                    Err(e) => Some((lineno, e)),
                }
            } else {
                None
            },
        }
    }
}

/// The account number that a step adds an interval under: at the end of an
/// account section whose hooks all returned `Ok` and which is added.
pub open spec fn account_added(s: StateView, line: LineView, o: HookOutcome) -> Option<Seq<char>> {
    let (s2, res) = hooked(s, line, o);
    if hook_applies(s, line) && s is Account && res is Ok && with_account(statement_of(s2), attrs_of(s2)) is Ok {
        entries_get(attrs_of(s2), crate::parser::statement::KEY_ACCOUNT_NUMBER@)
    } else {
        None
    }
}

/// The documents added while reading the lines, in the order of their
/// sections.
pub open spec fn documents_read(ls: Seq<(usize, LineView)>, enc: Encoding, o: spec_fn(int) -> HookOutcome) -> Seq<crate::parser::statement::DocumentView>
    decreases ls.len(),
{
    if ls.len() == 0 {
        Seq::empty()
    } else {
        let d = ls.drop_last();
        let k = d.len() as int;
        match run(d, enc, o) {
            StepView::Continue(s) => match document_added(s, ls[k].1, o(k)) {
                Some(doc) => documents_read(d, enc, o).push(doc),
                None => documents_read(d, enc, o),
            },
            StepView::Break(_, _) => documents_read(d, enc, o),
        }
    }
}

/// The warnings recorded while reading the lines, in the order of their
/// lines.
pub open spec fn warnings_read(ls: Seq<(usize, LineView)>, enc: Encoding, o: spec_fn(int) -> HookOutcome) -> Seq<(usize, Seq<char>)>
    decreases ls.len(),
{
    if ls.len() == 0 {
        Seq::empty()
    } else {
        let d = ls.drop_last();
        let k = d.len() as int;
        match run(d, enc, o) {
            StepView::Continue(s) => match warning_added(s, ls[k].0, ls[k].1, o(k)) {
                Some(w) => warnings_read(d, enc, o).push(w),
                None => warnings_read(d, enc, o),
            },
            StepView::Break(_, _) => warnings_read(d, enc, o),
        }
    }
}

/// The account numbers intervals were added under while reading the
/// lines, each once, in the order they first occur.
pub open spec fn accounts_read(ls: Seq<(usize, LineView)>, enc: Encoding, o: spec_fn(int) -> HookOutcome) -> Seq<Seq<char>>
    decreases ls.len(),
{
    if ls.len() == 0 {
        Seq::empty()
    } else {
        let d = ls.drop_last();
        let k = d.len() as int;
        let prev = accounts_read(d, enc, o);
        match run(d, enc, o) {
            StepView::Continue(s) => match account_added(s, ls[k].1, o(k)) {
                Some(n) => if prev.contains(n) {
                    prev
                } else {
                    prev.push(n)
                },
                None => prev,
            },
            StepView::Break(_, _) => prev,
        }
    }
}

/// The numbers of the accounts, in order.
pub open spec fn account_numbers(st: StatementView) -> Seq<Seq<char>> {
    st.accounts.map_values(|e: (Seq<char>, crate::parser::statement::AccountView)| e.0)
}

proof fn lemma_step_contents(s: StateView, lineno: usize, line: LineView, enc: Encoding, o: HookOutcome)
    ensures
        ({
            let (s2, res) = hooked(s, line, o);
            transition(s2, lineno, line, enc, res) matches StepView::Continue(n) ==> (statement_in(n) matches Some(
                b,
            ) ==> match statement_in(s) {
                Some(a) => {
                    &&& b.documents == match document_added(s, line, o) {
                        Some(doc) => a.documents.push(doc),
                        None => a.documents,
                    }
                    &&& b.warnings == match warning_added(s, lineno, line, o) {
                        Some(w) => a.warnings.push(w),
                        None => a.warnings,
                    }
                    &&& account_numbers(b) == match account_added(s, line, o) {
                        Some(nm) => if account_numbers(a).contains(nm) {
                            account_numbers(a)
                        } else {
                            account_numbers(a).push(nm)
                        },
                        None => account_numbers(a),
                    }
                },
                None => b.documents.len() == 0 && b.warnings.len() == 0 && b.accounts.len() == 0,
            })
        }),
{
    let (s2, res) = hooked(s, line, o);
    if let StepView::Continue(n) = transition(s2, lineno, line, enc, res) {
        if let Some(b) = statement_in(n) {
            if let Some(a) = statement_in(s) {
                if let Some(nm) = account_added(s, line, o) {
                    let acs = a.accounts;
                    lemma_key_index(acs, nm);
                    let na = account_numbers(a);
                    if entries_get(acs, nm) is Some {
                        let i = key_index(acs, nm)->0;
                        assert(na[i] == nm);
                        assert(na.contains(nm));
                        if b.accounts != acs {
                            let acc = choose|acc: crate::parser::statement::AccountView| b.accounts
                                == entries_insert(acs, nm, acc);
                            assert(account_numbers(b) =~= na);
                        }
                    } else {
                        assert(!na.contains(nm)) by {
                            if na.contains(nm) {
                                let i = choose|i: int| 0 <= i < na.len() && na[i] == nm;
                                assert(acs[i].0 == nm);
                            }
                        }
                        let acc = choose|acc: crate::parser::statement::AccountView| b.accounts == entries_insert(
                            acs,
                            nm,
                            acc,
                        );
                        assert(account_numbers(b) =~= na.push(nm));
                    }
                } else {
                    if b.accounts != a.accounts {
                        assert(false);
                    }
                }
            } else {
                assert(b.documents.len() == 0);
            }
        }
    }
}

/// What a statement holds is what its reading added: its documents are the
/// documents of the document sections whose hooks passed and whose
/// attributes describe a document, in the order of their sections; its
/// warnings are one for each section a hook warned of or whose attributes
/// describe no document, in the order of their lines; and its account
/// numbers are those intervals were added under, each once, in the order
/// they first occur.
pub proof fn lemma_run_contents(ls: Seq<(usize, LineView)>, enc: Encoding, o: spec_fn(int) -> HookOutcome)
    ensures
        run(ls, enc, o) matches StepView::Continue(s) ==> match statement_in(s) {
            Some(st) => {
                &&& st.documents == documents_read(ls, enc, o)
                &&& st.warnings == warnings_read(ls, enc, o)
                &&& account_numbers(st) == accounts_read(ls, enc, o)
            },
            None => documents_read(ls, enc, o).len() == 0 && warnings_read(ls, enc, o).len() == 0
                && accounts_read(ls, enc, o).len() == 0,
        },
    decreases ls.len(),
{
    if ls.len() > 0 {
        let d = ls.drop_last();
        let k = d.len() as int;
        lemma_run_contents(d, enc, o);
        if let StepView::Continue(s) = run(d, enc, o) {
            lemma_step_contents(s, ls[k].0, ls[k].1, enc, o(k));
            assert(ls.last() == ls[k]);
            if statement_in(s) is None {
                assert(document_added(s, ls[k].1, o(k)) is None);
                assert(warning_added(s, ls[k].0, ls[k].1, o(k)) is None);
                assert(account_added(s, ls[k].1, o(k)) is None);
                if let StepView::Continue(n) = run(ls, enc, o) {
                    if let Some(b) = statement_in(n) {
                        assert(b.documents =~= documents_read(ls, enc, o));
                        assert(b.warnings =~= warnings_read(ls, enc, o));
                        assert(account_numbers(b) =~= accounts_read(ls, enc, o));
                    }
                }
            }
        }
    }
}

/// A statement read from its bytes: in the encoding the text was read in;
/// its header the attributes before the first section, each key once in
/// the order it first occurs with its last value; and its documents,
/// warnings and account numbers those its reading added, in order.
pub proof fn lemma_parse_contents(content: Seq<u8>, o: spec_fn(int) -> HookOutcome)
    ensures
        parse_with(content, o) matches Ok(st) ==> (text_of(content) matches Some((raw, enc)) && parsed_lines(
            raw,
        ) matches Ok(ls) && {
            &&& st.encoding == enc
            &&& st.header == header_of(ls)
            &&& st.documents == documents_read(ls, enc, o)
            &&& st.warnings == warnings_read(ls, enc, o)
            &&& account_numbers(st) == accounts_read(ls, enc, o)
        }),
{
    if let Some((raw, enc)) = text_of(content) {
        if let Ok(ls) = parsed_lines(raw) {
            lemma_run_header(ls, enc, o);
            lemma_run_contents(ls, enc, o);
        }
    }
}

/// With no hooks, the chain returns `Ok` and leaves the attributes as they
/// were; with hooks, it returns `Ok` only where the first hook does.
pub proof fn lemma_chain_shape(
    hooks: Seq<Box<dyn SectionHook>>,
    section: SectionType,
    before: Entries<Seq<char>>,
    st: StatementView,
    after: Entries<Seq<char>>,
    res: Result<(), HookErrorView>,
)
    requires
        chain_permits(hooks, section, before, st, after, res),
    ensures
        hooks.len() == 0 ==> res is Ok && after == before,
        hooks.len() > 0 && res is Ok ==> exists|mid: Entries<Seq<char>>| hooks[0].permits(section, before, st, mid, Ok(())),
        hooks.len() > 0 && res is Err ==> exists|mid: Entries<Seq<char>>, r: Result<(), HookErrorView>|
            hooks[0].permits(section, before, st, mid, r),
{
    if res is Ok {
        let mids = choose|mids: Seq<Entries<Seq<char>>>|
            #![trigger ok_chain(hooks, section, st, mids, hooks.len() as int)]
            ok_chain(hooks, section, st, mids, hooks.len() as int) && mids[0] == before && mids.last()
                == after;
        if hooks.len() > 0 {
            assert(hooks[0].permits(section, mids[0], st, mids[1], Ok(())));
        }
    } else {
        let (mids, n) = choose|mids: Seq<Entries<Seq<char>>>, n: int|
            #![trigger ok_chain(hooks, section, st, mids, n)]
            ok_chain(hooks, section, st, mids, n) && n < hooks.len() && mids[0] == before
                && hooks[n].permits(section, mids[n], st, after, res);
        if n > 0 {
            assert(hooks[0].permits(section, mids[0], st, mids[1], Ok(())));
        }
    }
}

/// The attributes read since the last section line, each `key=value` line
/// inserted in turn whatever its value (an empty one too): each key once,
/// in the order it first occurs, with its last value.
pub open spec fn attrs_since_section(ls: Seq<(usize, LineView)>) -> Entries<Seq<char>>
    decreases ls.len(),
{
    if ls.len() == 0 {
        Seq::empty()
    } else {
        match ls.last().1 {
            LineView::Attr(k, v) => entries_insert(attrs_since_section(ls.drop_last()), k, v),
            LineView::Section(_) => Seq::empty(),
        }
    }
}

/// While the header, a document section or an account section is read, its
/// attributes are exactly the attribute lines read since its section line,
/// each inserted in turn, whatever its value.
pub proof fn lemma_run_section_attrs(ls: Seq<(usize, LineView)>, enc: Encoding, o: spec_fn(int) -> HookOutcome)
    ensures
        run(ls, enc, o) matches StepView::Continue(s) ==> (s matches StateView::Header(a) ==> a
            == attrs_since_section(ls)),
        run(ls, enc, o) matches StepView::Continue(s) ==> ((s is Document || s is Account) ==> attrs_of(s)
            == attrs_since_section(ls)),
    decreases ls.len(),
{
    if ls.len() > 0 {
        let d = ls.drop_last();
        let k = d.len() as int;
        lemma_run_section_attrs(d, enc, o);
        assert(ls.last() == ls[k]);
        if let StepView::Continue(s) = run(d, enc, o) {
            let line = ls[k].1;
            let (s2, res) = hooked(s, line, o(k));
            assert(run(ls, enc, o) == transition(s2, ls[k].0, line, enc, res));
            if let LineView::Attr(key, v) = line {
                assert(s2 == s);
                assert(attrs_since_section(ls) == entries_insert(attrs_since_section(d), key, v));
            } else {
                assert(attrs_since_section(ls) == Seq::<(Seq<char>, Seq<char>)>::empty());
            }
        }
    }
}

/// A document read at the end of a document section whose hooks changed
/// nothing and returned `Ok` is the document its attribute lines describe:
/// every `key=value` line since `СекцияДокумент` is one of its attributes,
/// whatever the value.
pub proof fn lemma_document_from_lines(
    ls: Seq<(usize, LineView)>,
    enc: Encoding,
    o: spec_fn(int) -> HookOutcome,
    k: int,
)
    requires
        0 <= k < ls.len(),
        run(ls.take(k), enc, o) matches StepView::Continue(s) && s is Document,
        ls[k].1 == LineView::Section(SectionView::EndOfDocument),
        o(k) is None || o(k) == Some(
            (attrs_since_section(ls.take(k)), Ok::<(), HookErrorView>(())),
        ),
    ensures
        run(ls.take(k), enc, o) matches StepView::Continue(s) && document_added(s, ls[k].1, o(k))
            == match crate::parser::statement::document_from(s->typ, attrs_since_section(ls.take(k))) {
            Ok(doc) => Some(doc),
            Err(_) => None,
        },
{
    lemma_run_section_attrs(ls.take(k), enc, o);
}

/// A line is read back as it is written: a section is the line that writes
/// it, an attribute is its key, `=` and its value, the key without `=`
/// (nothing trimmed, an empty value kept), and a line that is neither holds
/// no `=`.
pub proof fn lemma_line_of_reconstructs(v: Seq<char>)
    ensures
        line_of(v) matches Ok(LineView::Section(s)) ==> v == section_text(s),
        line_of(v) matches Ok(LineView::Attr(k, val)) ==> v == k + seq!['='] + val && forall|i: int|
            0 <= i < k.len() ==> k[i] != '=',
        line_of(v) is Err ==> forall|i: int| 0 <= i < v.len() ==> v[i] != '=',
{
    reveal_strlit("СекцияДокумент=");
    reveal_strlit("СекцияДокумент");
    crate::text::lemma_find_char(v, '=');
    if let Some(i) = crate::text::find_char(v, '=') {
        assert(v =~= v.take(i) + seq!['='] + v.skip(i + 1));
        if let Ok(LineView::Section(SectionView::Document(typ))) = line_of(v) {
            assert("СекцияДокумент="@ =~= "СекцияДокумент"@ + seq!['=']);
        }
    }
}

/// The lines read from a text are its non-blank lines, each with its
/// number counted from 1, read as what it is; every non-blank line among
/// the first `n` is there.
pub proof fn lemma_parsed_lines_content(ls: Seq<Seq<char>>, n: int)
    requires
        0 <= n <= ls.len(),
        ls.len() <= usize::MAX,
    ensures
        parsed_lines_upto(ls, n) matches Ok(acc) ==> {
            &&& forall|a: int|
                0 <= a < acc.len() ==> 1 <= (#[trigger] acc[a]).0 <= n && !is_blank(ls[acc[a].0 - 1])
                    && line_of(ls[acc[a].0 - 1]) == Ok::<LineView, Seq<char>>(acc[a].1)
            &&& forall|j: int|
                0 <= j < n && !is_blank(#[trigger] ls[j]) ==> exists|a: int|
                    0 <= a < acc.len() && (#[trigger] acc[a]).0 == j + 1
        },
    decreases n,
{
    if n > 0 {
        lemma_parsed_lines_content(ls, n - 1);
        if let Ok(acc) = parsed_lines_upto(ls, n) {
            let prev = parsed_lines_upto(ls, n - 1)->Ok_0;
            if acc != prev {
                assert(acc.drop_last() =~= prev);
                assert forall|a: int| 0 <= a < acc.len() implies 1 <= (#[trigger] acc[a]).0 <= n && !is_blank(
                    ls[acc[a].0 - 1],
                ) && line_of(ls[acc[a].0 - 1]) == Ok::<LineView, Seq<char>>(acc[a].1) by {
                    if a < prev.len() {
                        assert(acc[a] == prev[a]);
                    }
                }
                assert forall|j: int| 0 <= j < n && !is_blank(#[trigger] ls[j]) implies exists|a: int|
                    0 <= a < acc.len() && (#[trigger] acc[a]).0 == j + 1 by {
                    if j < n - 1 {
                        let a = choose|a: int| 0 <= a < prev.len() && (#[trigger] prev[a]).0 == j + 1;
                        assert(acc[a] == prev[a]);
                    } else {
                        assert(acc[prev.len() as int].0 == j + 1);
                    }
                }
            } else {
                assert forall|j: int| 0 <= j < n && !is_blank(#[trigger] ls[j]) implies exists|a: int|
                    0 <= a < acc.len() && (#[trigger] acc[a]).0 == j + 1 by {
                    if j < n - 1 {
                        let a = choose|a: int| 0 <= a < prev.len() && (#[trigger] prev[a]).0 == j + 1;
                    }
                }
            }
        }
    }
}

} // verus!
