//! The records of a statement: payment documents, account intervals, and
//! the statement that collects them.
use crate::maps::{
    account_entries, account_map_get, account_map_insert, account_map_new, entries_get,
    entries_insert, key_index, lemma_insert_get, lemma_insert_unique, lemma_key_index,
    text_entries, text_map_get, unique_keys, Entries,
};
use crate::parser::fields::{
    find_missing, find_value_error, first_missing, first_value_error, lemma_no_value_error,
    lemma_none_missing, missing_field_message, number, opt_view, optional_date, optional_text,
    present_text, read_number, read_optional_date, read_required_date, required_date, value_error,
    FieldKind,
};
use crate::parser::Encoding;
use crate::text::push_text;
use crate::value::{date_lt, lemma_same_value_equivalence, same_value, Date, Decimal};
use indexmap::IndexMap;
use vstd::prelude::*;
use vstd::std_specs::cmp::PartialEqSpecImpl;

verus! {

pub const KEY_NUMBER: &'static str = "Номер";
pub const KEY_DOC_DATE: &'static str = "Дата";
pub const KEY_PAYMENT_TYPE: &'static str = "ВидОплаты";
pub const KEY_PURPOSE: &'static str = "НазначениеПлатежа";
pub const KEY_ORDERING: &'static str = "Очередность";
pub const KEY_AMOUNT: &'static str = "Сумма";
pub const KEY_PAYER_INN: &'static str = "ПлательщикИНН";
pub const KEY_PAYER_KPP: &'static str = "ПлательщикКПП";
pub const KEY_PAYER_BIC: &'static str = "ПлательщикБИК";
pub const KEY_PAYER_BANK1: &'static str = "ПлательщикБанк1";
pub const KEY_PAYER_ACCOUNT: &'static str = "ПлательщикСчет";
pub const KEY_PAYER: &'static str = "Плательщик";
pub const KEY_PAYER_1: &'static str = "Плательщик1";
pub const KEY_OUTCOME_DATE: &'static str = "ДатаСписано";
pub const KEY_PAYER_RAS_ACCOUNT: &'static str = "ПлательщикРасчСчет";
pub const KEY_PAYER_COR_ACCOUNT: &'static str = "ПлательщикКорсчет";
pub const KEY_PAYEE_INN: &'static str = "ПолучательИНН";
pub const KEY_PAYEE: &'static str = "Получатель";
pub const KEY_PAYEE_ACCOUNT: &'static str = "ПолучательСчет";
pub const KEY_PAYEE_KPP: &'static str = "ПолучательКПП";
pub const KEY_PAYEE_BIC: &'static str = "ПолучательБИК";
pub const KEY_PAYEE_BANK1: &'static str = "ПолучательБанк1";
pub const KEY_PAYEE_RAS_ACCOUNT: &'static str = "ПолучательРасчСчет";
pub const KEY_PAYEE_COR_ACCOUNT: &'static str = "ПолучательКорсчет";
pub const KEY_INCOME_DATE: &'static str = "ДатаПоступило";

pub const KEY_DATE_START: &'static str = "ДатаНачала";
pub const KEY_DATE_END: &'static str = "ДатаКонца";
pub const KEY_TOTAL_INCOME: &'static str = "ВсегоПоступило";
pub const KEY_TOTAL_EXPENSE: &'static str = "ВсегоСписано";
pub const KEY_START_AMOUNT: &'static str = "НачальныйОстаток";
pub const KEY_END_AMOUNT: &'static str = "КонечныйОстаток";
pub const KEY_ACCOUNT_NUMBER: &'static str = "РасчСчет";

/// A payment document of a statement.
#[derive(Clone, Debug, PartialEq)]
pub struct Document {
    pub doc_number: String,
    pub doc_type: String,
    pub payment_type: Option<String>,
    pub doc_date: Date,
    pub purpose: String,
    pub ordering: Option<String>,
    pub amount: Decimal,
    pub counterparty_inn: String,
    pub counterparty_kpp: Option<String>,
    pub counterparty_bic: String,
    pub counterparty_bank1: String,
    pub counterparty_account: String,
    pub counterparty: Option<String>,
    pub counterparty_1: Option<String>,
    pub outcome_date: Option<Date>,
    pub counterparty_ras_account: Option<String>,
    pub counterparty_cor_account: Option<String>,
    pub payee_inn: String,
    pub payee: Option<String>,
    pub payee_account: String,
    pub payee_kpp: Option<String>,
    pub payee_bic: String,
    pub payee_bank1: String,
    pub payee_ras_account: Option<String>,
    pub payee_cor_account: Option<String>,
    pub income_date: Option<Date>,
}

/// A document with its texts as character sequences.
pub struct DocumentView {
    pub doc_number: Seq<char>,
    pub doc_type: Seq<char>,
    pub payment_type: Option<Seq<char>>,
    pub doc_date: Date,
    pub purpose: Seq<char>,
    pub ordering: Option<Seq<char>>,
    pub amount: Decimal,
    pub counterparty_inn: Seq<char>,
    pub counterparty_kpp: Option<Seq<char>>,
    pub counterparty_bic: Seq<char>,
    pub counterparty_bank1: Seq<char>,
    pub counterparty_account: Seq<char>,
    pub counterparty: Option<Seq<char>>,
    pub counterparty_1: Option<Seq<char>>,
    pub outcome_date: Option<Date>,
    pub counterparty_ras_account: Option<Seq<char>>,
    pub counterparty_cor_account: Option<Seq<char>>,
    pub payee_inn: Seq<char>,
    pub payee: Option<Seq<char>>,
    pub payee_account: Seq<char>,
    pub payee_kpp: Option<Seq<char>>,
    pub payee_bic: Seq<char>,
    pub payee_bank1: Seq<char>,
    pub payee_ras_account: Option<Seq<char>>,
    pub payee_cor_account: Option<Seq<char>>,
    pub income_date: Option<Date>,
}

impl View for Document {
    type V = DocumentView;

    open spec fn view(&self) -> DocumentView {
        DocumentView {
            doc_number: self.doc_number@,
            doc_type: self.doc_type@,
            payment_type: opt_view(self.payment_type),
            doc_date: self.doc_date,
            purpose: self.purpose@,
            ordering: opt_view(self.ordering),
            amount: self.amount,
            counterparty_inn: self.counterparty_inn@,
            counterparty_kpp: opt_view(self.counterparty_kpp),
            counterparty_bic: self.counterparty_bic@,
            counterparty_bank1: self.counterparty_bank1@,
            counterparty_account: self.counterparty_account@,
            counterparty: opt_view(self.counterparty),
            counterparty_1: opt_view(self.counterparty_1),
            outcome_date: self.outcome_date,
            counterparty_ras_account: opt_view(self.counterparty_ras_account),
            counterparty_cor_account: opt_view(self.counterparty_cor_account),
            payee_inn: self.payee_inn@,
            payee: opt_view(self.payee),
            payee_account: self.payee_account@,
            payee_kpp: opt_view(self.payee_kpp),
            payee_bic: self.payee_bic@,
            payee_bank1: self.payee_bank1@,
            payee_ras_account: opt_view(self.payee_ras_account),
            payee_cor_account: opt_view(self.payee_cor_account),
            income_date: self.income_date,
        }
    }
}

/// Fields of a document whose reading can fail, in the order in which they
/// are checked (the order of their names).
pub open spec fn document_checks() -> Seq<(Seq<char>, FieldKind)> {
    seq![
        (KEY_DOC_DATE@, FieldKind::RequiredDate),
        (KEY_INCOME_DATE@, FieldKind::OptionalDate),
        (KEY_OUTCOME_DATE@, FieldKind::OptionalDate),
        (KEY_AMOUNT@, FieldKind::Number),
    ]
}

/// Required fields of a document, in the order of the document's fields.
pub open spec fn document_required() -> Seq<Seq<char>> {
    seq![
        KEY_NUMBER@,
        KEY_DOC_DATE@,
        KEY_PURPOSE@,
        KEY_AMOUNT@,
        KEY_PAYER_INN@,
        KEY_PAYER_BIC@,
        KEY_PAYER_BANK1@,
        KEY_PAYER_ACCOUNT@,
        KEY_PAYEE_INN@,
        KEY_PAYEE_ACCOUNT@,
        KEY_PAYEE_BIC@,
        KEY_PAYEE_BANK1@,
    ]
}

/// An optional date field: absent, or read as an optional date.
pub open spec fn optional_date_field(a: Entries<Seq<char>>, key: Seq<char>) -> Option<Date> {
    match entries_get(a, key) {
        Some(v) => read_optional_date(v)->Ok_0,
        None => None,
    }
}

/// The document that the attributes of a document section of type `typ`
/// describe, or the message of the first error: a field whose text cannot
/// be read (in the order of `document_checks`), then a required field that
/// is absent (in the order of `document_required`).
pub open spec fn document_from(typ: Seq<char>, a: Entries<Seq<char>>) -> Result<DocumentView, Seq<char>> {
    match first_value_error(a, document_checks()) {
        Some(e) => Err(e),
        None => match first_missing(a, document_required()) {
            Some(name) => Err(missing_field_message(name)),
            None => Ok(
                DocumentView {
                    doc_number: entries_get(a, KEY_NUMBER@)->0,
                    doc_type: typ,
                    payment_type: entries_get(a, KEY_PAYMENT_TYPE@),
                    doc_date: read_required_date(entries_get(a, KEY_DOC_DATE@)->0)->Ok_0,
                    purpose: entries_get(a, KEY_PURPOSE@)->0,
                    ordering: entries_get(a, KEY_ORDERING@),
                    amount: read_number(entries_get(a, KEY_AMOUNT@)->0)->Ok_0,
                    counterparty_inn: entries_get(a, KEY_PAYER_INN@)->0,
                    counterparty_kpp: entries_get(a, KEY_PAYER_KPP@),
                    counterparty_bic: entries_get(a, KEY_PAYER_BIC@)->0,
                    counterparty_bank1: entries_get(a, KEY_PAYER_BANK1@)->0,
                    counterparty_account: entries_get(a, KEY_PAYER_ACCOUNT@)->0,
                    counterparty: entries_get(a, KEY_PAYER@),
                    counterparty_1: entries_get(a, KEY_PAYER_1@),
                    outcome_date: optional_date_field(a, KEY_OUTCOME_DATE@),
                    counterparty_ras_account: entries_get(a, KEY_PAYER_RAS_ACCOUNT@),
                    counterparty_cor_account: entries_get(a, KEY_PAYER_COR_ACCOUNT@),
                    payee_inn: entries_get(a, KEY_PAYEE_INN@)->0,
                    payee: entries_get(a, KEY_PAYEE@),
                    payee_account: entries_get(a, KEY_PAYEE_ACCOUNT@)->0,
                    payee_kpp: entries_get(a, KEY_PAYEE_KPP@),
                    payee_bic: entries_get(a, KEY_PAYEE_BIC@)->0,
                    payee_bank1: entries_get(a, KEY_PAYEE_BANK1@)->0,
                    payee_ras_account: entries_get(a, KEY_PAYEE_RAS_ACCOUNT@),
                    payee_cor_account: entries_get(a, KEY_PAYEE_COR_ACCOUNT@),
                    income_date: optional_date_field(a, KEY_INCOME_DATE@),
                },
            ),
        },
    }
}

/// An interval of an account: its dates and amounts.
#[derive(Clone, Copy, Debug)]
pub struct Interval {
    pub date_start: Date,
    pub date_end: Option<Date>,
    pub total_income: Option<Decimal>,
    pub total_expense: Option<Decimal>,
    pub start_amount: Decimal,
    pub end_amount: Option<Decimal>,
}

pub open spec fn same_opt_value(a: Option<Decimal>, b: Option<Decimal>) -> bool {
    match (a, b) {
        (Some(x), Some(y)) => same_value(x, y),
        (None, None) => true,
        _ => false,
    }
}

/// Equality of intervals: equal dates, and amounts that stand for the same
/// numbers.
pub open spec fn same_interval(a: Interval, b: Interval) -> bool {
    &&& a.date_start == b.date_start
    &&& a.date_end == b.date_end
    &&& same_opt_value(a.total_income, b.total_income)
    &&& same_opt_value(a.total_expense, b.total_expense)
    &&& same_value(a.start_amount, b.start_amount)
    &&& same_opt_value(a.end_amount, b.end_amount)
}

fn same_opt_value_exec(a: &Option<Decimal>, b: &Option<Decimal>) -> (r: bool)
    ensures
        r == same_opt_value(*a, *b),
{
    match (a, b) {
        (Some(x), Some(y)) => x.same_value_as(y),
        (None, None) => true,
        _ => false,
    }
}

impl Interval {
    /// Whether two intervals are equal.
    pub fn same_as(&self, other: &Interval) -> (r: bool)
        ensures
            r == same_interval(*self, *other),
    {
        self.date_start == other.date_start && self.date_end == other.date_end
            && same_opt_value_exec(&self.total_income, &other.total_income)
            && same_opt_value_exec(&self.total_expense, &other.total_expense)
            && self.start_amount.same_value_as(&other.start_amount) && same_opt_value_exec(
            &self.end_amount,
            &other.end_amount,
        )
    }
}

/// Intervals are equal when their dates are equal and their amounts stand
/// for the same numbers.
impl PartialEq for Interval {
    fn eq(&self, other: &Self) -> (r: bool) {
        self.same_as(other)
    }
}

impl PartialEqSpecImpl for Interval {
    open spec fn obeys_eq_spec() -> bool {
        true
    }

    open spec fn eq_spec(&self, other: &Self) -> bool {
        same_interval(*self, *other)
    }
}

/// Fields of an interval whose reading can fail, in the order of their names.
pub open spec fn interval_checks() -> Seq<(Seq<char>, FieldKind)> {
    seq![
        (KEY_TOTAL_INCOME@, FieldKind::Number),
        (KEY_TOTAL_EXPENSE@, FieldKind::Number),
        (KEY_DATE_END@, FieldKind::OptionalDate),
        (KEY_DATE_START@, FieldKind::RequiredDate),
        (KEY_END_AMOUNT@, FieldKind::Number),
        (KEY_START_AMOUNT@, FieldKind::Number),
    ]
}

/// Required fields of an interval, in the order of the interval's fields.
pub open spec fn interval_required() -> Seq<Seq<char>> {
    seq![KEY_DATE_START@, KEY_START_AMOUNT@]
}

pub open spec fn optional_number_field(a: Entries<Seq<char>>, key: Seq<char>) -> Option<Decimal> {
    match entries_get(a, key) {
        Some(v) => Some(read_number(v)->Ok_0),
        None => None,
    }
}

/// The interval that the attributes of an account section describe, or the
/// message of the first error, found as for documents.
pub open spec fn interval_from(a: Entries<Seq<char>>) -> Result<Interval, Seq<char>> {
    match first_value_error(a, interval_checks()) {
        Some(e) => Err(e),
        None => match first_missing(a, interval_required()) {
            Some(name) => Err(missing_field_message(name)),
            None => Ok(
                Interval {
                    date_start: read_required_date(entries_get(a, KEY_DATE_START@)->0)->Ok_0,
                    date_end: optional_date_field(a, KEY_DATE_END@),
                    total_income: optional_number_field(a, KEY_TOTAL_INCOME@),
                    total_expense: optional_number_field(a, KEY_TOTAL_EXPENSE@),
                    start_amount: read_number(entries_get(a, KEY_START_AMOUNT@)->0)->Ok_0,
                    end_amount: optional_number_field(a, KEY_END_AMOUNT@),
                },
            ),
        },
    }
}

/// A bank account and its intervals, ordered by their start dates.
#[derive(Clone, Debug)]
pub struct Account {
    pub number: String,
    pub intervals: Vec<Interval>,
}

pub struct AccountView {
    pub number: Seq<char>,
    pub intervals: Seq<Interval>,
}

impl View for Account {
    type V = AccountView;

    open spec fn view(&self) -> AccountView {
        AccountView { number: self.number@, intervals: self.intervals@ }
    }
}

/// Intervals ordered by their start dates.
pub open spec fn sorted_by_start(s: Seq<Interval>) -> bool {
    forall|i: int, j: int| 0 <= i < j < s.len() ==> !date_lt(s[j].date_start, s[i].date_start)
}

/// Some interval of `s` equals `iv`.
pub open spec fn has_interval(s: Seq<Interval>, iv: Interval) -> bool {
    exists|i: int| 0 <= i < s.len() && same_interval(s[i], iv)
}

/// The number of leading intervals that start before `d`.
pub open spec fn count_before(s: Seq<Interval>, d: Date) -> nat
    decreases s.len(),
{
    if s.len() == 0 {
        0
    } else if date_lt(s[0].date_start, d) {
        1 + count_before(s.drop_first(), d)
    } else {
        0
    }
}

/// `iv` inserted before the first interval that does not start before it.
pub open spec fn insert_by_start(s: Seq<Interval>, iv: Interval) -> Seq<Interval> {
    s.insert(count_before(s, iv.date_start) as int, iv)
}

/// A bank statement: its encoding, header attributes, accounts by number,
/// documents, and warnings with their line numbers.
#[derive(Debug)]
pub struct Statement {
    pub encoding: Encoding,
    pub header: IndexMap<String, String>,
    pub accounts: IndexMap<String, Account>,
    pub documents: Vec<Document>,
    pub warnings: Vec<(usize, String)>,
}

pub struct StatementView {
    pub encoding: Encoding,
    pub header: Entries<Seq<char>>,
    pub accounts: Entries<AccountView>,
    pub documents: Seq<DocumentView>,
    pub warnings: Seq<(usize, Seq<char>)>,
}

impl View for Statement {
    type V = StatementView;

    open spec fn view(&self) -> StatementView {
        StatementView {
            encoding: self.encoding,
            header: text_entries(self.header),
            accounts: account_entries(self.accounts),
            documents: self.documents@.map_values(|d: Document| d@),
            warnings: self.warnings@.map_values(|w: (usize, String)| (w.0, w.1@)),
        }
    }
}

pub open spec fn account_error_message(e: Seq<char>) -> Seq<char> {
    "Ошибка разбора интервала счёта: "@ + e
}

pub open spec fn no_account_number_message() -> Seq<char> {
    "Нет поля РасчСчет в секции счёта"@
}

/// The statement with the document of a section added, or the warning
/// that the section gives.
pub open spec fn with_document(st: StatementView, typ: Seq<char>, a: Entries<Seq<char>>) -> Result<StatementView, Seq<char>> {
    match document_from(typ, a) {
        Ok(d) => Ok(StatementView { documents: st.documents.push(d), ..st }),
        Err(e) => Err(e),
    }
}

/// The statement with the interval of an account section added to its
/// account, or the error that the section gives. An interval equal to one
/// the account has is not added again.
pub open spec fn with_account(st: StatementView, a: Entries<Seq<char>>) -> Result<StatementView, Seq<char>> {
    match interval_from(a) {
        Err(e) => Err(account_error_message(e)),
        Ok(iv) => match entries_get(a, KEY_ACCOUNT_NUMBER@) {
            None => Err(no_account_number_message()),
            Some(number) => match entries_get(st.accounts, number) {
                Some(acc) => if has_interval(acc.intervals, iv) {
                    Ok(st)
                } else {
                    Ok(
                        StatementView {
                            accounts: entries_insert(
                                st.accounts,
                                number,
                                AccountView {
                                    number: acc.number,
                                    intervals: insert_by_start(acc.intervals, iv),
                                },
                            ),
                            ..st
                        },
                    )
                },
                None => Ok(
                    StatementView {
                        accounts: entries_insert(
                            st.accounts,
                            number,
                            AccountView { number, intervals: seq![iv] },
                        ),
                        ..st
                    },
                ),
            },
        },
    }
}

/// Reads the document that the attributes describe.
pub fn read_document(typ: &str, attrs: &IndexMap<String, String>) -> (r: Result<Document, String>)
    ensures
        match document_from(typ@, text_entries(*attrs)) {
            Ok(d) => r matches Ok(doc) && doc@ == d,
            Err(e) => r matches Err(t) && t@ == e,
        },
{
    let ghost a = text_entries(*attrs);
    let checks = vec![
        (KEY_DOC_DATE, FieldKind::RequiredDate),
        (KEY_INCOME_DATE, FieldKind::OptionalDate),
        (KEY_OUTCOME_DATE, FieldKind::OptionalDate),
        (KEY_AMOUNT, FieldKind::Number),
    ];
    assert(checks@.map_values(|c: (&str, FieldKind)| (c.0@, c.1)) =~= document_checks());
    if let Some(e) = find_value_error(attrs, &checks) {
        return Err(e);
    }
    let required = vec![
        KEY_NUMBER,
        KEY_DOC_DATE,
        KEY_PURPOSE,
        KEY_AMOUNT,
        KEY_PAYER_INN,
        KEY_PAYER_BIC,
        KEY_PAYER_BANK1,
        KEY_PAYER_ACCOUNT,
        KEY_PAYEE_INN,
        KEY_PAYEE_ACCOUNT,
        KEY_PAYEE_BIC,
        KEY_PAYEE_BANK1,
    ];
    assert(required@.map_values(|n: &str| n@) =~= document_required());
    if let Some(name) = find_missing(attrs, &required) {
        let mut m = String::new();
        push_text(&mut m, "missing field `");
        push_text(&mut m, name.as_str());
        push_text(&mut m, "`");
        return Err(m);
    }
    proof {
        let c = document_checks();
        let q = document_required();
        assert forall|i: int| 0 <= i < q.len() implies entries_get(a, #[trigger] q[i]) is Some by {
            lemma_none_missing(a, q, i);
        }
        lemma_no_value_error(a, c, 0);
        lemma_no_value_error(a, c, 1);
        lemma_no_value_error(a, c, 2);
        lemma_no_value_error(a, c, 3);
        assert(q[0] == KEY_NUMBER@ && q[1] == KEY_DOC_DATE@ && q[2] == KEY_PURPOSE@ && q[3]
            == KEY_AMOUNT@ && q[4] == KEY_PAYER_INN@ && q[5] == KEY_PAYER_BIC@ && q[6]
            == KEY_PAYER_BANK1@ && q[7] == KEY_PAYER_ACCOUNT@ && q[8] == KEY_PAYEE_INN@ && q[9]
            == KEY_PAYEE_ACCOUNT@ && q[10] == KEY_PAYEE_BIC@ && q[11] == KEY_PAYEE_BANK1@);
    }
    let doc_date = match required_date(present_text(attrs, KEY_DOC_DATE).as_str()) {
        Ok(d) => d,
        Err(e) => return Err(e),
    };
    let amount = match number(present_text(attrs, KEY_AMOUNT).as_str()) {
        Ok(d) => d,
        Err(e) => return Err(e),
    };
    let outcome_date = match optional_text(attrs, KEY_OUTCOME_DATE) {
        Some(v) => match optional_date(v.as_str()) {
            Ok(d) => d,
            Err(e) => return Err(e),
        },
        None => None,
    };
    let income_date = match optional_text(attrs, KEY_INCOME_DATE) {
        Some(v) => match optional_date(v.as_str()) {
            Ok(d) => d,
            Err(e) => return Err(e),
        },
        None => None,
    };
    let mut doc_type = String::new();
    push_text(&mut doc_type, typ);
    Ok(
        Document {
            doc_number: present_text(attrs, KEY_NUMBER),
            doc_type,
            payment_type: optional_text(attrs, KEY_PAYMENT_TYPE),
            doc_date,
            purpose: present_text(attrs, KEY_PURPOSE),
            ordering: optional_text(attrs, KEY_ORDERING),
            amount,
            counterparty_inn: present_text(attrs, KEY_PAYER_INN),
            counterparty_kpp: optional_text(attrs, KEY_PAYER_KPP),
            counterparty_bic: present_text(attrs, KEY_PAYER_BIC),
            counterparty_bank1: present_text(attrs, KEY_PAYER_BANK1),
            counterparty_account: present_text(attrs, KEY_PAYER_ACCOUNT),
            counterparty: optional_text(attrs, KEY_PAYER),
            counterparty_1: optional_text(attrs, KEY_PAYER_1),
            outcome_date,
            counterparty_ras_account: optional_text(attrs, KEY_PAYER_RAS_ACCOUNT),
            counterparty_cor_account: optional_text(attrs, KEY_PAYER_COR_ACCOUNT),
            payee_inn: present_text(attrs, KEY_PAYEE_INN),
            payee: optional_text(attrs, KEY_PAYEE),
            payee_account: present_text(attrs, KEY_PAYEE_ACCOUNT),
            payee_kpp: optional_text(attrs, KEY_PAYEE_KPP),
            payee_bic: present_text(attrs, KEY_PAYEE_BIC),
            payee_bank1: present_text(attrs, KEY_PAYEE_BANK1),
            payee_ras_account: optional_text(attrs, KEY_PAYEE_RAS_ACCOUNT),
            payee_cor_account: optional_text(attrs, KEY_PAYEE_COR_ACCOUNT),
            income_date,
        },
    )
}


/// Reads the interval that the attributes of an account section describe.
pub fn read_interval(attrs: &IndexMap<String, String>) -> (r: Result<Interval, String>)
    ensures
        match interval_from(text_entries(*attrs)) {
            Ok(iv) => r == Ok::<Interval, String>(iv),
            Err(e) => r matches Err(t) && t@ == e,
        },
{
    let ghost a = text_entries(*attrs);
    let checks = vec![
        (KEY_TOTAL_INCOME, FieldKind::Number),
        (KEY_TOTAL_EXPENSE, FieldKind::Number),
        (KEY_DATE_END, FieldKind::OptionalDate),
        (KEY_DATE_START, FieldKind::RequiredDate),
        (KEY_END_AMOUNT, FieldKind::Number),
        (KEY_START_AMOUNT, FieldKind::Number),
    ];
    assert(checks@.map_values(|c: (&str, FieldKind)| (c.0@, c.1)) =~= interval_checks());
    if let Some(e) = find_value_error(attrs, &checks) {
        return Err(e);
    }
    let required = vec![KEY_DATE_START, KEY_START_AMOUNT];
    assert(required@.map_values(|n: &str| n@) =~= interval_required());
    if let Some(name) = find_missing(attrs, &required) {
        let mut m = String::new();
        push_text(&mut m, "missing field `");
        push_text(&mut m, name.as_str());
        push_text(&mut m, "`");
        return Err(m);
    }
    proof {
        let c = interval_checks();
        let q = interval_required();
        lemma_none_missing(a, q, 0);
        lemma_none_missing(a, q, 1);
        lemma_no_value_error(a, c, 0);
        lemma_no_value_error(a, c, 1);
        lemma_no_value_error(a, c, 2);
        lemma_no_value_error(a, c, 3);
        lemma_no_value_error(a, c, 4);
        lemma_no_value_error(a, c, 5);
    }
    let date_start = match required_date(present_text(attrs, KEY_DATE_START).as_str()) {
        Ok(d) => d,
        Err(e) => return Err(e),
    };
    let start_amount = match number(present_text(attrs, KEY_START_AMOUNT).as_str()) {
        Ok(d) => d,
        Err(e) => return Err(e),
    };
    let date_end = match optional_text(attrs, KEY_DATE_END) {
        Some(v) => match optional_date(v.as_str()) {
            Ok(d) => d,
            Err(e) => return Err(e),
        },
        None => None,
    };
    let total_income = match optional_number(attrs, KEY_TOTAL_INCOME) {
        Ok(d) => d,
        Err(e) => return Err(e),
    };
    let total_expense = match optional_number(attrs, KEY_TOTAL_EXPENSE) {
        Ok(d) => d,
        Err(e) => return Err(e),
    };
    let end_amount = match optional_number(attrs, KEY_END_AMOUNT) {
        Ok(d) => d,
        Err(e) => return Err(e),
    };
    Ok(Interval { date_start, date_end, total_income, total_expense, start_amount, end_amount })
}

/// An optional number field that reads without error when present.
fn optional_number(attrs: &IndexMap<String, String>, key: &str) -> (r: Result<Option<Decimal>, String>)
    ensures
        (entries_get(text_entries(*attrs), key@) matches Some(v) ==> read_number(v) is Ok) ==> r
            == Ok::<Option<Decimal>, String>(optional_number_field(text_entries(*attrs), key@)),
{
    match optional_text(attrs, key) {
        Some(v) => match number(v.as_str()) {
            Ok(d) => Ok(Some(d)),
            Err(e) => Err(e),
        },
        None => Ok(None),
    }
}

pub proof fn lemma_count_before(s: Seq<Interval>, d: Date, k: int)
    requires
        0 <= k <= s.len(),
        forall|j: int| 0 <= j < k ==> date_lt(#[trigger] s[j].date_start, d),
        k == s.len() || !date_lt(s[k].date_start, d),
    ensures
        count_before(s, d) == k,
    decreases s.len(),
{
    if k > 0 {
        assert forall|j: int| 0 <= j < k - 1 implies date_lt(
            #[trigger] s.drop_first()[j].date_start,
            d,
        ) by {
            assert(s.drop_first()[j] == s[j + 1]);
        }
        lemma_count_before(s.drop_first(), d, k - 1);
    }
}

pub proof fn lemma_count_before_bound(s: Seq<Interval>, d: Date)
    ensures
        count_before(s, d) <= s.len(),
        forall|j: int| 0 <= j < count_before(s, d) ==> date_lt(#[trigger] s[j].date_start, d),
        count_before(s, d) < s.len() ==> !date_lt(s[count_before(s, d) as int].date_start, d),
    decreases s.len(),
{
    if s.len() > 0 && date_lt(s[0].date_start, d) {
        lemma_count_before_bound(s.drop_first(), d);
        assert forall|j: int| 0 <= j < count_before(s, d) implies date_lt(
            #[trigger] s[j].date_start,
            d,
        ) by {
            if j > 0 {
                assert(s[j] == s.drop_first()[j - 1]);
            }
        }
    }
}

/// Inserting an interval by its start date keeps the intervals ordered.
pub proof fn lemma_insert_by_start_sorted(s: Seq<Interval>, iv: Interval)
    requires
        sorted_by_start(s),
    ensures
        sorted_by_start(insert_by_start(s, iv)),
        insert_by_start(s, iv).len() == s.len() + 1,
{
    lemma_count_before_bound(s, iv.date_start);
    let k = count_before(s, iv.date_start) as int;
    let t = insert_by_start(s, iv);
    assert forall|i: int, j: int| 0 <= i < j < t.len() implies !date_lt(
        t[j].date_start,
        t[i].date_start,
    ) by {
        if i < k && j == k {
        } else if i == k && j > k {
            assert(t[j] == s[j - 1]);
            if k < s.len() {
                assert(!date_lt(s[k].date_start, iv.date_start));
                if j - 1 > k {
                    assert(!date_lt(s[j - 1].date_start, s[k].date_start));
                }
            }
        } else if i < k && j > k {
            assert(t[j] == s[j - 1]);
            assert(t[i] == s[i]);
        } else if j < k {
            assert(t[j] == s[j]);
            assert(t[i] == s[i]);
        } else {
            assert(t[j] == s[j - 1]);
            assert(t[i] == s[i - 1]);
        }
    }
}

/// The number of leading intervals that start before `d`.
fn count_before_exec(s: &Vec<Interval>, d: &Date) -> (r: usize)
    ensures
        r == count_before(s@, *d),
{
    let mut i: usize = 0;
    while i < s.len() && s[i].date_start.before(d)
        invariant
            i <= s.len(),
            forall|j: int| 0 <= j < i ==> date_lt(#[trigger] s@[j].date_start, *d),
        decreases s.len() - i,
    {
        i = i + 1;
    }
    proof {
        lemma_count_before(s@, *d, i as int);
    }
    i
}

/// Whether some interval equals `iv`.
fn has_interval_exec(s: &Vec<Interval>, iv: &Interval) -> (r: bool)
    ensures
        r == has_interval(s@, *iv),
{
    let mut i: usize = 0;
    while i < s.len()
        invariant
            i <= s.len(),
            forall|j: int| 0 <= j < i ==> !same_interval(#[trigger] s@[j], *iv),
        decreases s.len() - i,
    {
        if s[i].same_as(iv) {
            return true;
        }
        i = i + 1;
    }
    false
}

fn copy_intervals(s: &Vec<Interval>) -> (r: Vec<Interval>)
    ensures
        r@ == s@,
{
    let mut r: Vec<Interval> = Vec::new();
    let mut i: usize = 0;
    while i < s.len()
        invariant
            i <= s.len(),
            r@ == s@.take(i as int),
        decreases s.len() - i,
    {
        r.push(s[i]);
        assert(s@.take(i + 1) == s@.take(i as int).push(s@[i as int]));
        i = i + 1;
    }
    assert(s@.take(s.len() as int) == s@);
    r
}

impl Statement {
    /// A statement with the given header and nothing else yet.
    pub fn new(encoding: Encoding, header: IndexMap<String, String>) -> (s: Self)
        ensures
            s@ == (StatementView {
                encoding,
                header: text_entries(header),
                accounts: Seq::empty(),
                documents: Seq::empty(),
                warnings: Seq::empty(),
            }),
    {
        let s = Statement {
            encoding,
            header,
            accounts: account_map_new(),
            documents: Vec::new(),
            warnings: Vec::new(),
        };
        assert(s@.documents =~= Seq::<DocumentView>::empty());
        assert(s@.warnings =~= Seq::<(usize, Seq<char>)>::empty());
        s
    }

    /// Adds a warning with its line number.
    pub fn add_warning(&mut self, e: (usize, String))
        ensures
            final(self)@ == (StatementView { warnings: old(self)@.warnings.push((e.0, e.1@)), ..old(self)@ }),
    {
        let ghost before = self.warnings@;
        self.warnings.push(e);
        assert(self.warnings@.map_values(|w: (usize, String)| (w.0, w.1@)) =~= before.map_values(
            |w: (usize, String)| (w.0, w.1@),
        ).push((e.0, e.1@)));
    }

    /// Adds the document that the attributes of a document section of type
    /// `typ` describe; gives the warning text where they describe none.
    pub fn add_document(&mut self, typ: &str, attrs: IndexMap<String, String>) -> (r: Result<(), String>)
        ensures
            match with_document(old(self)@, typ@, text_entries(attrs)) {
                Ok(st) => r is Ok && final(self)@ == st,
                Err(e) => r matches Err(t) && t@ == e && final(self)@ == old(self)@,
            },
    {
        let doc = match read_document(typ, &attrs) {
            Ok(d) => d,
            Err(e) => return Err(e),
        };
        let ghost before = self.documents@;
        self.documents.push(doc);
        assert(self.documents@.map_values(|d: Document| d@) =~= before.map_values(
            |d: Document| d@,
        ).push(doc@));
        Ok(())
    }

    /// Adds the interval that the attributes of an account section describe
    /// to its account, keeping the account's intervals ordered by start date.
    pub fn add_account(&mut self, attrs: IndexMap<String, String>) -> (r: Result<(), String>)
        ensures
            match with_account(old(self)@, text_entries(attrs)) {
                Ok(st) => r is Ok && final(self)@ == st,
                Err(e) => r matches Err(t) && t@ == e && final(self)@ == old(self)@,
            },
    {
        let interval = match read_interval(&attrs) {
            Ok(iv) => iv,
            Err(e) => {
                let mut m = String::new();
                push_text(&mut m, "Ошибка разбора интервала счёта: ");
                push_text(&mut m, e.as_str());
                return Err(m);
            },
        };
        let number = match text_map_get(&attrs, KEY_ACCOUNT_NUMBER) {
            Some(n) => n.clone(),
            None => {
                let mut m = String::new();
                push_text(&mut m, "Нет поля РасчСчет в секции счёта");
                return Err(m);
            },
        };
        let updated = match account_map_get(&self.accounts, number.as_str()) {
            Some(account) => {
                if has_interval_exec(&account.intervals, &interval) {
                    return Ok(());
                }
                let pos = count_before_exec(&account.intervals, &interval.date_start);
                proof {
                    lemma_count_before_bound(account.intervals@, interval.date_start);
                }
                let mut intervals = copy_intervals(&account.intervals);
                intervals.insert(pos, interval);
                let acc = Account { number: account.number.clone(), intervals };
                assert(acc@ == (AccountView {
                    number: account@.number,
                    intervals: insert_by_start(account@.intervals, interval),
                }));
                acc
            },
            None => {
                let acc = Account { number: number.clone(), intervals: vec![interval] };
                assert(acc@.intervals =~= seq![interval]);
                acc
            },
        };
        let ghost before = self@;
        account_map_insert(&mut self.accounts, number, updated);
        assert(self@ == (StatementView { accounts: account_entries(self.accounts), ..before }));
        Ok(())
    }
}


/// No two intervals are equal.
pub open spec fn distinct_intervals(s: Seq<Interval>) -> bool {
    forall|i: int, j: int| 0 <= i < j < s.len() ==> !same_interval(s[i], s[j])
}

/// Accounts are kept by their numbers, each at most once, and each
/// account's intervals are ordered by start date with no two equal.
pub open spec fn accounts_well_formed(accounts: Entries<AccountView>) -> bool {
    &&& unique_keys(accounts)
    &&& forall|i: int|
        0 <= i < accounts.len() ==> {
            &&& (#[trigger] accounts[i]).1.number == accounts[i].0
            &&& sorted_by_start(accounts[i].1.intervals)
            &&& distinct_intervals(accounts[i].1.intervals)
        }
}

/// What every statement keeps: header keys occur once, and its accounts are
/// well formed.
pub open spec fn statement_well_formed(st: StatementView) -> bool {
    unique_keys(st.header) && accounts_well_formed(st.accounts)
}

proof fn lemma_same_interval_symmetric(a: Interval, b: Interval)
    ensures
        same_interval(a, b) ==> same_interval(b, a),
        same_interval(a, a),
{
    lemma_same_value_equivalence(a.start_amount, b.start_amount, a.start_amount);
    match (a.total_income, b.total_income) {
        (Some(x), Some(y)) => lemma_same_value_equivalence(x, y, x),
        _ => {},
    }
    match (a.total_expense, b.total_expense) {
        (Some(x), Some(y)) => lemma_same_value_equivalence(x, y, x),
        _ => {},
    }
    match (a.end_amount, b.end_amount) {
        (Some(x), Some(y)) => lemma_same_value_equivalence(x, y, x),
        _ => {},
    }
}

proof fn lemma_insert_distinct(s: Seq<Interval>, iv: Interval)
    requires
        distinct_intervals(s),
        !has_interval(s, iv),
    ensures
        distinct_intervals(insert_by_start(s, iv)),
{
    lemma_count_before_bound(s, iv.date_start);
    let k = count_before(s, iv.date_start) as int;
    let t = insert_by_start(s, iv);
    assert forall|i: int, j: int| 0 <= i < j < t.len() implies !same_interval(t[i], t[j]) by {
        if i == k {
            assert(t[j] == s[j - 1]);
            lemma_same_interval_symmetric(iv, s[j - 1]);
        } else if j == k {
            assert(t[i] == s[i]);
        } else {
            let si = if i < k { i } else { i - 1 };
            let sj = if j < k { j } else { j - 1 };
            assert(t[i] == s[si]);
            assert(t[j] == s[sj]);
        }
    }
}

/// Adding an account section keeps a statement well formed.
pub proof fn lemma_with_account_well_formed(st: StatementView, a: Entries<Seq<char>>)
    requires
        statement_well_formed(st),
    ensures
        with_account(st, a) matches Ok(st2) ==> statement_well_formed(st2),
{
    if let Ok(iv) = interval_from(a) {
        if let Some(number) = entries_get(a, KEY_ACCOUNT_NUMBER@) {
            let acs = st.accounts;
            lemma_key_index(acs, number);
            let new_acc = match entries_get(acs, number) {
                Some(acc) => AccountView { number: acc.number, intervals: insert_by_start(acc.intervals, iv) },
                None => AccountView { number, intervals: seq![iv] },
            };
            if entries_get(acs, number) is Some && has_interval(entries_get(acs, number)->0.intervals, iv) {
            } else {
                let acs2 = entries_insert(acs, number, new_acc);
                lemma_insert_unique(acs, number, new_acc);
                if let Some(acc) = entries_get(acs, number) {
                    let i = key_index(acs, number)->0;
                    assert(acs[i].1 == acc);
                    lemma_insert_by_start_sorted(acc.intervals, iv);
                    lemma_insert_distinct(acc.intervals, iv);
                    assert(acs2 == acs.update(i, (number, new_acc)));
                } else {
                    assert(acs2 == acs.push((number, new_acc)));
                }
                assert forall|i: int| 0 <= i < acs2.len() implies {
                    &&& (#[trigger] acs2[i]).1.number == acs2[i].0
                    &&& sorted_by_start(acs2[i].1.intervals)
                    &&& distinct_intervals(acs2[i].1.intervals)
                } by {
                    if acs2[i].0 != number {
                        assert(i < acs.len() && acs2[i] == acs[i]);
                    }
                }
            }
        }
    }
}

/// Adding a document keeps a statement well formed.
pub proof fn lemma_with_document_well_formed(st: StatementView, typ: Seq<char>, a: Entries<Seq<char>>)
    requires
        statement_well_formed(st),
    ensures
        with_document(st, typ, a) matches Ok(st2) ==> statement_well_formed(st2),
{
}

/// Adding the same account section a second time changes nothing: an
/// interval is recorded once.
pub proof fn lemma_with_account_idempotent(st: StatementView, a: Entries<Seq<char>>)
    ensures
        with_account(st, a) matches Ok(st2) ==> with_account(st2, a) == Ok::<StatementView, Seq<char>>(st2),
{
    if let Ok(iv) = interval_from(a) {
        if let Some(number) = entries_get(a, KEY_ACCOUNT_NUMBER@) {
            if let Ok(st2) = with_account(st, a) {
                lemma_same_interval_symmetric(iv, iv);
                match entries_get(st.accounts, number) {
                    Some(acc) => {
                        if !has_interval(acc.intervals, iv) {
                            let ni = insert_by_start(acc.intervals, iv);
                            let new_acc = AccountView { number: acc.number, intervals: ni };
                            lemma_insert_get(st.accounts, number, new_acc, number);
                            lemma_count_before_bound(acc.intervals, iv.date_start);
                            let k = count_before(acc.intervals, iv.date_start) as int;
                            assert(ni[k] == iv);
                            assert(has_interval(ni, iv));
                        }
                    },
                    None => {
                        let new_acc = AccountView { number, intervals: seq![iv] };
                        lemma_insert_get(st.accounts, number, new_acc, number);
                        assert(seq![iv][0] == iv);
                        assert(has_interval(seq![iv], iv));
                    },
                }
            }
        }
    }
}

/// Adding an account section under number `n`, its intervals ordered by
/// start date with no two equal: the account under `n` stays so ordered and
/// distinct; its intervals are the old ones with the new interval put in
/// before the first that does not start before it (so, as a multiset, the
/// old ones plus the new one), or the old ones unchanged where an equal
/// interval was there already, or the new interval alone for a new number.
pub proof fn lemma_with_account_intervals(st: StatementView, a: Entries<Seq<char>>)
    requires
        interval_from(a) is Ok,
        entries_get(a, KEY_ACCOUNT_NUMBER@) is Some,
        entries_get(st.accounts, entries_get(a, KEY_ACCOUNT_NUMBER@)->0) matches Some(acc) ==> sorted_by_start(
            acc.intervals,
        ) && distinct_intervals(acc.intervals),
    ensures
        ({
            let iv = interval_from(a)->Ok_0;
            let n = entries_get(a, KEY_ACCOUNT_NUMBER@)->0;
            with_account(st, a) matches Ok(st2) && entries_get(st2.accounts, n) matches Some(acc2) && {
                &&& sorted_by_start(acc2.intervals)
                &&& distinct_intervals(acc2.intervals)
                &&& match entries_get(st.accounts, n) {
                    Some(acc) => if has_interval(acc.intervals, iv) {
                        acc2.intervals == acc.intervals
                    } else {
                        &&& acc2.intervals == acc.intervals.insert(
                            count_before(acc.intervals, iv.date_start) as int,
                            iv,
                        )
                        &&& acc2.intervals.to_multiset() == acc.intervals.to_multiset().insert(iv)
                    },
                    None => acc2.intervals == seq![iv],
                }
            }
        }),
{
    let iv = interval_from(a)->Ok_0;
    let n = entries_get(a, KEY_ACCOUNT_NUMBER@)->0;
    match entries_get(st.accounts, n) {
        Some(acc) => {
            if !has_interval(acc.intervals, iv) {
                let new_acc = AccountView { number: acc.number, intervals: insert_by_start(acc.intervals, iv) };
                lemma_insert_get(st.accounts, n, new_acc, n);
                lemma_insert_by_start_sorted(acc.intervals, iv);
                lemma_insert_distinct(acc.intervals, iv);
                lemma_count_before_bound(acc.intervals, iv.date_start);
                vstd::seq_lib::to_multiset_insert(
                    acc.intervals,
                    count_before(acc.intervals, iv.date_start) as int,
                    iv,
                );
            }
        },
        None => {
            let new_acc = AccountView { number: n, intervals: seq![iv] };
            lemma_insert_get(st.accounts, n, new_acc, n);
        },
    }
}

/// A document read from the attributes of a document section takes each of
/// its fields from the attribute of that field's own name: a required text
/// field is the value of its attribute, which is there; an optional text
/// field is the value of its attribute, or nothing where it is absent; the
/// date and the amount are what reading their attributes gives; an optional
/// date is what reading its attribute gives, or nothing where it is absent.
pub proof fn lemma_document_fields(typ: Seq<char>, a: Entries<Seq<char>>)
    ensures
        document_from(typ, a) matches Ok(d) ==> {
            &&& d.doc_type == typ
            &&& entries_get(a, "Номер"@) == Some(d.doc_number)
            &&& d.payment_type == entries_get(a, "ВидОплаты"@)
            &&& entries_get(a, "Дата"@) matches Some(v) && read_required_date(v) == Ok::<Date, Seq<char>>(d.doc_date)
            &&& entries_get(a, "НазначениеПлатежа"@) == Some(d.purpose)
            &&& d.ordering == entries_get(a, "Очередность"@)
            &&& entries_get(a, "Сумма"@) matches Some(v) && read_number(v) == Ok::<Decimal, Seq<char>>(d.amount)
            &&& entries_get(a, "ПлательщикИНН"@) == Some(d.counterparty_inn)
            &&& d.counterparty_kpp == entries_get(a, "ПлательщикКПП"@)
            &&& entries_get(a, "ПлательщикБИК"@) == Some(d.counterparty_bic)
            &&& entries_get(a, "ПлательщикБанк1"@) == Some(d.counterparty_bank1)
            &&& entries_get(a, "ПлательщикСчет"@) == Some(d.counterparty_account)
            &&& d.counterparty == entries_get(a, "Плательщик"@)
            &&& d.counterparty_1 == entries_get(a, "Плательщик1"@)
            &&& match entries_get(a, "ДатаСписано"@) {
                Some(v) => read_optional_date(v) == Ok::<Option<Date>, Seq<char>>(d.outcome_date),
                None => d.outcome_date is None,
            }
            &&& d.counterparty_ras_account == entries_get(a, "ПлательщикРасчСчет"@)
            &&& d.counterparty_cor_account == entries_get(a, "ПлательщикКорсчет"@)
            &&& entries_get(a, "ПолучательИНН"@) == Some(d.payee_inn)
            &&& d.payee == entries_get(a, "Получатель"@)
            &&& entries_get(a, "ПолучательСчет"@) == Some(d.payee_account)
            &&& d.payee_kpp == entries_get(a, "ПолучательКПП"@)
            &&& entries_get(a, "ПолучательБИК"@) == Some(d.payee_bic)
            &&& entries_get(a, "ПолучательБанк1"@) == Some(d.payee_bank1)
            &&& d.payee_ras_account == entries_get(a, "ПолучательРасчСчет"@)
            &&& d.payee_cor_account == entries_get(a, "ПолучательКорсчет"@)
            &&& match entries_get(a, "ДатаПоступило"@) {
                Some(v) => read_optional_date(v) == Ok::<Option<Date>, Seq<char>>(d.income_date),
                None => d.income_date is None,
            }
        },
{
    if document_from(typ, a) is Ok {
        let checks = document_checks();
        let req = document_required();
        assert forall|i: int| 0 <= i < req.len() implies entries_get(a, req[i]) is Some by {
            lemma_none_missing(a, req, i);
        }
        assert(req[1] == KEY_DOC_DATE@ && req[3] == KEY_AMOUNT@);
        assert(entries_get(a, req[0]) is Some);
        assert(entries_get(a, req[2]) is Some);
        assert(entries_get(a, req[4]) is Some);
        assert(entries_get(a, req[5]) is Some);
        assert(entries_get(a, req[6]) is Some);
        assert(entries_get(a, req[7]) is Some);
        assert(entries_get(a, req[8]) is Some);
        assert(entries_get(a, req[9]) is Some);
        assert(entries_get(a, req[10]) is Some);
        assert(entries_get(a, req[11]) is Some);
        lemma_no_value_error(a, checks, 0);
        lemma_no_value_error(a, checks, 1);
        lemma_no_value_error(a, checks, 2);
        lemma_no_value_error(a, checks, 3);
    }
}

/// Where every required attribute of a document is there and the date, the
/// amount and the optional dates that are there can be read, the attributes
/// describe a document.
pub proof fn lemma_document_read(typ: Seq<char>, a: Entries<Seq<char>>)
    requires
        entries_get(a, "Номер"@) is Some,
        entries_get(a, "Дата"@) matches Some(v) && read_required_date(v) is Ok,
        entries_get(a, "НазначениеПлатежа"@) is Some,
        entries_get(a, "Сумма"@) matches Some(v) && read_number(v) is Ok,
        entries_get(a, "ПлательщикИНН"@) is Some,
        entries_get(a, "ПлательщикБИК"@) is Some,
        entries_get(a, "ПлательщикБанк1"@) is Some,
        entries_get(a, "ПлательщикСчет"@) is Some,
        entries_get(a, "ПолучательИНН"@) is Some,
        entries_get(a, "ПолучательСчет"@) is Some,
        entries_get(a, "ПолучательБИК"@) is Some,
        entries_get(a, "ПолучательБанк1"@) is Some,
        entries_get(a, "ДатаСписано"@) matches Some(v) ==> read_optional_date(v) is Ok,
        entries_get(a, "ДатаПоступило"@) matches Some(v) ==> read_optional_date(v) is Ok,
    ensures
        document_from(typ, a) is Ok,
{
    reveal_with_fuel(first_value_error, 5);
    reveal_with_fuel(first_missing, 13);
    let checks = document_checks();
    assert(checks.drop_first().drop_first().drop_first().drop_first().len() == 0);
    let req = document_required();
    assert(req.drop_first().drop_first().drop_first().drop_first().drop_first().drop_first().drop_first()
        .drop_first().drop_first().drop_first().drop_first().drop_first().len() == 0);
}

/// An interval read from the attributes of an account section takes each
/// of its fields from the attribute of that field's own name: the start
/// date and the opening balance from `ДатаНачала` and `НачальныйОстаток`,
/// which are there; the end date, the totals and the closing balance from
/// `ДатаКонца`, `ВсегоПоступило`, `ВсегоСписано` and `КонечныйОстаток`, or
/// nothing where they are absent.
pub proof fn lemma_interval_fields(a: Entries<Seq<char>>)
    ensures
        interval_from(a) matches Ok(iv) ==> {
            &&& entries_get(a, "ДатаНачала"@) matches Some(v) && read_required_date(v) == Ok::<Date, Seq<char>>(
                iv.date_start,
            )
            &&& entries_get(a, "НачальныйОстаток"@) matches Some(v) && read_number(v) == Ok::<Decimal, Seq<char>>(
                iv.start_amount,
            )
            &&& match entries_get(a, "ДатаКонца"@) {
                Some(v) => read_optional_date(v) == Ok::<Option<Date>, Seq<char>>(iv.date_end),
                None => iv.date_end is None,
            }
            &&& match entries_get(a, "ВсегоПоступило"@) {
                Some(v) => iv.total_income matches Some(x) && read_number(v) == Ok::<Decimal, Seq<char>>(x),
                None => iv.total_income is None,
            }
            &&& match entries_get(a, "ВсегоСписано"@) {
                Some(v) => iv.total_expense matches Some(x) && read_number(v) == Ok::<Decimal, Seq<char>>(x),
                None => iv.total_expense is None,
            }
            &&& match entries_get(a, "КонечныйОстаток"@) {
                Some(v) => iv.end_amount matches Some(x) && read_number(v) == Ok::<Decimal, Seq<char>>(x),
                None => iv.end_amount is None,
            }
        },
{
    if interval_from(a) is Ok {
        let checks = interval_checks();
        let req = interval_required();
        lemma_none_missing(a, req, 0);
        lemma_none_missing(a, req, 1);
        lemma_no_value_error(a, checks, 0);
        lemma_no_value_error(a, checks, 1);
        lemma_no_value_error(a, checks, 2);
        lemma_no_value_error(a, checks, 3);
        lemma_no_value_error(a, checks, 4);
        lemma_no_value_error(a, checks, 5);
    }
}

/// Where the start date and the opening balance are there and every dated
/// or numeric attribute that is there can be read, the attributes describe
/// an interval.
pub proof fn lemma_interval_read(a: Entries<Seq<char>>)
    requires
        entries_get(a, "ДатаНачала"@) matches Some(v) && read_required_date(v) is Ok,
        entries_get(a, "НачальныйОстаток"@) matches Some(v) && read_number(v) is Ok,
        entries_get(a, "ДатаКонца"@) matches Some(v) ==> read_optional_date(v) is Ok,
        entries_get(a, "ВсегоПоступило"@) matches Some(v) ==> read_number(v) is Ok,
        entries_get(a, "ВсегоСписано"@) matches Some(v) ==> read_number(v) is Ok,
        entries_get(a, "КонечныйОстаток"@) matches Some(v) ==> read_number(v) is Ok,
    ensures
        interval_from(a) is Ok,
{
    reveal_with_fuel(first_value_error, 7);
    reveal_with_fuel(first_missing, 3);
    let checks = interval_checks();
    assert(checks.drop_first().drop_first().drop_first().drop_first().drop_first().drop_first().len() == 0);
    let req = interval_required();
    assert(req.drop_first().drop_first().len() == 0);
}

/// Intervals ordered by start date come in calendar order: never a later
/// year before an earlier one, and within a year never a later month first.
pub proof fn lemma_sorted_chronological(s: Seq<Interval>)
    requires
        sorted_by_start(s),
    ensures
        forall|i: int, j: int|
            0 <= i < j < s.len() ==> (#[trigger] s[i]).date_start.year <= (#[trigger] s[j]).date_start.year,
        forall|i: int, j: int|
            0 <= i < j < s.len() && (#[trigger] s[i]).date_start.year == (#[trigger] s[j]).date_start.year
                ==> s[i].date_start.month <= s[j].date_start.month,
{
    assert forall|i: int, j: int| 0 <= i < j < s.len() implies (#[trigger] s[i]).date_start.year
        <= (#[trigger] s[j]).date_start.year by {
        crate::value::lemma_date_order(s[j].date_start, s[i].date_start, s[i].date_start);
    }
    assert forall|i: int, j: int|
        0 <= i < j < s.len() && (#[trigger] s[i]).date_start.year == (#[trigger] s[j]).date_start.year implies s[i].date_start.month
        <= s[j].date_start.month by {
        crate::value::lemma_date_order(s[j].date_start, s[i].date_start, s[i].date_start);
    }
}

} // verus!
