use indexmap::IndexMap;
use odin_palace::parser::hooks::HookError;
use odin_palace::parser::statement::{read_interval, Statement};
use odin_palace::parser::{transition_exec, Encoding, Line, Section, State};
use std::ops::ControlFlow;

fn attrs(pairs: &[(&str, &str)]) -> IndexMap<String, String> {
    pairs.iter().map(|(k, v)| (k.to_string(), v.to_string())).collect()
}

#[test]
fn new_statement_holds_only_its_header() {
    let st = Statement::new(Encoding::Utf8, attrs(&[("A", "1")]));
    assert_eq!(st.header.len(), 1);
    assert!(st.accounts.is_empty() && st.documents.is_empty() && st.warnings.is_empty());
}

#[test]
fn warnings_are_appended() {
    let mut st = Statement::new(Encoding::Cp1251, IndexMap::new());
    st.add_warning((3, "w1".to_string()));
    st.add_warning((7, "w2".to_string()));
    assert_eq!(st.warnings, vec![(3, "w1".to_string()), (7, "w2".to_string())]);
}

#[test]
fn account_intervals_accumulate_by_number() {
    let mut st = Statement::new(Encoding::Utf8, IndexMap::new());
    let a = attrs(&[("РасчСчет", "1"), ("ДатаНачала", "02.02.2024"), ("НачальныйОстаток", "1")]);
    let b = attrs(&[("РасчСчет", "1"), ("ДатаНачала", "01.02.2024"), ("НачальныйОстаток", "2")]);
    let c = attrs(&[("РасчСчет", "2"), ("ДатаНачала", "01.02.2024"), ("НачальныйОстаток", "2")]);
    st.add_account(a.clone()).unwrap();
    st.add_account(b).unwrap();
    st.add_account(c).unwrap();
    st.add_account(a).unwrap();
    let keys: Vec<&String> = st.accounts.keys().collect();
    assert_eq!(keys, vec!["1", "2"]);
    let acc = st.accounts.get("1").unwrap();
    assert_eq!(acc.intervals.len(), 2);
    assert_eq!(acc.intervals[0].date_start.day, 1);
    assert_eq!(acc.intervals[1].date_start.day, 2);
}

#[test]
fn intervals_compare_amounts_by_value() {
    let a = read_interval(&attrs(&[("ДатаНачала", "01.02.2024"), ("НачальныйОстаток", "1.50")]))
        .unwrap();
    let b = read_interval(&attrs(&[("ДатаНачала", "01.02.2024"), ("НачальныйОстаток", "1.5")]))
        .unwrap();
    assert!(a.same_as(&b));
    assert!(a == b);
    let c = read_interval(&attrs(&[("ДатаНачала", "01.02.2024"), ("НачальныйОстаток", "1.6")]))
        .unwrap();
    assert!(a != c);
}

#[test]
fn document_is_read_with_its_type() {
    let mut st = Statement::new(Encoding::Utf8, IndexMap::new());
    let a = attrs(&[
        ("Номер", "1"),
        ("Дата", "01.03.2024"),
        ("Сумма", "10"),
        ("НазначениеПлатежа", "p"),
        ("ПлательщикИНН", "1"),
        ("ПлательщикБИК", "2"),
        ("ПлательщикБанк1", "3"),
        ("ПлательщикСчет", "4"),
        ("ПолучательИНН", "5"),
        ("ПолучательСчет", "6"),
        ("ПолучательБИК", "7"),
        ("ПолучательБанк1", "8"),
        ("Очередность", "5"),
    ]);
    st.add_document("Банковский ордер", a.clone()).unwrap();
    assert_eq!(st.documents.len(), 1);
    assert_eq!(st.documents[0].doc_type, "Банковский ордер");
    assert_eq!(st.documents[0].ordering.as_deref(), Some("5"));
    let mut b = a;
    b.shift_remove("ПолучательБанк1");
    assert_eq!(
        st.add_document("x", b).unwrap_err(),
        "missing field `ПолучательБанк1`"
    );
    assert_eq!(st.documents.len(), 1);
}

#[test]
fn one_step_of_reading() {
    match transition_exec(State::Init, 1, Line::Section(Section::StartOfFile), Encoding::Utf8, Ok(())) {
        ControlFlow::Continue(State::Header(a)) => assert!(a.is_empty()),
        _ => panic!("expected the header state"),
    }
    let st = Statement::new(Encoding::Utf8, IndexMap::new());
    let state = State::Account { statement: st, attrs: IndexMap::new() };
    match transition_exec(
        state,
        9,
        Line::Section(Section::EndOfAccount),
        Encoding::Utf8,
        Err(HookError::Warning("w".to_string())),
    ) {
        ControlFlow::Continue(State::ReadNextSection { statement, prev_section }) => {
            assert_eq!(statement.warnings, vec![(9, "w".to_string())]);
            assert!(matches!(prev_section, Section::EndOfAccount));
        }
        _ => panic!("expected the next-section state"),
    }
}
