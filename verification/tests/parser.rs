use indexmap::IndexMap;
use odin_palace::parser::hooks::{HookError, SectionHook, SectionType};
use odin_palace::parser::statement::Statement;
use odin_palace::parser::{parse_lines, Encoding, Error, Line, Parser, ParserBuilder, Section};
use odin_palace::value::Date;

const SAMPLE: &str = "1CClientBankExchange
ВерсияФормата=1.03
Кодировка=Windows
СекцияРасчСчет
ДатаНачала=01.01.2024
ДатаКонца=31.01.2024
РасчСчет=40702810000000000001
НачальныйОстаток=100.00
ВсегоПоступило=50.5
ВсегоСписано=20
КонечныйОстаток=130.50
КонецРасчСчет
СекцияДокумент=Платежное поручение
Номер=15
Дата=05.01.2024
Сумма=1500.75
ПлательщикСчет=40702810000000000001
ПлательщикИНН=7700000000
Плательщик1=ООО Ромашка
ПлательщикБИК=044525225
ПлательщикБанк1=ПАО Банк
ПолучательСчет=40702810000000000002
ПолучательИНН=7800000000
ПолучательБИК=044525226
ПолучательБанк1=АО Банк
НазначениеПлатежа=Оплата по счету 1
ДатаСписано=05.01.2024
ДатаПоступило=
КонецДокумента
КонецФайла
";

fn parse(text: &str) -> Result<Statement, Error> {
    Parser::default().parse(text.as_bytes())
}

fn syntax(r: Result<Statement, Error>) -> (usize, String) {
    match r {
        Err(Error::Syntax { lineno, text }) => (lineno, text),
        other => panic!("expected a syntax error, got {:?}", other),
    }
}

#[test]
fn parses_sample_statement() {
    let st = parse(SAMPLE).unwrap();
    assert!(matches!(st.encoding, Encoding::Utf8));
    assert_eq!(st.header.len(), 2);
    assert_eq!(st.header.get("ВерсияФормата").unwrap(), "1.03");
    assert_eq!(st.header.get("Кодировка").unwrap(), "Windows");
    assert_eq!(st.accounts.len(), 1);
    let acc = st.accounts.get("40702810000000000001").unwrap();
    assert_eq!(acc.number, "40702810000000000001");
    assert_eq!(acc.intervals.len(), 1);
    let iv = acc.intervals[0];
    assert_eq!(iv.date_start, Date { year: 2024, month: 1, day: 1 });
    assert_eq!(iv.date_end, Some(Date { year: 2024, month: 1, day: 31 }));
    assert_eq!((iv.start_amount.mantissa, iv.start_amount.scale), (10000, 2));
    let ti = iv.total_income.unwrap();
    assert_eq!((ti.mantissa, ti.scale), (505, 1));
    let te = iv.total_expense.unwrap();
    assert_eq!((te.mantissa, te.scale), (20, 0));
    assert_eq!(st.documents.len(), 1);
    let d = &st.documents[0];
    assert_eq!(d.doc_number, "15");
    assert_eq!(d.doc_type, "Платежное поручение");
    assert_eq!(d.doc_date, Date { year: 2024, month: 1, day: 5 });
    assert_eq!((d.amount.mantissa, d.amount.scale), (150075, 2));
    assert_eq!(d.counterparty, None);
    assert_eq!(d.counterparty_1.as_deref(), Some("ООО Ромашка"));
    assert_eq!(d.payee_inn, "7800000000");
    assert_eq!(d.purpose, "Оплата по счету 1");
    assert_eq!(d.outcome_date, Some(Date { year: 2024, month: 1, day: 5 }));
    assert_eq!(d.income_date, None);
    assert_eq!(d.payment_type, None);
    assert!(st.warnings.is_empty());
}

#[test]
fn crlf_line_endings_are_read() {
    let text = SAMPLE.replace('\n', "\r\n");
    let st = parse(&text).unwrap();
    assert_eq!(st.documents.len(), 1);
    assert_eq!(st.documents[0].doc_type, "Платежное поручение");
}

#[test]
fn windows_1251_statement_is_read() {
    let (bytes, _, _) = encoding_rs::WINDOWS_1251.encode(SAMPLE);
    let st = Parser::default().parse(&bytes).unwrap();
    assert!(matches!(st.encoding, Encoding::Cp1251));
    assert_eq!(st.documents[0].counterparty_1.as_deref(), Some("ООО Ромашка"));
}

#[test]
fn undecodable_bytes_are_not_text() {
    let r = Parser::default().parse(&[0x98]);
    assert!(matches!(r, Err(Error::NotText)));
}

#[test]
fn empty_input_is_unfinished() {
    assert!(matches!(parse(""), Err(Error::Unfinished)));
}

#[test]
fn text_ending_inside_a_section_is_unfinished() {
    let r = parse("1CClientBankExchange\nA=1\nСекцияРасчСчет\nРасчСчет=1\n");
    assert!(matches!(r, Err(Error::Unfinished)));
}

#[test]
fn bad_line_is_a_syntax_error_with_its_number() {
    let r = parse("1CClientBankExchange\n\nhello\nКонецФайла\n");
    assert_eq!(syntax(r), (3, "cannot parse line: 'hello'".to_string()));
}

#[test]
fn bad_line_is_reported_before_state_errors() {
    let r = parse("A=1\nhello\n");
    assert_eq!(syntax(r), (2, "cannot parse line: 'hello'".to_string()));
}

#[test]
fn attribute_before_header_is_an_error() {
    let r = parse("A=1\n1CClientBankExchange\n");
    assert_eq!(
        syntax(r),
        (1, "Неожиданный атрибут 'A=1' до секции 1CClientBankExchange".to_string())
    );
}

#[test]
fn section_before_header_is_an_error() {
    let r = parse("КонецФайла\n");
    assert_eq!(
        syntax(r),
        (1, "Неожиданная секция 'КонецФайла' до секции 1CClientBankExchange".to_string())
    );
}

#[test]
fn end_of_file_in_header_is_an_error() {
    let r = parse("1CClientBankExchange\nA=1\nКонецФайла\n");
    assert_eq!(
        syntax(r),
        (3, "Неожиданная секция 'КонецФайла' на этапе разбора заголовков".to_string())
    );
}

#[test]
fn attribute_between_sections_is_an_error() {
    let text = SAMPLE.replace("КонецФайла\n", "Лишний=1\nКонецФайла\n");
    let r = parse(&text);
    assert_eq!(
        syntax(r),
        (30, "Атрибут 'Лишний=1' не принадлежит ни одной секции".to_string())
    );
}

#[test]
fn unexpected_section_after_section_names_both() {
    let text = SAMPLE.replace("КонецФайла\n", "КонецДокумента\nКонецФайла\n");
    let r = parse(&text);
    assert_eq!(
        syntax(r),
        (30, "Неожиданная секция 'КонецДокумента' после 'КонецДокумента'".to_string())
    );
}

#[test]
fn section_inside_document_is_an_error() {
    let r = parse("1CClientBankExchange\nСекцияДокумент=П\nСекцияРасчСчет\n");
    assert_eq!(
        syntax(r),
        (3, "Неожиданная секция 'СекцияРасчСчет' на этапе разбора документа".to_string())
    );
}

#[test]
fn section_inside_account_is_an_error() {
    let r = parse("1CClientBankExchange\nСекцияРасчСчет\nСекцияДокумент=П\n");
    assert_eq!(
        syntax(r),
        (3, "Неожиданная секция 'СекцияДокумент=П' на этапе разбора счёта".to_string())
    );
}

#[test]
fn content_after_end_of_file_is_an_error() {
    let text = format!("{SAMPLE}A=1\n");
    assert_eq!(
        syntax(parse(&text)),
        (31, "Неожиданный атрибут 'A=1' после секции КонецФайла".to_string())
    );
    let text = format!("{SAMPLE}КонецФайла\n");
    assert_eq!(
        syntax(parse(&text)),
        (31, "Неожиданная секция 'КонецФайла' после секции КонецФайла".to_string())
    );
}

#[test]
fn account_without_number_is_an_error() {
    let text = SAMPLE.replace("РасчСчет=40702810000000000001\n", "");
    assert_eq!(syntax(parse(&text)), (11, "Нет поля РасчСчет в секции счёта".to_string()));
}

#[test]
fn account_with_bad_date_is_an_error() {
    let text = SAMPLE.replace("ДатаНачала=01.01.2024", "ДатаНачала=ab.01.2024");
    assert_eq!(
        syntax(parse(&text)),
        (
            12,
            "Ошибка разбора интервала счёта: input contains invalid characters".to_string()
        )
    );
}

#[test]
fn account_missing_start_amount_is_an_error() {
    let text = SAMPLE.replace("НачальныйОстаток=100.00\n", "");
    assert_eq!(
        syntax(parse(&text)),
        (
            11,
            "Ошибка разбора интервала счёта: missing field `НачальныйОстаток`".to_string()
        )
    );
}

#[test]
fn empty_optional_amount_is_an_error() {
    let text = SAMPLE.replace("ВсегоСписано=20", "ВсегоСписано=");
    assert_eq!(
        syntax(parse(&text)),
        (
            12,
            "Ошибка разбора интервала счёта: invalid value: string \"\", expected a Decimal type representing a fixed-point number".to_string()
        )
    );
}

#[test]
fn document_missing_number_gives_a_warning() {
    let text = SAMPLE.replace("Номер=15\n", "");
    let st = parse(&text).unwrap();
    assert!(st.documents.is_empty());
    assert_eq!(st.warnings, vec![(28, "missing field `Номер`".to_string())]);
}

#[test]
fn document_with_bad_amount_gives_a_warning() {
    let text = SAMPLE.replace("Сумма=1500.75", "Сумма=abc");
    let st = parse(&text).unwrap();
    assert!(st.documents.is_empty());
    assert_eq!(
        st.warnings,
        vec![(
            29,
            "invalid value: string \"abc\", expected a Decimal type representing a fixed-point number"
                .to_string()
        )]
    );
}

#[test]
fn document_with_blank_date_gives_a_warning() {
    let text = SAMPLE.replace("Дата=05.01.2024", "Дата= ");
    let st = parse(&text).unwrap();
    assert_eq!(st.warnings, vec![(29, "empty string is not a valid date".to_string())]);
}

#[test]
fn bad_value_is_reported_before_missing_field() {
    let text = SAMPLE.replace("Номер=15\n", "").replace("Сумма=1500.75", "Сумма=x");
    let st = parse(&text).unwrap();
    assert_eq!(st.warnings.len(), 1);
    assert!(st.warnings[0].1.starts_with("invalid value: string \"x\""));
}

fn account_section(start: &str, amount: &str) -> String {
    format!(
        "СекцияРасчСчет\nДатаНачала={start}\nРасчСчет=1\nНачальныйОстаток={amount}\nКонецРасчСчет\n"
    )
}

#[test]
fn equal_intervals_are_kept_once_and_intervals_are_ordered() {
    let text = format!(
        "1CClientBankExchange\n{}{}{}{}КонецФайла\n",
        account_section("10.02.2024", "1.0"),
        account_section("01.01.2024", "5"),
        account_section("10.02.2024", "1.00"),
        account_section("15.01.2024", "7"),
    );
    let st = parse(&text).unwrap();
    let acc = st.accounts.get("1").unwrap();
    let starts: Vec<(u32, u32)> = acc
        .intervals
        .iter()
        .map(|i| (i.date_start.month, i.date_start.day))
        .collect();
    assert_eq!(starts, vec![(1, 1), (1, 15), (2, 10)]);
}

struct Hook(fn(SectionType, &mut IndexMap<String, String>) -> Result<(), HookError>);

impl SectionHook for Hook {
    fn call(
        &self,
        section: SectionType,
        attrs: &mut IndexMap<String, String>,
        _statement: &Statement,
    ) -> Result<(), HookError> {
        (self.0)(section, attrs)
    }
}

fn with_hook(h: Hook) -> Parser {
    let hooks: Vec<Box<dyn SectionHook>> = vec![Box::new(h)];
    ParserBuilder::new().with_hooks(hooks).build()
}

#[test]
fn hook_warning_skips_the_section() {
    let p = with_hook(Hook(|s, _| match s {
        SectionType::Document => Err(HookError::Warning("skipped".to_string())),
        SectionType::Account => Ok(()),
    }));
    let st = p.parse(SAMPLE.as_bytes()).unwrap();
    assert!(st.documents.is_empty());
    assert_eq!(st.accounts.len(), 1);
    assert_eq!(st.warnings, vec![(29, "skipped".to_string())]);
}

#[test]
fn hook_error_stops_reading() {
    let p = with_hook(Hook(|s, _| match s {
        SectionType::Account => Err(HookError::Error("stop".to_string())),
        SectionType::Document => Ok(()),
    }));
    let r = p.parse(SAMPLE.as_bytes());
    assert_eq!(syntax(r), (12, "stop".to_string()));
}

#[test]
fn hook_can_fill_in_attributes() {
    let p = with_hook(Hook(|s, attrs| {
        if s == SectionType::Document {
            attrs.insert("Номер".to_string(), "99".to_string());
        }
        Ok(())
    }));
    let text = SAMPLE.replace("Номер=15\n", "");
    let st = p.parse(text.as_bytes()).unwrap();
    assert_eq!(st.documents[0].doc_number, "99");
}

#[test]
fn section_lines_are_recognised() {
    assert!(matches!(Section::try_from("1CClientBankExchange"), Ok(Section::StartOfFile)));
    assert!(matches!(Section::try_from("КонецФайла"), Ok(Section::EndOfFile)));
    match Section::try_from("СекцияДокумент=Платежное поручение") {
        Ok(Section::Document(t)) => assert_eq!(t, "Платежное поручение"),
        other => panic!("{:?}", other),
    }
    assert!(Section::try_from("КонецФайла ").is_err());
    assert!(Section::try_from("КонецФайла=1").is_err());
    assert!(Section::try_from("Секция=1").is_err());
}

#[test]
fn sections_are_written_as_read() {
    for s in [
        "1CClientBankExchange",
        "СекцияРасчСчет",
        "КонецРасчСчет",
        "СекцияДокумент=Банковский ордер",
        "КонецДокумента",
        "КонецФайла",
    ] {
        assert_eq!(Section::try_from(s).unwrap().to_string(), s);
    }
}

#[test]
fn lines_are_numbered_and_blank_lines_skipped() {
    let ls = parse_lines("a=b\n  \nКонецФайла\r\nx=y=z").unwrap();
    assert_eq!(ls.len(), 3);
    assert_eq!(ls[0].0, 1);
    assert!(matches!(&ls[0].1, Line::Attr(k, v) if k == "a" && v == "b"));
    assert_eq!(ls[1].0, 3);
    assert!(matches!(&ls[1].1, Line::Section(Section::EndOfFile)));
    assert_eq!(ls[2].0, 4);
    assert!(matches!(&ls[2].1, Line::Attr(k, v) if k == "x" && v == "y=z"));
}

#[test]
fn line_try_from_gives_back_bad_line() {
    assert!(matches!(Line::try_from("no equals sign"), Err(e) if e == "no equals sign"));
}

#[test]
fn hook_error_stops_at_the_end_of_the_first_account() {
    let p = with_hook(Hook(|_, _| Err(HookError::Error("stop".to_string()))));
    let r = p.parse("1CClientBankExchange\nСекцияРасчСчет\nКонецРасчСчет\nКонецФайла".as_bytes());
    assert_eq!(syntax(r), (3, "stop".to_string()));
}

#[test]
fn hook_warning_keeps_the_document_out() {
    let p = with_hook(Hook(|_, _| Err(HookError::Warning("skip".to_string()))));
    let st = p
        .parse("1CClientBankExchange\nСекцияДокумент=X\nКонецДокумента\nКонецФайла".as_bytes())
        .unwrap();
    assert!(st.documents.is_empty());
    assert_eq!(st.warnings, vec![(3, "skip".to_string())]);
}

#[test]
fn hooks_that_change_nothing_read_as_no_hooks() {
    let p = with_hook(Hook(|_, _| Ok(())));
    let with = p.parse(SAMPLE.as_bytes()).unwrap();
    let without = parse(SAMPLE).unwrap();
    assert_eq!(format!("{:?}", with), format!("{:?}", without));
}

#[test]
fn with_hooks_replaces_the_hooks() {
    let stop: Vec<Box<dyn SectionHook>> =
        vec![Box::new(Hook(|_, _| Err(HookError::Error("stop".to_string()))))];
    let pass: Vec<Box<dyn SectionHook>> = vec![Box::new(Hook(|_, _| Ok(())))];
    let p = ParserBuilder::new().with_hooks(stop).with_hooks(pass).build();
    assert!(p.parse(SAMPLE.as_bytes()).is_ok());
}

#[test]
fn hooks_are_called_in_order_until_the_first_error() {
    let first: Box<dyn SectionHook> = Box::new(Hook(|_, attrs| {
        attrs.insert("Номер".to_string(), "77".to_string());
        Ok(())
    }));
    let second: Box<dyn SectionHook> = Box::new(Hook(|s, attrs| match s {
        SectionType::Document if attrs.get("Номер").map(|n| n.as_str()) == Some("77") => {
            Err(HookError::Error("seen 77".to_string()))
        }
        _ => Ok(()),
    }));
    let third: Box<dyn SectionHook> =
        Box::new(Hook(|_, _| Err(HookError::Error("never".to_string()))));
    let p = ParserBuilder::new().with_hooks(vec![first, second, third]).build();
    let text = "1CClientBankExchange\nСекцияДокумент=X\nКонецДокумента\nКонецФайла";
    assert_eq!(syntax(p.parse(text.as_bytes())), (3, "seen 77".to_string()));
}

#[test]
fn warnings_come_in_the_order_of_their_lines() {
    let text = "1CClientBankExchange\nСекцияДокумент=A\nКонецДокумента\n\nСекцияДокумент=B\nКонецДокумента\nКонецФайла";
    let st = parse(text).unwrap();
    assert!(st.documents.is_empty());
    let lines: Vec<usize> = st.warnings.iter().map(|w| w.0).collect();
    assert_eq!(lines, vec![3, 6]);
}

#[test]
fn lines_out_of_the_grammar_stop_at_the_first_of_them() {
    let r = parse("1CClientBankExchange\nСекцияДокумент=A\nКонецРасчСчет\nКонецФайла");
    assert_eq!(
        syntax(r),
        (3, "Неожиданная секция 'КонецРасчСчет' на этапе разбора документа".to_string())
    );
}

#[test]
fn header_keeps_first_order_and_last_value() {
    let text = format!(
        "1CClientBankExchange\nB=1\nA=2\nB=3\n{}КонецФайла\n",
        account_section("01.01.2024", "5")
    );
    let st = parse(&text).unwrap();
    let header: Vec<(String, String)> =
        st.header.iter().map(|(k, v)| (k.clone(), v.clone())).collect();
    assert_eq!(
        header,
        vec![("B".to_string(), "3".to_string()), ("A".to_string(), "2".to_string())]
    );
}

#[test]
fn accounts_keep_the_order_they_first_appear_in() {
    let text = format!(
        "1CClientBankExchange\n{}{}{}КонецФайла\n",
        account_section("01.01.2024", "5").replace("РасчСчет=1", "РасчСчет=2"),
        account_section("01.02.2024", "6"),
        account_section("01.03.2024", "7").replace("РасчСчет=1", "РасчСчет=2"),
    );
    let st = parse(&text).unwrap();
    let numbers: Vec<&String> = st.accounts.keys().collect();
    assert_eq!(numbers, vec!["2", "1"]);
}
