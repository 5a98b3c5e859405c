use odin_palace::anonymizer::{anonymize_str, can_anonymize};
use odin_palace::transcode::{decode_any_encoding, encode_as};

#[test]
fn values_are_replaced() {
    let input = "Плательщик1=ООО Ромашка\nПлательщикСчет=40702810000000000001\nПлательщикИНН=7700000000\nНазначениеПлатежа=Оплата по счету\nПрочее=1";
    assert!(can_anonymize(input));
    let out = anonymize_str(input);
    assert_eq!(
        out,
        "Плательщик1=Иванов Иван Иванович\nПлательщикСчет=40702000000000000001\nПлательщикИНН=7700000001\nНазначениеПлатежа=Оплата по договору\nПрочее=1"
    );
}

#[test]
fn equal_values_are_replaced_alike() {
    let input = "Плательщик=Иван\nПолучатель=Петр\nПолучатель1=Иван\nПолучательИНН=1234\nПлательщикИНН=1234";
    let out = anonymize_str(input);
    assert_eq!(
        out,
        "Плательщик=Иванов Иван Иванович\nПолучатель=Петров Петр Петрович\nПолучатель1=Иванов Иван Иванович\nПолучательИНН=1202\nПлательщикИНН=1202"
    );
}

#[test]
fn text_without_attributes_is_unchanged() {
    let input = "1CClientBankExchange\nСекцияРасчСчет\n\nКонецФайла\n";
    assert_eq!(anonymize_str(input), input);
}

#[test]
fn values_are_trimmed_and_keys_kept() {
    let out = anonymize_str(" Плательщик =  Иван  \nx= y ");
    assert_eq!(out, " Плательщик =Иванов Иван Иванович\nx=y");
}

#[test]
fn beyond_the_templates_names_are_numbered_and_their_lines_left_out() {
    let mut lines: Vec<String> = (0..11).map(|i| format!("Плательщик=Имя{i}")).collect();
    lines.push("Получатель=Имя10".to_string());
    let input = lines.join("\n");
    let out = anonymize_str(&input);
    let out_lines: Vec<&str> = out.split('\n').collect();
    assert_eq!(out_lines.len(), 11);
    assert_eq!(out_lines[0], "Плательщик=Иванов Иван Иванович");
    assert_eq!(out_lines[9], "Плательщик=Волков Андрей Владимирович");
    assert_eq!(out_lines[10], "Получатель=Плательщик_1");
}

#[test]
fn purposes_cycle_through_templates() {
    let input = (0..11)
        .map(|i| format!("Description=p{i}"))
        .collect::<Vec<_>>()
        .join("\n");
    let out = anonymize_str(&input);
    let out_lines: Vec<&str> = out.split('\n').collect();
    assert_eq!(out_lines[0], "Description=Оплата по договору");
    assert_eq!(out_lines[9], "Description=Прочие операции");
    assert_eq!(out_lines[10], "Description=Оплата по договору");
}

#[test]
fn upper_case_purpose_key_is_recognised() {
    let out = anonymize_str("НАЗНАЧЕНИЕ=x");
    assert_eq!(out, "НАЗНАЧЕНИЕ=Оплата по договору");
}

#[test]
fn short_values_keep_all_their_bytes() {
    let out = anonymize_str("РасчСчет=123");
    assert_eq!(out, "РасчСчет=1231");
}

#[test]
fn value_cut_inside_a_character_cannot_be_anonymized() {
    assert!(!can_anonymize("ПлательщикСчет=АБВГД"));
    assert!(can_anonymize("ПлательщикСчет=1АБВГД"));
    assert!(!can_anonymize("ПлательщикИНН=1Ж"));
    assert!(can_anonymize("ПлательщикИНН=Ж1"));
}

#[test]
fn decoded_and_encoded_alike() {
    let (text, enc) = decode_any_encoding("Плательщик=Иван".as_bytes());
    assert_eq!(enc, "utf-8");
    assert_eq!(text, "Плательщик=Иван");
    let (bytes, _, _) = encoding_rs::WINDOWS_1251.encode("Плательщик=Иван");
    let (text, enc) = decode_any_encoding(&bytes);
    assert_eq!(enc, "cp1251");
    assert_eq!(text, "Плательщик=Иван");
    assert_eq!(encode_as(&text, enc), bytes.to_vec());
    assert_eq!(encode_as("Ж", "utf-8"), "Ж".as_bytes().to_vec());
    let (k, _, _) = encoding_rs::KOI8_R.encode("Ж");
    assert_eq!(encode_as("Ж", "koi8-r"), k.to_vec());
}

#[test]
fn renaming_names_one_for_one_changes_nothing() {
    let a = "Плательщик=Иван\nПолучатель=Петр\nПолучатель1=Иван\nПлательщикСчет=40702810000000000001";
    let b = "Плательщик=Сидор\nПолучатель=Павел\nПолучатель1=Сидор\nПлательщикСчет=40702810000000000001";
    assert_eq!(anonymize_str(a), anonymize_str(b));
}

#[test]
fn account_pseudonyms_differ_for_different_values() {
    let input = "ПлательщикСчет=40702810000000000001\nПолучательСчет=40702810000000000002\nКорсчет=40702810000000000001";
    assert_eq!(
        anonymize_str(input),
        "ПлательщикСчет=40702000000000000001\nПолучательСчет=40702000000000000002\nКорсчет=40702000000000000001"
    );
}

#[test]
fn tax_id_pseudonyms_differ_for_different_values() {
    let input = "ПлательщикИНН=7700000000\nПолучательИНН=7800000000\nПлательщикКПП=7700000000";
    assert_eq!(
        anonymize_str(input),
        "ПлательщикИНН=7700000001\nПолучательИНН=7800000002\nПлательщикКПП=7700000001"
    );
}

#[test]
fn other_values_are_only_trimmed() {
    let input = "Прочее=  x y  \nНазначениеПлатежа=z\nДругое= z ";
    assert_eq!(
        anonymize_str(input),
        "Прочее=x y\nНазначениеПлатежа=Оплата по договору\nДругое=Оплата по договору"
    );
}

#[test]
fn numbered_labels_count_payers_and_payees_apart() {
    let mut lines: Vec<String> = (0..10).map(|i| format!("Плательщик=Имя{i}")).collect();
    lines.push("Получатель=A".to_string());
    lines.push("Плательщик=B".to_string());
    lines.push("Получатель=C".to_string());
    lines.push("Плательщик=A".to_string());
    lines.push("Получатель1=C".to_string());
    lines.push("Плательщик1=B".to_string());
    let out = anonymize_str(&lines.join("\n"));
    let out_lines: Vec<&str> = out.split('\n').collect();
    assert_eq!(out_lines.len(), 13);
    assert_eq!(out_lines[10], "Плательщик=Получатель_1");
    assert_eq!(out_lines[11], "Получатель1=Получатель_2");
    assert_eq!(out_lines[12], "Плательщик1=Плательщик_1");
}

#[test]
fn lines_keep_their_order_and_keys() {
    let input = "a\n Ключ = v \n\nb=\nc";
    assert_eq!(anonymize_str(input), "a\n Ключ =v\n\nb=\nc");
}

#[test]
fn masked_values_keep_length_and_prefix() {
    let out = anonymize_str("СчетX=ABCDEFGH");
    assert_eq!(out, "СчетX=ABCDE001");
    let out = anonymize_str("ИНН=AB");
    assert_eq!(out, "ИНН=AB1");
}
