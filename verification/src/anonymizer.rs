//! Anonymizing a statement text: names, purposes, account numbers and
//! tax identifiers are replaced, consistently for equal values, by
//! template texts and numbered placeholders.
use crate::maps::{
    entries_get, entries_insert, key_index, lemma_insert_get, lemma_key_index, lemma_key_index_at, Entries,
};
use crate::text::{
    is_trimmed, is_white_space, lead_ws, lemma_trim_trimmed, occurs_at, chars_eq, chars_of, contains_chars, contains_text, join_lines, push_chars, split_on, split_on_chars,
    split_once, split_once_chars, string_of, trim, trim_chars,
};
use vstd::prelude::*;

verus! {

/// The person names that names of payers and payees become, in order.
pub open spec fn fio_template(i: nat) -> Seq<char> {
    if i == 0 {
        "Иванов Иван Иванович"@
    } else if i == 1 {
        "Петров Петр Петрович"@
    } else if i == 2 {
        "Сидоров Сидор Сидорович"@
    } else if i == 3 {
        "Петрова Галина Леонидовна"@
    } else if i == 4 {
        "Кузнецова Мария Сергеевна"@
    } else if i == 5 {
        "Смирнов Алексей Алексеевич"@
    } else if i == 6 {
        "Васильева Ольга Николаевна"@
    } else if i == 7 {
        "Морозов Дмитрий Сергеевич"@
    } else if i == 8 {
        "Попова Наталья Владимировна"@
    } else {
        "Волков Андрей Владимирович"@
    }
}

/// The payment purposes that purposes become, in turn.
pub open spec fn purpose_template(i: nat) -> Seq<char> {
    if i == 0 {
        "Оплата по договору"@
    } else if i == 1 {
        "Перевод средств"@
    } else if i == 2 {
        "Тестовая операция"@
    } else if i == 3 {
        "Услуги"@
    } else if i == 4 {
        "Платеж за услуги"@
    } else if i == 5 {
        "Погашение задолженности"@
    } else if i == 6 {
        "Возврат средств"@
    } else if i == 7 {
        "Тестовый платеж"@
    } else if i == 8 {
        "Авансовый платеж"@
    } else {
        "Прочие операции"@
    }
}

pub const FIO_TEMPLATE_COUNT: usize = 10;

pub const PURPOSE_TEMPLATE_COUNT: usize = 10;

fn fio_template_exec(i: usize) -> (r: &'static str)
    requires
        i < FIO_TEMPLATE_COUNT,
    ensures
        r@ == fio_template(i as nat),
{
    if i == 0 {
        "Иванов Иван Иванович"
    } else if i == 1 {
        "Петров Петр Петрович"
    } else if i == 2 {
        "Сидоров Сидор Сидорович"
    } else if i == 3 {
        "Петрова Галина Леонидовна"
    } else if i == 4 {
        "Кузнецова Мария Сергеевна"
    } else if i == 5 {
        "Смирнов Алексей Алексеевич"
    } else if i == 6 {
        "Васильева Ольга Николаевна"
    } else if i == 7 {
        "Морозов Дмитрий Сергеевич"
    } else if i == 8 {
        "Попова Наталья Владимировна"
    } else {
        "Волков Андрей Владимирович"
    }
}

fn purpose_template_exec(i: usize) -> (r: &'static str)
    requires
        i < PURPOSE_TEMPLATE_COUNT,
    ensures
        r@ == purpose_template(i as nat),
{
    if i == 0 {
        "Оплата по договору"
    } else if i == 1 {
        "Перевод средств"
    } else if i == 2 {
        "Тестовая операция"
    } else if i == 3 {
        "Услуги"
    } else if i == 4 {
        "Платеж за услуги"
    } else if i == 5 {
        "Погашение задолженности"
    } else if i == 6 {
        "Возврат средств"
    } else if i == 7 {
        "Тестовый платеж"
    } else if i == 8 {
        "Авансовый платеж"
    } else {
        "Прочие операции"
    }
}

/// The number of bytes of a character in UTF-8.
pub open spec fn utf8_width(c: char) -> nat {
    let u = c as u32;
    if u < 0x80 {
        1
    } else if u < 0x800 {
        2
    } else if u < 0x10000 {
        3
    } else {
        4
    }
}

/// The number of bytes of a text in UTF-8.
pub open spec fn utf8_len(s: Seq<char>) -> nat
    decreases s.len(),
{
    if s.len() == 0 {
        0
    } else {
        utf8_width(s[0]) + utf8_len(s.drop_first())
    }
}

/// The number of leading characters that fit in `n` bytes.
pub open spec fn chars_within(s: Seq<char>, n: nat) -> nat
    decreases s.len(),
{
    if s.len() == 0 {
        0
    } else if utf8_width(s[0]) <= n {
        1 + chars_within(s.drop_first(), (n - utf8_width(s[0])) as nat)
    } else {
        0
    }
}

/// The number of bytes of the leading characters that fit in `n` bytes.
pub open spec fn bytes_within(s: Seq<char>, n: nat) -> nat
    decreases s.len(),
{
    if s.len() == 0 {
        0
    } else if utf8_width(s[0]) <= n {
        utf8_width(s[0]) + bytes_within(s.drop_first(), (n - utf8_width(s[0])) as nat)
    } else {
        0
    }
}

/// The first `min(n, length)` bytes of the text end at a character boundary.
pub open spec fn byte_prefix_ok(s: Seq<char>, n: nat) -> bool {
    utf8_len(s) <= n || bytes_within(s, n) == n
}

pub open spec fn digit(d: nat) -> char {
    if d == 0 {
        '0'
    } else if d == 1 {
        '1'
    } else if d == 2 {
        '2'
    } else if d == 3 {
        '3'
    } else if d == 4 {
        '4'
    } else if d == 5 {
        '5'
    } else if d == 6 {
        '6'
    } else if d == 7 {
        '7'
    } else if d == 8 {
        '8'
    } else {
        '9'
    }
}

/// The decimal digits of a number.
pub open spec fn decimal(n: nat) -> Seq<char>
    decreases n,
{
    if n < 10 {
        seq![digit(n)]
    } else {
        decimal(n / 10).push(digit(n % 10))
    }
}

/// The text padded on the left with zeros to at least `w` characters.
pub open spec fn zero_pad(s: Seq<char>, w: nat) -> Seq<char> {
    if s.len() >= w {
        s
    } else {
        Seq::new((w - s.len()) as nat, |i: int| '0') + s
    }
}

/// A number or identifier masked: its first `keep` bytes, then the counter
/// padded with zeros to the number of bytes that remain.
pub open spec fn masked(v: Seq<char>, keep: nat, idx: nat) -> Seq<char> {
    let rest: nat = if utf8_len(v) > keep {
        (utf8_len(v) - keep) as nat
    } else {
        0
    };
    v.take(chars_within(v, keep) as int) + zero_pad(decimal(idx), rest)
}

/// What the first pass over the lines has gathered.
pub struct AnonState {
    pub fio: Entries<Seq<char>>,
    pub account: Entries<Seq<char>>,
    pub id: Entries<Seq<char>>,
    pub purpose: Entries<Seq<char>>,
    pub payer_num: nat,
    pub payee_num: nat,
    pub fio_idx: nat,
    pub purpose_idx: nat,
    pub account_idx: nat,
    pub id_idx: nat,
    /// The lines that stay in the output.
    pub kept: Seq<Seq<char>>,
    /// Some value was cut inside a character.
    pub fault: bool,
}

pub open spec fn anon_init() -> AnonState {
    AnonState {
        fio: Seq::empty(),
        account: Seq::empty(),
        id: Seq::empty(),
        purpose: Seq::empty(),
        payer_num: 1,
        payee_num: 1,
        fio_idx: 0,
        purpose_idx: 0,
        account_idx: 1,
        id_idx: 1,
        kept: Seq::empty(),
        fault: false,
    }
}

pub open spec fn is_payer_key(k: Seq<char>) -> bool {
    k == "Плательщик"@ || k == "Плательщик1"@
}

pub open spec fn is_payee_key(k: Seq<char>) -> bool {
    k == "Получатель"@ || k == "Получатель1"@
}

pub open spec fn is_account_key(k: Seq<char>) -> bool {
    contains_text(k, "Счет"@) || contains_text(k, "Корсчет"@)
}

pub open spec fn is_id_key(k: Seq<char>) -> bool {
    contains_text(k, "ИНН"@) || contains_text(k, "КПП"@)
}

/// What `str::to_lowercase` gives for a text.
pub uninterp spec fn lowercase(s: Seq<char>) -> Seq<char>;

/// Calls `str::to_lowercase`. Claimed: the result is `lowercase` of the text.
#[verifier::external_body]
fn to_lowercase(s: &str) -> (r: String)
    ensures
        r@ == lowercase(s@),
{
    s.to_lowercase()
}

pub open spec fn is_purpose_key(k: Seq<char>) -> bool {
    let l = lowercase(k);
    contains_text(l, "purpose"@) || contains_text(l, "назначение"@) || contains_text(
        l,
        "description"@,
    )
}

/// The first pass over one line: a new value of a payer or payee, an
/// account number, a tax identifier or a purpose gets its replacement.
/// A payer or payee beyond the templates gets a numbered name, and its line
/// is left out.
pub open spec fn collect_line(st: AnonState, line: Seq<char>) -> AnonState {
    let kept = AnonState { kept: st.kept.push(line), ..st };
    match split_once(line, '=') {
        None => kept,
        Some((key, raw)) => {
            let value = trim(raw);
            let tk = trim(key);
            if is_payer_key(tk) && entries_get(st.fio, value) is None {
                if st.fio_idx < 10 {
                    AnonState {
                        fio: entries_insert(st.fio, value, fio_template(st.fio_idx)),
                        fio_idx: st.fio_idx + 1,
                        ..kept
                    }
                } else {
                    AnonState {
                        fio: entries_insert(st.fio, value, "Плательщик_"@ + decimal(st.payer_num)),
                        payer_num: st.payer_num + 1,
                        fio_idx: st.fio_idx + 1,
                        ..st
                    }
                }
            } else if is_payee_key(tk) && entries_get(st.fio, value) is None {
                if st.fio_idx < 10 {
                    AnonState {
                        fio: entries_insert(st.fio, value, fio_template(st.fio_idx)),
                        fio_idx: st.fio_idx + 1,
                        ..kept
                    }
                } else {
                    AnonState {
                        fio: entries_insert(st.fio, value, "Получатель_"@ + decimal(st.payee_num)),
                        payee_num: st.payee_num + 1,
                        fio_idx: st.fio_idx + 1,
                        ..st
                    }
                }
            } else if contains_text(key, "Счет"@) || (contains_text(key, "Корсчет"@) && entries_get(
                st.account,
                value,
            ) is None) {
                AnonState {
                    account: entries_insert(st.account, value, masked(value, 5, st.account_idx)),
                    account_idx: st.account_idx + 1,
                    fault: st.fault || !byte_prefix_ok(value, 5),
                    ..kept
                }
            } else if contains_text(key, "ИНН"@) || (contains_text(key, "КПП"@) && entries_get(
                st.id,
                value,
            ) is None) {
                AnonState {
                    id: entries_insert(st.id, value, masked(value, 2, st.id_idx)),
                    id_idx: st.id_idx + 1,
                    fault: st.fault || !byte_prefix_ok(value, 2),
                    ..kept
                }
            } else if is_purpose_key(key) && entries_get(st.purpose, value) is None {
                AnonState {
                    purpose: entries_insert(
                        st.purpose,
                        value,
                        purpose_template(st.purpose_idx % 10),
                    ),
                    purpose_idx: st.purpose_idx + 1,
                    ..kept
                }
            } else {
                kept
            }
        },
    }
}

/// The first pass over all lines.
pub open spec fn collect(ls: Seq<Seq<char>>) -> AnonState
    decreases ls.len(),
{
    if ls.len() == 0 {
        anon_init()
    } else {
        collect_line(collect(ls.drop_last()), ls.last())
    }
}

pub open spec fn get_or(m: Entries<Seq<char>>, v: Seq<char>) -> Seq<char> {
    match entries_get(m, v) {
        Some(r) => r,
        None => v,
    }
}

/// The kinds of attribute keys whose values are replaced.
pub enum KeyKind {
    /// A payer or a payee.
    Name,
    /// An account number.
    Account,
    /// A tax identifier.
    Id,
    /// Anything else: a purpose where the value is a known one.
    Other,
}

pub open spec fn key_kind(key: Seq<char>) -> KeyKind {
    if is_payer_key(trim(key)) || is_payee_key(trim(key)) {
        KeyKind::Name
    } else if is_account_key(key) {
        KeyKind::Account
    } else if is_id_key(key) {
        KeyKind::Id
    } else {
        KeyKind::Other
    }
}

/// What a value under a key of the given kind becomes.
pub open spec fn replacement(kind: KeyKind, value: Seq<char>, st: AnonState) -> Seq<char> {
    match kind {
        KeyKind::Name => get_or(st.fio, value),
        KeyKind::Account => get_or(st.account, value),
        KeyKind::Id => get_or(st.id, value),
        KeyKind::Other => get_or(st.purpose, value),
    }
}

/// The second pass over a kept line: the trimmed value of an attribute
/// replaced by what the first pass gathered for its kind of key.
pub open spec fn rewrite(line: Seq<char>, st: AnonState) -> Seq<char> {
    match split_once(line, '=') {
        None => line,
        Some((key, raw)) => key + "="@ + replacement(key_kind(key), trim(raw), st),
    }
}

/// The anonymized text.
pub open spec fn anonymized(input: Seq<char>) -> Seq<char> {
    let st = collect(split_on(input, '\n'));
    join_lines(st.kept.map_values(|l: Seq<char>| rewrite(l, st)))
}

/// The counters of numbered names and masked values fit the signed 32-bit
/// range they are counted in: each stays at most `0x7fff_ffff`.
pub open spec fn counters_fit(st: AnonState) -> bool {
    &&& st.payer_num <= 0x7fff_ffff
    &&& st.payee_num <= 0x7fff_ffff
    &&& st.account_idx <= 0x7fff_ffff
    &&& st.id_idx <= 0x7fff_ffff
}

/// The texts that can be anonymized: no value is cut inside a character,
/// and the counters fit their 32-bit range.
pub open spec fn anonymizable(input: Seq<char>) -> bool {
    let st = collect(split_on(input, '\n'));
    !st.fault && counters_fit(st)
}

type Assoc = Vec<(Vec<char>, Vec<char>)>;

pub open spec fn assoc_view(m: Vec<(Vec<char>, Vec<char>)>) -> Entries<Seq<char>> {
    m@.map_values(|p: (Vec<char>, Vec<char>)| (p.0@, p.1@))
}

fn assoc_find(m: &Assoc, k: &Vec<char>) -> (r: Option<usize>)
    ensures
        r matches Some(i) ==> key_index(assoc_view(*m), k@) == Some(i as int),
        r is None ==> key_index(assoc_view(*m), k@) is None,
{
    let ghost e = assoc_view(*m);
    let mut i: usize = 0;
    while i < m.len()
        invariant
            i <= m.len(),
            e == assoc_view(*m),
            forall|j: int| 0 <= j < i ==> e[j].0 != k@,
        decreases m.len() - i,
    {
        if chars_eq(&m[i].0, k) {
            proof {
                lemma_key_index_at(e, k@, i as int);
            }
            return Some(i);
        }
        i = i + 1;
    }
    proof {
        lemma_key_index(e, k@);
    }
    None
}

fn assoc_get(m: &Assoc, k: &Vec<char>) -> (r: Option<Vec<char>>)
    ensures
        match entries_get(assoc_view(*m), k@) {
            Some(v) => r matches Some(x) && x@ == v,
            None => r is None,
        },
{
    proof {
        lemma_key_index(assoc_view(*m), k@);
    }
    match assoc_find(m, k) {
        Some(i) => {
            assert(key_index(assoc_view(*m), k@) == Some(i as int));
            assert(assoc_view(*m)[i as int].1 == m@[i as int].1@);
            Some(copy_chars(&m[i].1))
        },
        None => None,
    }
}

fn copy_chars(v: &Vec<char>) -> (r: Vec<char>)
    ensures
        r@ == v@,
{
    let mut r: Vec<char> = Vec::new();
    let mut i: usize = 0;
    while i < v.len()
        invariant
            i <= v.len(),
            r@ == v@.take(i as int),
        decreases v.len() - i,
    {
        r.push(v[i]);
        assert(v@.take(i + 1) == v@.take(i as int).push(v@[i as int]));
        i = i + 1;
    }
    assert(v@.take(v.len() as int) == v@);
    r
}

fn assoc_insert(m: &mut Assoc, k: Vec<char>, v: Vec<char>)
    ensures
        assoc_view(*final(m)) == entries_insert(assoc_view(*old(m)), k@, v@),
{
    proof {
        lemma_key_index(assoc_view(*m), k@);
    }
    match assoc_find(m, &k) {
        Some(i) => {
            let ghost before = m@;
            m.set(i, (k, v));
            assert(assoc_view(*m) =~= assoc_view(*old(m)).update(i as int, (k@, v@)));
        },
        None => {
            let ghost before = m@;
            let ghost kv = k@;
            let ghost vv = v@;
            m.push((k, v));
            assert(assoc_view(*m) =~= assoc_view(*old(m)).push((kv, vv)));
        },
    }
}

fn utf8_width_exec(c: char) -> (r: u8)
    ensures
        r as nat == utf8_width(c),
{
    let u = c as u32;
    if u < 0x80 {
        1
    } else if u < 0x800 {
        2
    } else if u < 0x10000 {
        3
    } else {
        4
    }
}

fn utf8_len_exec(v: &Vec<char>) -> (r: u128)
    ensures
        r as nat == utf8_len(v@),
{
    let mut acc: u128 = 0;
    let mut i: usize = 0;
    assert(v@.skip(0) =~= v@);
    while i < v.len()
        invariant
            i <= v.len(),
            acc <= 4 * i,
            utf8_len(v@) == acc + utf8_len(v@.skip(i as int)),
        decreases v.len() - i,
    {
        assert(v@.skip(i as int).drop_first() =~= v@.skip(i + 1));
        acc = acc + utf8_width_exec(v[i]) as u128;
        i = i + 1;
    }
    acc
}

fn digit_exec(d: u128) -> (r: char)
    requires
        d < 10,
    ensures
        r == digit(d as nat),
{
    if d == 0 {
        '0'
    } else if d == 1 {
        '1'
    } else if d == 2 {
        '2'
    } else if d == 3 {
        '3'
    } else if d == 4 {
        '4'
    } else if d == 5 {
        '5'
    } else if d == 6 {
        '6'
    } else if d == 7 {
        '7'
    } else if d == 8 {
        '8'
    } else {
        '9'
    }
}

/// The decimal digits of a number.
fn decimal_exec(n: u128) -> (r: Vec<char>)
    ensures
        r@ == decimal(n as nat),
    decreases n,
{
    if n < 10 {
        let mut r = Vec::new();
        r.push(digit_exec(n));
        assert(r@ =~= seq![digit(n as nat)]);
        r
    } else {
        let mut r = decimal_exec(n / 10);
        r.push(digit_exec(n % 10));
        r
    }
}

/// The masked form of a value, and whether its first `keep` bytes end at a
/// character boundary.
fn mask(v: &Vec<char>, keep: u128, idx: u128) -> (r: (Vec<char>, bool))
    ensures
        r.0@ == masked(v@, keep as nat, idx as nat),
        r.1 == byte_prefix_ok(v@, keep as nat),
{
    let mut i: usize = 0;
    let mut acc: u128 = 0;
    assert(v@.skip(0) =~= v@);
    while i < v.len() && utf8_width_exec(v[i]) as u128 <= keep - acc
        invariant
            i <= v.len(),
            acc <= keep,
            chars_within(v@, keep as nat) == i + chars_within(v@.skip(i as int), (keep - acc) as nat),
            bytes_within(v@, keep as nat) == acc + bytes_within(v@.skip(i as int), (keep - acc) as nat),
        decreases v.len() - i,
    {
        assert(v@.skip(i as int).drop_first() =~= v@.skip(i + 1));
        acc = acc + utf8_width_exec(v[i]) as u128;
        i = i + 1;
    }
    let total = utf8_len_exec(v);
    let rest: u128 = if total > keep {
        total - keep
    } else {
        0
    };
    let digits = decimal_exec(idx);
    let mut out = crate::text::slice_chars(v, 0, i);
    assert(out@ == v@.take(i as int));
    if (digits.len() as u128) < rest {
        let pad = rest - digits.len() as u128;
        let mut k: u128 = 0;
        while k < pad
            invariant
                k <= pad,
                out@ == v@.take(i as int) + Seq::new(k as nat, |j: int| '0'),
            decreases pad - k,
        {
            out.push('0');
            assert(Seq::new((k + 1) as nat, |j: int| '0') =~= Seq::new(k as nat, |j: int| '0').push(
                '0',
            ));
            k = k + 1;
        }
    }
    let ghost before = out@;
    let mut j: usize = 0;
    while j < digits.len()
        invariant
            j <= digits.len(),
            out@ == before + digits@.take(j as int),
        decreases digits.len() - j,
    {
        out.push(digits[j]);
        assert(digits@.take(j + 1) == digits@.take(j as int).push(digits@[j as int]));
        j = j + 1;
    }
    assert(digits@.take(digits.len() as int) == digits@);
    assert(out@ =~= masked(v@, keep as nat, idx as nat));
    (out, total <= keep || acc == keep)
}

fn named(v: &Vec<char>, name: &str) -> (r: bool)
    ensures
        r == (v@ == name@),
{
    chars_eq(v, &chars_of(name))
}

fn has_text(v: &Vec<char>, w: &str) -> (r: bool)
    ensures
        r == contains_text(v@, w@),
{
    contains_chars(v, &chars_of(w))
}

/// What the first pass has gathered so far.
struct Gathered {
    fio: Assoc,
    account: Assoc,
    id: Assoc,
    purpose: Assoc,
    payer_num: u128,
    payee_num: u128,
    fio_idx: usize,
    purpose_idx: usize,
    account_idx: u128,
    id_idx: u128,
    kept: Vec<Vec<char>>,
    fault: bool,
}

impl View for Gathered {
    type V = AnonState;

    closed spec fn view(&self) -> AnonState {
        AnonState {
            fio: assoc_view(self.fio),
            account: assoc_view(self.account),
            id: assoc_view(self.id),
            purpose: assoc_view(self.purpose),
            payer_num: self.payer_num as nat,
            payee_num: self.payee_num as nat,
            fio_idx: self.fio_idx as nat,
            purpose_idx: self.purpose_idx as nat,
            account_idx: self.account_idx as nat,
            id_idx: self.id_idx as nat,
            kept: self.kept@.map_values(|l: Vec<char>| l@),
            fault: self.fault,
        }
    }
}

/// The counters after reading `i` lines: each index has moved at most once
/// per line.
spec fn counters_within(g: AnonState, i: nat) -> bool {
    &&& g.payer_num <= i + 1
    &&& g.payee_num <= i + 1
    &&& g.fio_idx <= i
    &&& g.purpose_idx <= i
    &&& g.account_idx <= i + 1
    &&& g.id_idx <= i + 1
}

fn keep_line(kept: &mut Vec<Vec<char>>, line: &Vec<char>)
    ensures
        final(kept)@.map_values(|l: Vec<char>| l@) == old(kept)@.map_values(|l: Vec<char>| l@).push(
            line@,
        ),
{
    let c = copy_chars(line);
    kept.push(c);
    assert(kept@.map_values(|l: Vec<char>| l@) =~= old(kept)@.map_values(|l: Vec<char>| l@).push(
        line@,
    ));
}

fn is_purpose_key_exec(key: &Vec<char>) -> (r: bool)
    ensures
        r == is_purpose_key(key@),
{
    let k = string_of(key);
    let l = to_lowercase(k.as_str());
    let lc = chars_of(l.as_str());
    has_text(&lc, "purpose") || has_text(&lc, "назначение") || has_text(&lc, "description")
}

fn numbered_name(prefix: &str, n: u128) -> (r: Vec<char>)
    ensures
        r@ == prefix@ + decimal(n as nat),
{
    let mut t = chars_of(prefix);
    let d = decimal_exec(n);
    let mut j: usize = 0;
    let ghost start = t@;
    while j < d.len()
        invariant
            j <= d.len(),
            t@ == start + d@.take(j as int),
        decreases d.len() - j,
    {
        t.push(d[j]);
        assert(d@.take(j + 1) == d@.take(j as int).push(d@[j as int]));
        j = j + 1;
    }
    assert(d@.take(d.len() as int) == d@);
    t
}

fn collect_line_exec(g: &mut Gathered, line: &Vec<char>)
    requires
        old(g)@.fio_idx < usize::MAX,
        old(g)@.purpose_idx < usize::MAX,
        old(g)@.payer_num <= usize::MAX,
        old(g)@.payee_num <= usize::MAX,
        old(g)@.account_idx <= usize::MAX,
        old(g)@.id_idx <= usize::MAX,
    ensures
        final(g)@ == collect_line(old(g)@, line@),
        final(g).payer_num <= old(g).payer_num + 1,
        final(g).payee_num <= old(g).payee_num + 1,
        final(g).fio_idx <= old(g).fio_idx + 1,
        final(g).purpose_idx <= old(g).purpose_idx + 1,
        final(g).account_idx <= old(g).account_idx + 1,
        final(g).id_idx <= old(g).id_idx + 1,
{
    match split_once_chars(line, '=') {
        None => {
            keep_line(&mut g.kept, line);
        },
        Some((key, raw)) => {
            let value = trim_chars(&raw);
            let tk = trim_chars(&key);
            let payer = named(&tk, "Плательщик") || named(&tk, "Плательщик1");
            let payee = named(&tk, "Получатель") || named(&tk, "Получатель1");
            proof {
                lemma_key_index(assoc_view(g.fio), value@);
                lemma_key_index(assoc_view(g.account), value@);
                lemma_key_index(assoc_view(g.id), value@);
                lemma_key_index(assoc_view(g.purpose), value@);
            }
            if payer && assoc_find(&g.fio, &value).is_none() {
                if g.fio_idx < FIO_TEMPLATE_COUNT {
                    let t = chars_of(fio_template_exec(g.fio_idx));
                    assoc_insert(&mut g.fio, value, t);
                    g.fio_idx = g.fio_idx + 1;
                    keep_line(&mut g.kept, line);
                } else {
                    let t = numbered_name("Плательщик_", g.payer_num);
                    assoc_insert(&mut g.fio, value, t);
                    g.payer_num = g.payer_num + 1;
                    g.fio_idx = g.fio_idx + 1;
                }
            } else if payee && assoc_find(&g.fio, &value).is_none() {
                if g.fio_idx < FIO_TEMPLATE_COUNT {
                    let t = chars_of(fio_template_exec(g.fio_idx));
                    assoc_insert(&mut g.fio, value, t);
                    g.fio_idx = g.fio_idx + 1;
                    keep_line(&mut g.kept, line);
                } else {
                    let t = numbered_name("Получатель_", g.payee_num);
                    assoc_insert(&mut g.fio, value, t);
                    g.payee_num = g.payee_num + 1;
                    g.fio_idx = g.fio_idx + 1;
                }
            } else if has_text(&key, "Счет") || (has_text(&key, "Корсчет") && assoc_find(
                &g.account,
                &value,
            ).is_none()) {
                let (m, ok) = mask(&value, 5, g.account_idx);
                assoc_insert(&mut g.account, value, m);
                g.account_idx = g.account_idx + 1;
                g.fault = g.fault || !ok;
                keep_line(&mut g.kept, line);
            } else if has_text(&key, "ИНН") || (has_text(&key, "КПП") && assoc_find(
                &g.id,
                &value,
            ).is_none()) {
                let (m, ok) = mask(&value, 2, g.id_idx);
                assoc_insert(&mut g.id, value, m);
                g.id_idx = g.id_idx + 1;
                g.fault = g.fault || !ok;
                keep_line(&mut g.kept, line);
            } else if is_purpose_key_exec(&key) && assoc_find(&g.purpose, &value).is_none() {
                let t = chars_of(purpose_template_exec(g.purpose_idx % PURPOSE_TEMPLATE_COUNT));
                assoc_insert(&mut g.purpose, value, t);
                g.purpose_idx = g.purpose_idx + 1;
                keep_line(&mut g.kept, line);
            } else {
                keep_line(&mut g.kept, line);
            }
        },
    }
}

fn collect_exec(lines: &Vec<Vec<char>>) -> (g: Gathered)
    ensures
        g@ == collect(lines@.map_values(|l: Vec<char>| l@)),
{
    let ghost ls = lines@.map_values(|l: Vec<char>| l@);
    let mut g = Gathered {
        fio: Vec::new(),
        account: Vec::new(),
        id: Vec::new(),
        purpose: Vec::new(),
        payer_num: 1,
        payee_num: 1,
        fio_idx: 0,
        purpose_idx: 0,
        account_idx: 1,
        id_idx: 1,
        kept: Vec::new(),
        fault: false,
    };
    assert(assoc_view(g.fio) =~= Seq::<(Seq<char>, Seq<char>)>::empty());
    assert(assoc_view(g.account) =~= Seq::<(Seq<char>, Seq<char>)>::empty());
    assert(assoc_view(g.id) =~= Seq::<(Seq<char>, Seq<char>)>::empty());
    assert(assoc_view(g.purpose) =~= Seq::<(Seq<char>, Seq<char>)>::empty());
    assert(g.kept@.map_values(|l: Vec<char>| l@) =~= Seq::<Seq<char>>::empty());
    assert(g@ == anon_init());
    assert(ls.take(0) =~= Seq::<Seq<char>>::empty());
    let mut i: usize = 0;
    while i < lines.len()
        invariant
            i <= lines.len(),
            ls == lines@.map_values(|l: Vec<char>| l@),
            g@ == collect(ls.take(i as int)),
            counters_within(g@, i as nat),
        decreases lines.len() - i,
    {
        assert(ls.take(i + 1).drop_last() =~= ls.take(i as int));
        assert(ls.take(i + 1).last() == lines@[i as int]@);
        collect_line_exec(&mut g, &lines[i]);
        i = i + 1;
    }
    assert(ls.take(lines.len() as int) =~= ls);
    g
}

fn get_or_exec(m: &Assoc, v: &Vec<char>) -> (r: Vec<char>)
    ensures
        r@ == get_or(assoc_view(*m), v@),
{
    match assoc_get(m, v) {
        Some(x) => x,
        None => copy_chars(v),
    }
}

fn rewrite_exec(line: &Vec<char>, g: &Gathered) -> (r: Vec<char>)
    ensures
        r@ == rewrite(line@, g@),
{
    match split_once_chars(line, '=') {
        None => copy_chars(line),
        Some((key, raw)) => {
            let value = trim_chars(&raw);
            let tk = trim_chars(&key);
            let nv = if named(&tk, "Плательщик") || named(&tk, "Плательщик1") || named(
                &tk,
                "Получатель",
            ) || named(&tk, "Получатель1") {
                get_or_exec(&g.fio, &value)
            } else if has_text(&key, "Счет") || has_text(&key, "Корсчет") {
                get_or_exec(&g.account, &value)
            } else if has_text(&key, "ИНН") || has_text(&key, "КПП") {
                get_or_exec(&g.id, &value)
            } else {
                get_or_exec(&g.purpose, &value)
            };
            let mut out = copy_chars(&key);
            out.push('=');
            let ghost before = out@;
            let mut j: usize = 0;
            while j < nv.len()
                invariant
                    j <= nv.len(),
                    out@ == before + nv@.take(j as int),
                decreases nv.len() - j,
            {
                out.push(nv[j]);
                assert(nv@.take(j + 1) == nv@.take(j as int).push(nv@[j as int]));
                j = j + 1;
            }
            assert(nv@.take(nv.len() as int) == nv@);
            assert(out@ =~= key@ + "="@ + nv@) by {
                reveal_strlit("=");
            }
            out
        },
    }
}

/// Whether the text can be anonymized: no value is cut inside a character,
/// and the counters stay within their 32-bit range.
pub fn can_anonymize(input: &str) -> (r: bool)
    ensures
        r == anonymizable(input@),
{
    let chars = chars_of(input);
    let lines = split_on_chars(&chars, '\n');
    let g = collect_exec(&lines);
    !g.fault && g.payer_num <= 0x7fff_ffff && g.payee_num <= 0x7fff_ffff && g.account_idx
        <= 0x7fff_ffff && g.id_idx <= 0x7fff_ffff
}

/// Anonymizes a statement text: the values of payers and payees, account
/// numbers, tax identifiers and purposes are replaced, equal values alike.
pub fn anonymize_str(input: &str) -> (r: String)
    requires
        anonymizable(input@),
    ensures
        r@ == anonymized(input@),
{
    let chars = chars_of(input);
    let lines = split_on_chars(&chars, '\n');
    let g = collect_exec(&lines);
    let ghost st = g@;
    let ghost outs = st.kept.map_values(|l: Seq<char>| rewrite(l, st));
    let mut out = String::new();
    let mut i: usize = 0;
    assert(outs.take(0) =~= Seq::<Seq<char>>::empty());
    while i < g.kept.len()
        invariant
            i <= g.kept.len(),
            st == g@,
            outs == st.kept.map_values(|l: Seq<char>| rewrite(l, st)),
            outs.len() == g.kept.len(),
            out@ == join_lines(outs.take(i as int)),
        decreases g.kept.len() - i,
    {
        let l = rewrite_exec(&g.kept[i], &g);
        assert(l@ == outs[i as int]);
        assert(outs.take(i + 1).drop_last() =~= outs.take(i as int));
        if i > 0 {
            let mut nl: Vec<char> = Vec::new();
            nl.push('\n');
            assert(nl@ =~= seq!['\n']);
            push_chars(&mut out, &nl);
        } else {
            assert(outs.take(0) =~= Seq::<Seq<char>>::empty());
        }
        push_chars(&mut out, &l);
        i = i + 1;
    }
    assert(outs.take(g.kept.len() as int) =~= outs);
    out
}

/// Lines without `=` are all kept by the first pass.
proof fn lemma_collect_plain(ls: Seq<Seq<char>>)
    requires
        forall|k: int, i: int| 0 <= k < ls.len() && 0 <= i < ls[k].len() ==> #[trigger] ls[k][i] != '=',
    ensures
        collect(ls).kept == ls,
    decreases ls.len(),
{
    if ls.len() > 0 {
        lemma_collect_plain(ls.drop_last());
        let l = ls.last();
        assert forall|i: int| 0 <= i < l.len() implies l[i] != '=' by {
            assert(l[i] == ls[ls.len() - 1][i]);
        }
        crate::text::lemma_find_char_none(l, '=');
        assert(ls.drop_last().push(l) =~= ls);
    }
}

/// A text without attributes (no `=` anywhere) comes out of anonymization
/// unchanged.
pub proof fn lemma_anonymize_plain_text(input: Seq<char>)
    requires
        forall|i: int| 0 <= i < input.len() ==> input[i] != '=',
    ensures
        anonymized(input) == input,
{
    let ls = split_on(input, '\n');
    crate::text::lemma_split_pieces(input, '\n', '=');
    lemma_collect_plain(ls);
    let st = collect(ls);
    assert forall|k: int| 0 <= k < ls.len() implies rewrite(ls[k], st) == ls[k] by {
        assert forall|i: int| 0 <= i < ls[k].len() implies ls[k][i] != '=' by {
            assert(ls[k][i] == split_on(input, '\n')[k][i]);
        }
        crate::text::lemma_find_char_none(ls[k], '=');
    }
    assert(st.kept.map_values(|l: Seq<char>| rewrite(l, st)) =~= ls);
    crate::text::lemma_join_split(input);
}

/// Anonymizes a statement text where it can be anonymized, and gives
/// nothing where it cannot.
pub fn anonymize_checked(input: &str) -> (r: Option<String>)
    ensures
        anonymizable(input@) ==> (r matches Some(s) && s@ == anonymized(input@)),
        !anonymizable(input@) ==> r is None,
{
    if can_anonymize(input) {
        Some(anonymize_str(input))
    } else {
        None
    }
}

/// Anonymization is consistent: two kept attribute lines whose keys are of
/// the same kind and whose trimmed values are equal come out with the same
/// value, each under its own key.
pub proof fn lemma_anonymize_consistent(input: Seq<char>, i: int, j: int)
    requires
        0 <= i < collect(split_on(input, '\n')).kept.len(),
        0 <= j < collect(split_on(input, '\n')).kept.len(),
        split_once(collect(split_on(input, '\n')).kept[i], '=') is Some,
        split_once(collect(split_on(input, '\n')).kept[j], '=') is Some,
        ({
            let st = collect(split_on(input, '\n'));
            let (k1, r1) = split_once(st.kept[i], '=')->0;
            let (k2, r2) = split_once(st.kept[j], '=')->0;
            key_kind(k1) == key_kind(k2) && trim(r1) == trim(r2)
        }),
    ensures
        ({
            let st = collect(split_on(input, '\n'));
            let outs = st.kept.map_values(|l: Seq<char>| rewrite(l, st));
            let (k1, r1) = split_once(st.kept[i], '=')->0;
            let (k2, r2) = split_once(st.kept[j], '=')->0;
            let x = replacement(key_kind(k1), trim(r1), st);
            outs[i] == k1 + "="@ + x && outs[j] == k2 + "="@ + x
        }),
{
}

/// Every character of the text is ASCII.
pub open spec fn is_ascii_text(s: Seq<char>) -> bool {
    forall|i: int| 0 <= i < s.len() ==> (s[i] as u32) < 0x80
}

proof fn lemma_ascii_widths(s: Seq<char>, n: nat)
    requires
        is_ascii_text(s),
    ensures
        utf8_len(s) == s.len(),
        chars_within(s, n) == (if n <= s.len() { n } else { s.len() }),
    decreases s.len(),
{
    if s.len() > 0 {
        assert forall|i: int| 0 <= i < s.drop_first().len() implies (s.drop_first()[i] as u32) < 0x80 by {
            assert(s.drop_first()[i] == s[i + 1]);
        }
        assert((s[0] as u32) < 0x80);
        if n >= 1 {
            lemma_ascii_widths(s.drop_first(), (n - 1) as nat);
        } else {
            lemma_ascii_widths(s.drop_first(), 0);
        }
    }
}

/// An ASCII value of at least `keep` characters is masked as its first
/// `keep` characters and the counter padded to the length of the rest.
proof fn lemma_masked_ascii(v: Seq<char>, keep: nat, idx: nat)
    requires
        is_ascii_text(v),
        keep <= v.len(),
    ensures
        masked(v, keep, idx) == v.take(keep as int) + zero_pad(decimal(idx), (v.len() - keep) as nat),
{
    lemma_ascii_widths(v, keep);
}

proof fn lemma_decimal_shape(n: nat)
    ensures
        decimal(n).len() >= 1,
        n >= 10 ==> decimal(n).len() >= 2,
        n >= 1 ==> decimal(n)[0] != '0',
        n < 10 ==> decimal(n) == seq![digit(n)],
        n >= 10 ==> decimal(n) == decimal(n / 10).push(digit(n % 10)),
    decreases n,
{
    if n >= 10 {
        lemma_decimal_shape(n / 10);
    }
}

proof fn lemma_digit_injective(a: nat, b: nat)
    requires
        a < 10,
        b < 10,
        digit(a) == digit(b),
    ensures
        a == b,
{
}

/// Different numbers have different decimal digits.
proof fn lemma_decimal_injective(a: nat, b: nat)
    requires
        decimal(a) == decimal(b),
    ensures
        a == b,
    decreases a,
{
    lemma_decimal_shape(a);
    lemma_decimal_shape(b);
    if a < 10 && b < 10 {
        assert(decimal(a)[0] == digit(a));
        assert(decimal(b)[0] == digit(b));
        lemma_digit_injective(a, b);
    } else if a >= 10 && b >= 10 {
        let da = decimal(a);
        let db = decimal(b);
        assert(da.last() == digit(a % 10));
        assert(db.last() == digit(b % 10));
        lemma_digit_injective(a % 10, b % 10);
        assert(da.drop_last() =~= decimal(a / 10));
        assert(db.drop_last() =~= decimal(b / 10));
        lemma_decimal_injective(a / 10, b / 10);
    }
}

/// Two positive counters padded with zeros give the same text only if they
/// are the same counter.
proof fn lemma_zero_pad_injective(a: nat, b: nat, r1: nat, r2: nat)
    requires
        a >= 1,
        b >= 1,
        zero_pad(decimal(a), r1) == zero_pad(decimal(b), r2),
    ensures
        a == b,
{
    let da = decimal(a);
    let db = decimal(b);
    lemma_decimal_shape(a);
    lemma_decimal_shape(b);
    let za: int = if da.len() >= r1 { 0 } else { r1 - da.len() };
    let zb: int = if db.len() >= r2 { 0 } else { r2 - db.len() };
    let s = zero_pad(da, r1);
    assert(s.len() == za + da.len());
    assert(s =~= Seq::new(za as nat, |i: int| '0') + da);
    assert(s =~= Seq::new(zb as nat, |i: int| '0') + db);
    if za < zb {
        assert(s[za] == da[0]);
    } else if zb < za {
        assert(s[zb] == db[0]);
    } else {
        assert(s.skip(za) =~= da);
        assert(s.skip(zb) =~= db);
        lemma_decimal_injective(a, b);
    }
}

/// The entries of a pseudonym map, each its key masked with its own
/// counter `tag(p)`, at least 1 and below `next`, no two alike.
spec fn tagged_by(e: Entries<Seq<char>>, keep: nat, next: nat, tag: spec_fn(int) -> nat) -> bool {
    &&& forall|p: int|
        0 <= p < e.len() ==> 1 <= #[trigger] tag(p) < next && e[p].1 == masked(e[p].0, keep, tag(p))
    &&& forall|p: int, q: int| 0 <= p < q < e.len() ==> #[trigger] tag(p) != #[trigger] tag(q)
}

spec fn tagged(e: Entries<Seq<char>>, keep: nat, next: nat) -> bool {
    exists|tag: spec_fn(int) -> nat| tagged_by(e, keep, next, tag)
}

proof fn lemma_tagged_insert(e: Entries<Seq<char>>, keep: nat, next: nat, k: Seq<char>)
    requires
        tagged(e, keep, next),
        next >= 1,
    ensures
        tagged(entries_insert(e, k, masked(k, keep, next)), keep, next + 1),
{
    let tag = choose|tag: spec_fn(int) -> nat| tagged_by(e, keep, next, tag);
    lemma_key_index(e, k);
    let at: int = match key_index(e, k) {
        Some(i) => i,
        None => e.len() as int,
    };
    let tag2 = |p: int| if p == at { next } else { tag(p) };
    let e2 = entries_insert(e, k, masked(k, keep, next));
    assert forall|p: int| 0 <= p < e2.len() implies 1 <= #[trigger] tag2(p) < next + 1 && e2[p].1
        == masked(e2[p].0, keep, tag2(p)) by {
        if p != at {
            assert(tag2(p) == tag(p));
        }
    }
    assert forall|p: int, q: int| 0 <= p < q < e2.len() implies #[trigger] tag2(p) != #[trigger] tag2(q) by {
        if p != at && q != at {
            assert(tag(p) != tag(q));
        } else if p == at {
            assert(tag2(q) == tag(q));
        } else {
            assert(tag2(p) == tag(p));
        }
    }
    assert(tagged_by(e2, keep, next + 1, tag2));
}

/// Each kept attribute line of an account or tax-identifier key has its
/// trimmed value in the map of its kind.
spec fn kept_keyed(st: AnonState) -> bool {
    forall|i: int|
        #![trigger st.kept[i]]
        0 <= i < st.kept.len() ==> match split_once(st.kept[i], '=') {
            Some((k, r)) => (key_kind(k) is Account ==> entries_get(st.account, trim(r)) is Some) && (
            key_kind(k) is Id ==> entries_get(st.id, trim(r)) is Some),
            None => true,
        }
}

proof fn lemma_get_stays(e: Entries<Seq<char>>, k: Seq<char>, v: Seq<char>, k2: Seq<char>)
    requires
        entries_get(e, k2) is Some,
    ensures
        entries_get(entries_insert(e, k, v), k2) is Some,
{
    lemma_insert_get(e, k, v, k2);
}

/// What the first pass keeps: the pseudonym maps are tagged, and the values
/// of kept account and tax-identifier lines are in them.
proof fn lemma_collect_pseudonyms(ls: Seq<Seq<char>>)
    ensures
        collect(ls).account_idx >= 1,
        collect(ls).id_idx >= 1,
        tagged(collect(ls).account, 5, collect(ls).account_idx),
        tagged(collect(ls).id, 2, collect(ls).id_idx),
        kept_keyed(collect(ls)),
    decreases ls.len(),
{
    if ls.len() == 0 {
        let none = |p: int| 0nat;
        assert(tagged_by(Seq::<(Seq<char>, Seq<char>)>::empty(), 5, 1, none));
        assert(tagged_by(Seq::<(Seq<char>, Seq<char>)>::empty(), 2, 1, none));
    } else {
        lemma_collect_pseudonyms(ls.drop_last());
        let st = collect(ls.drop_last());
        let line = ls.last();
        let st2 = collect(ls);
        assert(st2 == collect_line(st, line));
        match split_once(line, '=') {
            None => {
                assert forall|i: int| 0 <= i < st2.kept.len() implies match split_once(
                    #[trigger] st2.kept[i],
                    '=',
                ) {
                    Some((k, r)) => (key_kind(k) is Account ==> entries_get(st2.account, trim(r)) is Some)
                        && (key_kind(k) is Id ==> entries_get(st2.id, trim(r)) is Some),
                    None => true,
                } by {
                    if i < st.kept.len() {
                        assert(st2.kept[i] == st.kept[i]);
                    }
                }
            },
            Some((key, raw)) => {
                let value = trim(raw);
                let acct = contains_text(key, "Счет"@) || (contains_text(key, "Корсчет"@)
                    && entries_get(st.account, value) is None);
                let idk = contains_text(key, "ИНН"@) || (contains_text(key, "КПП"@) && entries_get(
                    st.id,
                    value,
                ) is None);
                let name_first = (is_payer_key(trim(key)) || is_payee_key(trim(key)))
                    && entries_get(st.fio, value) is None;
                if !name_first && acct {
                    lemma_tagged_insert(st.account, 5, st.account_idx, value);
                } else if !name_first && idk {
                    lemma_tagged_insert(st.id, 2, st.id_idx, value);
                }
                assert(st2.account == st.account || st2.account == entries_insert(
                    st.account,
                    value,
                    masked(value, 5, st.account_idx),
                ));
                assert(st2.id == st.id || st2.id == entries_insert(st.id, value, masked(value, 2, st.id_idx)));
                assert forall|i: int| 0 <= i < st2.kept.len() implies match split_once(
                    #[trigger] st2.kept[i],
                    '=',
                ) {
                    Some((k, r)) => (key_kind(k) is Account ==> entries_get(st2.account, trim(r)) is Some)
                        && (key_kind(k) is Id ==> entries_get(st2.id, trim(r)) is Some),
                    None => true,
                } by {
                    if i < st.kept.len() {
                        assert(st2.kept[i] == st.kept[i]);
                        if let Some((k, r)) = split_once(st.kept[i], '=') {
                            if key_kind(k) is Account {
                                lemma_get_stays(st.account, value, masked(value, 5, st.account_idx), trim(r));
                            }
                            if key_kind(k) is Id {
                                lemma_get_stays(st.id, value, masked(value, 2, st.id_idx), trim(r));
                            }
                        }
                    } else {
                        assert(st2.kept[i] == line);
                        if key_kind(key) is Account && acct {
                            lemma_insert_get(st.account, value, masked(value, 5, st.account_idx), value);
                        }
                        if key_kind(key) is Id && idk {
                            lemma_insert_get(st.id, value, masked(value, 2, st.id_idx), value);
                        }
                    }
                }
            },
        }
    }
}

/// Pseudonyms are faithful within their class: of two kept lines whose
/// keys are both account keys (or both tax-identifier keys), with ASCII
/// trimmed values of at least 5 (2) characters, the new values are equal
/// exactly when the old ones were, however often each value occurs.
pub proof fn lemma_pseudonyms_faithful(input: Seq<char>, i: int, j: int)
    requires
        0 <= i < collect(split_on(input, '\n')).kept.len(),
        0 <= j < collect(split_on(input, '\n')).kept.len(),
        split_once(collect(split_on(input, '\n')).kept[i], '=') is Some,
        split_once(collect(split_on(input, '\n')).kept[j], '=') is Some,
        ({
            let st = collect(split_on(input, '\n'));
            let (k1, r1) = split_once(st.kept[i], '=')->0;
            let (k2, r2) = split_once(st.kept[j], '=')->0;
            &&& is_ascii_text(trim(r1))
            &&& is_ascii_text(trim(r2))
            &&& ((key_kind(k1) is Account && key_kind(k2) is Account && trim(r1).len() >= 5
                && trim(r2).len() >= 5) || (key_kind(k1) is Id && key_kind(k2) is Id && trim(r1).len()
                >= 2 && trim(r2).len() >= 2))
        }),
    ensures
        ({
            let st = collect(split_on(input, '\n'));
            let outs = st.kept.map_values(|l: Seq<char>| rewrite(l, st));
            let (k1, r1) = split_once(st.kept[i], '=')->0;
            let (k2, r2) = split_once(st.kept[j], '=')->0;
            let x1 = replacement(key_kind(k1), trim(r1), st);
            let x2 = replacement(key_kind(k2), trim(r2), st);
            &&& outs[i] == k1 + "="@ + x1
            &&& outs[j] == k2 + "="@ + x2
            &&& (x1 == x2 <==> trim(r1) == trim(r2))
        }),
{
    let ls = split_on(input, '\n');
    let st = collect(ls);
    lemma_collect_pseudonyms(ls);
    let (k1, r1) = split_once(st.kept[i], '=')->0;
    let (k2, r2) = split_once(st.kept[j], '=')->0;
    let v1 = trim(r1);
    let v2 = trim(r2);
    let keep: nat = if key_kind(k1) is Account { 5 } else { 2 };
    let m = if key_kind(k1) is Account { st.account } else { st.id };
    let next = if key_kind(k1) is Account { st.account_idx } else { st.id_idx };
    assert(tagged(m, keep, next));
    let tag = choose|tag: spec_fn(int) -> nat| tagged_by(m, keep, next, tag);
    assert(entries_get(m, v1) is Some && entries_get(m, v2) is Some);
    if v1 != v2 {
        lemma_key_index(m, v1);
        lemma_key_index(m, v2);
        let p = key_index(m, v1)->0;
        let q = key_index(m, v2)->0;
        assert(p != q);
        if p < q {
            assert(tag(p) != tag(q));
        } else {
            assert(tag(q) != tag(p));
        }
        let x1 = m[p].1;
        let x2 = m[q].1;
        assert(x1 == masked(v1, keep, tag(p)));
        assert(x2 == masked(v2, keep, tag(q)));
        lemma_masked_ascii(v1, keep, tag(p));
        lemma_masked_ascii(v2, keep, tag(q));
        if x1 == x2 {
            assert(x1.skip(keep as int) =~= zero_pad(decimal(tag(p)), (v1.len() - keep) as nat));
            assert(x2.skip(keep as int) =~= zero_pad(decimal(tag(q)), (v2.len() - keep) as nat));
            lemma_zero_pad_injective(tag(p), tag(q), (v1.len() - keep) as nat, (v2.len() - keep) as nat);
        }
    }
}

/// The key of a payer or payee line holds none of the words that mark
/// account numbers and tax identifiers.
proof fn lemma_name_key_words(key: Seq<char>)
    requires
        is_payer_key(trim(key)) || is_payee_key(trim(key)),
    ensures
        !contains_text(key, "Счет"@),
        !contains_text(key, "Корсчет"@),
        !contains_text(key, "ИНН"@),
        !contains_text(key, "КПП"@),
{
    reveal_strlit("Плательщик");
    reveal_strlit("Плательщик1");
    reveal_strlit("Получатель");
    reveal_strlit("Получатель1");
    reveal_strlit("Счет");
    reveal_strlit("Корсчет");
    reveal_strlit("ИНН");
    reveal_strlit("КПП");
    crate::text::lemma_trim_chars(key);
    let t = trim(key);
    let a = "Счет"@[0];
    let b = "Корсчет"@[0];
    let c = "ИНН"@[0];
    assert(!is_white_space(a) && !is_white_space(b) && !is_white_space(c));
    assert forall|m: int| 0 <= m < t.len() implies t[m] != a && t[m] != b && t[m] != c by {}
    assert forall|j: int| 0 <= j < key.len() implies key[j] != a && key[j] != b && key[j] != c by {
        if !is_white_space(key[j]) {
            assert(t[j - lead_ws(key)] == key[j]);
        }
    }
    assert forall|i: int| !occurs_at(key, "Счет"@, i) by {
        if occurs_at(key, "Счет"@, i) {
            assert(key.subrange(i, i + 4)[0] == key[i]);
        }
    }
    assert forall|i: int| !occurs_at(key, "Корсчет"@, i) by {
        if occurs_at(key, "Корсчет"@, i) {
            assert(key.subrange(i, i + 7)[0] == key[i]);
        }
    }
    assert forall|i: int| !occurs_at(key, "ИНН"@, i) by {
        if occurs_at(key, "ИНН"@, i) {
            assert(key.subrange(i, i + 3)[0] == key[i]);
        }
    }
    assert forall|i: int| !occurs_at(key, "КПП"@, i) by {
        if occurs_at(key, "КПП"@, i) {
            assert(key.subrange(i, i + 3)[0] == key[i]);
        }
    }
}

/// A payer or payee line: an attribute whose trimmed key is a name key.
pub open spec fn is_name_line(l: Seq<char>) -> bool {
    match split_once(l, '=') {
        Some((k, r)) => is_payer_key(trim(k)) || is_payee_key(trim(k)),
        None => false,
    }
}

/// The trimmed value of an attribute line.
pub open spec fn line_value(l: Seq<char>) -> Seq<char> {
    match split_once(l, '=') {
        Some((k, r)) => trim(r),
        None => l,
    }
}

/// A line with its name, if it is a payer or payee line, renamed by `f`.
pub open spec fn renamed_line(l: Seq<char>, f: spec_fn(Seq<char>) -> Seq<char>) -> Seq<char> {
    if is_name_line(l) {
        (split_once(l, '=')->0).0 + seq!['='] + f(line_value(l))
    } else {
        l
    }
}

/// `f` tells apart the texts that `p` holds of.
pub open spec fn injective_on(f: spec_fn(Seq<char>) -> Seq<char>, p: spec_fn(Seq<char>) -> bool) -> bool {
    forall|x: Seq<char>, y: Seq<char>| #![trigger f(x), f(y)] p(x) && p(y) && f(x) == f(y) ==> x == y
}

spec fn renamed_entries(e: Entries<Seq<char>>, f: spec_fn(Seq<char>) -> Seq<char>) -> Entries<Seq<char>> {
    e.map_values(|q: (Seq<char>, Seq<char>)| (f(q.0), q.1))
}

spec fn keys_hold(e: Entries<Seq<char>>, p: spec_fn(Seq<char>) -> bool) -> bool {
    forall|i: int| 0 <= i < e.len() ==> #[trigger] p(e[i].0)
}

proof fn lemma_renamed_key_index(
    e: Entries<Seq<char>>,
    f: spec_fn(Seq<char>) -> Seq<char>,
    p: spec_fn(Seq<char>) -> bool,
    k: Seq<char>,
)
    requires
        keys_hold(e, p),
        p(k),
        injective_on(f, p),
    ensures
        key_index(renamed_entries(e, f), f(k)) == key_index(e, k),
    decreases e.len(),
{
    if e.len() > 0 {
        let r = renamed_entries(e, f);
        assert(r.drop_first() =~= renamed_entries(e.drop_first(), f));
        assert(p(e[0].0));
        assert forall|i: int| 0 <= i < e.drop_first().len() implies #[trigger] p(e.drop_first()[i].0) by {
            assert(e.drop_first()[i] == e[i + 1]);
            assert(p(e[i + 1].0));
        }
        lemma_renamed_key_index(e.drop_first(), f, p, k);
        assert(r[0].0 == f(e[0].0));
    }
}

proof fn lemma_renamed_get_insert(
    e: Entries<Seq<char>>,
    f: spec_fn(Seq<char>) -> Seq<char>,
    p: spec_fn(Seq<char>) -> bool,
    k: Seq<char>,
    v: Seq<char>,
)
    requires
        keys_hold(e, p),
        p(k),
        injective_on(f, p),
    ensures
        entries_get(renamed_entries(e, f), f(k)) == entries_get(e, k),
        entries_insert(renamed_entries(e, f), f(k), v) == renamed_entries(entries_insert(e, k, v), f),
        keys_hold(entries_insert(e, k, v), p),
{
    lemma_renamed_key_index(e, f, p, k);
    lemma_key_index(e, k);
    let e2 = entries_insert(e, k, v);
    assert(entries_insert(renamed_entries(e, f), f(k), v) =~= renamed_entries(e2, f));
    assert forall|i: int| 0 <= i < e2.len() implies #[trigger] p(e2[i].0) by {
        if i < e.len() && e2[i].0 == e[i].0 {
            assert(p(e[i].0));
        }
    }
}

/// The state gathered from the renamed lines: the names renamed in the map
/// of names and in the kept lines, all else alike.
spec fn renamed_state(st: AnonState, f: spec_fn(Seq<char>) -> Seq<char>) -> AnonState {
    AnonState {
        fio: renamed_entries(st.fio, f),
        kept: st.kept.map_values(|l: Seq<char>| renamed_line(l, f)),
        ..st
    }
}

/// A renamed name line splits at the same place, the new name as its value.
proof fn lemma_renamed_split(l: Seq<char>, f: spec_fn(Seq<char>) -> Seq<char>)
    requires
        is_name_line(l),
        trim(f(line_value(l))) == f(line_value(l)),
    ensures
        split_once(renamed_line(l, f), '=') == Some(((split_once(l, '=')->0).0, f(line_value(l)))),
        is_name_line(renamed_line(l, f)),
        line_value(renamed_line(l, f)) == f(line_value(l)),
{
    crate::text::lemma_find_char(l, '=');
    let i = crate::text::find_char(l, '=')->0;
    let key = (split_once(l, '=')->0).0;
    let l2 = renamed_line(l, f);
    assert(l2 == key + seq!['='] + f(line_value(l)));
    assert(key.len() == i);
    assert forall|j: int| 0 <= j < i implies l2[j] != '=' by {
        assert(l2[j] == l[j]);
    }
    crate::text::lemma_find_char_at(l2, '=', i);
    assert(l2.take(i) =~= key);
    assert(l2.skip(i + 1) =~= f(line_value(l)));
}

/// One step of the first pass on a line and on the line renamed: the two
/// states stay alike but for the renaming.
proof fn lemma_collect_line_renamed(
    st: AnonState,
    line: Seq<char>,
    f: spec_fn(Seq<char>) -> Seq<char>,
    p: spec_fn(Seq<char>) -> bool,
)
    requires
        keys_hold(st.fio, p),
        injective_on(f, p),
        is_name_line(line) ==> p(line_value(line)) && trim(f(line_value(line))) == f(line_value(line))
            && !is_purpose_key((split_once(line, '=')->0).0),
    ensures
        collect_line(renamed_state(st, f), renamed_line(line, f)) == renamed_state(collect_line(st, line), f),
        keys_hold(collect_line(st, line).fio, p),
{
    let g = |l: Seq<char>| renamed_line(l, f);
    let st2 = renamed_state(st, f);
    let next = collect_line(st, line);
    let l2 = renamed_line(line, f);
    assert(st.kept.push(line).map_values(g) =~= st.kept.map_values(g).push(l2));
    if is_name_line(line) {
        let (key, raw) = split_once(line, '=')->0;
        let v = trim(raw);
        lemma_renamed_split(line, f);
        lemma_name_key_words(key);
        let t = if (is_payer_key(trim(key)) || is_payee_key(trim(key))) && entries_get(st.fio, v) is None
            && st.fio_idx < 10 {
            fio_template(st.fio_idx)
        } else if is_payer_key(trim(key)) {
            "Плательщик_"@ + decimal(st.payer_num)
        } else {
            "Получатель_"@ + decimal(st.payee_num)
        };
        lemma_renamed_get_insert(st.fio, f, p, v, t);
        assert(collect_line(st2, l2) =~= renamed_state(next, f));
    } else {
        assert(l2 == line);
        match split_once(line, '=') {
            None => {
                assert(collect_line(st2, l2) =~= renamed_state(next, f));
            },
            Some((key, raw)) => {
                assert(!is_payer_key(trim(key)) && !is_payee_key(trim(key)));
                assert(collect_line(st2, l2) =~= renamed_state(next, f));
            },
        }
    }
}

/// The kept name lines have their names in the map of names, each name one
/// that `p` holds of and that `f` renames to a trimmed text.
spec fn names_kept(st: AnonState, f: spec_fn(Seq<char>) -> Seq<char>, p: spec_fn(Seq<char>) -> bool) -> bool {
    forall|i: int|
        #![trigger st.kept[i]]
        0 <= i < st.kept.len() && is_name_line(st.kept[i]) ==> p(line_value(st.kept[i])) && trim(
            f(line_value(st.kept[i])),
        ) == f(line_value(st.kept[i])) && entries_get(st.fio, line_value(st.kept[i])) is Some
}

proof fn lemma_names_kept_step(
    st: AnonState,
    line: Seq<char>,
    f: spec_fn(Seq<char>) -> Seq<char>,
    p: spec_fn(Seq<char>) -> bool,
)
    requires
        names_kept(st, f, p),
        is_name_line(line) ==> p(line_value(line)) && trim(f(line_value(line))) == f(line_value(line)),
    ensures
        names_kept(collect_line(st, line), f, p),
{
    let next = collect_line(st, line);
    assert forall|i: int| 0 <= i < next.kept.len() && is_name_line(#[trigger] next.kept[i]) implies p(
        line_value(next.kept[i]),
    ) && trim(f(line_value(next.kept[i]))) == f(line_value(next.kept[i])) && entries_get(
        next.fio,
        line_value(next.kept[i]),
    ) is Some by {
        let w = line_value(next.kept[i]);
        if i < st.kept.len() {
            assert(next.kept[i] == st.kept[i]);
            if next.fio != st.fio {
                let v = line_value(line);
                let t = choose|t: Seq<char>| next.fio == entries_insert(st.fio, v, t);
                lemma_insert_get(st.fio, v, t, w);
            }
        } else {
            assert(next.kept[i] == line);
            if next.fio != st.fio {
                let t = choose|t: Seq<char>| next.fio == entries_insert(st.fio, w, t);
                lemma_insert_get(st.fio, w, t, w);
            }
        }
    }
}

/// The first pass on renamed lines gathers the renamed state.
proof fn lemma_collect_renamed(ls: Seq<Seq<char>>, f: spec_fn(Seq<char>) -> Seq<char>, p: spec_fn(Seq<char>) -> bool)
    requires
        injective_on(f, p),
        forall|k: int|
            #![trigger ls[k]]
            0 <= k < ls.len() && is_name_line(ls[k]) ==> p(line_value(ls[k])) && trim(f(line_value(ls[k])))
                == f(line_value(ls[k])) && !is_purpose_key((split_once(ls[k], '=')->0).0),
    ensures
        collect(ls.map_values(|l: Seq<char>| renamed_line(l, f))) == renamed_state(collect(ls), f),
        keys_hold(collect(ls).fio, p),
        names_kept(collect(ls), f, p),
    decreases ls.len(),
{
    let g = |l: Seq<char>| renamed_line(l, f);
    let ls2 = ls.map_values(g);
    if ls.len() == 0 {
        assert(renamed_entries(anon_init().fio, f) =~= anon_init().fio);
        assert(anon_init().kept.map_values(g) =~= anon_init().kept);
        assert(renamed_state(anon_init(), f) == anon_init());
    } else {
        assert(ls2.drop_last() =~= ls.drop_last().map_values(g));
        assert forall|k: int|
            #![trigger ls.drop_last()[k]]
            0 <= k < ls.drop_last().len() && is_name_line(ls.drop_last()[k]) implies p(
            line_value(ls.drop_last()[k]),
        ) && trim(f(line_value(ls.drop_last()[k]))) == f(line_value(ls.drop_last()[k])) && !is_purpose_key(
            (split_once(ls.drop_last()[k], '=')->0).0,
        ) by {
            assert(ls.drop_last()[k] == ls[k]);
        }
        lemma_collect_renamed(ls.drop_last(), f, p);
        assert(ls.last() == ls[ls.len() - 1]);
        lemma_collect_line_renamed(collect(ls.drop_last()), ls.last(), f, p);
        lemma_names_kept_step(collect(ls.drop_last()), ls.last(), f, p);
        assert(ls2.last() == renamed_line(ls.last(), f));
    }
}

/// Anonymization shows of the names of payers and payees only which lines
/// share a name: renaming the names one for one, each new name a trimmed
/// text and every line otherwise left as it is, leaves the anonymized text
/// unchanged. (The keys of name lines are taken not to be purpose keys,
/// which holds of what `str::to_lowercase` gives for them.)
pub proof fn lemma_anonymize_names_hidden(input: Seq<char>, input2: Seq<char>, f: spec_fn(Seq<char>) -> Seq<char>)
    requires
        split_on(input2, '\n') == split_on(input, '\n').map_values(|l: Seq<char>| renamed_line(l, f)),
        forall|a: int, b: int|
            #![trigger split_on(input, '\n')[a], split_on(input, '\n')[b]]
            0 <= a < split_on(input, '\n').len() && 0 <= b < split_on(input, '\n').len() && is_name_line(
                split_on(input, '\n')[a],
            ) && is_name_line(split_on(input, '\n')[b]) && f(line_value(split_on(input, '\n')[a])) == f(
                line_value(split_on(input, '\n')[b]),
            ) ==> line_value(split_on(input, '\n')[a]) == line_value(split_on(input, '\n')[b]),
        forall|a: int|
            #![trigger split_on(input, '\n')[a]]
            0 <= a < split_on(input, '\n').len() && is_name_line(split_on(input, '\n')[a]) ==> trim(
                f(line_value(split_on(input, '\n')[a])),
            ) == f(line_value(split_on(input, '\n')[a])) && !is_purpose_key(
                (split_once(split_on(input, '\n')[a], '=')->0).0,
            ),
    ensures
        anonymized(input2) == anonymized(input),
{
    let ls = split_on(input, '\n');
    let p = |x: Seq<char>| exists|a: int| 0 <= a < ls.len() && is_name_line(ls[a]) && line_value(ls[a]) == x;
    assert forall|x: Seq<char>, y: Seq<char>| #![trigger f(x), f(y)] p(x) && p(y) && f(x) == f(y) implies x
        == y by {
        let a = choose|a: int| 0 <= a < ls.len() && is_name_line(ls[a]) && line_value(ls[a]) == x;
        let b = choose|b: int| 0 <= b < ls.len() && is_name_line(ls[b]) && line_value(ls[b]) == y;
    }
    assert forall|k: int|
        #![trigger ls[k]]
        0 <= k < ls.len() && is_name_line(ls[k]) implies p(line_value(ls[k])) && trim(f(line_value(ls[k])))
        == f(line_value(ls[k])) && !is_purpose_key((split_once(ls[k], '=')->0).0) by {}
    lemma_collect_renamed(ls, f, p);
    let st = collect(ls);
    let st2 = collect(split_on(input2, '\n'));
    assert(st2 == renamed_state(st, f));
    let outs = st.kept.map_values(|l: Seq<char>| rewrite(l, st));
    let outs2 = st2.kept.map_values(|l: Seq<char>| rewrite(l, st2));
    assert forall|i: int| 0 <= i < outs.len() implies outs2[i] == outs[i] by {
        let l = st.kept[i];
        assert(st2.kept[i] == renamed_line(l, f));
        if is_name_line(l) {
            let (key, raw) = split_once(l, '=')->0;
            let v = trim(raw);
            lemma_renamed_split(l, f);
            lemma_renamed_get_insert(st.fio, f, p, v, v);
        }
    }
    assert(outs2 =~= outs);
}

/// Ten to the power `d`.
pub open spec fn pow10(d: nat) -> nat
    decreases d,
{
    if d == 0 {
        1
    } else {
        10 * pow10((d - 1) as nat)
    }
}

/// A decimal digit.
pub open spec fn is_digit(c: char) -> bool {
    '0' <= c <= '9'
}

proof fn lemma_digit_is_digit(d: nat)
    ensures
        is_digit(digit(d)),
{
}

/// A positive number below `10^d` has at most `d` decimal digits, all of
/// them digits.
proof fn lemma_decimal_fits(n: nat, d: nat)
    requires
        1 <= n < pow10(d),
    ensures
        decimal(n).len() <= d,
        forall|i: int| 0 <= i < decimal(n).len() ==> is_digit(#[trigger] decimal(n)[i]),
    decreases n,
{
    lemma_decimal_shape(n);
    if d == 0 {
    } else if n < 10 {
        lemma_digit_is_digit(n);
    } else {
        assert(n / 10 < pow10((d - 1) as nat));
        lemma_decimal_fits(n / 10, (d - 1) as nat);
        lemma_digit_is_digit(n % 10);
        let t = decimal(n / 10);
        assert forall|i: int| 0 <= i < decimal(n).len() implies is_digit(#[trigger] decimal(n)[i]) by {
            if i < t.len() {
                assert(decimal(n)[i] == t[i]);
            }
        }
    }
}

/// The masked form of an ASCII value of at least `keep` characters whose
/// counter has no more digits than the rest of the value: as long as the
/// value, its first `keep` characters kept, the rest digits, not all `0`.
proof fn lemma_masked_shape(v: Seq<char>, keep: nat, idx: nat)
    requires
        is_ascii_text(v),
        keep <= v.len(),
        1 <= idx < pow10((v.len() - keep) as nat),
    ensures
        masked(v, keep, idx).len() == v.len(),
        masked(v, keep, idx).take(keep as int) == v.take(keep as int),
        forall|j: int| keep <= j < v.len() ==> is_digit(#[trigger] masked(v, keep, idx)[j]),
        exists|j: int| keep <= j < v.len() && #[trigger] masked(v, keep, idx)[j] != '0',
{
    let r = (v.len() - keep) as nat;
    lemma_masked_ascii(v, keep, idx);
    lemma_decimal_fits(idx, r);
    lemma_decimal_shape(idx);
    let d = decimal(idx);
    let z = zero_pad(d, r);
    let w = masked(v, keep, idx);
    let zn = (r - d.len()) as nat;
    assert(z =~= Seq::new(zn, |i: int| '0') + d);
    assert(w.take(keep as int) =~= v.take(keep as int));
    assert forall|j: int| keep <= j < v.len() implies is_digit(#[trigger] w[j]) by {
        assert(w[j] == z[j - keep]);
        if j - keep >= zn {
            assert(z[j - keep] == d[j - keep - zn]);
        }
    }
    let at: int = (keep + zn) as int;
    assert(w[at] == z[zn as int]);
    assert(z[zn as int] == d[0]);
}

/// The number of lines whose key marks an account number.
pub open spec fn account_line_count(ls: Seq<Seq<char>>) -> nat
    decreases ls.len(),
{
    if ls.len() == 0 {
        0
    } else {
        account_line_count(ls.drop_last()) + match split_once(ls.last(), '=') {
            Some((k, r)) => if is_account_key(k) { 1nat } else { 0nat },
            None => 0nat,
        }
    }
}

/// The number of lines whose key marks a tax identifier.
pub open spec fn id_line_count(ls: Seq<Seq<char>>) -> nat
    decreases ls.len(),
{
    if ls.len() == 0 {
        0
    } else {
        id_line_count(ls.drop_last()) + match split_once(ls.last(), '=') {
            Some((k, r)) => if is_id_key(k) { 1nat } else { 0nat },
            None => 0nat,
        }
    }
}

/// Each account or tax-identifier counter moves at most once per line of
/// its kind.
proof fn lemma_counters_by_lines(ls: Seq<Seq<char>>)
    ensures
        collect(ls).account_idx <= 1 + account_line_count(ls),
        collect(ls).id_idx <= 1 + id_line_count(ls),
    decreases ls.len(),
{
    if ls.len() > 0 {
        lemma_counters_by_lines(ls.drop_last());
    }
}

/// The masked values of account numbers and tax identifiers: on a kept
/// line whose key marks an account number (a tax identifier), with an ASCII
/// trimmed value of at least 5 (2) characters, where fewer lines of that
/// kind than `10` to the power of the value's length less 5 (2) are read,
/// the new value is as long as the old one, keeps its first 5 (2)
/// characters, and the rest are digits, not all `0`.
pub proof fn lemma_masked_values(input: Seq<char>, i: int)
    requires
        0 <= i < collect(split_on(input, '\n')).kept.len(),
        split_once(collect(split_on(input, '\n')).kept[i], '=') is Some,
        ({
            let ls = split_on(input, '\n');
            let (k, r) = split_once(collect(ls).kept[i], '=')->0;
            &&& is_ascii_text(trim(r))
            &&& ((key_kind(k) is Account && trim(r).len() >= 5 && account_line_count(ls) < pow10(
                (trim(r).len() - 5) as nat,
            )) || (key_kind(k) is Id && trim(r).len() >= 2 && id_line_count(ls) < pow10(
                (trim(r).len() - 2) as nat,
            )))
        }),
    ensures
        ({
            let st = collect(split_on(input, '\n'));
            let outs = st.kept.map_values(|l: Seq<char>| rewrite(l, st));
            let (k, r) = split_once(st.kept[i], '=')->0;
            let v = trim(r);
            let w = replacement(key_kind(k), v, st);
            let keep: int = if key_kind(k) is Account { 5 } else { 2 };
            &&& outs[i] == k + "="@ + w
            &&& w.len() == v.len()
            &&& w.take(keep) == v.take(keep)
            &&& forall|j: int| keep <= j < w.len() ==> is_digit(#[trigger] w[j])
            &&& exists|j: int| keep <= j < w.len() && #[trigger] w[j] != '0'
        }),
{
    let ls = split_on(input, '\n');
    let st = collect(ls);
    lemma_collect_pseudonyms(ls);
    lemma_counters_by_lines(ls);
    let (k, r) = split_once(st.kept[i], '=')->0;
    let v = trim(r);
    let keep: nat = if key_kind(k) is Account { 5 } else { 2 };
    let m = if key_kind(k) is Account { st.account } else { st.id };
    let next = if key_kind(k) is Account { st.account_idx } else { st.id_idx };
    assert(tagged(m, keep, next));
    let tag = choose|tag: spec_fn(int) -> nat| tagged_by(m, keep, next, tag);
    assert(entries_get(m, v) is Some);
    lemma_key_index(m, v);
    let p = key_index(m, v)->0;
    assert(1 <= tag(p) < next);
    assert(m[p].1 == masked(v, keep, tag(p)));
    lemma_masked_shape(v, keep, tag(p));
}

/// `v` is the trimmed value of some line of `ls` whose key is a purpose key.
pub open spec fn purpose_value(ls: Seq<Seq<char>>, v: Seq<char>) -> bool {
    exists|a: int|
        #![trigger ls[a]]
        0 <= a < ls.len() && (split_once(ls[a], '=') matches Some((k, r)) && is_purpose_key(k) && trim(r)
            == v)
}

/// The map of purposes only holds values of purpose lines.
proof fn lemma_purpose_keys(ls: Seq<Seq<char>>)
    ensures
        forall|p: int| 0 <= p < collect(ls).purpose.len() ==> purpose_value(ls, #[trigger] collect(ls).purpose[p].0),
    decreases ls.len(),
{
    if ls.len() > 0 {
        let d = ls.drop_last();
        lemma_purpose_keys(d);
        let st = collect(d);
        let st2 = collect(ls);
        assert forall|p: int| 0 <= p < st2.purpose.len() implies purpose_value(ls, #[trigger] st2.purpose[p].0) by {
            let x = st2.purpose[p].0;
            if p < st.purpose.len() && st2.purpose[p].0 == st.purpose[p].0 {
                assert(purpose_value(d, x));
                let a = choose|a: int|
                    #![trigger d[a]]
                    0 <= a < d.len() && (split_once(d[a], '=') matches Some((k, r)) && is_purpose_key(k)
                        && trim(r) == x);
                assert(d[a] == ls[a]);
            } else {
                if st2.purpose != st.purpose {
                    let (key, raw) = split_once(ls.last(), '=')->0;
                    lemma_key_index(st.purpose, trim(raw));
                    assert(ls[ls.len() - 1] == ls.last());
                }
            }
        }
    }
}

/// Other attribute values: on a kept line whose key is none of the name,
/// account or tax-identifier keys, and whose trimmed value is no purpose
/// line's value, the key stays as it is and the value is only trimmed.
pub proof fn lemma_other_values(input: Seq<char>, i: int)
    requires
        0 <= i < collect(split_on(input, '\n')).kept.len(),
        split_once(collect(split_on(input, '\n')).kept[i], '=') is Some,
        ({
            let (k, r) = split_once(collect(split_on(input, '\n')).kept[i], '=')->0;
            key_kind(k) is Other && !purpose_value(split_on(input, '\n'), trim(r))
        }),
    ensures
        ({
            let st = collect(split_on(input, '\n'));
            let outs = st.kept.map_values(|l: Seq<char>| rewrite(l, st));
            let (k, r) = split_once(st.kept[i], '=')->0;
            outs[i] == k + "="@ + trim(r)
        }),
{
    let ls = split_on(input, '\n');
    let st = collect(ls);
    lemma_purpose_keys(ls);
    let (k, r) = split_once(st.kept[i], '=')->0;
    lemma_key_index(st.purpose, trim(r));
    if key_index(st.purpose, trim(r)) is Some {
        let p = key_index(st.purpose, trim(r))->0;
        assert(purpose_value(ls, st.purpose[p].0));
    }
}

/// Some name of `ns` is `v`.
pub open spec fn name_seen(ns: Seq<(Seq<char>, bool)>, v: Seq<char>) -> bool {
    exists|j: int| 0 <= j < ns.len() && #[trigger] ns[j].0 == v
}

/// The distinct names of the payer and payee lines, in the order in which
/// they first occur, each with whether it first occurs under a payer key.
pub open spec fn name_order(ls: Seq<Seq<char>>) -> Seq<(Seq<char>, bool)>
    decreases ls.len(),
{
    if ls.len() == 0 {
        Seq::empty()
    } else {
        let prev = name_order(ls.drop_last());
        let l = ls.last();
        if is_name_line(l) && !name_seen(prev, line_value(l)) {
            prev.push((line_value(l), is_payer_key(trim((split_once(l, '=')->0).0))))
        } else {
            prev
        }
    }
}

/// How many of the names `lo..hi` first occur under a payer key (`payer`)
/// or under a payee key (`!payer`).
pub open spec fn names_of_kind(ns: Seq<(Seq<char>, bool)>, lo: int, hi: int, payer: bool) -> nat
    decreases hi - lo,
{
    if hi <= lo {
        0
    } else {
        names_of_kind(ns, lo, hi - 1, payer) + if ns[hi - 1].1 == payer { 1nat } else { 0nat }
    }
}

/// The new name of the `j`-th distinct name: the `j`-th template for the
/// first ten, then numbered payer and payee labels, each numbered among the
/// names of its kind after the tenth.
pub open spec fn name_label(ns: Seq<(Seq<char>, bool)>, j: int) -> Seq<char> {
    if j < 10 {
        fio_template(j as nat)
    } else if ns[j].1 {
        "Плательщик_"@ + decimal(1 + names_of_kind(ns, 10, j, true))
    } else {
        "Получатель_"@ + decimal(1 + names_of_kind(ns, 10, j, false))
    }
}

proof fn lemma_names_of_kind_push(ns: Seq<(Seq<char>, bool)>, x: (Seq<char>, bool), lo: int, hi: int, payer: bool)
    requires
        0 <= lo,
        hi <= ns.len(),
    ensures
        names_of_kind(ns.push(x), lo, hi, payer) == names_of_kind(ns, lo, hi, payer),
    decreases hi - lo,
{
    if hi > lo {
        lemma_names_of_kind_push(ns, x, lo, hi - 1, payer);
        assert(ns.push(x)[hi - 1] == ns[hi - 1]);
    }
}

/// What the first pass gathers of names: the map of names holds the names
/// in the order they first occur, each with its label; the counters of
/// numbered labels follow on; every kept name line's name is among them.
spec fn names_follow(st: AnonState, ns: Seq<(Seq<char>, bool)>) -> bool {
    &&& st.fio.len() == ns.len()
    &&& st.fio_idx == ns.len()
    &&& forall|j: int| 0 <= j < ns.len() ==> #[trigger] st.fio[j] == (ns[j].0, name_label(ns, j))
    &&& forall|a: int, b: int| 0 <= a < b < ns.len() ==> #[trigger] ns[a].0 != #[trigger] ns[b].0
    &&& st.payer_num == 1 + names_of_kind(ns, 10, ns.len() as int, true)
    &&& st.payee_num == 1 + names_of_kind(ns, 10, ns.len() as int, false)
    &&& forall|i: int|
        0 <= i < st.kept.len() && is_name_line(#[trigger] st.kept[i]) ==> name_seen(ns, line_value(st.kept[i]))
}

proof fn lemma_collect_names(ls: Seq<Seq<char>>)
    ensures
        names_follow(collect(ls), name_order(ls)),
    decreases ls.len(),
{
    if ls.len() > 0 {
        let d = ls.drop_last();
        lemma_collect_names(d);
        let st = collect(d);
        let ns = name_order(d);
        let st2 = collect(ls);
        let ns2 = name_order(ls);
        let l = ls.last();
        assert(st2 == collect_line(st, l));
        if is_name_line(l) {
            let (key, raw) = split_once(l, '=')->0;
            let v = trim(raw);
            assert(v == line_value(l));
            lemma_key_index(st.fio, v);
            if !name_seen(ns, v) {
                assert(entries_get(st.fio, v) is None);
                let payer = is_payer_key(trim(key));
                assert(ns2 == ns.push((v, payer)));
                let n = ns.len() as int;
                assert forall|j: int| 0 <= j < ns2.len() implies #[trigger] st2.fio[j] == (ns2[j].0, name_label(ns2, j)) by {
                    if j < n {
                        lemma_names_of_kind_push(ns, (v, payer), 10, j, true);
                        lemma_names_of_kind_push(ns, (v, payer), 10, j, false);
                        assert(st2.fio[j] == st.fio[j]);
                    } else {
                        lemma_names_of_kind_push(ns, (v, payer), 10, n, true);
                        lemma_names_of_kind_push(ns, (v, payer), 10, n, false);
                    }
                }
                lemma_names_of_kind_push(ns, (v, payer), 10, n, true);
                lemma_names_of_kind_push(ns, (v, payer), 10, n, false);
                assert forall|a: int, b: int| 0 <= a < b < ns2.len() implies #[trigger] ns2[a].0
                    != #[trigger] ns2[b].0 by {
                    if b == n {
                        assert(ns2[a] == ns[a]);
                    } else {
                        assert(ns2[a] == ns[a] && ns2[b] == ns[b]);
                    }
                }
                assert forall|i: int|
                    0 <= i < st2.kept.len() && is_name_line(#[trigger] st2.kept[i]) implies name_seen(
                    ns2,
                    line_value(st2.kept[i]),
                ) by {
                    if i < st.kept.len() {
                        assert(st2.kept[i] == st.kept[i]);
                        let j = choose|j: int| 0 <= j < ns.len() && #[trigger] ns[j].0 == line_value(st.kept[i]);
                        assert(ns2[j] == ns[j]);
                    } else {
                        assert(ns2[n].0 == v);
                    }
                }
            } else {
                let j0 = choose|j: int| 0 <= j < ns.len() && #[trigger] ns[j].0 == v;
                assert(st.fio[j0].0 == v);
                assert(entries_get(st.fio, v) is Some);
                lemma_name_key_words(key);
                assert forall|i: int|
                    0 <= i < st2.kept.len() && is_name_line(#[trigger] st2.kept[i]) implies name_seen(
                    ns2,
                    line_value(st2.kept[i]),
                ) by {
                    if i < st.kept.len() {
                        assert(st2.kept[i] == st.kept[i]);
                    }
                }
            }
        } else {
            match split_once(l, '=') {
                Some((key, raw)) => {
                    assert(!is_payer_key(trim(key)) && !is_payee_key(trim(key)));
                },
                None => {},
            }
            assert forall|i: int|
                0 <= i < st2.kept.len() && is_name_line(#[trigger] st2.kept[i]) implies name_seen(
                ns2,
                line_value(st2.kept[i]),
            ) by {
                if i < st.kept.len() {
                    assert(st2.kept[i] == st.kept[i]);
                }
            }
        }
    }
}

/// Names get their new names in the order they first occur: the first ten
/// distinct names of payer and payee lines get the templates in order, and
/// those after them numbered payer or payee labels, by the key each first
/// occurs under, numbered from 1 among the names of that kind; every kept
/// name line gets the new name of its name.
pub proof fn lemma_name_labels(input: Seq<char>)
    ensures
        ({
            let ls = split_on(input, '\n');
            let st = collect(ls);
            let ns = name_order(ls);
            let outs = st.kept.map_values(|l: Seq<char>| rewrite(l, st));
            &&& forall|i: int|
                0 <= i < st.kept.len() && is_name_line(#[trigger] st.kept[i]) ==> name_seen(
                    ns,
                    line_value(st.kept[i]),
                )
            &&& forall|i: int, j: int|
                0 <= i < st.kept.len() && is_name_line(#[trigger] st.kept[i]) && 0 <= j < ns.len()
                    && #[trigger] ns[j].0 == line_value(st.kept[i]) ==> outs[i] == (split_once(
                    st.kept[i],
                    '=',
                )->0).0 + "="@ + name_label(ns, j)
        }),
{
    let ls = split_on(input, '\n');
    let st = collect(ls);
    let ns = name_order(ls);
    lemma_collect_names(ls);
    assert forall|i: int, j: int|
        0 <= i < st.kept.len() && is_name_line(#[trigger] st.kept[i]) && 0 <= j < ns.len()
            && #[trigger] ns[j].0 == line_value(st.kept[i]) implies st.kept.map_values(
        |l: Seq<char>| rewrite(l, st),
    )[i] == (split_once(st.kept[i], '=')->0).0 + "="@ + name_label(ns, j) by {
        assert(st.fio[j] == (ns[j].0, name_label(ns, j)));
        assert forall|x: int| 0 <= x < j implies st.fio[x].0 != line_value(st.kept[i]) by {
            assert(st.fio[x] == (ns[x].0, name_label(ns, x)));
            assert(ns[x].0 != ns[j].0);
        }
        lemma_key_index_at(st.fio, line_value(st.kept[i]), j);
    }
}

/// A text that is trimmed and holds no `\n`.
pub open spec fn clean(w: Seq<char>) -> bool {
    is_trimmed(w) && forall|i: int| 0 <= i < w.len() ==> w[i] != '\n'
}

proof fn lemma_templates_clean(i: nat)
    ensures
        clean(fio_template(i)),
        clean(purpose_template(i)),
{
    reveal_strlit("Иванов Иван Иванович");
    reveal_strlit("Петров Петр Петрович");
    reveal_strlit("Сидоров Сидор Сидорович");
    reveal_strlit("Петрова Галина Леонидовна");
    reveal_strlit("Кузнецова Мария Сергеевна");
    reveal_strlit("Смирнов Алексей Алексеевич");
    reveal_strlit("Васильева Ольга Николаевна");
    reveal_strlit("Морозов Дмитрий Сергеевич");
    reveal_strlit("Попова Наталья Владимировна");
    reveal_strlit("Волков Андрей Владимирович");
    reveal_strlit("Оплата по договору");
    reveal_strlit("Перевод средств");
    reveal_strlit("Тестовая операция");
    reveal_strlit("Услуги");
    reveal_strlit("Платеж за услуги");
    reveal_strlit("Погашение задолженности");
    reveal_strlit("Возврат средств");
    reveal_strlit("Тестовый платеж");
    reveal_strlit("Авансовый платеж");
    reveal_strlit("Прочие операции");
    let f = fio_template(i);
    let p = purpose_template(i);
    assert(!is_white_space(f[0]) && !is_white_space(f.last()));
    assert(!is_white_space(p[0]) && !is_white_space(p.last()));
    assert forall|j: int| 0 <= j < f.len() implies f[j] != '\n' by {}
    assert forall|j: int| 0 <= j < p.len() implies p[j] != '\n' by {}
}

proof fn lemma_decimal_digits(n: nat)
    ensures
        decimal(n).len() >= 1,
        forall|i: int| 0 <= i < decimal(n).len() ==> is_digit(#[trigger] decimal(n)[i]),
    decreases n,
{
    lemma_decimal_shape(n);
    if n < 10 {
        lemma_digit_is_digit(n);
    } else {
        lemma_decimal_digits(n / 10);
        lemma_digit_is_digit(n % 10);
        let t = decimal(n / 10);
        assert forall|i: int| 0 <= i < decimal(n).len() implies is_digit(#[trigger] decimal(n)[i]) by {
            if i < t.len() {
                assert(decimal(n)[i] == t[i]);
            }
        }
    }
}

proof fn lemma_label_clean(prefix: Seq<char>, n: nat)
    requires
        prefix.len() > 0,
        !is_white_space(prefix[0]),
        forall|i: int| 0 <= i < prefix.len() ==> prefix[i] != '\n',
    ensures
        clean(prefix + decimal(n)),
{
    lemma_decimal_digits(n);
    let w = prefix + decimal(n);
    assert(w[0] == prefix[0]);
    assert(w.last() == decimal(n).last());
    assert forall|i: int| 0 <= i < w.len() implies w[i] != '\n' by {
        if i >= prefix.len() {
            assert(w[i] == decimal(n)[i - prefix.len()]);
        }
    }
}

proof fn lemma_chars_within_bound(s: Seq<char>, n: nat)
    ensures
        chars_within(s, n) <= s.len(),
    decreases s.len(),
{
    if s.len() > 0 && utf8_width(s[0]) <= n {
        lemma_chars_within_bound(s.drop_first(), (n - utf8_width(s[0])) as nat);
    }
}

proof fn lemma_masked_clean(v: Seq<char>, keep: nat, idx: nat)
    requires
        clean(v),
    ensures
        clean(masked(v, keep, idx)),
{
    lemma_decimal_digits(idx);
    lemma_chars_within_bound(v, keep);
    let c = chars_within(v, keep) as int;
    let d = decimal(idx);
    let rest: nat = if utf8_len(v) > keep { (utf8_len(v) - keep) as nat } else { 0 };
    let z = zero_pad(d, rest);
    let zn: nat = if d.len() >= rest { 0 } else { (rest - d.len()) as nat };
    assert(z =~= Seq::new(zn, |i: int| '0') + d);
    let w = masked(v, keep, idx);
    assert(w == v.take(c) + z);
    assert forall|i: int| 0 <= i < z.len() implies is_digit(#[trigger] z[i]) by {
        if i >= zn {
            assert(z[i] == d[i - zn]);
        }
    }
    assert(w.last() == z.last());
    assert(is_digit(z[z.len() - 1]));
    if c > 0 {
        assert(w[0] == v[0]);
    } else {
        assert(w[0] == z[0]);
    }
    assert forall|i: int| 0 <= i < w.len() implies w[i] != '\n' by {
        if i < c {
            assert(w[i] == v[i]);
        } else {
            assert(w[i] == z[i - c]);
        }
    }
}

spec fn values_clean(e: Entries<Seq<char>>) -> bool {
    forall|p: int| 0 <= p < e.len() ==> clean(#[trigger] e[p].1)
}

proof fn lemma_insert_clean(e: Entries<Seq<char>>, k: Seq<char>, w: Seq<char>)
    requires
        values_clean(e),
        clean(w),
    ensures
        values_clean(entries_insert(e, k, w)),
{
    lemma_key_index(e, k);
    let e2 = entries_insert(e, k, w);
    assert forall|p: int| 0 <= p < e2.len() implies clean(#[trigger] e2[p].1) by {
        if p < e.len() && e2[p] != (k, w) {
            assert(e2[p] == e[p]);
        }
    }
}

/// The trimmed value of a line without `\n` is clean.
proof fn lemma_value_clean(line: Seq<char>)
    requires
        forall|i: int| 0 <= i < line.len() ==> line[i] != '\n',
        split_once(line, '=') is Some,
    ensures
        clean(trim((split_once(line, '=')->0).1)),
{
    crate::text::lemma_find_char(line, '=');
    let r = (split_once(line, '=')->0).1;
    lemma_trim_trimmed(r);
    assert forall|i: int| 0 <= i < trim(r).len() implies trim(r)[i] != '\n' by {
        let j = choose|j: int| 0 <= j < r.len() && #[trigger] trim(r)[i] == r[j];
        assert(r[j] == line[j + (line.len() - r.len())]);
    }
}

/// Every value the first pass gathers is clean.
proof fn lemma_collect_clean(ls: Seq<Seq<char>>)
    requires
        forall|k: int, i: int| 0 <= k < ls.len() && 0 <= i < ls[k].len() ==> #[trigger] ls[k][i] != '\n',
    ensures
        values_clean(collect(ls).fio),
        values_clean(collect(ls).account),
        values_clean(collect(ls).id),
        values_clean(collect(ls).purpose),
    decreases ls.len(),
{
    if ls.len() > 0 {
        let d = ls.drop_last();
        assert forall|k: int, i: int| 0 <= k < d.len() && 0 <= i < d[k].len() implies #[trigger] d[k][i] != '\n' by {
            assert(d[k] == ls[k]);
        }
        lemma_collect_clean(d);
        let st = collect(d);
        let l = ls.last();
        assert(l == ls[ls.len() - 1]);
        if let Some((key, raw)) = split_once(l, '=') {
            let v = trim(raw);
            lemma_value_clean(l);
            reveal_strlit("Плательщик_");
            reveal_strlit("Получатель_");
            lemma_label_clean("Плательщик_"@, st.payer_num);
            lemma_label_clean("Получатель_"@, st.payee_num);
            lemma_templates_clean(st.fio_idx);
            lemma_templates_clean(st.purpose_idx % 10);
            lemma_masked_clean(v, 5, st.account_idx);
            lemma_masked_clean(v, 2, st.id_idx);
            lemma_insert_clean(st.fio, v, fio_template(st.fio_idx));
            lemma_insert_clean(st.fio, v, "Плательщик_"@ + decimal(st.payer_num));
            lemma_insert_clean(st.fio, v, "Получатель_"@ + decimal(st.payee_num));
            lemma_insert_clean(st.account, v, masked(v, 5, st.account_idx));
            lemma_insert_clean(st.id, v, masked(v, 2, st.id_idx));
            lemma_insert_clean(st.purpose, v, purpose_template(st.purpose_idx % 10));
        }
    }
}

/// The kept lines are the lines of the text, in order, `f(i)` the number of
/// kept line `i`; only payer and payee lines are left out.
pub open spec fn kept_from(ls: Seq<Seq<char>>, kept: Seq<Seq<char>>, f: spec_fn(int) -> int) -> bool {
    &&& forall|i: int| 0 <= i < kept.len() ==> 0 <= #[trigger] f(i) < ls.len() && kept[i] == ls[f(i)]
    &&& forall|i: int, j: int| 0 <= i < j < kept.len() ==> #[trigger] f(i) < #[trigger] f(j)
    &&& forall|a: int|
        0 <= a < ls.len() && !(exists|i: int| 0 <= i < kept.len() && #[trigger] f(i) == a) ==> is_name_line(
            #[trigger] ls[a],
        )
}

proof fn lemma_kept_lines(ls: Seq<Seq<char>>)
    ensures
        exists|f: spec_fn(int) -> int| kept_from(ls, collect(ls).kept, f),
        ls.len() >= 1 ==> collect(ls).kept.len() >= 1,
    decreases ls.len(),
{
    if ls.len() == 0 {
        let f = |i: int| 0int;
        assert(kept_from(ls, collect(ls).kept, f));
    } else {
        let d = ls.drop_last();
        lemma_kept_lines(d);
        let st = collect(d);
        let st2 = collect(ls);
        let f = choose|f: spec_fn(int) -> int| kept_from(d, st.kept, f);
        let n = st.kept.len() as int;
        let last = (ls.len() - 1) as int;
        let g = |i: int| if i == n { last } else { f(i) };
        assert(ls.last() == ls[last]);
        if st2.kept.len() > n {
            assert(st2.kept == st.kept.push(ls.last()));
            assert forall|i: int| 0 <= i < st2.kept.len() implies 0 <= #[trigger] g(i) < ls.len() && st2.kept[i]
                == ls[g(i)] by {
                if i < n {
                    assert(d[f(i)] == ls[f(i)]);
                }
            }
            assert forall|i: int, j: int| 0 <= i < j < st2.kept.len() implies #[trigger] g(i) < #[trigger] g(j) by {
                if j < n {
                    assert(f(i) < f(j));
                }
            }
            assert forall|a: int|
                0 <= a < ls.len() && !(exists|i: int| 0 <= i < st2.kept.len() && #[trigger] g(i) == a) implies is_name_line(
                #[trigger] ls[a],
            ) by {
                if a == last {
                    assert(g(n) == a);
                } else {
                    assert(d[a] == ls[a]);
                    if exists|i: int| 0 <= i < st.kept.len() && #[trigger] f(i) == a {
                        let i = choose|i: int| 0 <= i < st.kept.len() && #[trigger] f(i) == a;
                        assert(g(i) == a);
                    }
                }
            }
            assert(kept_from(ls, st2.kept, g));
        } else {
            assert(st2.kept == st.kept);
            assert forall|i: int| 0 <= i < st2.kept.len() implies 0 <= #[trigger] f(i) < ls.len() && st2.kept[i]
                == ls[f(i)] by {
                assert(d[f(i)] == ls[f(i)]);
            }
            assert forall|a: int|
                0 <= a < ls.len() && !(exists|i: int| 0 <= i < st2.kept.len() && #[trigger] f(i) == a) implies is_name_line(
                #[trigger] ls[a],
            ) by {
                if a < last {
                    assert(d[a] == ls[a]);
                }
            }
            assert(kept_from(ls, st2.kept, f));
        }
    }
}

/// The lines of the anonymized text: one for each kept line, in order, the
/// kept lines being the lines of the text with only payer and payee lines
/// left out; a line without `=` comes out unchanged, and an attribute line
/// keeps its key as it is, followed by `=` and its new value, which is
/// trimmed and holds no `\n`.
pub proof fn lemma_line_structure(input: Seq<char>)
    ensures
        ({
            let ls = split_on(input, '\n');
            let st = collect(ls);
            let outs = st.kept.map_values(|l: Seq<char>| rewrite(l, st));
            &&& split_on(anonymized(input), '\n') == outs
            &&& outs.len() == st.kept.len()
            &&& exists|f: spec_fn(int) -> int| kept_from(ls, st.kept, f)
            &&& forall|i: int| 0 <= i < outs.len() && split_once(#[trigger] st.kept[i], '=') is None ==> outs[i] == st.kept[i]
            &&& forall|i: int|
                0 <= i < outs.len() && split_once(#[trigger] st.kept[i], '=') is Some ==> ({
                    let (k, r) = split_once(st.kept[i], '=')->0;
                    let w = replacement(key_kind(k), trim(r), st);
                    outs[i] == k + "="@ + w && clean(w)
                })
        }),
{
    reveal_strlit("=");
    let ls = split_on(input, '\n');
    let st = collect(ls);
    let outs = st.kept.map_values(|l: Seq<char>| rewrite(l, st));
    crate::text::lemma_split_no_sep(input, '\n');
    crate::text::lemma_split_on_len(input, '\n');
    lemma_collect_clean(ls);
    lemma_kept_lines(ls);
    let f = choose|f: spec_fn(int) -> int| kept_from(ls, st.kept, f);
    assert forall|i: int| 0 <= i < outs.len() && split_once(#[trigger] st.kept[i], '=') is Some implies ({
        let (k, r) = split_once(st.kept[i], '=')->0;
        let w = replacement(key_kind(k), trim(r), st);
        outs[i] == k + "="@ + w && clean(w)
    }) by {
        let l = st.kept[i];
        assert(l == ls[f(i)]);
        assert forall|j: int| 0 <= j < l.len() implies l[j] != '\n' by {
            assert(ls[f(i)][j] != '\n');
        }
        lemma_value_clean(l);
        let (k, r) = split_once(l, '=')->0;
        let v = trim(r);
        let m = match key_kind(k) {
            KeyKind::Name => st.fio,
            KeyKind::Account => st.account,
            KeyKind::Id => st.id,
            KeyKind::Other => st.purpose,
        };
        lemma_key_index(m, v);
        if key_index(m, v) is Some {
            let p = key_index(m, v)->0;
            assert(clean(m[p].1));
        }
    }
    assert forall|x: int, j: int| 0 <= x < outs.len() && 0 <= j < outs[x].len() implies #[trigger] outs[x][j]
        != '\n' by {
        let l = st.kept[x];
        assert(l == ls[f(x)]);
        assert(ls[f(x)].len() == l.len());
        crate::text::lemma_find_char(l, '=');
        match split_once(l, '=') {
            None => {
                assert(outs[x][j] == ls[f(x)][j]);
            },
            Some((k, r)) => {
                let w = replacement(key_kind(k), trim(r), st);
                if j < k.len() {
                    assert(outs[x][j] == l[j]);
                    assert(ls[f(x)][j] != '\n');
                } else if j > k.len() {
                    assert(outs[x][j] == w[j - k.len() - 1]);
                }
            },
        }
    }
    crate::text::lemma_split_join(outs);
}

} // verus!
