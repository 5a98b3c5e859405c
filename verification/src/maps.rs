//! Insertion-ordered maps keyed by text (`indexmap::IndexMap`), seen through
//! the sequence of their entries in order.
use crate::parser::statement::{Account, AccountView};
use indexmap::IndexMap;
use vstd::prelude::*;

verus! {

#[verifier::external_type_specification]
#[verifier::external_body]
#[verifier::reject_recursive_types(K)]
#[verifier::reject_recursive_types(V)]
#[verifier::reject_recursive_types(S)]
pub struct ExIndexMap<K, V, S>(IndexMap<K, V, S>);

/// Entries of a text-keyed map, in order.
pub type Entries<V> = Seq<(Seq<char>, V)>;

/// Position of the entry with key `k`.
pub open spec fn key_index<V>(e: Entries<V>, k: Seq<char>) -> Option<int>
    decreases e.len(),
{
    if e.len() == 0 {
        None
    } else if e[0].0 == k {
        Some(0)
    } else {
        match key_index(e.drop_first(), k) {
            Some(i) => Some(i + 1),
            None => None,
        }
    }
}

/// The value stored under key `k`.
pub open spec fn entries_get<V>(e: Entries<V>, k: Seq<char>) -> Option<V> {
    match key_index(e, k) {
        Some(i) => Some(e[i].1),
        None => None,
    }
}

/// Inserting under a key: an existing entry keeps its place and takes the
/// new value; a new key goes last.
pub open spec fn entries_insert<V>(e: Entries<V>, k: Seq<char>, v: V) -> Entries<V> {
    match key_index(e, k) {
        Some(i) => e.update(i, (k, v)),
        None => e.push((k, v)),
    }
}

/// No key occurs twice.
pub open spec fn unique_keys<V>(e: Entries<V>) -> bool {
    forall|i: int, j: int| 0 <= i < j < e.len() ==> e[i].0 != e[j].0
}

pub proof fn lemma_key_index<V>(e: Entries<V>, k: Seq<char>)
    ensures
        key_index(e, k) matches Some(i) ==> 0 <= i < e.len() && e[i].0 == k && forall|j: int|
            0 <= j < i ==> e[j].0 != k,
        key_index(e, k) is None ==> forall|j: int| 0 <= j < e.len() ==> e[j].0 != k,
    decreases e.len(),
{
    if e.len() > 0 && e[0].0 != k {
        lemma_key_index(e.drop_first(), k);
        assert forall|j: int| 1 <= j < e.len() implies e[j] == e.drop_first()[j - 1] by {}
    }
}

pub proof fn lemma_key_index_at<V>(e: Entries<V>, k: Seq<char>, i: int)
    requires
        0 <= i < e.len(),
        e[i].0 == k,
        forall|j: int| 0 <= j < i ==> e[j].0 != k,
    ensures
        key_index(e, k) == Some(i),
{
    lemma_key_index(e, k);
    match key_index(e, k) {
        Some(x) => {
            if x < i {
            } else if x > i {
            }
        },
        None => {},
    }
}

/// After inserting under a key, the key gives the inserted value, and other
/// keys give what they gave before.
pub proof fn lemma_insert_get<V>(e: Entries<V>, k: Seq<char>, v: V, k2: Seq<char>)
    ensures
        entries_get(entries_insert(e, k, v), k) == Some(v),
        k2 != k ==> entries_get(entries_insert(e, k, v), k2) == entries_get(e, k2),
{
    lemma_key_index(e, k);
    let e2 = entries_insert(e, k, v);
    match key_index(e, k) {
        Some(i) => {
            lemma_key_index_at(e2, k, i);
        },
        None => {
            lemma_key_index_at(e2, k, e.len() as int);
        },
    }
    if k2 != k {
        lemma_key_index(e, k2);
        match key_index(e, k2) {
            Some(j) => {
                lemma_key_index_at(e2, k2, j);
            },
            None => {
                lemma_key_index(e2, k2);
                if key_index(e2, k2) is Some {
                    let j = key_index(e2, k2)->0;
                    if j < e.len() {
                        assert(e2[j].0 == e[j].0 || e2[j].0 == k);
                    }
                }
            },
        }
    }
}

/// Inserting keeps keys unique.
pub proof fn lemma_insert_unique<V>(e: Entries<V>, k: Seq<char>, v: V)
    requires
        unique_keys(e),
    ensures
        unique_keys(entries_insert(e, k, v)),
{
    lemma_key_index(e, k);
}

/// The entries of a map from text to text.
pub uninterp spec fn text_entries(m: IndexMap<String, String>) -> Entries<Seq<char>>;

/// The entries of a map from account number to account.
pub uninterp spec fn account_entries(m: IndexMap<String, Account>) -> Entries<AccountView>;

/// Calls `IndexMap::new`. Claimed: the map has no entries.
#[verifier::external_body]
pub(crate) fn text_map_new() -> (m: IndexMap<String, String>)
    ensures
        text_entries(m) == Seq::<(Seq<char>, Seq<char>)>::empty(),
{
    IndexMap::new()
}

/// Calls `IndexMap::insert`. Claimed: as its documentation says, an
/// existing key keeps its place and takes the new value, a new key goes last.
#[verifier::external_body]
pub(crate) fn text_map_insert(m: &mut IndexMap<String, String>, k: String, v: String)
    ensures
        text_entries(*final(m)) == entries_insert(text_entries(*old(m)), k@, v@),
{
    m.insert(k, v);
}

/// Calls `IndexMap::get`. Claimed: the value stored under the key, if any.
#[verifier::external_body]
pub(crate) fn text_map_get<'a>(m: &'a IndexMap<String, String>, k: &str) -> (r: Option<&'a String>)
    ensures
        match entries_get(text_entries(*m), k@) {
            Some(v) => r matches Some(s) && s@ == v,
            None => r is None,
        },
{
    m.get(k)
}

/// Calls `IndexMap::new`. Claimed: the map has no entries.
#[verifier::external_body]
pub(crate) fn account_map_new() -> (m: IndexMap<String, Account>)
    ensures
        account_entries(m) == Seq::<(Seq<char>, AccountView)>::empty(),
{
    IndexMap::new()
}

/// Calls `IndexMap::insert`. Claimed: as its documentation says, an
/// existing key keeps its place and takes the new value, a new key goes last.
#[verifier::external_body]
pub(crate) fn account_map_insert(m: &mut IndexMap<String, Account>, k: String, v: Account)
    ensures
        account_entries(*final(m)) == entries_insert(account_entries(*old(m)), k@, v@),
{
    m.insert(k, v);
}

/// Calls `IndexMap::get`. Claimed: the value stored under the key, if any.
#[verifier::external_body]
pub(crate) fn account_map_get<'a>(m: &'a IndexMap<String, Account>, k: &str) -> (r: Option<&'a Account>)
    ensures
        match entries_get(account_entries(*m), k@) {
            Some(v) => r matches Some(a) && a@ == v,
            None => r is None,
        },
{
    m.get(k)
}

} // verus!
