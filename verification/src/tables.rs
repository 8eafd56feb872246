//! Hash-based count tables and word sets, kept in `rustc_hash` collections.
//!
//! The contents of an `FxHashMap` or `FxHashSet` are not visible to proofs,
//! so each collection is described by a name for what it holds, and every operation
//! the library performs on it goes through one wrapper below whose contract
//! states the operation over that name.

use rustc_hash::{FxBuildHasher, FxHashMap, FxHashSet};
use vstd::prelude::*;

verus! {

/// `rustc_hash::FxBuildHasher`, carried opaquely inside the collections.
#[verifier::external_type_specification]
#[verifier::external_body]
pub struct ExFxBuildHasher(FxBuildHasher);

/// What a count table holds: each key, by its characters, with its count.
pub uninterp spec fn table_contents(m: FxHashMap<String, usize>) -> Map<Seq<char>, nat>;

/// What a word set holds, each word by its characters.
pub uninterp spec fn set_contents(s: FxHashSet<String>) -> Set<Seq<char>>;

/// `FxHashMap::default()`: a new table holds nothing.
#[verifier::external_body]
pub(crate) fn table_new() -> (m: FxHashMap<String, usize>)
    ensures
        table_contents(m).dom() == Set::<Seq<char>>::empty(),
{
    FxHashMap::default()
}

/// `HashMap::get` followed by `copied`: the count stored under `key`, if any.
#[verifier::external_body]
pub(crate) fn table_get(m: &FxHashMap<String, usize>, key: &str) -> (r: Option<usize>)
    ensures
        r is Some <==> table_contents(*m).contains_key(key@),
        r is Some ==> r->0 == table_contents(*m)[key@],
{
    m.get(key).copied()
}

/// `HashMap::insert`: afterwards `key` maps to `value`, every other key is unchanged.
#[verifier::external_body]
pub(crate) fn table_insert(m: &mut FxHashMap<String, usize>, key: String, value: usize)
    ensures
        table_contents(*final(m)) == table_contents(*old(m)).insert(key@, value as nat),
{
    m.insert(key, value);
}

/// `HashMap::len`: the number of keys.
#[verifier::external_body]
pub(crate) fn table_len(m: &FxHashMap<String, usize>) -> (r: usize)
    ensures
        r == table_contents(*m).dom().len(),
{
    m.len()
}

/// `HashMap::iter`, each entry copied out: every key of the table exactly
/// once, with its count, in an order the contract leaves open.
#[verifier::external_body]
pub(crate) fn table_entries(m: &FxHashMap<String, usize>) -> (r: Vec<(String, usize)>)
    ensures
        forall|i: int|
            0 <= i < r@.len() ==> #[trigger] table_contents(*m).contains_key(r@[i].0@)
                && table_contents(*m)[r@[i].0@] == r@[i].1,
        forall|i: int, j: int| 0 <= i < j < r@.len() ==> r@[i].0@ != r@[j].0@,
        forall|k: Seq<char>|
            #[trigger] table_contents(*m).contains_key(k) ==> exists|i: int|
                0 <= i < r@.len() && r@[i].0@ == k,
{
    m.iter().map(|(k, v)| (k.clone(), *v)).collect()
}

/// `FxHashSet::default()`: a new set holds nothing.
#[verifier::external_body]
pub(crate) fn set_new() -> (s: FxHashSet<String>)
    ensures
        set_contents(s) == Set::<Seq<char>>::empty(),
{
    FxHashSet::default()
}

/// `HashSet::insert`: afterwards the set also holds `word`.
#[verifier::external_body]
pub(crate) fn set_insert(s: &mut FxHashSet<String>, word: String)
    ensures
        set_contents(*final(s)) == set_contents(*old(s)).insert(word@),
{
    s.insert(word);
}

/// `HashSet::contains`: whether the set holds `word`.
#[verifier::external_body]
pub(crate) fn set_contains(s: &FxHashSet<String>, word: &str) -> (r: bool)
    ensures
        r == set_contents(*s).contains(word@),
{
    s.contains(word)
}

} // verus!
