//! Lists of pairs of texts, read as maps from the first text to the second:
//! the first pair with a key is the one that counts.

use vstd::prelude::*;
use crate::text::str_eq;

verus! {

/// The views of a list of pairs of texts.
pub open spec fn pairs_view(pairs: Seq<(String, String)>) -> Seq<(Seq<char>, Seq<char>)> {
    pairs.map_values(|pair: (String, String)| (pair.0@, pair.1@))
}

/// A copy of a list of pairs of texts.
pub fn clone_pairs(pairs: &Vec<(String, String)>) -> (r: Vec<(String, String)>)
    ensures
        pairs_view(r@) == pairs_view(pairs@),
{
    let mut r: Vec<(String, String)> = Vec::new();
    let mut i: usize = 0;
    while i < pairs.len()
        invariant
            i <= pairs.len(),
            r.len() == i,
            forall|k: int| 0 <= k < i ==> r@[k].0@ == pairs@[k].0@ && r@[k].1@ == pairs@[k].1@,
        decreases pairs.len() - i,
    {
        r.push((pairs[i].0.clone(), pairs[i].1.clone()));
        i += 1;
    }
    assert(pairs_view(r@) =~= pairs_view(pairs@));
    r
}

/// The place of the first pair with the key `key`, or the number of pairs
/// if none has it.
pub open spec fn pair_index(pairs: Seq<(Seq<char>, Seq<char>)>, key: Seq<char>) -> int
    decreases pairs.len(),
{
    if pairs.len() == 0 || pairs[0].0 == key {
        0
    } else {
        1 + pair_index(pairs.drop_first(), key)
    }
}

/// Where `pair_index` points: behind the pairs with other keys, at the
/// first pair with the key.
pub proof fn lemma_pair_index(pairs: Seq<(Seq<char>, Seq<char>)>, key: Seq<char>)
    ensures
        0 <= pair_index(pairs, key) <= pairs.len(),
        forall|i: int| 0 <= i < pair_index(pairs, key) ==> (#[trigger] pairs[i]).0 != key,
        pair_index(pairs, key) < pairs.len() ==> pairs[pair_index(pairs, key)].0 == key,
    decreases pairs.len(),
{
    if pairs.len() == 0 || pairs[0].0 == key {
    } else {
        let rest = pairs.drop_first();
        lemma_pair_index(rest, key);
        assert forall|i: int| 0 <= i < pair_index(pairs, key) implies (#[trigger] pairs[i]).0
            != key by {
            if i > 0 {
                assert(rest[i - 1] == pairs[i]);
            }
        }
    }
}

/// A place behind pairs with other keys, at which the pairs end or the key
/// stands, is where `pair_index` points.
pub proof fn lemma_pair_index_is(pairs: Seq<(Seq<char>, Seq<char>)>, key: Seq<char>, k: int)
    requires
        0 <= k <= pairs.len(),
        forall|i: int| 0 <= i < k ==> (#[trigger] pairs[i]).0 != key,
        k < pairs.len() ==> pairs[k].0 == key,
    ensures
        pair_index(pairs, key) == k,
{
    lemma_pair_index(pairs, key);
    let f = pair_index(pairs, key);
    if f < k {
        assert(pairs[f].0 != key);
    } else if k < f {
        assert(pairs[k].0 != key);
    }
}

/// `pairs` with `value` under `key`: in place of what `key` had, or behind
/// all pairs if it had nothing.
pub open spec fn put_pair(
    pairs: Seq<(Seq<char>, Seq<char>)>,
    key: Seq<char>,
    value: Seq<char>,
) -> Seq<(Seq<char>, Seq<char>)> {
    let at = pair_index(pairs, key);
    if at < pairs.len() {
        pairs.update(at, (key, value))
    } else {
        pairs.push((key, value))
    }
}

/// Puts `value` under `key`: in place of what `key` had, or behind all
/// pairs if it had nothing.
pub fn set_pair(pairs: &mut Vec<(String, String)>, key: String, value: String)
    ensures
        pairs_view(final(pairs)@) == put_pair(pairs_view(old(pairs)@), key@, value@),
{
    let ghost before = pairs_view(pairs@);
    let mut i: usize = 0;
    while i < pairs.len()
        invariant
            i <= pairs.len(),
            before == pairs_view(pairs@),
            before == pairs_view(old(pairs)@),
            forall|k: int| 0 <= k < i ==> (#[trigger] before[k]).0 != key@,
        decreases pairs.len() - i,
    {
        if str_eq(pairs[i].0.as_str(), key.as_str()) {
            proof {
                lemma_pair_index_is(before, key@, i as int);
            }
            pairs.set(i, (key, value));
            assert(pairs_view(pairs@) =~= before.update(i as int, (key@, value@)));
            return ;
        }
        i += 1;
    }
    proof {
        lemma_pair_index_is(before, key@, i as int);
    }
    pairs.push((key, value));
    assert(pairs_view(pairs@) =~= before.push((key@, value@)));
}

/// What `pairs` hold under `key`.
pub open spec fn pair_value(pairs: Seq<(Seq<char>, Seq<char>)>, key: Seq<char>) -> Option<
    Seq<char>,
> {
    let at = pair_index(pairs, key);
    if at < pairs.len() {
        Some(pairs[at].1)
    } else {
        None
    }
}

/// What `pairs` hold under `key`.
pub fn get_pair<'a>(pairs: &'a Vec<(String, String)>, key: &str) -> (r: Option<&'a String>)
    ensures
        match r {
            Some(value) => pair_value(pairs_view(pairs@), key@) == Some(value@),
            None => pair_value(pairs_view(pairs@), key@) is None,
        },
{
    let ghost all = pairs_view(pairs@);
    let mut i: usize = 0;
    while i < pairs.len()
        invariant
            i <= pairs.len(),
            all == pairs_view(pairs@),
            forall|k: int| 0 <= k < i ==> (#[trigger] all[k]).0 != key@,
        decreases pairs.len() - i,
    {
        if str_eq(pairs[i].0.as_str(), key) {
            proof {
                lemma_pair_index_is(all, key@, i as int);
            }
            return Some(&pairs[i].1);
        }
        i += 1;
    }
    proof {
        lemma_pair_index_is(all, key@, i as int);
    }
    None
}

/// `pairs` without the pairs that have the key `key`.
pub open spec fn without_key(pairs: Seq<(Seq<char>, Seq<char>)>, key: Seq<char>) -> Seq<
    (Seq<char>, Seq<char>),
>
    decreases pairs.len(),
{
    if pairs.len() == 0 {
        pairs
    } else if pairs.last().0 == key {
        without_key(pairs.drop_last(), key)
    } else {
        without_key(pairs.drop_last(), key).push(pairs.last())
    }
}

/// Takes out the pairs that have the key `key`.
pub fn remove_pair(pairs: &mut Vec<(String, String)>, key: &str)
    ensures
        pairs_view(final(pairs)@) == without_key(pairs_view(old(pairs)@), key@),
{
    let ghost all = pairs_view(pairs@);
    let mut kept: Vec<(String, String)> = Vec::new();
    assert(pairs_view(kept@) =~= without_key(all.take(0), key@));
    let mut i: usize = 0;
    while i < pairs.len()
        invariant
            i <= pairs.len(),
            all == pairs_view(pairs@),
            all == pairs_view(old(pairs)@),
            pairs_view(kept@) == without_key(all.take(i as int), key@),
        decreases pairs.len() - i,
    {
        proof {
            assert(all.take(i + 1).drop_last() =~= all.take(i as int));
            assert(all.take(i + 1).last() == all[i as int]);
        }
        if !str_eq(pairs[i].0.as_str(), key) {
            let ghost before = pairs_view(kept@);
            kept.push((pairs[i].0.clone(), pairs[i].1.clone()));
            assert(pairs_view(kept@) =~= before.push(all[i as int]));
        }
        i += 1;
    }
    proof {
        assert(all.take(pairs@.len() as int) =~= all);
    }
    *pairs = kept;
}

/// `items` without the texts equal to `x`.
pub open spec fn without_text(items: Seq<Seq<char>>, x: Seq<char>) -> Seq<Seq<char>>
    decreases items.len(),
{
    if items.len() == 0 {
        items
    } else if items.last() == x {
        without_text(items.drop_last(), x)
    } else {
        without_text(items.drop_last(), x).push(items.last())
    }
}

/// `items` with `x` behind them, unless they hold it already.
pub open spec fn with_text(items: Seq<Seq<char>>, x: Seq<char>) -> Seq<Seq<char>> {
    if items.contains(x) {
        items
    } else {
        items.push(x)
    }
}

/// Whether `items` hold `x`.
pub fn has_text(items: &Vec<String>, x: &str) -> (r: bool)
    ensures
        r == crate::model::texts(items@).contains(x@),
{
    let ghost all = crate::model::texts(items@);
    let mut i: usize = 0;
    while i < items.len()
        invariant
            i <= items.len(),
            all == crate::model::texts(items@),
            forall|k: int| 0 <= k < i ==> #[trigger] all[k] != x@,
        decreases items.len() - i,
    {
        if str_eq(items[i].as_str(), x) {
            assert(all[i as int] == x@);
            return true;
        }
        i += 1;
    }
    false
}

/// Puts `x` behind `items`, unless they hold it already.
pub fn add_text(items: &mut Vec<String>, x: String)
    ensures
        crate::model::texts(final(items)@) == with_text(crate::model::texts(old(items)@), x@),
{
    if !has_text(items, x.as_str()) {
        let ghost before = crate::model::texts(items@);
        items.push(x);
        assert(crate::model::texts(items@) =~= before.push(x@));
    }
}

/// Takes the texts equal to `x` out of `items`.
pub fn remove_text(items: &mut Vec<String>, x: &str)
    ensures
        crate::model::texts(final(items)@) == without_text(crate::model::texts(old(items)@), x@),
{
    let ghost all = crate::model::texts(items@);
    let mut kept: Vec<String> = Vec::new();
    assert(crate::model::texts(kept@) =~= without_text(all.take(0), x@));
    let mut i: usize = 0;
    while i < items.len()
        invariant
            i <= items.len(),
            all == crate::model::texts(items@),
            all == crate::model::texts(old(items)@),
            crate::model::texts(kept@) == without_text(all.take(i as int), x@),
        decreases items.len() - i,
    {
        proof {
            assert(all.take(i + 1).drop_last() =~= all.take(i as int));
            assert(all.take(i + 1).last() == all[i as int]);
        }
        if !str_eq(items[i].as_str(), x) {
            let ghost before = crate::model::texts(kept@);
            kept.push(items[i].clone());
            assert(crate::model::texts(kept@) =~= before.push(all[i as int]));
        }
        i += 1;
    }
    proof {
        assert(all.take(items@.len() as int) =~= all);
    }
    *items = kept;
}

} // verus!
