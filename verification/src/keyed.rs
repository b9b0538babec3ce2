//! Sequences of named entries with no repeated names, and their reading
//! as a map from name to value: the shared model of both backends' keyed
//! storage.

use vstd::prelude::*;

verus! {

/// No two entries of the image share a file name.
pub open spec fn unique_names<V>(e: Seq<(Seq<char>, V)>) -> bool {
    forall|i: int, j: int| 0 <= i < j < e.len() ==> e[i].0 != e[j].0
}

/// Whether some entry of the image has the file name `nm`.
pub open spec fn has_name<V>(e: Seq<(Seq<char>, V)>, nm: Seq<char>) -> bool {
    exists|i: int| 0 <= i < e.len() && (#[trigger] e[i]).0 == nm
}

/// The directory image as a map from file name to raw contents.
pub open spec fn map_of<V>(e: Seq<(Seq<char>, V)>) -> Map<Seq<char>, V>
    decreases e.len(),
{
    if e.len() == 0 {
        Map::empty()
    } else {
        map_of(e.drop_last()).insert(e.last().0, e.last().1)
    }
}

/// The image's map holds exactly the image's file names.
pub proof fn lemma_map_of_contains<V>(e: Seq<(Seq<char>, V)>, nm: Seq<char>)
    ensures
        map_of(e).contains_key(nm) <==> has_name(e, nm),
    decreases e.len(),
{
    if e.len() == 0 {
    } else {
        lemma_map_of_contains(e.drop_last(), nm);
        if nm == e.last().0 {
            assert(e[e.len() - 1].0 == nm);
        } else {
            if has_name(e.drop_last(), nm) {
                let i = choose|i: int| 0 <= i < e.drop_last().len() && e.drop_last()[i].0 == nm;
                assert(e[i].0 == nm);
            }
            if has_name(e, nm) {
                let i = choose|i: int| 0 <= i < e.len() && e[i].0 == nm;
                assert(e.drop_last()[i].0 == nm);
            }
        }
    }
}

/// In an image without repeated names, each entry's contents is what the
/// image's map holds under the entry's name.
pub proof fn lemma_map_of_value<V>(e: Seq<(Seq<char>, V)>, i: int)
    requires
        unique_names(e),
        0 <= i < e.len(),
    ensures
        map_of(e).contains_key(e[i].0),
        map_of(e)[e[i].0] == e[i].1,
    decreases e.len(),
{
    if i == e.len() - 1 {
    } else {
        assert(unique_names(e.drop_last())) by {
            assert(forall|a: int, b: int|
                0 <= a < b < e.drop_last().len() ==> e.drop_last()[a].0 != e.drop_last()[b].0);
        }
        lemma_map_of_value(e.drop_last(), i);
        assert(e.drop_last()[i] == e[i]);
        assert(e[i].0 != e.last().0);
    }
}

/// Removing an entry of an image without repeated names removes exactly
/// its name from the image's map.
pub proof fn lemma_map_of_remove<V>(e: Seq<(Seq<char>, V)>, j: int)
    requires
        unique_names(e),
        0 <= j < e.len(),
    ensures
        unique_names(e.remove(j)),
        map_of(e.remove(j)) == map_of(e).remove(e[j].0),
        !has_name(e.remove(j), e[j].0),
    decreases e.len(),
{
    assert(!has_name(e.remove(j), e[j].0)) by {
        if has_name(e.remove(j), e[j].0) {
            let k = choose|k: int|
                0 <= k < e.remove(j).len() && (#[trigger] e.remove(j)[k]).0 == e[j].0;
            let k2: int = if k < j {
                k
            } else {
                k + 1
            };
            assert(e.remove(j)[k] == e[k2]);
        }
    }
    assert(unique_names(e.remove(j))) by {
        assert forall|a: int, b: int| 0 <= a < b < e.remove(j).len() implies e.remove(j)[a].0
            != e.remove(j)[b].0 by {
            let a2: int = if a < j {
                a
            } else {
                a + 1
            };
            let b2: int = if b < j {
                b
            } else {
                b + 1
            };
            assert(e.remove(j)[a] == e[a2] && e.remove(j)[b] == e[b2]);
        }
    }
    assert(unique_names(e.drop_last())) by {
        assert(forall|a: int, b: int|
            0 <= a < b < e.drop_last().len() ==> e.drop_last()[a].0 != e.drop_last()[b].0);
    }
    if j == e.len() - 1 {
        assert(e.remove(j) =~= e.drop_last());
        lemma_map_of_contains(e.drop_last(), e[j].0);
        assert(!has_name(e.drop_last(), e[j].0)) by {
            if has_name(e.drop_last(), e[j].0) {
                let i = choose|i: int|
                    0 <= i < e.drop_last().len() && e.drop_last()[i].0 == e[j].0;
                assert(e[i].0 == e[j].0);
            }
        }
        assert(map_of(e.remove(j)) =~= map_of(e).remove(e[j].0));
    } else {
        lemma_map_of_remove(e.drop_last(), j);
        assert(e.drop_last()[j] == e[j]);
        assert(e.remove(j).drop_last() =~= e.drop_last().remove(j));
        assert(e.remove(j).last() == e.last());
        assert(map_of(e.remove(j)) =~= map_of(e.drop_last().remove(j)).insert(
            e.last().0,
            e.last().1,
        ));
        assert(e.last().0 != e[j].0);
        assert(map_of(e.drop_last()).remove(e[j].0).insert(e.last().0, e.last().1)
            =~= map_of(e).remove(e[j].0));
    }
}

/// Appending an entry under a fresh name keeps the names unique and adds
/// exactly that name to the image's map.
pub proof fn lemma_map_of_push<V>(e: Seq<(Seq<char>, V)>, nm: Seq<char>, val: V)
    requires
        unique_names(e),
        !has_name(e, nm),
    ensures
        unique_names(e.push((nm, val))),
        map_of(e.push((nm, val))) == map_of(e).insert(nm, val),
{
    let e2 = e.push((nm, val));
    assert(unique_names(e2)) by {
        assert forall|a: int, b: int| 0 <= a < b < e2.len() implies e2[a].0 != e2[b].0 by {
            if b == e2.len() - 1 {
                assert(e2[a] == e[a]);
                if e[a].0 == nm {
                    assert(has_name(e, nm));
                }
            } else {
                assert(e2[a] == e[a] && e2[b] == e[b]);
            }
        }
    }
    assert(e2.drop_last() =~= e);
    assert(map_of(e2) =~= map_of(e).insert(nm, val));
}


/// The names of an entry sequence, in order.
pub open spec fn names_of<V>(e: Seq<(Seq<char>, V)>) -> Seq<Seq<char>> {
    e.map_values(|p: (Seq<char>, V)| p.0)
}

/// How many times `k` occurs in a sequence of names.
pub open spec fn count_of(s: Seq<Seq<char>>, k: Seq<char>) -> nat
    decreases s.len(),
{
    if s.len() == 0 {
        0
    } else {
        count_of(s.drop_last(), k) + (if s.last() == k {
            1 as nat
        } else {
            0 as nat
        })
    }
}

/// A name that names no entry does not occur among the entries' names.
pub proof fn lemma_name_count_absent<V>(e: Seq<(Seq<char>, V)>, k: Seq<char>)
    requires
        !has_name(e, k),
    ensures
        count_of(names_of(e), k) == 0,
    decreases e.len(),
{
    if e.len() == 0 {
        assert(names_of(e) =~= Seq::<Seq<char>>::empty());
    } else {
        assert(!has_name(e.drop_last(), k)) by {
            if has_name(e.drop_last(), k) {
                let i = choose|i: int|
                    0 <= i < e.drop_last().len() && (#[trigger] e.drop_last()[i]).0 == k;
                assert(e[i].0 == k);
            }
        }
        lemma_name_count_absent(e.drop_last(), k);
        assert(e[e.len() - 1].0 != k);
        assert(names_of(e).drop_last() =~= names_of(e.drop_last()));
        assert(names_of(e).last() == e.last().0);
    }
}

/// A name that names an entry of a sequence without repeated names occurs
/// exactly once among the entries' names.
pub proof fn lemma_name_count_once<V>(e: Seq<(Seq<char>, V)>, k: Seq<char>)
    requires
        unique_names(e),
        has_name(e, k),
    ensures
        count_of(names_of(e), k) == 1,
    decreases e.len(),
{
    assert(names_of(e).drop_last() =~= names_of(e.drop_last()));
    assert(names_of(e).last() == e.last().0);
    assert(unique_names(e.drop_last())) by {
        assert(forall|a: int, b: int|
            0 <= a < b < e.drop_last().len() ==> e.drop_last()[a].0 != e.drop_last()[b].0);
    }
    if e.last().0 == k {
        assert(!has_name(e.drop_last(), k)) by {
            if has_name(e.drop_last(), k) {
                let i = choose|i: int|
                    0 <= i < e.drop_last().len() && (#[trigger] e.drop_last()[i]).0 == k;
                assert(e[i].0 == k && e[e.len() - 1].0 == k);
            }
        }
        lemma_name_count_absent(e.drop_last(), k);
    } else {
        assert(has_name(e.drop_last(), k)) by {
            let i = choose|i: int| 0 <= i < e.len() && (#[trigger] e[i]).0 == k;
            assert(e.drop_last()[i].0 == k);
        }
        lemma_name_count_once(e.drop_last(), k);
    }
}

} // verus!
