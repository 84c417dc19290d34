//! Rows of a name and an item, read as a mapping: the mathematical model of
//! the matrix and of an environment overlay.

use vstd::prelude::*;

verus! {

/// No two rows share a name.
pub open spec fn names_distinct<V>(rows: Seq<(Seq<char>, V)>) -> bool {
    forall|i: int, j: int| 0 <= i < j < rows.len() ==> rows[i].0 != rows[j].0
}

/// The names of the rows, in the rows' order.
pub open spec fn names<V>(rows: Seq<(Seq<char>, V)>) -> Seq<Seq<char>> {
    Seq::new(rows.len(), |i: int| rows[i].0)
}

/// The index of the first row with the given name, or the number of rows
/// where no row has it.
pub open spec fn index_of<V>(rows: Seq<(Seq<char>, V)>, name: Seq<char>) -> int
    decreases rows.len(),
{
    if rows.len() == 0 {
        0
    } else if rows[0].0 == name {
        0
    } else {
        1 + index_of(rows.drop_first(), name)
    }
}

/// The rows after `name` is given `item`: the first row of that name takes
/// the new item and keeps its place; where there is none, a new row is added
/// at the end.
pub open spec fn put<V>(rows: Seq<(Seq<char>, V)>, name: Seq<char>, item: V) -> Seq<
    (Seq<char>, V),
> {
    let i = index_of(rows, name);
    if i < rows.len() {
        rows.update(i, (name, item))
    } else {
        rows.push((name, item))
    }
}

/// The rows put one after another into an empty list: a later row replaces
/// the item of an earlier row of the same name.
pub open spec fn put_all<V>(rows: Seq<(Seq<char>, V)>) -> Seq<(Seq<char>, V)>
    decreases rows.len(),
{
    if rows.len() == 0 {
        Seq::empty()
    } else {
        put(put_all(rows.drop_last()), rows.last().0, rows.last().1)
    }
}

/// The mapping that the rows stand for: each name with the item of the last
/// row that has it.
pub open spec fn as_map<V>(rows: Seq<(Seq<char>, V)>) -> Map<Seq<char>, V>
    decreases rows.len(),
{
    if rows.len() == 0 {
        Map::empty()
    } else {
        as_map(rows.drop_last()).insert(rows.last().0, rows.last().1)
    }
}

/// What [`index_of`] returns is the first index of the name, if any.
pub proof fn lemma_index_of<V>(rows: Seq<(Seq<char>, V)>, name: Seq<char>)
    ensures
        0 <= index_of(rows, name) <= rows.len(),
        index_of(rows, name) < rows.len() ==> rows[index_of(rows, name)].0 == name,
        forall|j: int| 0 <= j < index_of(rows, name) ==> (#[trigger] rows[j]).0 != name,
    decreases rows.len(),
{
    if rows.len() > 0 && rows[0].0 != name {
        let tail = rows.drop_first();
        lemma_index_of(tail, name);
        assert forall|j: int| 0 <= j < index_of(rows, name) implies (#[trigger] rows[j]).0
            != name by {
            if j > 0 {
                assert(rows[j] == tail[j - 1]);
            }
        }
    }
}

/// An index before which no row has the name, and which has it or is the
/// number of rows, is the one that [`index_of`] returns.
pub proof fn lemma_index_of_is<V>(rows: Seq<(Seq<char>, V)>, name: Seq<char>, i: int)
    requires
        0 <= i <= rows.len(),
        forall|j: int| 0 <= j < i ==> (#[trigger] rows[j]).0 != name,
        i < rows.len() ==> rows[i].0 == name,
    ensures
        index_of(rows, name) == i,
{
    lemma_index_of(rows, name);
    let k = index_of(rows, name);
    if k < i {
        assert(rows[k].0 != name);
    }
}

/// The domain of the mapping is the set of the rows' names.
pub proof fn lemma_as_map_dom<V>(rows: Seq<(Seq<char>, V)>)
    ensures
        as_map(rows).dom() =~= names(rows).to_set(),
    decreases rows.len(),
{
    if rows.len() > 0 {
        let init = rows.drop_last();
        lemma_as_map_dom(init);
        assert forall|n: Seq<char>| as_map(rows).dom().contains(n) implies names(
            rows,
        ).to_set().contains(n) by {
            if n == rows.last().0 {
                assert(names(rows)[rows.len() - 1] == n);
            } else {
                assert(names(init).to_set().contains(n));
                let i = choose|i: int| 0 <= i < names(init).len() && names(init)[i] == n;
                assert(names(rows)[i] == n);
            }
        }
        assert forall|n: Seq<char>| names(rows).to_set().contains(n) implies as_map(
            rows,
        ).dom().contains(n) by {
            let i = choose|i: int| 0 <= i < names(rows).len() && names(rows)[i] == n;
            if i < rows.len() - 1 {
                assert(names(init)[i] == n);
                assert(names(init).to_set().contains(n));
            }
        }
    }
}

/// With distinct names, the mapping gives each row's name that row's item.
pub proof fn lemma_as_map_at<V>(rows: Seq<(Seq<char>, V)>, i: int)
    requires
        names_distinct(rows),
        0 <= i < rows.len(),
    ensures
        as_map(rows).dom().contains(rows[i].0),
        as_map(rows)[rows[i].0] == rows[i].1,
    decreases rows.len(),
{
    if i < rows.len() - 1 {
        let init = rows.drop_last();
        assert(init[i] == rows[i]);
        lemma_as_map_at(init, i);
    }
}

/// Putting a row keeps the names distinct and updates the mapping at that
/// name alone.
pub proof fn lemma_put<V>(rows: Seq<(Seq<char>, V)>, name: Seq<char>, item: V)
    requires
        names_distinct(rows),
    ensures
        names_distinct(put(rows, name, item)),
        as_map(put(rows, name, item)) =~= as_map(rows).insert(name, item),
{
    lemma_index_of(rows, name);
    let i = index_of(rows, name);
    let after = put(rows, name, item);
    if i < rows.len() {
        assert(names(after) =~= names(rows));
        lemma_as_map_dom(rows);
        lemma_as_map_dom(after);
        assert(names(rows)[i] == name);
        assert forall|n: Seq<char>| as_map(rows).insert(name, item).dom().contains(n) implies
            #[trigger] as_map(after)[n] == as_map(rows).insert(name, item)[n] by {
            assert(names(rows).to_set().contains(n));
            let k = choose|k: int| 0 <= k < names(rows).len() && names(rows)[k] == n;
            lemma_as_map_at(after, k);
            lemma_as_map_at(rows, k);
        }
    } else {
        assert(after.drop_last() =~= rows);
    }
}

/// Putting rows one after another leaves distinct names and the mapping that
/// the rows stand for.
pub proof fn lemma_put_all<V>(rows: Seq<(Seq<char>, V)>)
    ensures
        names_distinct(put_all(rows)),
        as_map(put_all(rows)) == as_map(rows),
    decreases rows.len(),
{
    if rows.len() > 0 {
        lemma_put_all(rows.drop_last());
        lemma_put(put_all(rows.drop_last()), rows.last().0, rows.last().1);
    }
}

/// Rows whose names are distinct already come out as they went in.
pub proof fn lemma_put_all_of_distinct<V>(rows: Seq<(Seq<char>, V)>)
    requires
        names_distinct(rows),
    ensures
        put_all(rows) == rows,
    decreases rows.len(),
{
    if rows.len() > 0 {
        let init = rows.drop_last();
        lemma_put_all_of_distinct(init);
        lemma_index_of_is(init, rows.last().0, init.len() as int);
        assert(init.push(rows.last()) =~= rows);
    } else {
        assert(rows =~= Seq::empty());
    }
}

/// Gives `name` the item `item` in the rows, as [`put`] says: in place where
/// a row has the name, else in a new row at the end.
pub fn put_row<V: DeepView>(rows: &mut Vec<(String, V)>, name: String, item: V)
    ensures
        final(rows).deep_view() == put(old(rows).deep_view(), name@, item.deep_view()),
{
    let ghost before = rows.deep_view();
    let n = rows.len();
    let mut i: usize = 0;
    while i < n && rows[i].0 != name
        invariant
            i <= n,
            n == rows.len(),
            rows.deep_view() == before,
            forall|j: int| 0 <= j < i ==> (#[trigger] before[j]).0 != name@,
        decreases n - i,
    {
        i += 1;
    }
    proof {
        lemma_index_of_is(before, name@, i as int);
    }
    if i < n {
        rows.set(i, (name, item));
        assert(rows.deep_view() =~= before.update(i as int, (name@, item.deep_view())));
    } else {
        rows.push((name, item));
        assert(rows.deep_view() =~= before.push((name@, item.deep_view())));
    }
}

} // verus!
