//! A map from names to values, kept as rows in ascending order of names.
//!
//! The model of a [`Table`] is a `Map<Seq<char>, V>`. Because the rows are
//! ordered, every finite map has exactly one [`listing`]: that is what makes
//! the text written from a table the same whenever the map is the same.

use vstd::prelude::*;
use crate::text::{
    lemma_precedes_asymmetric, lemma_precedes_connected, lemma_precedes_irreflexive,
    lemma_precedes_transitive, locate, precedes, Place,
};

verus! {

/// The rows stand in strictly ascending order of names.
pub open spec fn ascending<V>(es: Seq<(Seq<char>, V)>) -> bool {
    forall|i: int, j: int|
        #![trigger es[i], es[j]]
        0 <= i < j < es.len() ==> precedes(es[i].0, es[j].0)
}

/// Some row of `es` has the name `k`.
pub open spec fn names<V>(es: Seq<(Seq<char>, V)>, k: Seq<char>) -> bool {
    exists|i: int| 0 <= i < es.len() && (#[trigger] es[i]).0 == k
}

/// `es` holds the pairs of `m`, each once, in ascending order of names.
pub open spec fn lists<V>(es: Seq<(Seq<char>, V)>, m: Map<Seq<char>, V>) -> bool {
    &&& ascending(es)
    &&& forall|i: int| 0 <= i < es.len() ==> m.contains_pair((#[trigger] es[i]).0, es[i].1)
    &&& forall|k: Seq<char>| #[trigger] m.contains_key(k) ==> names(es, k)
}

/// The pairs of `m` in ascending order of names.
pub open spec fn listing<V>(m: Map<Seq<char>, V>) -> Seq<(Seq<char>, V)> {
    choose|es: Seq<(Seq<char>, V)>| lists(es, m)
}

/// The index of a row named `k`.
pub open spec fn row_of<V>(es: Seq<(Seq<char>, V)>, k: Seq<char>) -> int {
    choose|i: int| 0 <= i < es.len() && (#[trigger] es[i]).0 == k
}

/// The map that the rows `es` stand for.
pub open spec fn table_of<V>(es: Seq<(Seq<char>, V)>) -> Map<Seq<char>, V> {
    Map::new(|k: Seq<char>| names(es, k), |k: Seq<char>| es[row_of(es, k)].1)
}

/// In ascending rows no name occurs twice.
pub proof fn lemma_ascending_distinct<V>(es: Seq<(Seq<char>, V)>, i: int, j: int)
    requires
        ascending(es),
        0 <= i < es.len(),
        0 <= j < es.len(),
        es[i].0 == es[j].0,
    ensures
        i == j,
{
    lemma_precedes_irreflexive(es[i].0);
    if i < j {
        assert(precedes(es[i].0, es[j].0));
    } else if j < i {
        assert(precedes(es[j].0, es[i].0));
    }
}

/// Ascending rows list the map that they stand for, and that map is finite.
pub proof fn lemma_lists_table_of<V>(es: Seq<(Seq<char>, V)>)
    requires
        ascending(es),
    ensures
        lists(es, table_of(es)),
        table_of(es).dom().finite(),
{
    let m = table_of(es);
    assert forall|i: int| 0 <= i < es.len() implies m.contains_pair(
        (#[trigger] es[i]).0,
        es[i].1,
    ) by {
        let k = es[i].0;
        assert(names(es, k));
        lemma_ascending_distinct(es, i, row_of(es, k));
    }
    let keys = es.map_values(|e: (Seq<char>, V)| e.0);
    assert(m.dom() =~= keys.to_set()) by {
        assert forall|k: Seq<char>| m.dom().contains(k) implies keys.to_set().contains(k) by {
            let i = row_of(es, k);
            assert(keys[i] == k);
        }
        assert forall|k: Seq<char>| keys.to_set().contains(k) implies m.dom().contains(k) by {
            let i = choose|i: int| 0 <= i < keys.len() && keys[i] == k;
            assert(es[i].0 == k);
        }
    }
    vstd::seq_lib::seq_to_set_is_finite(keys);
}

/// A map is the one that any of its listings stands for.
pub proof fn lemma_lists_determines_map<V>(es: Seq<(Seq<char>, V)>, m: Map<Seq<char>, V>)
    requires
        lists(es, m),
    ensures
        m == table_of(es),
        m.dom().finite(),
{
    lemma_lists_table_of(es);
    let t = table_of(es);
    assert forall|k: Seq<char>| m.contains_key(k) <==> t.contains_key(k) by {
        if t.contains_key(k) {
            let i = row_of(es, k);
            assert(m.contains_pair(es[i].0, es[i].1));
        }
    }
    assert forall|k: Seq<char>| m.contains_key(k) implies m[k] == t[k] by {
        assert(names(es, k));
        let i = row_of(es, k);
        assert(m.contains_pair(es[i].0, es[i].1));
    }
    assert(m =~= t);
}

/// A map has at most one listing.
pub proof fn lemma_listing_unique<V>(
    a: Seq<(Seq<char>, V)>,
    b: Seq<(Seq<char>, V)>,
    m: Map<Seq<char>, V>,
)
    requires
        lists(a, m),
        lists(b, m),
    ensures
        a == b,
    decreases a.len(),
{
    if a.len() == 0 {
        if b.len() > 0 {
            assert(m.contains_pair(b[0].0, b[0].1));
            assert(names(a, b[0].0));
        }
        assert(a =~= b);
    } else {
        assert(m.contains_pair(a[0].0, a[0].1));
        assert(names(b, a[0].0));
        let j = row_of(b, a[0].0);
        assert(m.contains_pair(b[0].0, b[0].1));
        assert(names(a, b[0].0));
        let i = row_of(a, b[0].0);
        if j > 0 {
            assert(precedes(b[0].0, b[j].0));
            if i > 0 {
                assert(precedes(a[0].0, a[i].0));
                lemma_precedes_asymmetric(a[0].0, a[i].0);
            } else {
                lemma_precedes_irreflexive(a[0].0);
            }
        }
        assert(a[0].0 == b[0].0);
        assert(m.contains_pair(b[0].0, b[0].1));
        assert(a[0] == b[0]);
        let k = a[0].0;
        lemma_lists_drop_first(a, m);
        lemma_lists_drop_first(b, m);
        lemma_listing_unique(a.drop_first(), b.drop_first(), m.remove(k));
        assert(a =~= seq![a[0]] + a.drop_first());
        assert(b =~= seq![b[0]] + b.drop_first());
    }
}

/// Without its first row, a listing lists the map without that row's name.
pub proof fn lemma_lists_drop_first<V>(es: Seq<(Seq<char>, V)>, m: Map<Seq<char>, V>)
    requires
        lists(es, m),
        es.len() > 0,
    ensures
        lists(es.drop_first(), m.remove(es[0].0)),
{
    let rest = es.drop_first();
    let r = m.remove(es[0].0);
    assert forall|i: int, j: int| 0 <= i < j < rest.len() implies precedes(
        (#[trigger] rest[i]).0,
        (#[trigger] rest[j]).0,
    ) by {
        assert(rest[i] == es[i + 1] && rest[j] == es[j + 1]);
    }
    assert forall|i: int| 0 <= i < rest.len() implies r.contains_pair(
        (#[trigger] rest[i]).0,
        rest[i].1,
    ) by {
        assert(rest[i] == es[i + 1]);
        assert(precedes(es[0].0, es[i + 1].0));
        lemma_precedes_asymmetric(es[0].0, es[i + 1].0);
        assert(m.contains_pair(es[i + 1].0, es[i + 1].1));
    }
    assert forall|k: Seq<char>| #[trigger] r.contains_key(k) implies names(rest, k) by {
        assert(m.contains_key(k));
        assert(names(es, k));
        let i = row_of(es, k);
        assert(rest[i - 1] == es[i]);
    }
}

/// `p` is where a row named `k` belongs among the rows `es`: the rows before
/// `p` precede `k`, and `k` precedes the rows from `p` on.
pub open spec fn slot<V>(es: Seq<(Seq<char>, V)>, k: Seq<char>, p: int) -> bool {
    &&& 0 <= p <= es.len()
    &&& forall|i: int| 0 <= i < p ==> precedes((#[trigger] es[i]).0, k)
    &&& forall|i: int| p <= i < es.len() ==> precedes(k, (#[trigger] es[i]).0)
}

/// A name that no row has belongs at some place among ascending rows.
pub proof fn lemma_slot_exists<V>(es: Seq<(Seq<char>, V)>, k: Seq<char>) -> (p: int)
    requires
        ascending(es),
        !names(es, k),
    ensures
        slot(es, k, p),
    decreases es.len(),
{
    if es.len() == 0 {
        0
    } else {
        let last = es.len() - 1;
        assert(es[last].0 != k);
        if precedes(es[last].0, k) {
            assert forall|i: int| 0 <= i < es.len() implies precedes((#[trigger] es[i]).0, k) by {
                if i < last {
                    assert(precedes(es[i].0, es[last].0));
                    lemma_precedes_transitive(es[i].0, es[last].0, k);
                }
            }
            es.len() as int
        } else {
            lemma_precedes_connected(es[last].0, k);
            let front = es.drop_last();
            assert forall|i: int, j: int| 0 <= i < j < front.len() implies precedes(
                (#[trigger] front[i]).0,
                (#[trigger] front[j]).0,
            ) by {
                assert(front[i] == es[i] && front[j] == es[j]);
            }
            assert(!names(front, k)) by {
                if names(front, k) {
                    let i = row_of(front, k);
                    assert(es[i] == front[i]);
                }
            }
            let p = lemma_slot_exists(front, k);
            assert forall|i: int| 0 <= i < p implies precedes((#[trigger] es[i]).0, k) by {
                assert(es[i] == front[i]);
            }
            assert forall|i: int| p <= i < es.len() implies precedes(k, (#[trigger] es[i]).0) by {
                if i < last {
                    assert(es[i] == front[i]);
                }
            }
            p
        }
    }
}

/// A new row put where its name belongs keeps the rows ascending and adds
/// its pair to the map.
pub proof fn lemma_insert_row<V>(es: Seq<(Seq<char>, V)>, p: int, k: Seq<char>, v: V)
    requires
        ascending(es),
        slot(es, k, p),
    ensures
        ascending(es.insert(p, (k, v))),
        table_of(es.insert(p, (k, v))) == table_of(es).insert(k, v),
{
    let out = es.insert(p, (k, v));
    assert(out.len() == es.len() + 1);
    assert(out[p] == (k, v));
    assert forall|i: int| 0 <= i < p implies #[trigger] out[i] == es[i] by {}
    assert forall|i: int| p < i < out.len() implies #[trigger] out[i] == es[i - 1] by {}
    assert forall|i: int, j: int| 0 <= i < j < out.len() implies precedes(
        (#[trigger] out[i]).0,
        (#[trigger] out[j]).0,
    ) by {
        if j < p {
            assert(out[i] == es[i] && out[j] == es[j]);
        } else if j == p {
            assert(out[i] == es[i]);
        } else if i < p {
            assert(out[i] == es[i] && out[j] == es[j - 1]);
        } else if i == p {
            assert(out[j] == es[j - 1]);
        } else {
            assert(out[i] == es[i - 1] && out[j] == es[j - 1]);
        }
    }
    lemma_lists_table_of(es);
    lemma_lists_table_of(out);
    let m = table_of(es).insert(k, v);
    assert forall|i: int| 0 <= i < out.len() implies m.contains_pair(
        (#[trigger] out[i]).0,
        out[i].1,
    ) by {
        if i < p {
            assert(out[i] == es[i]);
            lemma_precedes_asymmetric(es[i].0, k);
        } else if i > p {
            assert(out[i] == es[i - 1]);
            lemma_precedes_asymmetric(k, es[i - 1].0);
        }
    }
    assert forall|j: Seq<char>| #[trigger] m.contains_key(j) implies names(out, j) by {
        if j == k {
            assert(out[p].0 == k);
        } else {
            assert(names(es, j));
            let i = row_of(es, j);
            if i < p {
                assert(out[i] == es[i]);
            } else {
                assert(out[i + 1] == es[i]);
            }
        }
    }
    lemma_lists_determines_map(out, m);
}

/// A row whose value is replaced keeps the rows ascending and maps its name
/// to the new value.
pub proof fn lemma_update_row<V>(es: Seq<(Seq<char>, V)>, p: int, v: V)
    requires
        ascending(es),
        0 <= p < es.len(),
    ensures
        ascending(es.update(p, (es[p].0, v))),
        table_of(es.update(p, (es[p].0, v))) == table_of(es).insert(es[p].0, v),
{
    let k = es[p].0;
    let out = es.update(p, (k, v));
    assert forall|i: int, j: int| 0 <= i < j < out.len() implies precedes(
        (#[trigger] out[i]).0,
        (#[trigger] out[j]).0,
    ) by {
        assert(out[i].0 == es[i].0 && out[j].0 == es[j].0);
    }
    lemma_lists_table_of(es);
    lemma_lists_table_of(out);
    let m = table_of(es).insert(k, v);
    assert forall|i: int| 0 <= i < out.len() implies m.contains_pair(
        (#[trigger] out[i]).0,
        out[i].1,
    ) by {
        if i != p {
            assert(out[i] == es[i]);
            if es[i].0 == k {
                lemma_ascending_distinct(es, i, p);
            }
        }
    }
    assert forall|j: Seq<char>| #[trigger] m.contains_key(j) implies names(out, j) by {
        if j == k {
            assert(out[p].0 == k);
        } else {
            assert(names(es, j));
            let i = row_of(es, j);
            assert(out[i] == es[i]);
        }
    }
    lemma_lists_determines_map(out, m);
}

/// Taking a row out keeps the rows ascending and takes its name out of the
/// map.
pub proof fn lemma_remove_row<V>(es: Seq<(Seq<char>, V)>, p: int)
    requires
        ascending(es),
        0 <= p < es.len(),
    ensures
        ascending(es.remove(p)),
        table_of(es.remove(p)) == table_of(es).remove(es[p].0),
{
    let k = es[p].0;
    let out = es.remove(p);
    assert(out.len() == es.len() - 1);
    assert forall|i: int| 0 <= i < p implies #[trigger] out[i] == es[i] by {}
    assert forall|i: int| p <= i < out.len() implies #[trigger] out[i] == es[i + 1] by {}
    assert forall|i: int, j: int| 0 <= i < j < out.len() implies precedes(
        (#[trigger] out[i]).0,
        (#[trigger] out[j]).0,
    ) by {
        if j < p {
            assert(out[i] == es[i] && out[j] == es[j]);
        } else if i < p {
            assert(out[i] == es[i] && out[j] == es[j + 1]);
        } else {
            assert(out[i] == es[i + 1] && out[j] == es[j + 1]);
        }
    }
    lemma_lists_table_of(es);
    lemma_lists_table_of(out);
    let m = table_of(es).remove(k);
    assert forall|i: int| 0 <= i < out.len() implies m.contains_pair(
        (#[trigger] out[i]).0,
        out[i].1,
    ) by {
        if i < p {
            assert(out[i] == es[i]);
            assert(precedes(es[i].0, es[p].0));
            lemma_precedes_asymmetric(es[i].0, k);
        } else {
            assert(out[i] == es[i + 1]);
            assert(precedes(es[p].0, es[i + 1].0));
            lemma_precedes_asymmetric(k, es[i + 1].0);
        }
    }
    assert forall|j: Seq<char>| #[trigger] m.contains_key(j) implies names(out, j) by {
        assert(names(es, j));
        let i = row_of(es, j);
        if i < p {
            assert(out[i] == es[i]);
        } else {
            assert(out[i - 1] == es[i]);
        }
    }
    lemma_lists_determines_map(out, m);
}

/// Every finite map has a listing, and `listing` is it.
pub proof fn lemma_listing_lists<V>(m: Map<Seq<char>, V>)
    requires
        m.dom().finite(),
    ensures
        lists(listing(m), m),
    decreases m.dom().len(),
{
    if m.dom().len() == 0 {
        let none = Seq::<(Seq<char>, V)>::empty();
        assert forall|k: Seq<char>| #[trigger] m.contains_key(k) implies names(none, k) by {
            assert(m.dom().contains(k));
            assert(m.dom() =~= Set::<Seq<char>>::empty());
        }
        assert(lists(none, m));
    } else {
        let k = m.dom().choose();
        let rest = m.remove(k);
        lemma_listing_lists(rest);
        let es = listing(rest);
        assert(!names(es, k)) by {
            if names(es, k) {
                let i = row_of(es, k);
                assert(rest.contains_pair(es[i].0, es[i].1));
            }
        }
        let p = lemma_slot_exists(es, k);
        lemma_insert_row(es, p, k, m[k]);
        lemma_lists_determines_map(es, rest);
        let out = es.insert(p, (k, m[k]));
        lemma_lists_table_of(out);
        assert(rest.insert(k, m[k]) =~= m);
        assert(lists(out, m));
    }
}

/// Ascending rows stand for a map of as many names as there are rows.
pub proof fn lemma_len_table_of<V>(es: Seq<(Seq<char>, V)>)
    requires
        ascending(es),
    ensures
        table_of(es).dom().finite(),
        table_of(es).dom().len() == es.len(),
{
    let keys = es.map_values(|e: (Seq<char>, V)| e.0);
    lemma_lists_table_of(es);
    assert(table_of(es).dom() =~= keys.to_set()) by {
        assert forall|k: Seq<char>| table_of(es).dom().contains(k) implies keys.to_set().contains(
            k,
        ) by {
            let i = row_of(es, k);
            assert(keys[i] == k);
        }
        assert forall|k: Seq<char>| keys.to_set().contains(k) implies table_of(es).dom().contains(
            k,
        ) by {
            let i = choose|i: int| 0 <= i < keys.len() && keys[i] == k;
            assert(es[i].0 == k);
        }
    }
    assert(keys.no_duplicates()) by {
        assert forall|i: int, j: int|
            0 <= i < keys.len() && 0 <= j < keys.len() && i != j implies keys[i] != keys[j] by {
            if keys[i] == keys[j] {
                lemma_ascending_distinct(es, i, j);
            }
        }
    }
    keys.unique_seq_to_set();
}

/// Rows whose values are mapped by `f` list the map whose values are mapped
/// by `f`.
pub proof fn lemma_lists_map_values<V, W>(
    es: Seq<(Seq<char>, V)>,
    m: Map<Seq<char>, V>,
    f: spec_fn(V) -> W,
)
    requires
        lists(es, m),
    ensures
        lists(es.map_values(|e: (Seq<char>, V)| (e.0, f(e.1))), m.map_values(f)),
{
    let out = es.map_values(|e: (Seq<char>, V)| (e.0, f(e.1)));
    let n = m.map_values(f);
    assert forall|i: int, j: int| 0 <= i < j < out.len() implies precedes(
        (#[trigger] out[i]).0,
        (#[trigger] out[j]).0,
    ) by {
        assert(out[i].0 == es[i].0 && out[j].0 == es[j].0);
    }
    assert forall|i: int| 0 <= i < out.len() implies n.contains_pair(
        (#[trigger] out[i]).0,
        out[i].1,
    ) by {
        assert(m.contains_pair(es[i].0, es[i].1));
    }
    assert forall|k: Seq<char>| #[trigger] n.contains_key(k) implies names(out, k) by {
        assert(m.contains_key(k));
        assert(names(es, k));
        let i = row_of(es, k);
        assert(out[i].0 == k);
    }
}

/// What the rows of a table stand for: each name by its characters.
pub open spec fn rows_of<V>(rows: Seq<(String, V)>) -> Seq<(Seq<char>, V)> {
    rows.map_values(|e: (String, V)| (e.0@, e.1))
}

/// A map from names to values of `V`.
pub struct Table<V> {
    rows: Vec<(String, V)>,
}

impl<V> View for Table<V> {
    type V = Map<Seq<char>, V>;

    closed spec fn view(&self) -> Map<Seq<char>, V> {
        table_of(rows_of(self.rows@))
    }
}

impl<V> Table<V> {
    #[verifier::type_invariant]
    spec fn ordered(&self) -> bool {
        ascending(rows_of(self.rows@))
    }

    /// A table without rows.
    pub fn new() -> (t: Table<V>)
        ensures
            t@ == Map::<Seq<char>, V>::empty(),
    {
        let t = Table { rows: Vec::new() };
        assert(t@ =~= Map::<Seq<char>, V>::empty());
        t
    }

    /// The rows, in ascending order of names.
    pub fn rows(&self) -> (rows: &Vec<(String, V)>)
        ensures
            lists(rows_of(rows@), self@),
    {
        proof {
            use_type_invariant(self);
            lemma_lists_table_of(rows_of(self.rows@));
        }
        &self.rows
    }

    /// The number of names.
    pub fn len(&self) -> (n: usize)
        ensures
            self@.dom().finite(),
            n == self@.dom().len(),
    {
        proof {
            use_type_invariant(self);
            lemma_len_table_of(rows_of(self.rows@));
        }
        self.rows.len()
    }

    /// Where `name` is among the rows, or where it belongs: the index and
    /// whether the row there has that name.
    fn search(&self, name: &str) -> (r: (usize, bool))
        ensures
            r.0 <= self.rows.len(),
            r.1 ==> r.0 < self.rows.len() && self.rows[r.0 as int].0@ == name@,
            !r.1 ==> slot(rows_of(self.rows@), name@, r.0 as int),
            r.1 == self@.contains_key(name@),
    {
        proof {
            use_type_invariant(self);
        }
        let ghost es = rows_of(self.rows@);
        let mut low: usize = 0;
        let mut high: usize = self.rows.len();
        while low < high
            invariant
                es == rows_of(self.rows@),
                ascending(es),
                0 <= low <= high <= self.rows.len(),
                forall|i: int| 0 <= i < low ==> precedes((#[trigger] es[i]).0, name@),
                forall|i: int| high <= i < es.len() ==> precedes(name@, (#[trigger] es[i]).0),
            decreases high - low,
        {
            let mid: usize = low + (high - low) / 2;
            assert(es[mid as int].0 == self.rows[mid as int].0@);
            match locate(self.rows[mid].0.as_str(), name) {
                Place::Before => {
                    proof {
                        assert forall|i: int| 0 <= i < mid + 1 implies precedes(
                            (#[trigger] es[i]).0,
                            name@,
                        ) by {
                            if i < mid {
                                assert(precedes(es[i].0, es[mid as int].0));
                                lemma_precedes_transitive(es[i].0, es[mid as int].0, name@);
                            }
                        }
                    }
                    low = mid + 1;
                },
                Place::Same => {
                    proof {
                        assert(names(es, name@));
                    }
                    return (mid, true);
                },
                Place::After => {
                    proof {
                        assert forall|i: int| mid <= i < es.len() implies precedes(
                            name@,
                            (#[trigger] es[i]).0,
                        ) by {
                            if mid < i {
                                assert(precedes(es[mid as int].0, es[i].0));
                                lemma_precedes_transitive(name@, es[mid as int].0, es[i].0);
                            }
                        }
                    }
                    high = mid;
                },
            }
        }
        proof {
            assert(slot(es, name@, low as int));
            if names(es, name@) {
                let i = row_of(es, name@);
                lemma_precedes_irreflexive(name@);
            }
        }
        (low, false)
    }

    /// The value that `name` maps to, if it maps to any.
    pub fn get(&self, name: &str) -> (r: Option<&V>)
        ensures
            r is Some <==> self@.contains_key(name@),
            r matches Some(v) ==> *v == self@[name@],
    {
        proof {
            use_type_invariant(self);
            lemma_lists_table_of(rows_of(self.rows@));
        }
        let (at, found) = self.search(name);
        if found {
            proof {
                let es = rows_of(self.rows@);
                assert(self@.contains_pair(es[at as int].0, es[at as int].1));
            }
            Some(&self.rows[at].1)
        } else {
            None
        }
    }

    /// Maps `name` to `value`, and returns the value that it mapped to
    /// before, if any.
    pub fn insert(&mut self, name: String, value: V) -> (r: Option<V>)
        ensures
            final(self)@ == old(self)@.insert(name@, value),
            r is Some <==> old(self)@.contains_key(name@),
            r matches Some(v) ==> v == old(self)@[name@],
    {
        proof {
            use_type_invariant(&*self);
            lemma_lists_table_of(rows_of(self.rows@));
        }
        let ghost es = rows_of(self.rows@);
        let (at, found) = self.search(name.as_str());
        let mut rows: Vec<(String, V)> = Vec::new();
        core::mem::swap(&mut self.rows, &mut rows);
        let before = if found {
            let row = rows.remove(at);
            proof {
                assert(old(self)@.contains_pair(es[at as int].0, es[at as int].1));
                lemma_update_row(es, at as int, value);
                assert(rows_of(old(self).rows@.remove(at as int).insert(at as int, (name, value)))
                    =~= es.update(at as int, (name@, value)));
            }
            Some(row.1)
        } else {
            proof {
                lemma_insert_row(es, at as int, name@, value);
                assert(rows_of(old(self).rows@.insert(at as int, (name, value))) =~= es.insert(
                    at as int,
                    (name@, value),
                ));
            }
            None
        };
        rows.insert(at, (name, value));
        core::mem::swap(&mut self.rows, &mut rows);
        before
    }

    /// Takes `name` out, and returns the value that it mapped to, if any.
    pub fn remove(&mut self, name: &str) -> (r: Option<V>)
        ensures
            final(self)@ == old(self)@.remove(name@),
            r is Some <==> old(self)@.contains_key(name@),
            r matches Some(v) ==> v == old(self)@[name@],
    {
        proof {
            use_type_invariant(&*self);
            lemma_lists_table_of(rows_of(self.rows@));
        }
        let ghost es = rows_of(self.rows@);
        let (at, found) = self.search(name);
        if found {
            proof {
                assert(self@.contains_pair(es[at as int].0, es[at as int].1));
                lemma_remove_row(es, at as int);
                assert(rows_of(old(self).rows@.remove(at as int)) =~= es.remove(at as int));
            }
            let mut rows: Vec<(String, V)> = Vec::new();
            core::mem::swap(&mut self.rows, &mut rows);
            let row = rows.remove(at);
            core::mem::swap(&mut self.rows, &mut rows);
            Some(row.1)
        } else {
            proof {
                assert(self@.remove(name@) =~= self@);
            }
            None
        }
    }
}

} // verus!
