//! How often each line of a shell history occurs, and which lines occur
//! most.

use vstd::prelude::*;
use crate::config::AliasConfig;
use crate::grammar::lines;
use crate::parse::{split_lines, texts};
use crate::table::{
    ascending, lemma_len_table_of, lemma_lists_determines_map, lemma_lists_map_values, lists,
    names, row_of, rows_of, Table,
};
use crate::text::{lemma_precedes_asymmetric, precedes};

verus! {

/// How many lines are ranked where the caller names no limit.
pub const DEFAULT_LIMIT: usize = 10;

/// The number of places at which `l` stands in `ls`.
pub open spec fn occurrences(ls: Seq<Seq<char>>, l: Seq<char>) -> nat
    decreases ls.len(),
{
    if ls.len() == 0 {
        0
    } else {
        occurrences(ls.drop_last(), l) + if ls.last() == l {
            1nat
        } else {
            0nat
        }
    }
}

/// Each line of `ls` with the number of its occurrences. Lines count as
/// they are: nothing is trimmed, and an empty line is a line.
pub open spec fn tally(ls: Seq<Seq<char>>) -> Map<Seq<char>, nat> {
    Map::new(|l: Seq<char>| occurrences(ls, l) > 0, |l: Seq<char>| occurrences(ls, l))
}

/// A line occurs in the first lines at most as often as in all.
pub proof fn lemma_occurrences_take(ls: Seq<Seq<char>>, n: int, l: Seq<char>)
    requires
        0 <= n <= ls.len(),
    ensures
        occurrences(ls.take(n), l) <= occurrences(ls, l),
    decreases ls.len(),
{
    if n == ls.len() {
        assert(ls.take(n) =~= ls);
    } else {
        assert(ls.take(n) =~= ls.drop_last().take(n));
        lemma_occurrences_take(ls.drop_last(), n, l);
    }
}

/// A line occurs at most as often as there are lines.
pub proof fn lemma_occurrences_bound(ls: Seq<Seq<char>>, l: Seq<char>)
    ensures
        occurrences(ls, l) <= ls.len(),
    decreases ls.len(),
{
    if ls.len() > 0 {
        lemma_occurrences_bound(ls.drop_last(), l);
    }
}

/// One more line adds one occurrence of itself and none of another line.
pub proof fn lemma_occurrences_next(ls: Seq<Seq<char>>, n: int, l: Seq<char>)
    requires
        0 <= n < ls.len(),
    ensures
        occurrences(ls.take(n + 1), l) == occurrences(ls.take(n), l) + if ls[n] == l {
            1nat
        } else {
            0nat
        },
{
    assert(ls.take(n + 1).drop_last() =~= ls.take(n));
    assert(ls.take(n + 1).last() == ls[n]);
}

/// `a` ranks before `b`: it occurs more often, or as often and its text
/// comes first in the order of names.
pub open spec fn outranks(a: (Seq<char>, nat), b: (Seq<char>, nat)) -> bool {
    a.1 > b.1 || (a.1 == b.1 && precedes(a.0, b.0))
}

/// `r` holds the `limit` pairs of `m` that rank first, or all where `m` has
/// fewer, the first in rank first.
pub open spec fn ranked(r: Seq<(Seq<char>, nat)>, m: Map<Seq<char>, nat>, limit: nat) -> bool {
    &&& r.len() == if limit <= m.dom().len() {
        limit
    } else {
        m.dom().len()
    }
    &&& forall|i: int, j: int|
        #![trigger r[i], r[j]]
        0 <= i < j < r.len() ==> outranks(r[i], r[j])
    &&& forall|i: int| 0 <= i < r.len() ==> m.contains_pair((#[trigger] r[i]).0, r[i].1)
    &&& forall|k: Seq<char>, i: int|
        #![trigger m.contains_key(k), r[i]]
        m.contains_key(k) && !names(r, k) && 0 <= i < r.len() ==> outranks(r[i], (k, m[k]))
}

/// Each pair of `r` ranks before those behind it.
pub open spec fn descending(r: Seq<(Seq<char>, nat)>) -> bool {
    forall|i: int, j: int| #![trigger r[i], r[j]] 0 <= i < j < r.len() ==> outranks(r[i], r[j])
}

/// `out` holds the pairs of `source`, in some order.
pub open spec fn rearranged(out: Seq<(Seq<char>, nat)>, source: Seq<(Seq<char>, nat)>) -> bool {
    &&& out.len() == source.len()
    &&& forall|a: int| 0 <= a < out.len() ==> #[trigger] source.contains(out[a])
    &&& forall|j: int| 0 <= j < source.len() ==> #[trigger] out.contains(source[j])
}

/// A pair put between those that rank before it and those that rank behind
/// it keeps the order of ranks.
proof fn lemma_rank_step(
    source: Seq<(Seq<char>, nat)>,
    out: Seq<(Seq<char>, nat)>,
    fresh: (Seq<char>, nat),
    p: int,
)
    requires
        descending(out),
        rearranged(out, source),
        0 <= p <= out.len(),
        forall|a: int| 0 <= a < p ==> outranks(#[trigger] out[a], fresh),
        forall|a: int| p <= a < out.len() ==> outranks(fresh, #[trigger] out[a]),
    ensures
        descending(out.insert(p, fresh)),
        rearranged(out.insert(p, fresh), source.push(fresh)),
{
    let next = out.insert(p, fresh);
    let grown = source.push(fresh);
    assert(next.len() == out.len() + 1);
    assert(next[p] == fresh);
    assert forall|a: int| 0 <= a < p implies #[trigger] next[a] == out[a] by {}
    assert forall|a: int| p < a < next.len() implies #[trigger] next[a] == out[a - 1] by {}
    assert forall|a: int, b: int|
        #![trigger next[a], next[b]]
        0 <= a < b < next.len() implies outranks(next[a], next[b]) by {
        if b < p {
            assert(outranks(out[a], out[b]));
        } else if b == p {
            assert(outranks(out[a], fresh));
        } else if a < p {
            assert(outranks(out[a], out[b - 1]));
        } else if a == p {
            assert(outranks(fresh, out[b - 1]));
        } else {
            assert(outranks(out[a - 1], out[b - 1]));
        }
    }
    assert forall|a: int| 0 <= a < next.len() implies #[trigger] grown.contains(next[a]) by {
        if a == p {
            assert(grown[source.len() as int] == next[a]);
        } else {
            let b = if a < p {
                a
            } else {
                a - 1
            };
            assert(source.contains(out[b]));
            let j = choose|j: int| 0 <= j < source.len() && source[j] == out[b];
            assert(grown[j] == next[a]);
        }
    }
    assert forall|j: int| 0 <= j < grown.len() implies #[trigger] next.contains(grown[j]) by {
        if j == source.len() {
            assert(next[p] == grown[j]);
        } else {
            assert(grown[j] == source[j]);
            assert(out.contains(source[j]));
            let a = choose|a: int| 0 <= a < out.len() && out[a] == source[j];
            if a < p {
                assert(next[a] == grown[j]);
            } else {
                assert(next[a + 1] == grown[j]);
            }
        }
    }
}

/// The first pairs of a map's pairs in the order of ranks are the ones
/// that rank first.
proof fn lemma_ranked_take(
    full: Seq<(Seq<char>, nat)>,
    src: Seq<(Seq<char>, nat)>,
    m: Map<Seq<char>, nat>,
    n: int,
    limit: nat,
)
    requires
        descending(full),
        rearranged(full, src),
        lists(src, m),
        m.dom().finite(),
        m.dom().len() == src.len(),
        n == if limit <= full.len() {
            limit as int
        } else {
            full.len() as int
        },
    ensures
        ranked(full.take(n), m, limit),
{
    let r = full.take(n);
    assert forall|a: int| 0 <= a < r.len() implies m.contains_pair((#[trigger] r[a]).0, r[a].1) by {
        assert(r[a] == full[a]);
        assert(src.contains(full[a]));
        let j = choose|j: int| 0 <= j < src.len() && src[j] == full[a];
        assert(m.contains_pair(src[j].0, src[j].1));
    }
    assert forall|a: int, b: int| #![trigger r[a], r[b]] 0 <= a < b < r.len() implies outranks(
        r[a],
        r[b],
    ) by {
        assert(outranks(full[a], full[b]));
    }
    assert forall|k: Seq<char>, a: int|
        #![trigger m.contains_key(k), r[a]]
        m.contains_key(k) && !names(r, k) && 0 <= a < r.len() implies outranks(r[a], (k, m[k])) by {
        assert(names(src, k));
        let j = row_of(src, k);
        assert(m.contains_pair(src[j].0, src[j].1));
        assert(src[j] == (k, m[k]));
        assert(full.contains(src[j]));
        let b = choose|b: int| 0 <= b < full.len() && full[b] == src[j];
        if b < r.len() {
            assert(r[b].0 == k);
        } else {
            assert(r[a] == full[a]);
            assert(outranks(full[a], full[b]));
        }
    }
}

/// No pair ranks before itself, and no two pairs rank before each other.
pub proof fn lemma_outranks_asymmetric(a: (Seq<char>, nat), b: (Seq<char>, nat))
    requires
        outranks(a, b),
    ensures
        !outranks(b, a),
        a != b,
{
    if a.1 == b.1 {
        lemma_precedes_asymmetric(a.0, b.0);
    }
}

/// A map has one ranking for each limit: `ranked` says which.
pub proof fn law_ranking_is_unique(
    a: Seq<(Seq<char>, nat)>,
    b: Seq<(Seq<char>, nat)>,
    m: Map<Seq<char>, nat>,
    limit: nat,
)
    requires
        ranked(a, m, limit),
        ranked(b, m, limit),
    ensures
        a == b,
{
    assert forall|i: int| 0 <= i < a.len() implies a[i] == b[i] by {
        lemma_ranking_agrees(a, b, m, limit, i);
    }
    assert(a =~= b);
}

/// Where `y` holds a pair of `m` at `i`, `x` holds that pair at or behind
/// `i`, or a pair at `i` that ranks before it, if the two agree before `i`.
proof fn lemma_ranking_leads(
    x: Seq<(Seq<char>, nat)>,
    y: Seq<(Seq<char>, nat)>,
    m: Map<Seq<char>, nat>,
    limit: nat,
    i: int,
)
    requires
        ranked(x, m, limit),
        ranked(y, m, limit),
        0 <= i < x.len(),
        forall|j: int| 0 <= j < i ==> x[j] == y[j],
    ensures
        x[i] == y[i] || outranks(x[i], y[i]),
{
    let k = y[i].0;
    assert(m.contains_pair(y[i].0, y[i].1));
    assert(m.contains_key(k));
    if names(x, k) {
        let t = row_of(x, k);
        assert(m.contains_pair(x[t].0, x[t].1));
        assert(x[t] == y[i]);
        if t < i {
            assert(x[t] == y[t]);
            assert(outranks(y[t], y[i]));
            lemma_outranks_asymmetric(y[t], y[i]);
        } else if t > i {
            assert(outranks(x[i], x[t]));
        }
    } else {
        assert(outranks(x[i], (k, m[k])));
    }
}

/// Two rankings of one map hold the same pair at each place.
proof fn lemma_ranking_agrees(
    a: Seq<(Seq<char>, nat)>,
    b: Seq<(Seq<char>, nat)>,
    m: Map<Seq<char>, nat>,
    limit: nat,
    i: int,
)
    requires
        ranked(a, m, limit),
        ranked(b, m, limit),
        0 <= i < a.len(),
    ensures
        a[i] == b[i],
    decreases i,
{
    assert forall|j: int| 0 <= j < i implies a[j] == b[j] by {
        lemma_ranking_agrees(a, b, m, limit, j);
    }
    lemma_ranking_leads(a, b, m, limit, i);
    lemma_ranking_leads(b, a, m, limit, i);
    if outranks(a[i], b[i]) {
        lemma_outranks_asymmetric(a[i], b[i]);
    }
}

/// The limit that a caller means by `limit`.
pub open spec fn limit_of(limit: Option<usize>) -> nat {
    match limit {
        Some(n) => n as nat,
        None => DEFAULT_LIMIT as nat,
    }
}

/// What rows of counts stand for.
pub open spec fn counts_of(rows: Seq<(String, u32)>) -> Seq<(Seq<char>, nat)> {
    rows.map_values(|e: (String, u32)| (e.0@, e.1 as nat))
}

/// How often each line of a history occurs.
pub struct HistoryCount {
    counts: Table<u32>,
}

impl View for HistoryCount {
    type V = Map<Seq<char>, nat>;

    closed spec fn view(&self) -> Map<Seq<char>, nat> {
        self.counts@.map_values(|c: u32| c as nat)
    }
}

impl HistoryCount {
    /// Counts the lines `all`.
    pub fn of_lines(all: &Vec<String>) -> (r: HistoryCount)
        requires
            forall|l: Seq<char>| occurrences(texts(all@), l) <= u32::MAX,
        ensures
            r@ == tally(texts(all@)),
    {
        let ghost ls = texts(all@);
        let mut r = HistoryCount { counts: Table::new() };
        assert(r@ =~= tally(ls.take(0)));
        let mut i: usize = 0;
        while i < all.len()
            invariant
                i <= all.len(),
                ls == texts(all@),
                forall|l: Seq<char>| occurrences(ls, l) <= u32::MAX,
                r@ == tally(ls.take(i as int)),
            decreases all.len() - i,
        {
            let line = all[i].clone();
            let ghost l = line@;
            assert(l == ls[i as int]);
            let ghost before = r@;
            let seen: u32 = match r.counts.get(line.as_str()) {
                Some(n) => *n,
                None => 0,
            };
            proof {
                assert(before.contains_key(l) == r.counts@.contains_key(l));
                if before.contains_key(l) {
                    assert(before[l] == r.counts@[l] as nat);
                    assert(before[l] == occurrences(ls.take(i as int), l));
                } else {
                    assert(occurrences(ls.take(i as int), l) == 0);
                }
                assert(seen == occurrences(ls.take(i as int), l));
                lemma_occurrences_next(ls, i as int, l);
                lemma_occurrences_take(ls, i + 1, l);
            }
            r.counts.insert(line, seen + 1);
            proof {
                let after = tally(ls.take(i + 1));
                assert(r@ =~= before.insert(l, (seen + 1) as nat));
                assert forall|k: Seq<char>| r@.contains_key(k) == after.contains_key(k) by {
                    lemma_occurrences_next(ls, i as int, k);
                    assert(before.contains_key(k) == (occurrences(ls.take(i as int), k) > 0));
                }
                assert forall|k: Seq<char>| r@.contains_key(k) implies r@[k] == after[k] by {
                    lemma_occurrences_next(ls, i as int, k);
                    if k != l {
                        assert(before.contains_key(k));
                    }
                }
                assert(r@ =~= after);
            }
            i += 1;
        }
        assert(ls.take(all.len() as int) =~= ls);
        r
    }

    /// Counts the lines of `history`.
    pub fn count(history: &str) -> (r: HistoryCount)
        requires
            forall|l: Seq<char>| occurrences(lines(history@), l) <= u32::MAX,
        ensures
            r@ == tally(lines(history@)),
    {
        let all = split_lines(history);
        HistoryCount::of_lines(&all)
    }

    /// Counts the lines of `history` where it has at most `u32::MAX` lines,
    /// so that every count fits.
    pub fn try_count(history: &str) -> (r: Option<HistoryCount>)
        ensures
            r is Some <==> lines(history@).len() <= u32::MAX,
            r matches Some(counts) ==> counts@ == tally(lines(history@)),
    {
        let all = split_lines(history);
        if all.len() > u32::MAX as usize {
            return None;
        }
        proof {
            assert forall|l: Seq<char>| occurrences(texts(all@), l) <= u32::MAX by {
                lemma_occurrences_bound(texts(all@), l);
            }
        }
        Some(HistoryCount::of_lines(&all))
    }

    /// How often `command` occurs: 0 where it does not occur.
    pub fn get(&self, command: &str) -> (n: u32)
        ensures
            n == if self@.contains_key(command@) {
                self@[command@]
            } else {
                0
            },
    {
        match self.counts.get(command) {
            Some(n) => *n,
            None => 0,
        }
    }

    /// The number of different lines.
    pub fn len(&self) -> (n: usize)
        ensures
            self@.dom().finite(),
            n == self@.dom().len(),
    {
        assert(self@.dom() =~= self.counts@.dom());
        self.counts.len()
    }

    /// All lines with their counts, in ascending order of their texts.
    pub fn all(&self) -> (rows: &Vec<(String, u32)>)
        ensures
            lists(counts_of(rows@), self@),
            self@.dom().finite(),
            self@.dom().len() == rows.len(),
    {
        let rows = self.counts.rows();
        proof {
            let f = |c: u32| c as nat;
            let es = rows_of(rows@);
            lemma_lists_map_values(es, self.counts@, f);
            assert(es.map_values(|e: (Seq<char>, u32)| (e.0, f(e.1))) =~= counts_of(rows@));
            lemma_lists_determines_map(counts_of(rows@), self@);
            lemma_len_table_of(counts_of(rows@));
        }
        rows
    }

    /// The lines that occur most often, the most frequent first: `limit` of
    /// them, or `DEFAULT_LIMIT` where `limit` is `None`, or all where there
    /// are fewer. Of two lines that occur equally often, the one whose text
    /// comes first in the order of names ranks first.
    pub fn rank(&self, limit: Option<usize>) -> (r: Vec<(String, u32)>)
        ensures
            ranked(counts_of(r@), self@, limit_of(limit)),
    {
        let rows = self.all();
        let ghost src = counts_of(rows@);
        let mut out: Vec<(String, u32)> = Vec::new();
        let mut i: usize = 0;
        assert(src.take(0) =~= Seq::<(Seq<char>, nat)>::empty());
        while i < rows.len()
            invariant
                i <= rows.len(),
                src == counts_of(rows@),
                ascending(src),
                descending(counts_of(out@)),
                rearranged(counts_of(out@), src.take(i as int)),
            decreases rows.len() - i,
        {
            let n: u32 = rows[i].1;
            let mut p: usize = 0;
            while p < out.len() && out[p].1 >= n
                invariant
                    p <= out.len(),
                    forall|a: int| 0 <= a < p ==> (#[trigger] out@[a]).1 >= n,
                decreases out.len() - p,
            {
                p += 1;
            }
            let ghost before = counts_of(out@);
            let ghost source = src.take(i as int);
            let ghost fresh = src[i as int];
            proof {
                assert forall|a: int| 0 <= a < p implies outranks(#[trigger] before[a], fresh) by {
                    assert(out@[a].1 >= n);
                    assert(source.contains(before[a]));
                    let j = choose|j: int| 0 <= j < source.len() && source[j] == before[a];
                    assert(source[j] == src[j]);
                    assert(precedes(src[j].0, src[i as int].0));
                }
                assert forall|a: int| p <= a < before.len() implies outranks(
                    fresh,
                    #[trigger] before[a],
                ) by {
                    assert(out@[p as int].1 < n);
                    if a > p {
                        assert(outranks(before[p as int], before[a]));
                    }
                }
                lemma_rank_step(source, before, fresh, p as int);
                assert(src.take(i + 1) =~= source.push(fresh));
            }
            let entry = (rows[i].0.clone(), n);
            out.insert(p, entry);
            assert(counts_of(out@) =~= before.insert(p as int, fresh));
            i += 1;
        }
        assert(src.take(rows.len() as int) =~= src);
        let most: usize = match limit {
            Some(n) => n,
            None => DEFAULT_LIMIT,
        };
        let ghost full = counts_of(out@);
        if most < out.len() {
            out.truncate(most);
        }
        proof {
            assert(counts_of(out@) =~= full.take(out.len() as int));
            lemma_ranked_take(full, src, self@, out.len() as int, limit_of(limit));
        }
        out
    }
}

impl AliasConfig {
    /// Counts the lines of a shell history.
    pub fn parse_history_string(&self, history: String) -> (r: HistoryCount)
        requires
            forall|l: Seq<char>| occurrences(lines(history@), l) <= u32::MAX,
        ensures
            r@ == tally(lines(history@)),
    {
        HistoryCount::count(history.as_str())
    }
}

} // verus!
