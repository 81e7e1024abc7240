use vstd::prelude::*;
use crate::counting::{table_view, well_formed_table, WordCounts};

verus! {

/// Counts never increase along `r`.
pub open spec fn sorted_by_count_desc(r: Seq<(Seq<char>, int)>) -> bool {
    forall|i: int, j: int| 0 <= i < j < r.len() ==> #[trigger] r[i].1 >= #[trigger] r[j].1
}

/// The predicate "has count `c`" on table entries.
pub open spec fn count_is(c: int) -> spec_fn((Seq<char>, int)) -> bool {
    |x: (Seq<char>, int)| x.1 == c
}

/// `r` is `e` reordered by decreasing count, entries of equal count keeping
/// their order in `e` (a stable sort): for every count, the entries with that
/// count appear in `r` exactly as they appear in `e`.
pub open spec fn is_stable_ranking(r: Seq<(Seq<char>, int)>, e: Seq<(Seq<char>, int)>) -> bool {
    &&& sorted_by_count_desc(r)
    &&& forall|c: int| #[trigger] r.filter(count_is(c)) == e.filter(count_is(c))
}

/// A sequence none of whose elements satisfies `p` filters to nothing.
proof fn lemma_filter_none(s: Seq<(Seq<char>, int)>, p: spec_fn((Seq<char>, int)) -> bool)
    requires
        forall|i: int| 0 <= i < s.len() ==> !p(#[trigger] s[i]),
    ensures
        s.filter(p).len() == 0,
{
    if s.filter(p).len() > 0 {
        let x = s.filter(p)[0];
        s.lemma_filter_pred(p, 0);
        assert(s.filter(p).contains(x));
        s.lemma_filter_contains_rev(p, x);
    }
}

/// Inserting `x` after every entry of count at least `x.1` and before every
/// entry of smaller count keeps the order and appends `x` to the entries of
/// its count.
proof fn lemma_insert_ranked(r: Seq<(Seq<char>, int)>, p: int, x: (Seq<char>, int))
    requires
        sorted_by_count_desc(r),
        0 <= p <= r.len(),
        forall|q: int| 0 <= q < p ==> #[trigger] r[q].1 >= x.1,
        forall|q: int| p <= q < r.len() ==> #[trigger] r[q].1 < x.1,
    ensures
        sorted_by_count_desc(r.insert(p, x)),
        forall|c: int| #[trigger] r.insert(p, x).filter(count_is(c)) == if c == x.1 {
            r.filter(count_is(c)).push(x)
        } else {
            r.filter(count_is(c))
        },
{
    let r2 = r.insert(p, x);
    let a = r.take(p);
    let b = r.skip(p);
    assert(r2 =~= a + seq![x] + b);
    assert(r =~= a + b);
    assert forall|i: int, j: int| 0 <= i < j < r2.len() implies #[trigger] r2[i].1 >= #[trigger] r2[j].1 by {
        if j < p {
        } else if j == p {
        } else if i < p {
            assert(r2[i] == r[i] && r2[j] == r[j - 1]);
        } else if i == p {
            assert(r2[j] == r[j - 1]);
        } else {
            assert(r2[i] == r[i - 1] && r2[j] == r[j - 1]);
        }
    }
    assert forall|c: int| #[trigger] r2.filter(count_is(c)) == if c == x.1 {
        r.filter(count_is(c)).push(x)
    } else {
        r.filter(count_is(c))
    } by {
        let f = count_is(c);
        Seq::filter_distributes_over_add(a + seq![x], b, f);
        Seq::filter_distributes_over_add(a, seq![x], f);
        Seq::filter_distributes_over_add(a, b, f);
        reveal_with_fuel(Seq::filter, 2);
        assert(seq![x].drop_last() =~= Seq::<(Seq<char>, int)>::empty());
        if c == x.1 {
            assert forall|i: int| 0 <= i < b.len() implies !f(#[trigger] b[i]) by {
                assert(b[i] == r[p + i]);
            }
            lemma_filter_none(b, f);
            assert(b.filter(f) =~= Seq::<(Seq<char>, int)>::empty());
            assert(seq![x].filter(f) =~= seq![x]);
            assert(r2.filter(f) =~= a.filter(f).push(x));
            assert(r.filter(f) =~= a.filter(f));
        } else {
            assert(seq![x].filter(f) =~= Seq::<(Seq<char>, int)>::empty());
            assert(r2.filter(f) =~= a.filter(f) + b.filter(f));
        }
    }
}

/// The entries of `counts`, most frequent first; entries of equal count stay
/// in table order.
pub fn rank_entries(counts: &WordCounts) -> (res: Vec<(String, usize)>)
    ensures
        is_stable_ranking(table_view(res@), counts@),
        res@.len() == counts@.len(),
{
    let src = counts.entries();
    let ghost e = counts@;
    let n = src.len();
    let mut res: Vec<(String, usize)> = Vec::new();
    let mut k: usize = 0;
    proof {
        reveal_with_fuel(Seq::filter, 1);
        assert(table_view(res@) =~= Seq::<(Seq<char>, int)>::empty());
        assert(e.take(0) =~= Seq::<(Seq<char>, int)>::empty());
    }
    while k < n
        invariant
            n == src@.len(),
            e == table_view(src@),
            k <= n,
            res@.len() == k,
            sorted_by_count_desc(table_view(res@)),
            forall|c: int| #[trigger] table_view(res@).filter(count_is(c)) == e.take(k as int).filter(count_is(c)),
        decreases n - k,
    {
        let item = (src[k].0.clone(), src[k].1);
        let ghost r = table_view(res@);
        let mut p: usize = 0;
        while p < res.len() && res[p].1 >= item.1
            invariant
                p <= res@.len(),
                r == table_view(res@),
                forall|q: int| 0 <= q < p ==> #[trigger] r[q].1 >= item.1,
            decreases res@.len() - p,
        {
            proof {
                assert(r[p as int].1 == res@[p as int].1);
            }
            p = p + 1;
        }
        proof {
            if p < res@.len() {
                assert(r[p as int].1 == res@[p as int].1);
                assert forall|q: int| p <= q < r.len() implies #[trigger] r[q].1 < item.1 by {
                    if q > p {
                        assert(r[p as int].1 >= r[q].1);
                    }
                }
            }
            assert(e[k as int] == (item.0@, item.1 as int));
            lemma_insert_ranked(r, p as int, (item.0@, item.1 as int));
            assert(e.take(k + 1) =~= e.take(k as int).push(e[k as int]));
            assert forall|c: int| #[trigger] e.take(k + 1).filter(count_is(c)) == if c == item.1 {
                e.take(k as int).filter(count_is(c)).push(e[k as int])
            } else {
                e.take(k as int).filter(count_is(c))
            } by {
                e.take(k as int).lemma_filter_push(e[k as int], count_is(c));
            }
        }
        res.insert(p, item);
        proof {
            assert(table_view(res@) =~= r.insert(p as int, (item.0@, item.1 as int)));
        }
        k = k + 1;
    }
    proof {
        assert(e.take(n as int) =~= e);
    }
    res
}

/// An entry of `r` with count `x.1` is kept by the filter for that count.
proof fn lemma_in_filter(r: Seq<(Seq<char>, int)>, i: int)
    requires
        0 <= i < r.len(),
    ensures
        r.filter(count_is(r[i].1)).contains(r[i]),
{
    r.lemma_filter_contains(count_is(r[i].1), i);
}

/// Two count-sorted tables with the same entries of each count are equal.
proof fn lemma_sorted_same_filters_equal(r1: Seq<(Seq<char>, int)>, r2: Seq<(Seq<char>, int)>)
    requires
        sorted_by_count_desc(r1),
        sorted_by_count_desc(r2),
        forall|c: int| #[trigger] r1.filter(count_is(c)) == r2.filter(count_is(c)),
    ensures
        r1 == r2,
    decreases r1.len() + r2.len(),
{
    reveal_with_fuel(Seq::filter, 1);
    if r1.len() == 0 && r2.len() == 0 {
        assert(r1 =~= r2);
    } else if r1.len() == 0 {
        lemma_in_filter(r2, 0);
        assert(r1.filter(count_is(r2[0].1)).len() == 0);
    } else if r2.len() == 0 {
        lemma_in_filter(r1, 0);
        assert(r2.filter(count_is(r1[0].1)).len() == 0);
    } else {
        let a = r1[0].1;
        let b = r2[0].1;
        lemma_in_filter(r1, 0);
        r2.lemma_filter_contains_rev(count_is(a), r1[0]);
        let k2 = choose|k: int| 0 <= k < r2.len() && r2[k] == r1[0];
        if k2 > 0 {
            assert(r2[0].1 >= r2[k2].1);
        }
        lemma_in_filter(r2, 0);
        r1.lemma_filter_contains_rev(count_is(b), r2[0]);
        let k1 = choose|k: int| 0 <= k < r1.len() && r1[k] == r2[0];
        if k1 > 0 {
            assert(r1[0].1 >= r1[k1].1);
        }
        assert(a == b);
        let t1 = r1.drop_first();
        let t2 = r2.drop_first();
        assert(r1 =~= seq![r1[0]] + t1);
        assert(r2 =~= seq![r2[0]] + t2);
        assert forall|c: int| #[trigger] t1.filter(count_is(c)) == t2.filter(count_is(c)) by {
            t1.lemma_filter_prepend(r1[0], count_is(c));
            t2.lemma_filter_prepend(r2[0], count_is(c));
            assert(r1.filter(count_is(c)) == r2.filter(count_is(c)));
            if c == a {
                assert(r1.filter(count_is(c))[0] == r1[0]);
                assert(r2.filter(count_is(c))[0] == r2[0]);
                assert(t1.filter(count_is(c)) =~= r1.filter(count_is(c)).drop_first());
                assert(t2.filter(count_is(c)) =~= r2.filter(count_is(c)).drop_first());
            } else {
                assert(t1.filter(count_is(c)) =~= r1.filter(count_is(c)));
                assert(t2.filter(count_is(c)) =~= r2.filter(count_is(c)));
            }
        }
        assert(r1[0] == r2[0]) by {
            t1.lemma_filter_prepend(r1[0], count_is(a));
            t2.lemma_filter_prepend(r2[0], count_is(a));
            assert(r1.filter(count_is(a))[0] == r1[0]);
            assert(r2.filter(count_is(a))[0] == r2[0]);
        }
        assert forall|i: int, j: int| 0 <= i < j < t1.len() implies #[trigger] t1[i].1 >= #[trigger] t1[j].1 by {
            assert(t1[i] == r1[i + 1] && t1[j] == r1[j + 1]);
        }
        assert forall|i: int, j: int| 0 <= i < j < t2.len() implies #[trigger] t2[i].1 >= #[trigger] t2[j].1 by {
            assert(t2[i] == r2[i + 1] && t2[j] == r2[j + 1]);
        }
        lemma_sorted_same_filters_equal(t1, t2);
    }
}

/// The ranking of a table is determined: any two stable rankings by count
/// of the same table are the same sequence.
pub proof fn law_ranking_is_unique(r1: Seq<(Seq<char>, int)>, r2: Seq<(Seq<char>, int)>, e: Seq<(Seq<char>, int)>)
    requires
        is_stable_ranking(r1, e),
        is_stable_ranking(r2, e),
    ensures
        r1 == r2,
{
    assert forall|c: int| #[trigger] r1.filter(count_is(c)) == r2.filter(count_is(c)) by {
        assert(r1.filter(count_is(c)) == e.filter(count_is(c)));
        assert(r2.filter(count_is(c)) == e.filter(count_is(c)));
    }
    lemma_sorted_same_filters_equal(r1, r2);
}

/// Ranking neither adds nor drops an entry.
pub proof fn law_ranking_keeps_entries(r: Seq<(Seq<char>, int)>, e: Seq<(Seq<char>, int)>, x: (Seq<char>, int))
    requires
        is_stable_ranking(r, e),
    ensures
        r.contains(x) <==> e.contains(x),
{
    if r.contains(x) {
        let i = choose|i: int| 0 <= i < r.len() && r[i] == x;
        lemma_in_filter(r, i);
        assert(r.filter(count_is(x.1)) == e.filter(count_is(x.1)));
        e.lemma_filter_contains_rev(count_is(x.1), x);
    }
    if e.contains(x) {
        let i = choose|i: int| 0 <= i < e.len() && e[i] == x;
        lemma_in_filter(e, i);
        assert(r.filter(count_is(x.1)) == e.filter(count_is(x.1)));
        r.lemma_filter_contains_rev(count_is(x.1), x);
    }
}

/// The first entry of a ranking has the highest count of the table.
pub proof fn law_first_ranked_is_most_frequent(r: Seq<(Seq<char>, int)>, e: Seq<(Seq<char>, int)>)
    requires
        is_stable_ranking(r, e),
        r.len() > 0,
    ensures
        forall|i: int| 0 <= i < e.len() ==> #[trigger] e[i].1 <= r[0].1,
{
    assert forall|i: int| 0 <= i < e.len() implies #[trigger] e[i].1 <= r[0].1 by {
        assert(e.contains(e[i]));
        law_ranking_keeps_entries(r, e, e[i]);
        let k = choose|k: int| 0 <= k < r.len() && r[k] == e[i];
        if k > 0 {
            assert(r[0].1 >= r[k].1);
        }
    }
}

/// A repeated element that passes the filter is repeated in the result.
proof fn lemma_filter_keeps_repeat(s: Seq<(Seq<char>, int)>, p: spec_fn((Seq<char>, int)) -> bool, i: int, j: int)
    requires
        0 <= i < j < s.len(),
        s[i] == s[j],
        p(s[i]),
    ensures
        exists|a: int, b: int| 0 <= a < b < s.filter(p).len() && #[trigger] s.filter(p)[a] == #[trigger] s.filter(p)[b],
    decreases s.len(),
{
    let d = s.drop_last();
    assert(s =~= d.push(s.last()));
    d.lemma_filter_push(s.last(), p);
    if j == s.len() - 1 {
        assert(d[i] == s[i]);
        d.lemma_filter_contains(p, i);
        let a = choose|a: int| 0 <= a < d.filter(p).len() && d.filter(p)[a] == d[i];
        let b = d.filter(p).len() as int;
        assert(s.filter(p)[a] == s.filter(p)[b]);
    } else {
        assert(d[i] == s[i] && d[j] == s[j]);
        lemma_filter_keeps_repeat(d, p, i, j);
        let (a, b) = choose|a: int, b: int| 0 <= a < b < d.filter(p).len() && #[trigger] d.filter(p)[a] == #[trigger] d.filter(p)[b];
        assert(s.filter(p)[a] == d.filter(p)[a]);
        assert(s.filter(p)[b] == d.filter(p)[b]);
    }
}

/// Filtering a sequence without repeated elements gives one without
/// repeated elements.
proof fn lemma_filter_no_repeat(s: Seq<(Seq<char>, int)>, p: spec_fn((Seq<char>, int)) -> bool)
    requires
        forall|i: int, j: int| 0 <= i < j < s.len() ==> #[trigger] s[i] != #[trigger] s[j],
    ensures
        forall|a: int, b: int| 0 <= a < b < s.filter(p).len() ==> #[trigger] s.filter(p)[a] != #[trigger] s.filter(p)[b],
    decreases s.len(),
{
    if s.len() > 0 {
        let d = s.drop_last();
        assert(s =~= d.push(s.last()));
        d.lemma_filter_push(s.last(), p);
        assert forall|i: int, j: int| 0 <= i < j < d.len() implies #[trigger] d[i] != #[trigger] d[j] by {
            assert(d[i] == s[i] && d[j] == s[j]);
        }
        lemma_filter_no_repeat(d, p);
        let f = s.filter(p);
        let g = d.filter(p);
        assert forall|a: int, b: int| 0 <= a < b < f.len() implies #[trigger] f[a] != #[trigger] f[b] by {
            if b == g.len() && p(s.last()) {
                if f[a] == f[b] {
                    assert(g.contains(f[a]));
                    d.lemma_filter_contains_rev(p, f[a]);
                    let k = choose|k: int| 0 <= k < d.len() && d[k] == f[a];
                    assert(s[k] == s[s.len() - 1]);
                }
            } else {
                assert(f[a] == g[a] && f[b] == g[b]);
            }
        }
    }
}

/// A stable ranking of a table in which no word appears twice lists each
/// word once.
pub proof fn law_ranking_lists_each_word_once(r: Seq<(Seq<char>, int)>, e: Seq<(Seq<char>, int)>)
    requires
        well_formed_table(e),
        is_stable_ranking(r, e),
    ensures
        forall|i: int, j: int| 0 <= i < j < r.len() ==> #[trigger] r[i].0 != #[trigger] r[j].0,
{
    assert forall|i: int, j: int| 0 <= i < j < r.len() implies #[trigger] r[i].0 != #[trigger] r[j].0 by {
        if r[i].0 == r[j].0 {
            if r[i] == r[j] {
                let c = r[i].1;
                lemma_filter_keeps_repeat(r, count_is(c), i, j);
                assert forall|a: int, b: int| 0 <= a < b < e.len() implies #[trigger] e[a] != #[trigger] e[b] by {
                    assert(e[a].0 != e[b].0);
                }
                lemma_filter_no_repeat(e, count_is(c));
                assert(r.filter(count_is(c)) == e.filter(count_is(c)));
            } else {
                assert(r.contains(r[i]) && r.contains(r[j]));
                law_ranking_keeps_entries(r, e, r[i]);
                law_ranking_keeps_entries(r, e, r[j]);
                let a = choose|a: int| 0 <= a < e.len() && e[a] == r[i];
                let b = choose|b: int| 0 <= b < e.len() && e[b] == r[j];
                assert(a != b);
                if a < b {
                    assert(e[a].0 != e[b].0);
                } else {
                    assert(e[b].0 != e[a].0);
                }
            }
        }
    }
}

/// No two entries of `e` share a count.
pub open spec fn counts_distinct(e: Seq<(Seq<char>, int)>) -> bool {
    forall|i: int, j: int| 0 <= i < j < e.len() ==> #[trigger] e[i].1 != #[trigger] e[j].1
}

/// Filtering by a count that at most one entry has keeps just that entry.
proof fn lemma_filter_single_count(e: Seq<(Seq<char>, int)>, c: int)
    requires
        counts_distinct(e),
    ensures
        forall|i: int| 0 <= i < e.len() && e[i].1 == c ==> e.filter(count_is(c)) == seq![#[trigger] e[i]],
        (forall|i: int| 0 <= i < e.len() ==> #[trigger] e[i].1 != c) ==> e.filter(count_is(c)).len() == 0,
    decreases e.len(),
{
    reveal_with_fuel(Seq::filter, 1);
    if e.len() > 0 {
        let d = e.drop_last();
        assert forall|i: int, j: int| 0 <= i < j < d.len() implies #[trigger] d[i].1 != #[trigger] d[j].1 by {
            assert(d[i] == e[i] && d[j] == e[j]);
        }
        lemma_filter_single_count(d, c);
        assert(e.filter(count_is(c)) == if count_is(c)(e.last()) {
            d.filter(count_is(c)).push(e.last())
        } else {
            d.filter(count_is(c))
        });
        if e.last().1 == c {
            assert forall|i: int| 0 <= i < d.len() implies #[trigger] d[i].1 != c by {
                assert(d[i] == e[i]);
                assert(e[i].1 != e[e.len() - 1].1);
            }
            assert(e.filter(count_is(c)) =~= seq![e[e.len() - 1]]);
        } else {
            assert forall|i: int| 0 <= i < e.len() && e[i].1 == c implies e.filter(count_is(c)) == seq![#[trigger] e[i]] by {
                assert(i < d.len());
                assert(d[i] == e[i]);
            }
            assert((forall|i: int| 0 <= i < e.len() ==> #[trigger] e[i].1 != c) ==> (forall|i: int| 0 <= i < d.len() ==> #[trigger] d[i].1 != c));
        }
    }
}

/// When no two entries share a count, the ranking does not depend on the
/// order of the table: two tables with the same entries, in any order, rank
/// the same.
pub proof fn law_ranking_ignores_table_order(
    r1: Seq<(Seq<char>, int)>,
    e1: Seq<(Seq<char>, int)>,
    r2: Seq<(Seq<char>, int)>,
    e2: Seq<(Seq<char>, int)>,
)
    requires
        counts_distinct(e1),
        counts_distinct(e2),
        forall|x: (Seq<char>, int)| e1.contains(x) <==> e2.contains(x),
        is_stable_ranking(r1, e1),
        is_stable_ranking(r2, e2),
    ensures
        r1 == r2,
{
    assert forall|c: int| #[trigger] r1.filter(count_is(c)) == r2.filter(count_is(c)) by {
        lemma_filter_single_count(e1, c);
        lemma_filter_single_count(e2, c);
        if exists|i: int| 0 <= i < e1.len() && e1[i].1 == c {
            let i = choose|i: int| 0 <= i < e1.len() && e1[i].1 == c;
            assert(e1.contains(e1[i]));
            assert(e2.contains(e1[i]));
            let j = choose|j: int| 0 <= j < e2.len() && e2[j] == e1[i];
            assert(e1.filter(count_is(c)) == seq![e1[i]]);
            assert(e2.filter(count_is(c)) == seq![e2[j]]);
        } else {
            assert forall|j: int| 0 <= j < e2.len() implies #[trigger] e2[j].1 != c by {
                assert(e2.contains(e2[j]));
                assert(e1.contains(e2[j]));
                let i = choose|i: int| 0 <= i < e1.len() && e1[i] == e2[j];
            }
            assert(e1.filter(count_is(c)) =~= e2.filter(count_is(c)));
        }
        assert(r1.filter(count_is(c)) == e1.filter(count_is(c)));
        assert(r2.filter(count_is(c)) == e2.filter(count_is(c)));
    }
    lemma_sorted_same_filters_equal(r1, r2);
}

/// The first `n` entries of `ranked`, or all of them when there are fewer.
pub fn top_entries(ranked: &Vec<(String, usize)>, n: usize) -> (res: Vec<(String, usize)>)
    ensures
        table_view(res@) == if ranked@.len() <= n {
            table_view(ranked@)
        } else {
            table_view(ranked@).take(n as int)
        },
{
    let m = if ranked.len() <= n {
        ranked.len()
    } else {
        n
    };
    let mut res: Vec<(String, usize)> = Vec::new();
    let mut i: usize = 0;
    while i < m
        invariant
            m <= ranked@.len(),
            m == if ranked@.len() <= n { ranked@.len() } else { n as nat },
            i <= m,
            res@.len() == i,
            table_view(res@) == table_view(ranked@).take(i as int),
        decreases m - i,
    {
        let w = ranked[i].0.clone();
        let ghost before = res@;
        res.push((w, ranked[i].1));
        proof {
            assert(w@ == ranked@[i as int].0@);
            assert(table_view(res@)[i as int] == table_view(ranked@)[i as int]);
            assert(table_view(res@).drop_last() =~= table_view(before));
            assert(table_view(res@) =~= table_view(ranked@).take(i + 1));
        }
        i = i + 1;
    }
    proof {
        assert(table_view(ranked@).take(ranked@.len() as int) =~= table_view(ranked@));
    }
    res
}

} // verus!
