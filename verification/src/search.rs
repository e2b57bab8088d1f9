//! Ranking: which entries match a query, and in what order they are shown.

use crate::text::{
    chars_equal, chars_less, chars_of, lemma_lex_irreflexive, lemma_lex_total,
    lemma_lex_transitive, lex_less,
};
use vstd::prelude::*;

verus! {

/// One entry as the ranking sees it: its title, and its score for the
/// current query, or no score where it does not match.
#[derive(Debug)]
pub struct Candidate {
    pub title: String,
    pub score: Option<i64>,
}

/// The mathematical content of a [`Candidate`].
pub struct CandidateView {
    pub title: Seq<char>,
    pub score: Option<i64>,
}

impl View for Candidate {
    type V = CandidateView;

    open spec fn view(&self) -> CandidateView {
        CandidateView { title: self.title@, score: self.score }
    }
}

impl DeepView for Candidate {
    type V = CandidateView;

    open spec fn deep_view(&self) -> CandidateView {
        self@
    }
}

/// The score of an entry from the scores of its two names: the larger where
/// both match, the one that matches where only one does, none where neither
/// does.
pub open spec fn combined_score(title: Option<i64>, generic: Option<i64>) -> Option<i64> {
    match (title, generic) {
        (Some(t), Some(g)) => Some(if t >= g { t } else { g }),
        (Some(t), None) => Some(t),
        (None, Some(g)) => Some(g),
        (None, None) => None,
    }
}

/// Combines the score of the title with that of the generic name.
pub fn combine_scores(title: Option<i64>, generic: Option<i64>) -> (r: Option<i64>)
    ensures
        r == combined_score(title, generic),
{
    match (title, generic) {
        (Some(t), Some(g)) => Some(if t >= g { t } else { g }),
        (Some(t), None) => Some(t),
        (None, Some(g)) => Some(g),
        (None, None) => None,
    }
}

/// Candidate `i` is shown before candidate `j`: it scores higher; or it
/// scores the same and its title sorts first; or score and title are the
/// same and it comes first in the list.
pub open spec fn ranks_before(c: Seq<CandidateView>, i: int, j: int) -> bool {
    let a = c[i];
    let b = c[j];
    a.score->0 > b.score->0 || (a.score->0 == b.score->0 && (lex_less(a.title, b.title) || (a.title
        == b.title && i < j)))
}

/// `order` lists the positions below `n` of the candidates that match, each
/// once, so that each is shown before all that follow it.
pub open spec fn is_ranking_upto(c: Seq<CandidateView>, n: int, order: Seq<usize>) -> bool {
    &&& forall|k: int|
        0 <= k < order.len() ==> (#[trigger] order[k]) < n && c[order[k] as int].score is Some
    &&& forall|i: int|
        0 <= i < n && (#[trigger] c[i]).score is Some ==> exists|k: int|
            0 <= k < order.len() && #[trigger] order[k] == i
    &&& forall|k: int, l: int|
        0 <= k < l < order.len() ==> ranks_before(
            c,
            #[trigger] order[k] as int,
            #[trigger] order[l] as int,
        )
}

/// `order` is the ranking of the candidates: the positions of all that
/// match, by falling score, equal scores by rising title, equal titles in
/// list order.
pub open spec fn is_ranking(c: Seq<CandidateView>, order: Seq<usize>) -> bool {
    is_ranking_upto(c, c.len() as int, order)
}

/// No candidate is shown before itself, and of two none is shown before the
/// other both ways.
pub proof fn lemma_ranks_asymmetric(c: Seq<CandidateView>, i: int, j: int)
    ensures
        !(ranks_before(c, i, j) && ranks_before(c, j, i)),
        !ranks_before(c, i, i),
{
    lemma_lex_total(c[i].title, c[j].title);
    lemma_lex_irreflexive(c[i].title);
}

/// Of two different candidates one is shown before the other.
pub proof fn lemma_ranks_total(c: Seq<CandidateView>, i: int, j: int)
    requires
        i != j,
    ensures
        ranks_before(c, i, j) || ranks_before(c, j, i),
{
    lemma_lex_total(c[i].title, c[j].title);
}

/// Being shown before is transitive.
pub proof fn lemma_ranks_transitive(c: Seq<CandidateView>, i: int, j: int, k: int)
    requires
        ranks_before(c, i, j),
        ranks_before(c, j, k),
    ensures
        ranks_before(c, i, k),
{
    let (a, b, d) = (c[i], c[j], c[k]);
    if a.score->0 == b.score->0 && b.score->0 == d.score->0 {
        if lex_less(a.title, b.title) && lex_less(b.title, d.title) {
            lemma_lex_transitive(a.title, b.title, d.title);
        }
    }
}

/// Putting a new last candidate into a ranking, behind all that are shown
/// before it and in front of the rest, gives the ranking with it.
proof fn lemma_insert_ranked(c: Seq<CandidateView>, order: Seq<usize>, p: int, x: usize)
    requires
        is_ranking_upto(c, x as int, order),
        x < c.len(),
        c[x as int].score is Some,
        0 <= p <= order.len(),
        forall|k: int| 0 <= k < p ==> !ranks_before(c, x as int, #[trigger] order[k] as int),
        p < order.len() ==> ranks_before(c, x as int, order[p] as int),
    ensures
        is_ranking_upto(c, x + 1, order.insert(p, x)),
{
    let new = order.insert(p, x);
    assert forall|k: int| 0 <= k < new.len() implies (#[trigger] new[k]) < x + 1 && c[new[k] as int].score is Some by {
        if k < p {
            assert(new[k] == order[k]);
        } else if k > p {
            assert(new[k] == order[k - 1]);
        }
    }
    assert forall|i: int| 0 <= i < x + 1 && (#[trigger] c[i]).score is Some implies exists|k: int|
        0 <= k < new.len() && #[trigger] new[k] == i by {
        if i == x {
            assert(new[p] == i);
        } else {
            let k0 = choose|k: int| 0 <= k < order.len() && #[trigger] order[k] == i;
            if k0 < p {
                assert(new[k0] == i);
            } else {
                assert(new[k0 + 1] == i);
            }
        }
    }
    assert forall|k: int, l: int| 0 <= k < l < new.len() implies ranks_before(
        c,
        #[trigger] new[k] as int,
        #[trigger] new[l] as int,
    ) by {
        if l < p {
            assert(new[k] == order[k] && new[l] == order[l]);
        } else if l == p {
            assert(new[k] == order[k]);
            lemma_ranks_total(c, x as int, order[k] as int);
        } else if k == p {
            assert(new[l] == order[l - 1]);
            if l - 1 > p {
                lemma_ranks_transitive(c, x as int, order[p] as int, order[l - 1] as int);
            }
        } else if k < p {
            assert(new[k] == order[k] && new[l] == order[l - 1]);
        } else {
            assert(new[k] == order[k - 1] && new[l] == order[l - 1]);
        }
    }
}

/// Whether candidate `i` is shown before candidate `j`.
fn shown_before(candidates: &Vec<Candidate>, titles: &Vec<Vec<char>>, i: usize, j: usize) -> (r:
    bool)
    requires
        i < candidates.len(),
        j < candidates.len(),
        candidates[i as int].score is Some,
        candidates[j as int].score is Some,
        titles.len() == candidates.len(),
        titles[i as int]@ == candidates[i as int].title@,
        titles[j as int]@ == candidates[j as int].title@,
    ensures
        r == ranks_before(candidates.deep_view(), i as int, j as int),
{
    let a: i64 = match candidates[i].score {
        Some(s) => s,
        None => 0,
    };
    let b: i64 = match candidates[j].score {
        Some(s) => s,
        None => 0,
    };
    if a != b {
        a > b
    } else if chars_less(&titles[i], &titles[j]) {
        true
    } else {
        chars_equal(&titles[i], &titles[j]) && i < j
    }
}

/// Ranks the candidates. The result holds positions in `candidates`. Each
/// candidate is put into the ranking of those before it, at a place found
/// by halving.
pub fn rank(candidates: &Vec<Candidate>) -> (order: Vec<usize>)
    ensures
        is_ranking(candidates.deep_view(), order@),
{
    let n = candidates.len();
    let ghost c = candidates.deep_view();
    let mut titles: Vec<Vec<char>> = Vec::new();
    let mut t: usize = 0;
    while t < n
        invariant
            t <= n,
            n == candidates.len(),
            titles.len() == t,
            forall|k: int| 0 <= k < t ==> (#[trigger] titles[k])@ == candidates[k].title@,
        decreases n - t,
    {
        titles.push(chars_of(candidates[t].title.as_str()));
        t += 1;
    }
    let mut order: Vec<usize> = Vec::new();
    let mut i: usize = 0;
    while i < n
        invariant
            i <= n,
            n == candidates.len(),
            c == candidates.deep_view(),
            titles.len() == n,
            forall|k: int| 0 <= k < n ==> (#[trigger] titles[k])@ == candidates[k].title@,
            is_ranking_upto(c, i as int, order@),
        decreases n - i,
    {
        if candidates[i].score.is_some() {
            let mut low: usize = 0;
            let mut high: usize = order.len();
            while low < high
                invariant
                    i < n,
                    n == candidates.len(),
                    c == candidates.deep_view(),
                    titles.len() == n,
                    forall|k: int| 0 <= k < n ==> (#[trigger] titles[k])@ == candidates[k].title@,
                    is_ranking_upto(c, i as int, order@),
                    candidates[i as int].score is Some,
                    low <= high <= order.len(),
                    forall|k: int|
                        0 <= k < low ==> !ranks_before(c, i as int, #[trigger] order@[k] as int),
                    forall|k: int|
                        high <= k < order.len() ==> ranks_before(
                            c,
                            i as int,
                            #[trigger] order@[k] as int,
                        ),
                decreases high - low,
            {
                let middle = low + (high - low) / 2;
                let held = order[middle];
                if shown_before(candidates, &titles, i, held) {
                    proof {
                        assert forall|k: int| middle <= k < order.len() implies ranks_before(
                            c,
                            i as int,
                            #[trigger] order@[k] as int,
                        ) by {
                            if k > middle {
                                assert(ranks_before(c, order@[middle as int] as int, order@[k] as int));
                                lemma_ranks_transitive(c, i as int, held as int, order@[k] as int);
                            }
                        }
                    }
                    high = middle;
                } else {
                    proof {
                        lemma_ranks_total(c, i as int, held as int);
                        assert forall|k: int| 0 <= k < middle + 1 implies !ranks_before(
                            c,
                            i as int,
                            #[trigger] order@[k] as int,
                        ) by {
                            if k < middle {
                                assert(ranks_before(c, order@[k] as int, order@[middle as int] as int));
                                lemma_ranks_transitive(c, order@[k] as int, held as int, i as int);
                                lemma_ranks_asymmetric(c, i as int, order@[k] as int);
                            }
                        }
                    }
                    low = middle + 1;
                }
            }
            proof {
                lemma_insert_ranked(c, order@, low as int, i);
            }
            order.insert(low, i);
        }
        i += 1;
    }
    order
}

/// Every value of `a` occurs in `b` and the other way round.
pub open spec fn same_members(a: Seq<usize>, b: Seq<usize>) -> bool {
    forall|x: usize| a.contains(x) <==> b.contains(x)
}

/// Each position of `order` is shown before all later ones.
pub open spec fn in_rank_order(c: Seq<CandidateView>, order: Seq<usize>) -> bool {
    forall|k: int, l: int|
        0 <= k < l < order.len() ==> ranks_before(
            c,
            #[trigger] order[k] as int,
            #[trigger] order[l] as int,
        )
}

/// Two lists in rank order with the same members are the same list.
proof fn lemma_rank_order_unique(c: Seq<CandidateView>, a: Seq<usize>, b: Seq<usize>)
    requires
        in_rank_order(c, a),
        in_rank_order(c, b),
        same_members(a, b),
    ensures
        a == b,
    decreases a.len(),
{
    if a.len() == 0 {
        if b.len() > 0 {
            assert(b.contains(b[0]));
            assert(a.contains(b[0]));
        }
        assert(a =~= b);
    } else {
        assert(a.contains(a[0]));
        assert(b.contains(a[0]));
        assert(b.contains(b[0]));
        assert(a.contains(b[0]));
        let k = choose|k: int| 0 <= k < b.len() && b[k] == a[0];
        let m = choose|m: int| 0 <= m < a.len() && a[m] == b[0];
        lemma_ranks_asymmetric(c, a[0] as int, b[0] as int);
        if a[0] != b[0] {
            assert(ranks_before(c, b[0] as int, b[k] as int));
            assert(ranks_before(c, a[0] as int, a[m] as int));
        }
        let ta = a.drop_first();
        let tb = b.drop_first();
        assert forall|x: usize| ta.contains(x) <==> tb.contains(x) by {
            lemma_ranks_asymmetric(c, x as int, x as int);
            if ta.contains(x) {
                let j = choose|j: int| 0 <= j < ta.len() && ta[j] == x;
                assert(a[j + 1] == x);
                assert(a.contains(x));
                let q = choose|q: int| 0 <= q < b.len() && b[q] == x;
                if q == 0 {
                    assert(ranks_before(c, a[0] as int, a[j + 1] as int));
                }
                assert(tb[q - 1] == x);
            }
            if tb.contains(x) {
                let j = choose|j: int| 0 <= j < tb.len() && tb[j] == x;
                assert(b[j + 1] == x);
                assert(b.contains(x));
                let q = choose|q: int| 0 <= q < a.len() && a[q] == x;
                if q == 0 {
                    assert(ranks_before(c, b[0] as int, b[j + 1] as int));
                }
                assert(ta[q - 1] == x);
            }
        }
        assert forall|k: int, l: int| 0 <= k < l < ta.len() implies ranks_before(
            c,
            #[trigger] ta[k] as int,
            #[trigger] ta[l] as int,
        ) by {
            assert(ta[k] == a[k + 1] && ta[l] == a[l + 1]);
        }
        assert forall|k: int, l: int| 0 <= k < l < tb.len() implies ranks_before(
            c,
            #[trigger] tb[k] as int,
            #[trigger] tb[l] as int,
        ) by {
            assert(tb[k] == b[k + 1] && tb[l] == b[l + 1]);
        }
        lemma_rank_order_unique(c, ta, tb);
        assert(a =~= seq![a[0]] + ta);
        assert(b =~= seq![b[0]] + tb);
    }
}

/// The candidates have one ranking only.
pub proof fn lemma_ranking_unique(c: Seq<CandidateView>, a: Seq<usize>, b: Seq<usize>)
    requires
        is_ranking(c, a),
        is_ranking(c, b),
    ensures
        a == b,
{
    assert forall|x: usize| a.contains(x) <==> b.contains(x) by {
        if a.contains(x) {
            let k = choose|k: int| 0 <= k < a.len() && a[k] == x;
            assert(c[a[k] as int].score is Some);
            let l = choose|l: int| 0 <= l < b.len() && #[trigger] b[l] == x as int;
            assert(b[l] == x);
        }
        if b.contains(x) {
            let k = choose|k: int| 0 <= k < b.len() && b[k] == x;
            assert(c[b[k] as int].score is Some);
            let l = choose|l: int| 0 <= l < a.len() && #[trigger] a[l] == x as int;
            assert(a[l] == x);
        }
    }
    lemma_rank_order_unique(c, a, b);
}

/// Where all candidates score the same and their titles never fall along
/// the list, the ranking is the list order itself: nothing is moved.
pub proof fn lemma_sorted_list_keeps_order(c: Seq<CandidateView>, order: Seq<usize>)
    requires
        c.len() <= usize::MAX,
        is_ranking(c, order),
        forall|i: int| 0 <= i < c.len() ==> (#[trigger] c[i]).score is Some,
        forall|i: int, j: int|
            0 <= i < j < c.len() ==> (#[trigger] c[i]).score == (#[trigger] c[j]).score && !lex_less(
                c[j].title,
                c[i].title,
            ),
    ensures
        order == Seq::new(c.len(), |i: int| i as usize),
{
    let id = Seq::new(c.len(), |i: int| i as usize);
    assert forall|k: int, l: int| 0 <= k < l < id.len() implies ranks_before(
        c,
        #[trigger] id[k] as int,
        #[trigger] id[l] as int,
    ) by {
        lemma_lex_total(c[k].title, c[l].title);
    }
    assert forall|i: int| 0 <= i < c.len() && (#[trigger] c[i]).score is Some implies exists|k: int|
        0 <= k < id.len() && #[trigger] id[k] == i by {
        assert(id[i] == i);
    }
    assert(is_ranking(c, id));
    lemma_ranking_unique(c, order, id);
}

} // verus!
