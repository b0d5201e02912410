//! When a second migration changes nothing.
use crate::graph::{
    candidate_score, chosen, lemma_unlabeled, none_positive, unlabeled, wins, EdgeView,
};
use crate::migrate::{
    apply_upto, candidates, choice, decided, lemma_apply, lemma_choice, lemma_outgoing_upto,
    lemma_plan, lemma_planned, made, migrate, outgoing, outgoing_upto, passes_on, plan,
    plan_upto, same_shape, taken, written,
};
use crate::score::{polarity_of, Polarity};
use vstd::prelude::*;

verus! {

/// No edge of `edges` chooses an edge for its label.
pub open spec fn settled(edges: Seq<EdgeView>, labels: Map<Seq<char>, Seq<char>>) -> bool {
    forall|k: int| #[trigger] choice(edges, labels, k) is None
}

/// No two edges whose label may move lead to the same node.
pub open spec fn single_feed(edges: Seq<EdgeView>) -> bool {
    forall|a: int, b: int|
        #![trigger passes_on(edges, a), passes_on(edges, b)]
        passes_on(edges, a) && passes_on(edges, b) && a != b ==> edges[a].dst != edges[b].dst
}

/// Where no edge chooses, no move is decided.
pub proof fn lemma_settled_plan(edges: Seq<EdgeView>, labels: Map<Seq<char>, Seq<char>>, n: int)
    requires
        settled(edges, labels),
        0 <= n,
    ensures
        plan_upto(edges, labels, n).len() == n,
        forall|k: int| 0 <= k < n ==> (#[trigger] plan_upto(edges, labels, n)[k]) is None,
    decreases n,
{
    if n > 0 {
        lemma_settled_plan(edges, labels, n - 1);
        assert(choice(edges, labels, n - 1) is None);
    }
}

/// A plan without moves leaves the edges as they are.
pub proof fn lemma_idle_plan(edges: Seq<EdgeView>, moves: Seq<Option<int>>, n: int)
    requires
        0 <= n <= moves.len(),
        forall|k: int| 0 <= k < n ==> (#[trigger] moves[k]) is None,
    ensures
        apply_upto(edges, moves, n) == edges,
    decreases n,
{
    if n > 0 {
        lemma_idle_plan(edges, moves, n - 1);
        assert(moves[n - 1] is None);
    }
}

/// Where no edge chooses, the migration leaves the edges as they are.
pub proof fn lemma_settled_stays(edges: Seq<EdgeView>, labels: Map<Seq<char>, Seq<char>>)
    requires
        settled(edges, labels),
    ensures
        migrate(edges, labels) == edges,
{
    lemma_settled_plan(edges, labels, edges.len() as int);
    lemma_idle_plan(edges, plan(edges, labels), edges.len() as int);
}

/// Edges of the same shape leave the same nodes.
pub proof fn lemma_outgoing_same(a: Seq<EdgeView>, b: Seq<EdgeView>, node: Seq<char>, n: int)
    requires
        same_shape(a, b),
        0 <= n <= a.len(),
    ensures
        outgoing_upto(a, node, n) == outgoing_upto(b, node, n),
    decreases n,
{
    if n > 0 {
        lemma_outgoing_same(a, b, node, n - 1);
        assert(a[n - 1].with_label(None) == b[n - 1].with_label(None));
    }
}

/// Which edges of a list carry no label depends on those edges alone.
pub proof fn lemma_unlabeled_same(a: Seq<EdgeView>, b: Seq<EdgeView>, list: Seq<int>)
    requires
        forall|j: int|
            0 <= j < list.len() ==> (a[#[trigger] list[j]].label is None) == (
            b[list[j]].label is None),
    ensures
        unlabeled(a, list) == unlabeled(b, list),
    decreases list.len(),
{
    if list.len() > 0 {
        let front = list.drop_last();
        assert forall|j: int| 0 <= j < front.len() implies (a[#[trigger] front[j]].label is None)
            == (b[front[j]].label is None) by {
            assert(front[j] == list[j]);
        }
        lemma_unlabeled_same(a, b, front);
        assert(list[list.len() - 1] == list.last());
    }
}

/// Whether a candidate wins depends on the candidates alone.
pub proof fn lemma_wins_same(
    a: Seq<EdgeView>,
    b: Seq<EdgeView>,
    labels: Map<Seq<char>, Seq<char>>,
    list: Seq<int>,
    polarity: Option<Polarity>,
    i: int,
)
    requires
        forall|j: int| 0 <= j < list.len() ==> a[#[trigger] list[j]].dst == b[list[j]].dst,
    ensures
        wins(a, labels, list, polarity, i) == wins(b, labels, list, polarity, i),
{
    if 0 <= i < list.len() {
        assert(a[list[i]].dst == b[list[i]].dst);
        assert forall|j: int| 0 <= j < list.len() implies candidate_score(
            a,
            labels,
            #[trigger] list[j],
            polarity,
        ) == candidate_score(b, labels, list[j], polarity) by {
            assert(a[list[j]].dst == b[list[j]].dst);
        }
        if wins(a, labels, list, polarity, i) {
            assert forall|j: int| 0 <= j < list.len() && j != i implies candidate_score(
                b,
                labels,
                #[trigger] list[j],
                polarity,
            ) < candidate_score(b, labels, list[i], polarity) by {
                assert(candidate_score(a, labels, list[j], polarity) < candidate_score(
                    a,
                    labels,
                    list[i],
                    polarity,
                ));
            }
        }
        if wins(b, labels, list, polarity, i) {
            assert forall|j: int| 0 <= j < list.len() && j != i implies candidate_score(
                a,
                labels,
                #[trigger] list[j],
                polarity,
            ) < candidate_score(a, labels, list[i], polarity) by {
                assert(candidate_score(b, labels, list[j], polarity) < candidate_score(
                    b,
                    labels,
                    list[i],
                    polarity,
                ));
            }
        }
    }
}

/// At most one candidate wins.
pub proof fn lemma_one_winner(
    edges: Seq<EdgeView>,
    labels: Map<Seq<char>, Seq<char>>,
    list: Seq<int>,
    polarity: Option<Polarity>,
    i: int,
    j: int,
)
    requires
        wins(edges, labels, list, polarity, i),
        wins(edges, labels, list, polarity, j),
    ensures
        i == j,
{
    if i != j {
        assert(candidate_score(edges, labels, list[j], polarity) < candidate_score(
            edges,
            labels,
            list[i],
            polarity,
        ));
        assert(candidate_score(edges, labels, list[i], polarity) < candidate_score(
            edges,
            labels,
            list[j],
            polarity,
        ));
    }
}

/// The choice among candidates depends on the candidates alone: on where
/// they lead and on whether they carry a label.
pub proof fn lemma_chosen_same(
    a: Seq<EdgeView>,
    b: Seq<EdgeView>,
    labels: Map<Seq<char>, Seq<char>>,
    list: Seq<int>,
    polarity: Option<Polarity>,
)
    requires
        forall|j: int|
            0 <= j < list.len() ==> a[#[trigger] list[j]].dst == b[list[j]].dst && (
            a[list[j]].label is None) == (b[list[j]].label is None),
    ensures
        chosen(a, labels, list, polarity) == chosen(b, labels, list, polarity),
{
    lemma_unlabeled_same(a, b, list);
    assert forall|j: int| 0 <= j < list.len() implies candidate_score(
        a,
        labels,
        #[trigger] list[j],
        polarity,
    ) == candidate_score(b, labels, list[j], polarity) by {
        assert(a[list[j]].dst == b[list[j]].dst);
    }
    assert(none_positive(a, labels, list, polarity) == none_positive(b, labels, list, polarity)) by {
        if none_positive(a, labels, list, polarity) {
            assert forall|i: int| 0 <= i < list.len() implies candidate_score(
                b,
                labels,
                #[trigger] list[i],
                polarity,
            ) <= 0 by {
                assert(candidate_score(a, labels, list[i], polarity) <= 0);
            }
        }
        if none_positive(b, labels, list, polarity) {
            assert forall|i: int| 0 <= i < list.len() implies candidate_score(
                a,
                labels,
                #[trigger] list[i],
                polarity,
            ) <= 0 by {
                assert(candidate_score(b, labels, list[i], polarity) <= 0);
            }
        }
    }
    assert forall|i: int| wins(a, labels, list, polarity, i) == wins(
        b,
        labels,
        list,
        polarity,
        i,
    ) by {
        lemma_wins_same(a, b, labels, list, polarity, i);
    }
    if list.len() > 1 && !none_positive(a, labels, list, polarity) {
        if exists|i: int| wins(a, labels, list, polarity, i) {
            let wa = choose|i: int| wins(a, labels, list, polarity, i);
            assert(wins(b, labels, list, polarity, wa));
            let wb = choose|i: int| wins(b, labels, list, polarity, i);
            assert(wins(a, labels, list, polarity, wb));
            lemma_one_winner(a, labels, list, polarity, wa, wb);
        } else {
            assert forall|i: int| !wins(b, labels, list, polarity, i) by {
                assert(!wins(a, labels, list, polarity, i));
            }
        }
    }
}

/// Edges of the same shape have the same edges leaving each node.
pub proof fn lemma_outgoing_of_same_shape(a: Seq<EdgeView>, b: Seq<EdgeView>, node: Seq<char>)
    requires
        same_shape(a, b),
    ensures
        outgoing(a, node) == outgoing(b, node),
{
    lemma_outgoing_same(a, b, node, a.len() as int);
}

/// After the migration no edge chooses an edge for its label, where no two
/// edges whose label may move lead to the same node.
pub proof fn lemma_no_choice_after(edges: Seq<EdgeView>, labels: Map<Seq<char>, Seq<char>>, k: int)
    requires
        single_feed(edges),
    ensures
        choice(migrate(edges, labels), labels, k) is None,
{
    let n = edges.len() as int;
    let after = migrate(edges, labels);
    let all = plan(edges, labels);
    lemma_apply(edges, labels, n);
    assert(made(edges, labels, n, after));
    if passes_on(after, k) {
        assert(after[k].with_label(None) == edges[k].with_label(None));
        lemma_outgoing_of_same_shape(after, edges, after[k].src);
        lemma_outgoing_of_same_shape(after, edges, after[k].dst);
        lemma_planned(edges, labels, k);
        lemma_plan(edges, labels, n);
        lemma_plan(edges, labels, k);
        // the edge took no part in a move
        assert(all[k] is None) by {
            if all[k] is Some {
                assert(after[k].label is None);
            }
        }
        assert(!written(all, n, k)) by {
            if exists|j: int| 0 <= j < n && #[trigger] all[j] == Some(k) {
                let j = choose|j: int| 0 <= j < n && #[trigger] all[j] == Some(k);
                lemma_planned(edges, labels, j);
                lemma_choice(edges, labels, j);
                assert(outgoing(edges, edges[k].src).len() >= 2);
            }
        }
        assert(after[k].label == edges[k].label);
        assert(passes_on(edges, k));
        // so it chose none before
        let before = plan_upto(edges, labels, k);
        assert(all[k] == decided(edges, labels, before, k));
        lemma_choice(edges, labels, k);
        assert(choice(edges, labels, k) is None) by {
            if choice(edges, labels, k) is Some {
                let t = choice(edges, labels, k)->0;
                if taken(before, k) {
                    let j = choose|j: int| 0 <= j < before.len() && #[trigger] before[j] == Some(k);
                    assert(before[j] == decided(edges, labels, plan_upto(edges, labels, j), j));
                    lemma_choice(edges, labels, j);
                } else {
                    assert(taken(before, t));
                    let j = choose|j: int| 0 <= j < before.len() && #[trigger] before[j] == Some(t);
                    assert(before[j] == decided(edges, labels, plan_upto(edges, labels, j), j));
                    lemma_choice(edges, labels, j);
                    assert(passes_on(edges, j) && passes_on(edges, k));
                    assert(edges[j].dst == edges[k].dst);
                }
            }
        }
        // and the edges it may choose among are as they were
        let node = edges[k].dst;
        let out = outgoing(edges, node);
        lemma_outgoing_upto(edges, node, n);
        assert forall|j: int| 0 <= j < out.len() implies after[#[trigger] out[j]].label
            == edges[out[j]].label && after[out[j]].dst == edges[out[j]].dst by {
            let c = out[j];
            assert(after[c].with_label(None) == edges[c].with_label(None));
            lemma_planned(edges, labels, c);
            assert(all[c] is None) by {
                if all[c] is Some {
                    assert(outgoing(edges, edges[c].src).len() == 1);
                }
            }
            assert(!written(all, n, c)) by {
                if exists|i: int| 0 <= i < n && #[trigger] all[i] == Some(c) {
                    let i = choose|i: int| 0 <= i < n && #[trigger] all[i] == Some(c);
                    lemma_planned(edges, labels, i);
                    assert(passes_on(edges, i) && passes_on(edges, k));
                    assert(edges[i].dst == edges[k].dst);
                }
            }
        }
        assert forall|j: int| 0 <= j < out.len() implies (after[#[trigger] out[j]].label is None)
            == (edges[out[j]].label is None) by {
            assert(after[out[j]].label == edges[out[j]].label);
        }
        lemma_unlabeled_same(after, edges, out);
        let cs = candidates(edges, node);
        lemma_unlabeled(edges, out);
        assert forall|j: int| 0 <= j < cs.len() implies after[#[trigger] cs[j]].dst
            == edges[cs[j]].dst && (after[cs[j]].label is None) == (edges[cs[j]].label is None) by {
            let c = cs[j];
            assert(out.contains(c));
            let i = choose|i: int| 0 <= i < out.len() && out[i] == c;
            assert(after[out[i]].label == edges[out[i]].label);
        }
        lemma_chosen_same(after, edges, labels, cs, polarity_of(edges[k].label->0));
    }
}

/// Where no two edges whose label may move lead to the same node, no edge
/// chooses an edge for its label after the migration.
pub proof fn lemma_migration_settles(edges: Seq<EdgeView>, labels: Map<Seq<char>, Seq<char>>)
    requires
        single_feed(edges),
    ensures
        settled(migrate(edges, labels), labels),
{
    let after = migrate(edges, labels);
    assert forall|k: int| #[trigger] choice(after, labels, k) is None by {
        lemma_no_choice_after(edges, labels, k);
    }
}

/// Where no two edges whose label may move lead to the same node, a second
/// migration changes nothing.
pub proof fn lemma_migration_is_idempotent(
    edges: Seq<EdgeView>,
    labels: Map<Seq<char>, Seq<char>>,
)
    requires
        single_feed(edges),
    ensures
        migrate(migrate(edges, labels), labels) == migrate(edges, labels),
{
    lemma_migration_settles(edges, labels);
    lemma_settled_stays(migrate(edges, labels), labels);
}

} // verus!
