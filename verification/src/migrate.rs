//! Moving branch labels from pass-through edges onto the edges of the
//! decision node behind them: first every move is decided against the edges
//! as they stand, then the moves are made.
use crate::graph::{
    candidate_score, choose_edge, chosen, int_of, ints, lemma_chosen_is_candidate,
    lemma_unlabeled, lemma_unlabeled_keeps_open, none_positive, unlabeled, unlabeled_of, wins,
    Edge, EdgeView,
};
use crate::score::{is_branch_label, is_branch_token, label_polarity, polarity_of};
use crate::text::same_text;
use crate::textmap::TextMap;
use vstd::prelude::*;

verus! {

/// The edges among the first `n` that leave `node`, in their order.
pub open spec fn outgoing_upto(edges: Seq<EdgeView>, node: Seq<char>, n: int) -> Seq<int>
    decreases n,
{
    if n <= 0 {
        Seq::empty()
    } else {
        let rest = outgoing_upto(edges, node, n - 1);
        if edges[n - 1].src == node {
            rest.push(n - 1)
        } else {
            rest
        }
    }
}

/// The edges that leave `node`, in their order.
pub open spec fn outgoing(edges: Seq<EdgeView>, node: Seq<char>) -> Seq<int> {
    outgoing_upto(edges, node, edges.len() as int)
}

/// The edges that leave `node` and carry no label.
pub open spec fn candidates(edges: Seq<EdgeView>, node: Seq<char>) -> Seq<int> {
    unlabeled(edges, outgoing(edges, node))
}

/// Edge `k` carries a branch token, is the only edge that leaves its source,
/// and leads to a node that at least two edges leave.
pub open spec fn passes_on(edges: Seq<EdgeView>, k: int) -> bool {
    &&& 0 <= k < edges.len()
    &&& edges[k].label matches Some(l) && is_branch_token(l)
    &&& outgoing(edges, edges[k].src).len() == 1
    &&& outgoing(edges, edges[k].dst).len() >= 2
}

/// The edge to which edge `k` would give its label, were it the only edge
/// to give one.
pub open spec fn choice(edges: Seq<EdgeView>, labels: Map<Seq<char>, Seq<char>>, k: int) -> Option<
    int,
> {
    if passes_on(edges, k) {
        chosen(
            edges,
            labels,
            candidates(edges, edges[k].dst),
            polarity_of(edges[k].label->0),
        )
    } else {
        None
    }
}

/// Whether one of the moves of `plan` goes to edge `t`.
pub open spec fn taken(plan: Seq<Option<int>>, t: int) -> bool {
    exists|j: int| 0 <= j < plan.len() && #[trigger] plan[j] == Some(t)
}

/// The move that is decided for edge `k` after the moves of `plan`: the
/// choice of the edge, unless the edge itself or the edge it chose has
/// received a label by one of those moves.
pub open spec fn decided(
    edges: Seq<EdgeView>,
    labels: Map<Seq<char>, Seq<char>>,
    plan: Seq<Option<int>>,
    k: int,
) -> Option<int> {
    match choice(edges, labels, k) {
        Some(t) => if taken(plan, k) || taken(plan, t) {
            None
        } else {
            Some(t)
        },
        None => None,
    }
}

/// The moves decided for the first `n` edges, in order: for each edge the
/// edge that receives its label, if one does.
pub open spec fn plan_upto(edges: Seq<EdgeView>, labels: Map<Seq<char>, Seq<char>>, n: int) -> Seq<
    Option<int>,
>
    decreases n,
{
    if n <= 0 {
        Seq::empty()
    } else {
        let before = plan_upto(edges, labels, n - 1);
        before.push(decided(edges, labels, before, n - 1))
    }
}

/// The moves decided for the edges. Every move is decided against the
/// labels as the edges have them before any move is made; an edge that has
/// been chosen once receives no second label.
pub open spec fn plan(edges: Seq<EdgeView>, labels: Map<Seq<char>, Seq<char>>) -> Seq<Option<int>> {
    plan_upto(edges, labels, edges.len() as int)
}

/// The edges `now` after edge `k` has given `label` to edge `t`.
pub open spec fn moved(now: Seq<EdgeView>, label: Option<Seq<char>>, k: int, t: int) -> Seq<
    EdgeView,
> {
    now.update(t, now[t].with_label(label)).update(k, now[k].with_label(None))
}

/// The edges after the first `n` moves of `plan` have been made.
pub open spec fn apply_upto(edges: Seq<EdgeView>, plan: Seq<Option<int>>, n: int) -> Seq<EdgeView>
    decreases n,
{
    if n <= 0 {
        edges
    } else {
        let now = apply_upto(edges, plan, n - 1);
        match plan[n - 1] {
            Some(t) => moved(now, edges[n - 1].label, n - 1, t),
            None => now,
        }
    }
}

/// The edges after every branch label that can be placed has moved.
pub open spec fn migrate(edges: Seq<EdgeView>, labels: Map<Seq<char>, Seq<char>>) -> Seq<
    EdgeView,
> {
    apply_upto(edges, plan(edges, labels), edges.len() as int)
}

/// Every edge that `outgoing_upto` lists is one of the first `n` and leaves
/// `node`.
pub proof fn lemma_outgoing_upto(edges: Seq<EdgeView>, node: Seq<char>, n: int)
    requires
        0 <= n <= edges.len(),
    ensures
        forall|j: int|
            0 <= j < outgoing_upto(edges, node, n).len() ==> {
                let c = #[trigger] outgoing_upto(edges, node, n)[j];
                0 <= c < n && edges[c].src == node
            },
    decreases n,
{
    if n > 0 {
        lemma_outgoing_upto(edges, node, n - 1);
    }
}

/// Every candidate is an edge that leaves the node and carries no label.
pub proof fn lemma_candidates(edges: Seq<EdgeView>, node: Seq<char>)
    ensures
        candidates(edges, node).len() <= outgoing(edges, node).len(),
        forall|j: int|
            0 <= j < candidates(edges, node).len() ==> {
                let c = #[trigger] candidates(edges, node)[j];
                0 <= c < edges.len() && edges[c].src == node && edges[c].label is None
            },
{
    let out = outgoing(edges, node);
    lemma_outgoing_upto(edges, node, edges.len() as int);
    lemma_unlabeled(edges, out);
    assert forall|j: int| 0 <= j < candidates(edges, node).len() implies {
        let c = #[trigger] candidates(edges, node)[j];
        0 <= c < edges.len() && edges[c].src == node && edges[c].label is None
    } by {
        let c = candidates(edges, node)[j];
        let i = choose|i: int| 0 <= i < out.len() && out[i] == c;
        assert(out[i] == c);
    }
}

/// Two lists of edges differ in their labels at most.
pub open spec fn same_shape(a: Seq<EdgeView>, b: Seq<EdgeView>) -> bool {
    &&& a.len() == b.len()
    &&& forall|i: int| 0 <= i < a.len() ==> (#[trigger] a[i]).with_label(None) == b[i].with_label(None)
}

/// The edge that an edge chooses is an edge of the list without a label
/// that leaves the node the edge leads to; it is another edge, and one that
/// passes no label on itself.
pub proof fn lemma_choice(edges: Seq<EdgeView>, labels: Map<Seq<char>, Seq<char>>, k: int)
    ensures
        choice(edges, labels, k) matches Some(t) ==> passes_on(edges, k) && 0 <= t < edges.len()
            && t != k && edges[t].src == edges[k].dst && edges[t].label is None && !passes_on(
            edges,
            t,
        ),
{
    if passes_on(edges, k) {
        let cs = candidates(edges, edges[k].dst);
        lemma_chosen_is_candidate(edges, labels, cs, polarity_of(edges[k].label->0));
        lemma_candidates(edges, edges[k].dst);
    }
}

/// The plan for the first `n` edges has a move or none for each of them,
/// the one decided at its turn, and no two moves go to the same edge.
pub proof fn lemma_plan(edges: Seq<EdgeView>, labels: Map<Seq<char>, Seq<char>>, n: int)
    requires
        0 <= n,
    ensures
        plan_upto(edges, labels, n).len() == n,
        forall|k: int|
            0 <= k < n ==> #[trigger] plan_upto(edges, labels, n)[k] == decided(
                edges,
                labels,
                plan_upto(edges, labels, k),
                k,
            ),
        forall|j: int, k: int|
            0 <= j < k < n && plan_upto(edges, labels, n)[j] is Some ==> #[trigger] plan_upto(
                edges,
                labels,
                n,
            )[j] != #[trigger] plan_upto(edges, labels, n)[k],
    decreases n,
{
    if n > 0 {
        lemma_plan(edges, labels, n - 1);
        let before = plan_upto(edges, labels, n - 1);
        let all = plan_upto(edges, labels, n);
        let last = decided(edges, labels, before, n - 1);
        assert forall|k: int| 0 <= k < n implies #[trigger] all[k] == decided(
            edges,
            labels,
            plan_upto(edges, labels, k),
            k,
        ) by {
            if k < n - 1 {
                assert(all[k] == before[k]);
            }
        }
        assert forall|j: int, k: int| 0 <= j < k < n && all[j] is Some implies #[trigger] all[j]
            != #[trigger] all[k] by {
            if k < n - 1 {
                assert(before[j] != before[k]);
            } else if last is Some {
                assert(all[j] == before[j]);
                if before[j] == last {
                    assert(taken(before, last->0));
                }
            }
        }
    }
}

/// What holds of a move of the plan: the edge that gives passes its label
/// on and chose the edge that receives; that edge carries no label, gives
/// none itself, and receives from no other edge; and no edge gives to the
/// edge that gives.
pub proof fn lemma_planned(edges: Seq<EdgeView>, labels: Map<Seq<char>, Seq<char>>, k: int)
    requires
        0 <= k < edges.len(),
    ensures
        plan(edges, labels).len() == edges.len(),
        plan(edges, labels)[k] matches Some(t) ==> {
            &&& choice(edges, labels, k) == Some(t)
            &&& passes_on(edges, k)
            &&& 0 <= t < edges.len()
            &&& t != k
            &&& edges[t].src == edges[k].dst
            &&& edges[t].label is None
            &&& plan(edges, labels)[t] is None
            &&& forall|j: int|
                0 <= j < edges.len() && j != k ==> #[trigger] plan(edges, labels)[j] != Some(t)
        },
        passes_on(edges, k) ==> forall|j: int|
            0 <= j < edges.len() ==> #[trigger] plan(edges, labels)[j] != Some(k),
{
    let n = edges.len() as int;
    let all = plan(edges, labels);
    lemma_plan(edges, labels, n);
    lemma_choice(edges, labels, k);
    if all[k] is Some {
        let t = all[k]->0;
        assert(all[k] == decided(edges, labels, plan_upto(edges, labels, k), k));
        assert(all[t] is None) by {
            assert(all[t] == decided(edges, labels, plan_upto(edges, labels, t), t));
            lemma_choice(edges, labels, t);
        }
        assert forall|j: int| 0 <= j < n && j != k implies #[trigger] all[j] != Some(t) by {
            if all[j] == Some(t) {
                if j < k {
                    assert(all[j] != all[k]);
                } else {
                    assert(all[k] != all[j]);
                }
            }
        }
    }
    if passes_on(edges, k) {
        assert forall|j: int| 0 <= j < n implies #[trigger] all[j] != Some(k) by {
            if all[j] == Some(k) {
                assert(all[j] == decided(edges, labels, plan_upto(edges, labels, j), j));
                lemma_choice(edges, labels, j);
            }
        }
    }
}

/// An edge whose label may move is no candidate for any label: it is the
/// only edge that leaves its source, and candidates leave a node that at
/// least two edges leave. So an edge that received a label never passes it
/// on.
pub proof fn lemma_target_never_passes_on(edges: Seq<EdgeView>, k: int, t: int, j: int)
    requires
        passes_on(edges, k),
        0 <= j < candidates(edges, edges[k].dst).len(),
        candidates(edges, edges[k].dst)[j] == t,
    ensures
        t != k,
        0 <= t < edges.len(),
        outgoing(edges, edges[t].src).len() >= 2,
        !passes_on(edges, t),
{
    lemma_candidates(edges, edges[k].dst);
}

/// Whether one of the first `n` moves of `plan` has written the label of
/// edge `i`: the edge gave its label, or received one.
pub open spec fn written(plan: Seq<Option<int>>, n: int, i: int) -> bool {
    ||| 0 <= i < n && plan[i] is Some
    ||| exists|j: int| 0 <= j < n && #[trigger] plan[j] == Some(i)
}

/// The labels of the edges, in order.
pub open spec fn labels_in(edges: Seq<EdgeView>) -> Seq<Option<Seq<char>>> {
    Seq::new(edges.len(), |i: int| edges[i].label)
}

/// What holds of the edges `now` after the first `n` moves of the plan for
/// `edges`: labels changed at most; an edge that took no part keeps its
/// label; an edge that gave its label has none, and the chosen edge has it;
/// and the labels are the same as before, each as often.
pub open spec fn made(
    edges: Seq<EdgeView>,
    labels: Map<Seq<char>, Seq<char>>,
    n: int,
    now: Seq<EdgeView>,
) -> bool {
    &&& same_shape(now, edges)
    &&& forall|i: int|
        0 <= i < edges.len() && !written(plan(edges, labels), n, i) ==> (#[trigger] now[i]).label
            == edges[i].label
    &&& forall|k: int|
        0 <= k < n && (#[trigger] plan(edges, labels)[k]) is Some ==> now[k].label is None
            && now[plan(edges, labels)[k]->0].label == edges[k].label
    &&& labels_in(now).to_multiset() == labels_in(edges).to_multiset()
}

/// The first `n` moves of the plan are made as `made` says.
pub proof fn lemma_apply(edges: Seq<EdgeView>, labels: Map<Seq<char>, Seq<char>>, n: int)
    requires
        0 <= n <= edges.len(),
    ensures
        made(edges, labels, n, apply_upto(edges, plan(edges, labels), n)),
    decreases n,
{
    broadcast use vstd::multiset::group_multiset_axioms;

    let all = plan(edges, labels);
    if n > 0 {
        let m = n - 1;
        lemma_apply(edges, labels, m);
        lemma_planned(edges, labels, m);
        let now = apply_upto(edges, all, m);
        let next = apply_upto(edges, all, n);
        match all[m] {
            Some(t) => {
                assert(!written(all, m, t)) by {
                    if exists|j: int| 0 <= j < m && #[trigger] all[j] == Some(t) {
                        let j = choose|j: int| 0 <= j < m && #[trigger] all[j] == Some(t);
                        assert(all[j] != Some(t));
                    }
                }
                assert(!written(all, m, m)) by {
                    if exists|j: int| 0 <= j < m && #[trigger] all[j] == Some(m) {
                        let j = choose|j: int| 0 <= j < m && #[trigger] all[j] == Some(m);
                        assert(all[j] != Some(m));
                    }
                }
                assert(now[t].label == edges[t].label);
                assert(now[m].label == edges[m].label);
                assert(now[t].with_label(None) == edges[t].with_label(None));
                assert(now[m].with_label(None) == edges[m].with_label(None));
                assert forall|i: int| 0 <= i < edges.len() && !written(all, n, i) implies (
                #[trigger] next[i]).label == edges[i].label by {
                    assert(i != m);
                    assert(i != t) by {
                        if i == t {
                            assert(all[m] == Some(i));
                        }
                    }
                    assert(!written(all, m, i)) by {
                        if exists|j: int| 0 <= j < m && #[trigger] all[j] == Some(i) {
                            let j = choose|j: int| 0 <= j < m && #[trigger] all[j] == Some(i);
                            assert(all[j] == Some(i));
                        }
                    }
                    assert(now[i].label == edges[i].label);
                }
                assert forall|k: int| 0 <= k < n && (#[trigger] all[k]) is Some implies next[k].label
                    is None && next[all[k]->0].label == edges[k].label by {
                    if k < m {
                        lemma_planned(edges, labels, k);
                        assert(all[k] != Some(t));
                        assert(all[k] != Some(m));
                        assert(k != t);
                    }
                }
                let before = labels_in(now);
                let given = before.update(t, edges[m].label);
                let after = given.update(m, None);
                assert(labels_in(next) =~= after);
                vstd::seq_lib::to_multiset_update(before, t, edges[m].label);
                vstd::seq_lib::to_multiset_update(given, m, None);
                assert(before[t] == None::<Seq<char>>);
                assert(given[m] == edges[m].label);
                assert(before.contains(None::<Seq<char>>));
                assert(given.contains(edges[m].label));
                vstd::seq_lib::to_multiset_contains(before, None::<Seq<char>>);
                vstd::seq_lib::to_multiset_contains(given, edges[m].label);
                assert forall|v: Option<Seq<char>>| after.to_multiset().count(v)
                    == before.to_multiset().count(v) by {}
                assert(after.to_multiset() =~= before.to_multiset());
            },
            None => {
                assert forall|i: int| 0 <= i < edges.len() && !written(all, n, i) implies (
                #[trigger] next[i]).label == edges[i].label by {
                    assert(!written(all, m, i)) by {
                        if exists|j: int| 0 <= j < m && #[trigger] all[j] == Some(i) {
                            let j = choose|j: int| 0 <= j < m && #[trigger] all[j] == Some(i);
                            assert(all[j] == Some(i));
                        }
                    }
                }
            },
        }
    }
}

/// The migration changes labels only: every edge keeps its line, indent,
/// source, arrow and destination.
pub proof fn lemma_migrate_keeps_shape(edges: Seq<EdgeView>, labels: Map<Seq<char>, Seq<char>>)
    ensures
        same_shape(migrate(edges, labels), edges),
{
    lemma_apply(edges, labels, edges.len() as int);
}

/// The migration neither loses nor doubles a label: the labels that the
/// edges carry are the same, each as often as before.
pub proof fn lemma_migrate_keeps_labels(edges: Seq<EdgeView>, labels: Map<Seq<char>, Seq<char>>)
    ensures
        labels_in(migrate(edges, labels)).to_multiset() == labels_in(edges).to_multiset(),
{
    lemma_apply(edges, labels, edges.len() as int);
}

/// Every move of the plan is made: the edge that gives has no label
/// afterwards, and the edge that receives has the label of the giver. An
/// edge that takes no part in a move keeps its label.
pub proof fn lemma_moves_are_made(edges: Seq<EdgeView>, labels: Map<Seq<char>, Seq<char>>, k: int)
    requires
        0 <= k < edges.len(),
    ensures
        plan(edges, labels)[k] matches Some(t) ==> migrate(edges, labels)[k].label is None
            && migrate(edges, labels)[t].label == edges[k].label,
        !written(plan(edges, labels), edges.len() as int, k) ==> migrate(edges, labels)[k].label
            == edges[k].label,
{
    lemma_apply(edges, labels, edges.len() as int);
    let all = plan(edges, labels);
    if all[k] is Some {
        assert(all[k] is Some);
    }
    if !written(all, edges.len() as int, k) {
        assert(migrate(edges, labels)[k].label == edges[k].label);
    }
}

/// Where the node behind a pass-through edge has exactly two edges without
/// a label, and the text behind one of them has a positive score that is
/// above the score of the other, the edge chooses that one. Its label
/// never goes to the other; it goes to the chosen edge unless that edge has
/// received a label before, and always where no other pass-through edge
/// leads to the same node.
pub proof fn lemma_label_follows_hints(
    edges: Seq<EdgeView>,
    labels: Map<Seq<char>, Seq<char>>,
    k: int,
    i: int,
)
    requires
        passes_on(edges, k),
        candidates(edges, edges[k].dst).len() == 2,
        0 <= i < 2,
        candidate_score(
            edges,
            labels,
            candidates(edges, edges[k].dst)[i],
            polarity_of(edges[k].label->0),
        ) > 0,
        candidate_score(
            edges,
            labels,
            candidates(edges, edges[k].dst)[1 - i],
            polarity_of(edges[k].label->0),
        ) < candidate_score(
            edges,
            labels,
            candidates(edges, edges[k].dst)[i],
            polarity_of(edges[k].label->0),
        ),
    ensures
        choice(edges, labels, k) == Some(candidates(edges, edges[k].dst)[i]),
        candidates(edges, edges[k].dst)[i] != candidates(edges, edges[k].dst)[1 - i],
        plan(edges, labels)[k] != Some(candidates(edges, edges[k].dst)[1 - i]),
        plan(edges, labels)[k] is Some ==> migrate(edges, labels)[k].label is None && migrate(
            edges,
            labels,
        )[candidates(edges, edges[k].dst)[i]].label == edges[k].label,
        (forall|j: int| passes_on(edges, j) && edges[j].dst == edges[k].dst ==> j == k) ==> plan(
            edges,
            labels,
        )[k] == Some(candidates(edges, edges[k].dst)[i]),
{
    let cs = candidates(edges, edges[k].dst);
    let pol = polarity_of(edges[k].label->0);
    let all = plan(edges, labels);
    lemma_candidates(edges, edges[k].dst);
    assert(wins(edges, labels, cs, pol, i)) by {
        assert forall|j: int| 0 <= j < cs.len() && j != i implies candidate_score(
            edges,
            labels,
            #[trigger] cs[j],
            pol,
        ) < candidate_score(edges, labels, cs[i], pol) by {
            assert(j == 1 - i);
        }
    }
    assert(!none_positive(edges, labels, cs, pol)) by {
        assert(candidate_score(edges, labels, cs[i], pol) > 0);
    }
    let w = choose|w: int| wins(edges, labels, cs, pol, w);
    assert(wins(edges, labels, cs, pol, w));
    if w != i {
        assert(w == 1 - i);
        assert(candidate_score(edges, labels, cs[i], pol) < candidate_score(
            edges,
            labels,
            cs[w],
            pol,
        ));
    }
    assert(choice(edges, labels, k) == Some(cs[i]));
    assert(cs[i] != cs[1 - i]) by {
        if cs[i] == cs[1 - i] {
            assert(candidate_score(edges, labels, cs[i], pol) == candidate_score(
                edges,
                labels,
                cs[1 - i],
                pol,
            ));
        }
    }
    lemma_planned(edges, labels, k);
    lemma_moves_are_made(edges, labels, k);
    lemma_plan(edges, labels, edges.len() as int);
    assert(all[k] == decided(edges, labels, plan_upto(edges, labels, k), k));
    if forall|j: int| passes_on(edges, j) && edges[j].dst == edges[k].dst ==> j == k {
        let before = plan_upto(edges, labels, k);
        lemma_plan(edges, labels, k);
        assert(!taken(before, k)) by {
            if taken(before, k) {
                let j = choose|j: int| 0 <= j < before.len() && #[trigger] before[j] == Some(k);
                assert(before[j] == decided(edges, labels, plan_upto(edges, labels, j), j));
                lemma_choice(edges, labels, j);
            }
        }
        assert(!taken(before, cs[i])) by {
            if taken(before, cs[i]) {
                let j = choose|j: int| 0 <= j < before.len() && #[trigger] before[j] == Some(cs[i]);
                assert(before[j] == decided(edges, labels, plan_upto(edges, labels, j), j));
                lemma_choice(edges, labels, j);
                assert(edges[j].dst == edges[k].dst);
            }
        }
    }
}

/// Where the node behind a pass-through edge has exactly two edges without
/// a label and the texts behind them score alike, the edge chooses none:
/// no move is made for it, and it keeps its label.
pub proof fn lemma_tie_keeps_label(
    edges: Seq<EdgeView>,
    labels: Map<Seq<char>, Seq<char>>,
    k: int,
)
    requires
        passes_on(edges, k),
        candidates(edges, edges[k].dst).len() == 2,
        candidate_score(
            edges,
            labels,
            candidates(edges, edges[k].dst)[0],
            polarity_of(edges[k].label->0),
        ) == candidate_score(
            edges,
            labels,
            candidates(edges, edges[k].dst)[1],
            polarity_of(edges[k].label->0),
        ),
    ensures
        choice(edges, labels, k) is None,
        plan(edges, labels)[k] is None,
        migrate(edges, labels)[k] == edges[k],
{
    let cs = candidates(edges, edges[k].dst);
    let pol = polarity_of(edges[k].label->0);
    let all = plan(edges, labels);
    lemma_candidates(edges, edges[k].dst);
    lemma_unlabeled_keeps_open(edges, cs);
    assert forall|w: int| !wins(edges, labels, cs, pol, w) by {
        if 0 <= w < 2 {
            assert(cs[1 - w] == cs[1 - w]);
        }
    }
    assert(choice(edges, labels, k) is None);
    lemma_plan(edges, labels, edges.len() as int);
    assert(all[k] == decided(edges, labels, plan_upto(edges, labels, k), k));
    lemma_planned(edges, labels, k);
    assert(!written(all, edges.len() as int, k)) by {
        if exists|j: int| 0 <= j < edges.len() && #[trigger] all[j] == Some(k) {
            let j = choose|j: int| 0 <= j < edges.len() && #[trigger] all[j] == Some(k);
            assert(all[j] != Some(k));
        }
    }
    lemma_moves_are_made(edges, labels, k);
    lemma_migrate_keeps_shape(edges, labels);
    let after = migrate(edges, labels);
    assert(after[k].with_label(None) == edges[k].with_label(None));
    assert(after[k] == edges[k]);
}

/// The edges that leave `node`.
pub fn outgoing_of(edges: &Vec<Edge>, node: &String) -> (r: Vec<usize>)
    ensures
        ints(r@) == outgoing(edges.deep_view(), node@),
        forall|i: int| 0 <= i < r.len() ==> r@[i] < edges.len(),
{
    let mut r: Vec<usize> = Vec::new();
    let mut n: usize = 0;
    assert(ints(r@) =~= Seq::<int>::empty());
    while n < edges.len()
        invariant
            n <= edges.len(),
            ints(r@) == outgoing_upto(edges.deep_view(), node@, n as int),
            forall|i: int| 0 <= i < r.len() ==> r@[i] < edges.len(),
        decreases edges.len() - n,
    {
        let ghost before = r@;
        if same_text(edges[n].src.as_str(), node.as_str()) {
            r.push(n);
            assert(ints(r@) =~= ints(before).push(n as int));
        }
        n += 1;
    }
    r
}

/// The moves as contracts speak of them.
pub open spec fn moves(plan: Seq<Option<usize>>) -> Seq<Option<int>> {
    Seq::new(plan.len(), |i: int| int_of(plan[i]))
}

/// The edge to which edge `k` would give its label, were it the only edge
/// to give one.
pub fn choice_of(edges: &Vec<Edge>, node_labels: &TextMap, k: usize) -> (r: Option<usize>)
    requires
        k < edges.len(),
    ensures
        int_of(r) == choice(edges.deep_view(), node_labels@, k as int),
        r matches Some(t) ==> t < edges.len(),
{
    if is_branch_label(&edges[k].label) {
        let from_src = outgoing_of(edges, &edges[k].src);
        if from_src.len() == 1 {
            let from_dst = outgoing_of(edges, &edges[k].dst);
            if from_dst.len() >= 2 {
                let open = unlabeled_of(edges, &from_dst);
                let polarity = match &edges[k].label {
                    Some(l) => label_polarity(l.as_str()),
                    None => None,
                };
                return choose_edge(edges, node_labels, &open, polarity);
            }
        }
    }
    None
}

/// Decides the moves: for each edge the edge that receives its label, if
/// one does.
pub fn plan_moves(edges: &Vec<Edge>, node_labels: &TextMap) -> (r: Vec<Option<usize>>)
    ensures
        moves(r@) == plan(edges.deep_view(), node_labels@),
        r.len() == edges.len(),
        forall|k: int| 0 <= k < r.len() ==> (#[trigger] r@[k] matches Some(t) ==> t < edges.len()),
{
    let ghost es = edges.deep_view();
    let mut plan: Vec<Option<usize>> = Vec::new();
    let mut consumed: Vec<bool> = Vec::new();
    let mut i: usize = 0;
    while i < edges.len()
        invariant
            i <= edges.len(),
            consumed.len() == i,
            forall|j: int| 0 <= j < i ==> !consumed@[j],
        decreases edges.len() - i,
    {
        consumed.push(false);
        i += 1;
    }
    let mut k: usize = 0;
    assert(moves(plan@) =~= plan_upto(es, node_labels@, 0));
    while k < edges.len()
        invariant
            k <= edges.len(),
            es == edges.deep_view(),
            plan.len() == k,
            consumed.len() == edges.len(),
            moves(plan@) == plan_upto(es, node_labels@, k as int),
            forall|j: int| 0 <= j < k ==> (#[trigger] plan@[j] matches Some(t) ==> t < edges.len()),
            forall|t: int| 0 <= t < edges.len() ==> #[trigger] consumed@[t] == taken(moves(plan@), t),
        decreases edges.len() - k,
    {
        let ghost before = moves(plan@);
        let chosen_edge = choice_of(edges, node_labels, k);
        let decision: Option<usize> = match chosen_edge {
            Some(t) => {
                if consumed[k] || consumed[t] {
                    None
                } else {
                    Some(t)
                }
            },
            None => None,
        };
        assert(int_of(decision) == decided(es, node_labels@, before, k as int));
        match decision {
            Some(t) => {
                consumed.set(t, true);
            },
            None => {},
        }
        plan.push(decision);
        proof {
            let after = moves(plan@);
            assert(after =~= before.push(int_of(decision)));
            assert forall|t: int| 0 <= t < edges.len() implies #[trigger] consumed@[t] == taken(
                after,
                t,
            ) by {
                if taken(before, t) {
                    let j = choose|j: int| 0 <= j < before.len() && #[trigger] before[j] == Some(t);
                    assert(after[j] == Some(t));
                }
                if int_of(decision) == Some(t) {
                    assert(after[k as int] == Some(t));
                }
                if taken(after, t) {
                    let j = choose|j: int| 0 <= j < after.len() && #[trigger] after[j] == Some(t);
                    if j < k {
                        assert(before[j] == Some(t));
                    }
                }
            }
        }
        k += 1;
    }
    plan
}

/// Moves every branch label that can be placed.
pub fn migrate_labels(edges: &mut Vec<Edge>, node_labels: &TextMap)
    ensures
        final(edges).deep_view() == migrate(old(edges).deep_view(), node_labels@),
        final(edges).len() == old(edges).len(),
{
    let ghost start = edges.deep_view();
    let plan = plan_moves(edges, node_labels);
    let mut given: Vec<Option<String>> = Vec::new();
    let mut i: usize = 0;
    while i < edges.len()
        invariant
            i <= edges.len(),
            start == edges.deep_view(),
            given.len() == i,
            forall|j: int| 0 <= j < i ==> (#[trigger] given@[j]).deep_view() == start[j].label,
        decreases edges.len() - i,
    {
        let label = edges[i].label.clone();
        assert(label.deep_view() == start[i as int].label);
        given.push(label);
        i += 1;
    }
    let mut k: usize = 0;
    while k < edges.len()
        invariant
            k <= edges.len(),
            edges.len() == start.len(),
            plan.len() == edges.len(),
            given.len() == edges.len(),
            forall|j: int| 0 <= j < given.len() ==> (#[trigger] given@[j]).deep_view() == start[j].label,
            forall|j: int| 0 <= j < plan.len() ==> (#[trigger] plan@[j] matches Some(t) ==> t < edges.len()),
            edges.deep_view() == apply_upto(start, moves(plan@), k as int),
        decreases edges.len() - k,
    {
        let ghost now = edges.deep_view();
        assert(moves(plan@)[k as int] == int_of(plan@[k as int]));
        match plan[k] {
            Some(t) => {
                let label = given[k].clone();
                assert(label.deep_view() == start[k as int].label);
                let receiver = edges[t].with_label(label);
                edges.set(t, receiver);
                let giver = edges[k].with_label(None);
                edges.set(k, giver);
                assert(edges.deep_view() =~= moved(now, start[k as int].label, k as int, t as int));
            },
            None => {},
        }
        k += 1;
    }
}

} // verus!
