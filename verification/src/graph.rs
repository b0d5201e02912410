//! Edges of a flowchart, the labels of its nodes, and the choice of the edge
//! that is to receive a branch label.
use crate::score::{edge_score, score, Polarity};
use crate::textmap::TextMap;
use vstd::prelude::*;

verus! {

/// One connection statement of a flowchart, as its line states it.
#[derive(Clone, Debug)]
pub struct Edge {
    /// Index of the line within the block.
    pub line_idx: usize,
    /// White space before the source, kept as it is.
    pub indent: String,
    pub src: String,
    /// The arrow as written: solid, dotted or thick.
    pub arrow: String,
    /// The text between the label delimiters, `None` without a label.
    pub label: Option<String>,
    pub dst: String,
}

/// An edge as contracts speak of it.
pub struct EdgeView {
    pub line_idx: int,
    pub indent: Seq<char>,
    pub src: Seq<char>,
    pub arrow: Seq<char>,
    pub label: Option<Seq<char>>,
    pub dst: Seq<char>,
}

impl View for Edge {
    type V = EdgeView;

    open spec fn view(&self) -> EdgeView {
        EdgeView {
            line_idx: self.line_idx as int,
            indent: self.indent@,
            src: self.src@,
            arrow: self.arrow@,
            label: self.label.deep_view(),
            dst: self.dst@,
        }
    }
}

impl DeepView for Edge {
    type V = EdgeView;

    open spec fn deep_view(&self) -> EdgeView {
        self.view()
    }
}

impl EdgeView {
    /// The same edge with another label.
    pub open spec fn with_label(self, label: Option<Seq<char>>) -> EdgeView {
        EdgeView { label, ..self }
    }
}

impl Edge {
    /// A copy of this edge with another label.
    pub fn with_label(&self, label: Option<String>) -> (e: Edge)
        ensures
            e@ == self@.with_label(label.deep_view()),
    {
        Edge {
            line_idx: self.line_idx,
            indent: self.indent.clone(),
            src: self.src.clone(),
            arrow: self.arrow.clone(),
            label,
            dst: self.dst.clone(),
        }
    }
}

/// The text by which a node is judged: its declared label, its identifier
/// where it has none.
pub open spec fn node_text(labels: Map<Seq<char>, Seq<char>>, id: Seq<char>) -> Seq<char> {
    if labels.contains_key(id) {
        labels[id]
    } else {
        id
    }
}

/// The score of edge `c` for a label of the given polarity: that of the text
/// of its destination.
pub open spec fn candidate_score(
    edges: Seq<EdgeView>,
    labels: Map<Seq<char>, Seq<char>>,
    c: int,
    polarity: Option<Polarity>,
) -> int {
    score(node_text(labels, edges[c].dst), polarity)
}

/// Candidate `i` has a positive score, and every other candidate a lower one.
pub open spec fn wins(
    edges: Seq<EdgeView>,
    labels: Map<Seq<char>, Seq<char>>,
    candidates: Seq<int>,
    polarity: Option<Polarity>,
    i: int,
) -> bool {
    &&& 0 <= i < candidates.len()
    &&& candidate_score(edges, labels, candidates[i], polarity) > 0
    &&& forall|j: int|
        0 <= j < candidates.len() && j != i ==> candidate_score(
            edges,
            labels,
            #[trigger] candidates[j],
            polarity,
        ) < candidate_score(edges, labels, candidates[i], polarity)
}

/// No candidate has a positive score.
pub open spec fn none_positive(
    edges: Seq<EdgeView>,
    labels: Map<Seq<char>, Seq<char>>,
    candidates: Seq<int>,
    polarity: Option<Polarity>,
) -> bool {
    forall|i: int|
        0 <= i < candidates.len() ==> candidate_score(
            edges,
            labels,
            #[trigger] candidates[i],
            polarity,
        ) <= 0
}

/// The candidates that carry no label, in their order.
pub open spec fn unlabeled(edges: Seq<EdgeView>, candidates: Seq<int>) -> Seq<int>
    decreases candidates.len(),
{
    if candidates.len() == 0 {
        Seq::empty()
    } else {
        let rest = unlabeled(edges, candidates.drop_last());
        if edges[candidates.last()].label is None {
            rest.push(candidates.last())
        } else {
            rest
        }
    }
}

/// The one candidate without a label, where there is exactly one.
pub open spec fn sole_unlabeled(edges: Seq<EdgeView>, candidates: Seq<int>) -> Option<int> {
    let u = unlabeled(edges, candidates);
    if u.len() == 1 {
        Some(u[0])
    } else {
        None
    }
}

/// The edge among `candidates` that receives a label of the given polarity.
///
/// A single candidate is taken as it is. Among several, the one whose score
/// is positive and above all others; with no positive score at all, the one
/// candidate without a label, if there is exactly one. In every other case
/// the choice is declined.
pub open spec fn chosen(
    edges: Seq<EdgeView>,
    labels: Map<Seq<char>, Seq<char>>,
    candidates: Seq<int>,
    polarity: Option<Polarity>,
) -> Option<int> {
    if candidates.len() == 0 {
        None
    } else if candidates.len() == 1 {
        Some(candidates[0])
    } else if none_positive(edges, labels, candidates, polarity) {
        sole_unlabeled(edges, candidates)
    } else if exists|i: int| wins(edges, labels, candidates, polarity, i) {
        Some(candidates[choose|i: int| wins(edges, labels, candidates, polarity, i)])
    } else {
        None
    }
}

/// What `unlabeled` keeps stood in the list and carries no label, and there
/// is no more of it than there was in the list.
pub proof fn lemma_unlabeled(edges: Seq<EdgeView>, list: Seq<int>)
    ensures
        unlabeled(edges, list).len() <= list.len(),
        forall|j: int|
            0 <= j < unlabeled(edges, list).len() ==> {
                let c = #[trigger] unlabeled(edges, list)[j];
                list.contains(c) && edges[c].label is None
            },
    decreases list.len(),
{
    if list.len() > 0 {
        lemma_unlabeled(edges, list.drop_last());
        let rest = unlabeled(edges, list.drop_last());
        assert forall|j: int| 0 <= j < unlabeled(edges, list).len() implies {
            let c = #[trigger] unlabeled(edges, list)[j];
            list.contains(c) && edges[c].label is None
        } by {
            let c = unlabeled(edges, list)[j];
            if j < rest.len() {
                assert(rest[j] == c);
                let i = choose|i: int| 0 <= i < list.drop_last().len() && list.drop_last()[i] == c;
                assert(list[i] == c);
            } else {
                assert(c == list.last());
                assert(list[list.len() - 1] == c);
            }
        }
    }
}

/// A list of edges without labels is kept whole.
pub proof fn lemma_unlabeled_keeps_open(edges: Seq<EdgeView>, list: Seq<int>)
    requires
        forall|j: int| 0 <= j < list.len() ==> edges[#[trigger] list[j]].label is None,
    ensures
        unlabeled(edges, list) == list,
    decreases list.len(),
{
    if list.len() > 0 {
        lemma_unlabeled_keeps_open(edges, list.drop_last());
        assert(list.drop_last().push(list.last()) =~= list);
    } else {
        assert(list =~= Seq::<int>::empty());
    }
}

/// The edge that is chosen is one of the candidates.
pub proof fn lemma_chosen_is_candidate(
    edges: Seq<EdgeView>,
    labels: Map<Seq<char>, Seq<char>>,
    candidates: Seq<int>,
    polarity: Option<Polarity>,
)
    ensures
        chosen(edges, labels, candidates, polarity) matches Some(t) ==> candidates.contains(t),
{
    if candidates.len() == 1 {
        assert(candidates[0] == candidates[0]);
    } else if candidates.len() > 1 {
        if none_positive(edges, labels, candidates, polarity) {
            lemma_unlabeled(edges, candidates);
            let u = unlabeled(edges, candidates);
            if u.len() == 1 {
                assert(candidates.contains(u[0]));
            }
        } else if exists|i: int| wins(edges, labels, candidates, polarity, i) {
            let w = choose|i: int| wins(edges, labels, candidates, polarity, i);
            assert(candidates[w] == candidates[w]);
        }
    }
}

/// `scores` holds the score of each candidate.
pub open spec fn scored(
    edges: Seq<EdgeView>,
    labels: Map<Seq<char>, Seq<char>>,
    candidates: Seq<int>,
    polarity: Option<Polarity>,
    scores: Seq<i32>,
) -> bool {
    &&& scores.len() == candidates.len()
    &&& forall|k: int|
        0 <= k < candidates.len() ==> #[trigger] scores[k] == candidate_score(
            edges,
            labels,
            candidates[k],
            polarity,
        )
}

/// Indices as mathematical integers.
pub open spec fn ints(v: Seq<usize>) -> Seq<int> {
    Seq::new(v.len(), |i: int| v[i] as int)
}

/// An optional index as a mathematical integer.
pub open spec fn int_of(o: Option<usize>) -> Option<int> {
    match o {
        Some(i) => Some(i as int),
        None => None,
    }
}

/// The text by which the node `id` is judged.
pub fn node_text_of(node_labels: &TextMap, id: &String) -> (r: String)
    ensures
        r@ == node_text(node_labels@, id@),
{
    match node_labels.get(id.as_str()) {
        Some(l) => l,
        None => id.clone(),
    }
}

/// The candidates that carry no label.
pub fn unlabeled_of(edges: &Vec<Edge>, candidates: &Vec<usize>) -> (u: Vec<usize>)
    requires
        forall|i: int| 0 <= i < candidates.len() ==> candidates@[i] < edges.len(),
    ensures
        ints(u@) == unlabeled(edges.deep_view(), ints(candidates@)),
        forall|i: int| 0 <= i < u.len() ==> u@[i] < edges.len(),
{
    let mut u: Vec<usize> = Vec::new();
    let mut i: usize = 0;
    assert(ints(candidates@).take(0) =~= Seq::<int>::empty());
    while i < candidates.len()
        invariant
            i <= candidates.len(),
            forall|k: int| 0 <= k < candidates.len() ==> candidates@[k] < edges.len(),
            forall|k: int| 0 <= k < u.len() ==> u@[k] < edges.len(),
            ints(u@) == unlabeled(edges.deep_view(), ints(candidates@).take(i as int)),
        decreases candidates.len() - i,
    {
        assert(ints(candidates@).take(i + 1).drop_last() =~= ints(candidates@).take(i as int));
        let ghost before = u@;
        if edges[candidates[i]].label.is_none() {
            u.push(candidates[i]);
            assert(ints(u@) =~= ints(before).push(candidates@[i as int] as int));
        }
        i += 1;
    }
    assert(ints(candidates@).take(candidates.len() as int) =~= ints(candidates@));
    u
}

/// The one candidate without a label, where there is exactly one.
fn sole_unlabeled_of(edges: &Vec<Edge>, candidates: &Vec<usize>) -> (r: Option<usize>)
    requires
        forall|i: int| 0 <= i < candidates.len() ==> candidates@[i] < edges.len(),
    ensures
        int_of(r) == sole_unlabeled(edges.deep_view(), ints(candidates@)),
        r matches Some(t) ==> t < edges.len(),
{
    let u = unlabeled_of(edges, candidates);
    if u.len() == 1 {
        assert(ints(u@)[0] == u@[0]);
        Some(u[0])
    } else {
        None
    }
}

/// Chooses among `candidates` the edge that receives a label of the given
/// polarity.
pub fn choose_edge(
    edges: &Vec<Edge>,
    node_labels: &TextMap,
    candidates: &Vec<usize>,
    polarity: Option<Polarity>,
) -> (r: Option<usize>)
    requires
        forall|i: int| 0 <= i < candidates.len() ==> candidates@[i] < edges.len(),
    ensures
        int_of(r) == chosen(edges.deep_view(), node_labels@, ints(candidates@), polarity),
        r matches Some(t) ==> t < edges.len(),
{
    let ghost es = edges.deep_view();
    let ghost cs = ints(candidates@);
    if candidates.len() == 0 {
        return None;
    }
    if candidates.len() == 1 {
        return Some(candidates[0]);
    }
    let mut scores: Vec<i32> = Vec::new();
    let mut i: usize = 0;
    while i < candidates.len()
        invariant
            i <= candidates.len(),
            scores.len() == i,
            es == edges.deep_view(),
            cs == ints(candidates@),
            forall|k: int| 0 <= k < candidates.len() ==> candidates@[k] < edges.len(),
            forall|k: int|
                0 <= k < i ==> scores@[k] == candidate_score(es, node_labels@, cs[k], polarity),
        decreases candidates.len() - i,
    {
        let text = node_text_of(node_labels, &edges[candidates[i]].dst);
        let s = edge_score(text.as_str(), polarity);
        scores.push(s);
        i += 1;
    }
    assert(scored(es, node_labels@, cs, polarity, scores@));
    let mut best: usize = 0;
    let mut k: usize = 1;
    while k < scores.len()
        invariant
            1 <= k <= scores.len(),
            best < k,
            forall|j: int| 0 <= j < k ==> scores@[j] <= scores@[best as int],
        decreases scores.len() - k,
    {
        if scores[k] > scores[best] {
            best = k;
        }
        k += 1;
    }
    if scores[best] <= 0 {
        assert forall|i: int| 0 <= i < cs.len() implies candidate_score(
            es,
            node_labels@,
            #[trigger] cs[i],
            polarity,
        ) <= 0 by {
            assert(scores@[i] <= scores@[best as int]);
        }
        return sole_unlabeled_of(edges, candidates);
    }
    assert(!none_positive(es, node_labels@, cs, polarity)) by {
        assert(scores@[best as int] == candidate_score(
            es,
            node_labels@,
            cs[best as int],
            polarity,
        ));
    }
    let mut j: usize = 0;
    while j < scores.len()
        invariant
            j <= scores.len(),
            best < scores.len(),
            scores@[best as int] > 0,
            cs.len() >= 2,
            cs == ints(candidates@),
            es == edges.deep_view(),
            scored(es, node_labels@, cs, polarity, scores@),
            !none_positive(es, node_labels@, cs, polarity),
            forall|m: int| 0 <= m < scores.len() ==> scores@[m] <= scores@[best as int],
            forall|m: int| 0 <= m < j && m != best ==> scores@[m] < scores@[best as int],
        decreases scores.len() - j,
    {
        if j != best && scores[j] == scores[best] {
            assert forall|w: int| !wins(es, node_labels@, cs, polarity, w) by {
                if 0 <= w < cs.len() {
                    assert(scores@[w] <= scores@[best as int]);
                    assert(scores@[j as int] == scores@[best as int]);
                    if w == best {
                        assert(cs[j as int] == cs[j as int]);
                    } else {
                        assert(cs[best as int] == cs[best as int]);
                    }
                }
            }
            return None;
        }
        j += 1;
    }
    assert(wins(es, node_labels@, cs, polarity, best as int)) by {
        assert(scores@[best as int] > 0);
        assert forall|m: int| 0 <= m < cs.len() && m != best implies candidate_score(
            es,
            node_labels@,
            #[trigger] cs[m],
            polarity,
        ) < candidate_score(es, node_labels@, cs[best as int], polarity) by {
            assert(scores@[m] < scores@[best as int]);
        }
    }
    proof {
        let w = choose|w: int| wins(es, node_labels@, cs, polarity, w);
        assert(wins(es, node_labels@, cs, polarity, w));
        if w != best {
            assert(cs[best as int] == cs[best as int]);
            assert(cs[w] == cs[w]);
            assert(false);
        }
    }
    Some(candidates[best])
}

} // verus!
