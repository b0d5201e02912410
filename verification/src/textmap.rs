//! A mapping from texts to texts.
use crate::text::same_text;
use vstd::prelude::*;

verus! {

/// The mapping that a list of declarations makes: each key with the value
/// of its last declaration.
pub open spec fn label_map(decls: Seq<(String, String)>) -> Map<Seq<char>, Seq<char>>
    decreases decls.len(),
{
    if decls.len() == 0 {
        Map::empty()
    } else {
        label_map(decls.drop_last()).insert(decls.last().0@, decls.last().1@)
    }
}

/// The last declaration of a key decides its value.
pub proof fn lemma_label_map_last(decls: Seq<(String, String)>, id: Seq<char>, i: int)
    requires
        0 <= i < decls.len(),
        decls[i].0@ == id,
        forall|j: int| i < j < decls.len() ==> decls[j].0@ != id,
    ensures
        label_map(decls).contains_key(id),
        label_map(decls)[id] == decls[i].1@,
    decreases decls.len(),
{
    if i < decls.len() - 1 {
        lemma_label_map_last(decls.drop_last(), id, i);
    }
}

/// A key that no declaration names has no value.
pub proof fn lemma_label_map_absent(decls: Seq<(String, String)>, id: Seq<char>)
    requires
        forall|j: int| 0 <= j < decls.len() ==> decls[j].0@ != id,
    ensures
        !label_map(decls).contains_key(id),
    decreases decls.len(),
{
    if decls.len() > 0 {
        lemma_label_map_absent(decls.drop_last(), id);
    }
}

/// A mapping from texts to texts, kept as the list of its declarations.
#[derive(Clone, Debug)]
pub struct TextMap {
    pub decls: Vec<(String, String)>,
}

impl View for TextMap {
    type V = Map<Seq<char>, Seq<char>>;

    open spec fn view(&self) -> Map<Seq<char>, Seq<char>> {
        label_map(self.decls@)
    }
}

impl TextMap {
    /// The mapping without entries.
    pub fn new() -> (r: TextMap)
        ensures
            r@ == Map::<Seq<char>, Seq<char>>::empty(),
    {
        TextMap { decls: Vec::new() }
    }

    /// Declares `label` for `id`, in place of any earlier value.
    pub fn insert(&mut self, id: String, label: String)
        ensures
            final(self)@ == old(self)@.insert(id@, label@),
    {
        self.decls.push((id, label));
        assert(self.decls@.drop_last() =~= old(self).decls@);
    }

    /// The value declared for `id`.
    pub fn get(&self, id: &str) -> (r: Option<String>)
        ensures
            match r {
                Some(l) => self@.contains_key(id@) && self@[id@] == l@,
                None => !self@.contains_key(id@),
            },
    {
        let mut i: usize = self.decls.len();
        while i > 0
            invariant
                i <= self.decls.len(),
                forall|j: int| i <= j < self.decls.len() ==> self.decls@[j].0@ != id@,
            decreases i,
        {
            i -= 1;
            if same_text(self.decls[i].0.as_str(), id) {
                proof {
                    lemma_label_map_last(self.decls@, id@, i as int);
                }
                return Some(self.decls[i].1.clone());
            }
        }
        proof {
            lemma_label_map_absent(self.decls@, id@);
        }
        None
    }
}


/// A key of the mapping is the key of some declaration.
pub proof fn lemma_label_map_present(decls: Seq<(String, String)>, id: Seq<char>)
    requires
        label_map(decls).contains_key(id),
    ensures
        exists|j: int| 0 <= j < decls.len() && (#[trigger] decls[j]).0@ == id,
    decreases decls.len(),
{
    if decls.len() > 0 {
        if decls.last().0@ == id {
            assert(decls[decls.len() - 1].0@ == id);
        } else {
            lemma_label_map_present(decls.drop_last(), id);
            let j = choose|j: int|
                0 <= j < decls.drop_last().len() && (#[trigger] decls.drop_last()[j]).0@ == id;
            assert(decls[j].0@ == id);
        }
    }
}

/// Whether `pairs` holds `key` as a key.
pub open spec fn has_key(pairs: Seq<(String, String)>, key: Seq<char>) -> bool {
    exists|j: int| 0 <= j < pairs.len() && (#[trigger] pairs[j]).0@ == key
}

impl TextMap {
    /// The entries of the mapping: each key once, with its value.
    pub fn entries(&self) -> (r: Vec<(String, String)>)
        ensures
            forall|i: int|
                0 <= i < r.len() ==> self@.contains_key((#[trigger] r@[i]).0@) && self@[r@[i].0@]
                    == r@[i].1@,
            forall|i: int, j: int| 0 <= i < j < r.len() ==> r@[i].0@ != r@[j].0@,
            forall|key: Seq<char>| self@.contains_key(key) ==> has_key(r@, key),
    {
        let mut r: Vec<(String, String)> = Vec::new();
        let mut i: usize = self.decls.len();
        while i > 0
            invariant
                i <= self.decls.len(),
                forall|k: int|
                    0 <= k < r.len() ==> self@.contains_key((#[trigger] r@[k]).0@) && self@[r@[k].0@]
                        == r@[k].1@,
                forall|k: int, j: int| 0 <= k < j < r.len() ==> r@[k].0@ != r@[j].0@,
                forall|j: int| i <= j < self.decls.len() ==> has_key(r@, (#[trigger] self.decls@[j]).0@),
            decreases i,
        {
            i -= 1;
            let ghost before = r@;
            let key = self.decls[i].0.clone();
            let mut seen = false;
            let mut k: usize = 0;
            while k < r.len() && !seen
                invariant
                    k <= r.len(),
                    seen ==> has_key(r@, key@),
                    !seen ==> forall|m: int| 0 <= m < k ==> r@[m].0@ != key@,
                decreases r.len() - k + if seen { 0int } else { 1int },
            {
                if same_text(r[k].0.as_str(), key.as_str()) {
                    assert(r@[k as int].0@ == key@);
                    seen = true;
                } else {
                    k += 1;
                }
            }
            if !seen {
                proof {
                    assert forall|j: int| i < j < self.decls.len() implies self.decls@[j].0@
                        != key@ by {
                        if self.decls@[j].0@ == key@ {
                            assert(has_key(r@, self.decls@[j].0@));
                            let m = choose|m: int| 0 <= m < r.len() && (#[trigger] r@[m]).0@ == key@;
                            assert(r@[m].0@ != key@);
                        }
                    }
                    lemma_label_map_last(self.decls@, key@, i as int);
                }
                let value = self.decls[i].1.clone();
                r.push((key, value));
                proof {
                    assert forall|j: int| i <= j < self.decls.len() implies has_key(
                        r@,
                        (#[trigger] self.decls@[j]).0@,
                    ) by {
                        if j == i {
                            assert(r@[r.len() - 1].0@ == self.decls@[j].0@);
                        } else {
                            assert(has_key(before, self.decls@[j].0@));
                            let m = choose|m: int|
                                0 <= m < before.len() && (#[trigger] before[m]).0@
                                    == self.decls@[j].0@;
                            assert(r@[m].0@ == self.decls@[j].0@);
                        }
                    }
                }
            } else {
                assert(has_key(r@, self.decls@[i as int].0@));
            }
        }
        proof {
            assert forall|key: Seq<char>| self@.contains_key(key) implies has_key(r@, key) by {
                lemma_label_map_present(self.decls@, key);
                let j = choose|j: int|
                    0 <= j < self.decls.len() && (#[trigger] self.decls@[j]).0@ == key;
                assert(has_key(r@, self.decls@[j].0@));
            }
        }
        r
    }
}

} // verus!
