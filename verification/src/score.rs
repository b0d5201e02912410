//! Branch tokens, their polarity, and the hint score of a node's text.
use crate::text::{chars_contain, chars_of, contains, lowercase, same_text, to_lowercase, trim, trim_text};
use vstd::prelude::*;

verus! {

/// Orientation named by a branch token.
#[derive(Clone, Copy, Debug, PartialEq, Eq, Structural)]
pub enum Polarity {
    Positive,
    Negative,
}

/// The words that speak for the positive branch.
pub open spec fn positive_words() -> Seq<Seq<char>> {
    seq![
        "add"@,
        "use"@,
        "enable"@,
        "create"@,
        "remove"@,
        "success"@,
        "ready"@,
        "connected"@,
        "established"@,
        "proceed"@,
        "continue"@,
    ]
}

/// The words that speak for the negative branch.
pub open spec fn negative_words() -> Seq<Seq<char>> {
    seq![
        "fail"@,
        "error"@,
        "invalid"@,
        "reject"@,
        "timeout"@,
        "blocked"@,
        "missing"@,
        "not"@,
        "false"@,
        "empty"@,
        "return"@,
        "skip"@,
        "default"@,
    ]
}

/// The polarity of a branch token: positive for `yes` and `true`, negative
/// for `no` and `false`, none for any other text.
pub open spec fn token_polarity(token: Seq<char>) -> Option<Polarity> {
    if token == "yes"@ || token == "true"@ {
        Some(Polarity::Positive)
    } else if token == "no"@ || token == "false"@ {
        Some(Polarity::Negative)
    } else {
        None
    }
}

/// The polarity of a label: that of the branch token it is once trimmed and
/// put in lower case, none where it is no branch token.
pub open spec fn polarity_of(label: Seq<char>) -> Option<Polarity> {
    token_polarity(lowercase(trim(label)))
}

/// Whether a label is one of the branch tokens `yes`, `no`, `true`, `false`,
/// whatever its case and the white space around it.
pub open spec fn is_branch_token(label: Seq<char>) -> bool {
    polarity_of(label) is Some
}

/// How many of `words` stand in `text`.
pub open spec fn hits(text: Seq<char>, words: Seq<Seq<char>>) -> int
    decreases words.len(),
{
    if words.len() == 0 {
        0
    } else {
        hits(text, words.drop_last()) + if contains(text, words.last()) {
            1int
        } else {
            0int
        }
    }
}

/// The score of a text in lower case for a branch of the given polarity:
/// the hint words in its favour that stand in it, less those against it.
pub open spec fn lowered_score(t: Seq<char>, polarity: Option<Polarity>) -> int {
    match polarity {
        None => 0,
        Some(Polarity::Positive) => hits(t, positive_words()) - hits(t, negative_words()),
        Some(Polarity::Negative) => hits(t, negative_words()) - hits(t, positive_words()),
    }
}

/// The score of `text` for a branch of the given polarity: that of the text
/// in lower case.
pub open spec fn score(text: Seq<char>, polarity: Option<Polarity>) -> int {
    lowered_score(lowercase(text), polarity)
}

/// The two polarities score a text against each other.
pub proof fn lemma_score_opposite(text: Seq<char>)
    ensures
        score(text, Some(Polarity::Positive)) == -score(text, Some(Polarity::Negative)),
{
}

/// The words that speak for the positive branch.
fn positive_list() -> (r: Vec<&'static str>)
    ensures
        r.deep_view() == positive_words(),
        r@.len() == 11,
{
    let mut r: Vec<&'static str> = Vec::new();
    r.push("add");
    r.push("use");
    r.push("enable");
    r.push("create");
    r.push("remove");
    r.push("success");
    r.push("ready");
    r.push("connected");
    r.push("established");
    r.push("proceed");
    r.push("continue");
    assert(r.deep_view() =~= positive_words());
    r
}

/// The words that speak for the negative branch.
fn negative_list() -> (r: Vec<&'static str>)
    ensures
        r.deep_view() == negative_words(),
        r@.len() == 13,
{
    let mut r: Vec<&'static str> = Vec::new();
    r.push("fail");
    r.push("error");
    r.push("invalid");
    r.push("reject");
    r.push("timeout");
    r.push("blocked");
    r.push("missing");
    r.push("not");
    r.push("false");
    r.push("empty");
    r.push("return");
    r.push("skip");
    r.push("default");
    assert(r.deep_view() =~= negative_words());
    r
}

/// How many of `words` stand in `text`.
fn count_hits(text: &Vec<char>, words: &Vec<&'static str>) -> (n: i32)
    requires
        words.len() <= 100,
    ensures
        n == hits(text@, words.deep_view()),
        0 <= n <= words.len(),
{
    let mut n: i32 = 0;
    let mut i: usize = 0;
    while i < words.len()
        invariant
            i <= words.len() <= 100,
            n == hits(text@, words.deep_view().take(i as int)),
            0 <= n <= i,
        decreases words.len() - i,
    {
        assert(words.deep_view().take(i + 1).drop_last() =~= words.deep_view().take(i as int));
        let w = chars_of(words[i]);
        if chars_contain(text, &w) {
            n += 1;
        }
        i += 1;
    }
    assert(words.deep_view().take(words.len() as int) =~= words.deep_view());
    n
}

/// Whether a label is a branch token.
pub fn is_branch_label(label: &Option<String>) -> (b: bool)
    ensures
        b == (label matches Some(l) && is_branch_token(l@)),
{
    match label {
        None => false,
        Some(l) => label_polarity(l.as_str()).is_some(),
    }
}

/// The polarity of a branch token.
pub fn polarity_of_token(token: &str) -> (p: Option<Polarity>)
    ensures
        p == token_polarity(token@),
{
    if same_text(token, "yes") || same_text(token, "true") {
        Some(Polarity::Positive)
    } else if same_text(token, "no") || same_text(token, "false") {
        Some(Polarity::Negative)
    } else {
        None
    }
}

/// The polarity of a label.
pub fn label_polarity(label: &str) -> (p: Option<Polarity>)
    ensures
        p == polarity_of(label@),
{
    let trimmed = trim_text(label);
    let lowered = to_lowercase(trimmed.as_str());
    polarity_of_token(lowered.as_str())
}

/// The score of a text in lower case for a branch of the given polarity.
pub fn score_of_lowered(lowered: &str, polarity: Option<Polarity>) -> (n: i32)
    ensures
        n == lowered_score(lowered@, polarity),
        -13 <= n <= 13,
{
    match polarity {
        None => 0,
        Some(p) => {
            let t = chars_of(lowered);
            let pos = count_hits(&t, &positive_list());
            let neg = count_hits(&t, &negative_list());
            match p {
                Polarity::Positive => pos - neg,
                Polarity::Negative => neg - pos,
            }
        },
    }
}

/// The score of `text` for a branch of the given polarity.
pub fn edge_score(text: &str, polarity: Option<Polarity>) -> (n: i32)
    ensures
        n == score(text@, polarity),
        -13 <= n <= 13,
{
    let lowered = to_lowercase(text);
    score_of_lowered(lowered.as_str(), polarity)
}

} // verus!
