//! Regular-expression search, and what this crate derives from the list of
//! matches: tests, first captures, splitting and replacement.
use crate::text::{push_str, string_of};
use regex::Regex;
use vstd::prelude::*;

verus! {

/// One match of a pattern in a text.
#[derive(Clone, Debug)]
pub struct Found {
    /// The text between the end of the previous match (or the start of the
    /// text) and the start of this match.
    pub gap: String,
    /// The text of each capture group, group 0 being the whole match; `None`
    /// for a group that took no part in the match.
    pub groups: Vec<Option<String>>,
}

/// All matches of a pattern in a text, first to last.
#[derive(Clone, Debug)]
pub struct Scan {
    pub found: Vec<Found>,
    /// The text after the last match; the whole text where nothing matched.
    pub rest: String,
}

/// A match as contracts speak of it.
pub struct FoundView {
    pub gap: Seq<char>,
    pub groups: Seq<Option<Seq<char>>>,
}

/// The matches in a text as contracts speak of them.
pub struct ScanView {
    pub found: Seq<FoundView>,
    pub rest: Seq<char>,
}

impl View for Found {
    type V = FoundView;

    open spec fn view(&self) -> FoundView {
        FoundView { gap: self.gap@, groups: self.groups.deep_view() }
    }
}

impl View for Scan {
    type V = ScanView;

    open spec fn view(&self) -> ScanView {
        ScanView { found: Seq::new(self.found@.len(), |i: int| self.found@[i]@), rest: self.rest@ }
    }
}

impl FoundView {
    /// The text of group `k`, empty where the group is absent.
    pub open spec fn group(self, k: int) -> Seq<char> {
        if 0 <= k < self.groups.len() && self.groups[k] is Some {
            self.groups[k]->0
        } else {
            Seq::empty()
        }
    }

    /// Whether group `k` took part in the match.
    pub open spec fn has_group(self, k: int) -> bool {
        0 <= k < self.groups.len() && self.groups[k] is Some
    }
}

impl Found {
    /// The text of group `k`, empty where the group is absent.
    pub fn group_text(&self, k: usize) -> (r: String)
        ensures
            r@ == self@.group(k as int),
    {
        if k < self.groups.len() {
            match &self.groups[k] {
                Some(s) => s.clone(),
                None => String::new(),
            }
        } else {
            String::new()
        }
    }

    /// Whether group `k` took part in the match.
    pub fn has(&self, k: usize) -> (b: bool)
        ensures
            b == self@.has_group(k as int),
    {
        k < self.groups.len() && self.groups[k].is_some()
    }
}

/// The gaps of `found` with `pieces` put between them: gap 0, piece 0,
/// gap 1, piece 1, and so on through the last of `found`.
pub open spec fn interleave(found: Seq<FoundView>, pieces: Seq<Seq<char>>) -> Seq<char>
    decreases found.len(),
{
    if found.len() == 0 || pieces.len() != found.len() {
        Seq::empty()
    } else {
        interleave(found.drop_last(), pieces.drop_last()) + found.last().gap + pieces.last()
    }
}

/// The whole-match text of each of `found`.
pub open spec fn wholes(found: Seq<FoundView>) -> Seq<Seq<char>> {
    Seq::new(found.len(), |i: int| found[i].group(0))
}

impl ScanView {
    /// The text in which each match is replaced by the piece of the same
    /// index.
    pub open spec fn replaced(self, pieces: Seq<Seq<char>>) -> Seq<char> {
        interleave(self.found, pieces) + self.rest
    }

    /// Each match has its whole text, and gaps, matches and rest together
    /// make up `text`.
    pub open spec fn covers(self, text: Seq<char>) -> bool {
        &&& forall|i: int| 0 <= i < self.found.len() ==> (#[trigger] self.found[i]).has_group(0)
        &&& self.replaced(wholes(self.found)) == text
    }
}

/// The matches of the regular expression `pattern` in `text`, as
/// `Regex::captures_iter` yields them; no match at all where `pattern` is not
/// a regular expression.
pub uninterp spec fn regex_scan(pattern: Seq<char>, text: Seq<char>) -> ScanView;

/// `Regex::new` followed by `Regex::captures_iter`: the successive
/// non-overlapping matches of `pattern` in `text`, each with the text of its
/// groups and with the stretch of `text` that lies before it. The result is a
/// function of the two arguments, named `regex_scan`. Since the matches do
/// not overlap and come in order, the stretches between them, the matches and
/// the rest are the text cut in pieces.
#[verifier::external_body]
pub(crate) fn scan(pattern: &str, text: &str) -> (res: Scan)
    ensures
        res@ == regex_scan(pattern@, text@),
        res@.covers(text@),
{
    let mut found: Vec<Found> = Vec::new();
    let mut last: usize = 0;
    if let Ok(re) = Regex::new(pattern) {
        for caps in re.captures_iter(text) {
            let whole = caps.get(0).unwrap();
            let groups = caps.iter().map(|g| g.map(|m| m.as_str().to_string())).collect();
            found.push(Found { gap: text[last..whole.start()].to_string(), groups });
            last = whole.end();
        }
    }
    Scan { found, rest: text[last..].to_string() }
}

/// Whether `pattern` matches somewhere in `text`.
pub open spec fn matches_in(pattern: Seq<char>, text: Seq<char>) -> bool {
    regex_scan(pattern, text).found.len() > 0
}

/// The groups of the first match of `pattern` in `text`.
pub open spec fn first_captures(pattern: Seq<char>, text: Seq<char>) -> Option<FoundView> {
    if matches_in(pattern, text) {
        Some(regex_scan(pattern, text).found[0])
    } else {
        None
    }
}

/// Whether `pattern` matches somewhere in `text`.
pub fn is_match(pattern: &str, text: &str) -> (b: bool)
    ensures
        b == matches_in(pattern@, text@),
{
    let sc = scan(pattern, text);
    sc.found.len() > 0
}

/// The first match of `pattern` in `text`.
pub fn captures(pattern: &str, text: &str) -> (res: Option<Found>)
    ensures
        res.is_some() == matches_in(pattern@, text@),
        res matches Some(f) ==> Some(f@) == first_captures(pattern@, text@),
{
    let mut sc = scan(pattern, text);
    if sc.found.len() > 0 {
        let f = sc.found.remove(0);
        Some(f)
    } else {
        None
    }
}


/// One piece for each match: what `f` makes of it.
pub open spec fn each(found: Seq<FoundView>, f: spec_fn(FoundView) -> Seq<char>) -> Seq<
    Seq<char>,
> {
    Seq::new(found.len(), |i: int| f(found[i]))
}

/// The stretches of the text that no match covers: the gaps, then the rest.
pub open spec fn between(sc: ScanView) -> Seq<Seq<char>> {
    Seq::new(sc.found.len(), |i: int| sc.found[i].gap).push(sc.rest)
}

/// `text` with `with` in place of every match of `pattern`.
pub open spec fn replace_all(pattern: Seq<char>, text: Seq<char>, with: Seq<char>) -> Seq<char> {
    let sc = regex_scan(pattern, text);
    sc.replaced(each(sc.found, |f: FoundView| with))
}

/// A text in which the pattern does not match stays as it is, whatever the
/// pieces.
pub proof fn lemma_no_match_no_change(sc: ScanView, text: Seq<char>, pieces: Seq<Seq<char>>)
    requires
        sc.covers(text),
        sc.found.len() == 0,
    ensures
        sc.replaced(pieces) == text,
{
    assert(interleave(sc.found, pieces) =~= interleave(sc.found, wholes(sc.found)));
}

/// The text of `sc` with each match replaced by the piece of the same index.
pub fn splice(sc: &Scan, pieces: &Vec<String>) -> (r: String)
    requires
        pieces.len() == sc.found.len(),
    ensures
        r@ == sc@.replaced(pieces.deep_view()),
{
    let mut out: Vec<char> = Vec::new();
    let mut i: usize = 0;
    while i < sc.found.len()
        invariant
            i <= sc.found.len(),
            pieces.len() == sc.found.len(),
            out@ == interleave(sc@.found.take(i as int), pieces.deep_view().take(i as int)),
        decreases sc.found.len() - i,
    {
        assert(sc@.found.take(i + 1).drop_last() =~= sc@.found.take(i as int));
        assert(pieces.deep_view().take(i + 1).drop_last() =~= pieces.deep_view().take(i as int));
        push_str(&mut out, sc.found[i].gap.as_str());
        push_str(&mut out, pieces[i].as_str());
        i += 1;
    }
    assert(sc@.found.take(i as int) =~= sc@.found);
    assert(pieces.deep_view().take(i as int) =~= pieces.deep_view());
    push_str(&mut out, sc.rest.as_str());
    string_of(&out)
}

/// `text` with `with` in place of every match of `pattern`.
pub fn replace_matches(pattern: &str, text: &str, with: &str) -> (r: String)
    ensures
        r@ == replace_all(pattern@, text@, with@),
        !matches_in(pattern@, text@) ==> r@ == text@,
{
    let sc = scan(pattern, text);
    let mut pieces: Vec<String> = Vec::new();
    let mut i: usize = 0;
    while i < sc.found.len()
        invariant
            i <= sc.found.len(),
            pieces.len() == i,
            forall|k: int| 0 <= k < i ==> pieces@[k]@ == with@,
        decreases sc.found.len() - i,
    {
        pieces.push(String::from_str(with));
        i += 1;
    }
    assert(pieces.deep_view() =~= each(sc@.found, |f: FoundView| with@));
    proof {
        if sc.found.len() == 0 {
            lemma_no_match_no_change(sc@, text@, pieces.deep_view());
        }
    }
    splice(&sc, &pieces)
}


/// One part of what is written in place of a match.
#[derive(Clone, Debug)]
pub enum Part {
    /// A fixed text.
    Text(String),
    /// The text of a capture group of the match.
    Group(usize),
}

/// A part as contracts speak of it.
pub enum PartView {
    Text(Seq<char>),
    Group(int),
}

impl View for Part {
    type V = PartView;

    open spec fn view(&self) -> PartView {
        match self {
            Part::Text(t) => PartView::Text(t@),
            Part::Group(k) => PartView::Group(*k as int),
        }
    }
}

impl DeepView for Part {
    type V = PartView;

    open spec fn deep_view(&self) -> PartView {
        self.view()
    }
}

/// What `template` writes for the match `f`: its parts one after the other,
/// each group part being the text of that group in `f`.
pub open spec fn filled(template: Seq<PartView>, f: FoundView) -> Seq<char>
    decreases template.len(),
{
    if template.len() == 0 {
        Seq::empty()
    } else {
        filled(template.drop_last(), f) + match template.last() {
            PartView::Text(t) => t,
            PartView::Group(k) => f.group(k),
        }
    }
}

/// `text` with every match of `pattern` written anew by `template`.
pub open spec fn rewritten(pattern: Seq<char>, text: Seq<char>, template: Seq<PartView>) -> Seq<
    char,
> {
    let sc = regex_scan(pattern, text);
    sc.replaced(each(sc.found, |f: FoundView| filled(template, f)))
}

/// A fixed text as a part.
pub fn fixed(t: &str) -> (p: Part)
    ensures
        p@ == PartView::Text(t@),
{
    Part::Text(String::from_str(t))
}

/// What `template` writes for the match `f`.
pub fn fill(template: &Vec<Part>, f: &Found) -> (r: String)
    ensures
        r@ == filled(template.deep_view(), f@),
{
    let mut out: Vec<char> = Vec::new();
    let mut i: usize = 0;
    while i < template.len()
        invariant
            i <= template.len(),
            out@ == filled(template.deep_view().take(i as int), f@),
        decreases template.len() - i,
    {
        assert(template.deep_view().take(i + 1).drop_last() =~= template.deep_view().take(
            i as int,
        ));
        match &template[i] {
            Part::Text(t) => {
                push_str(&mut out, t.as_str());
            },
            Part::Group(k) => {
                push_str(&mut out, f.group_text(*k).as_str());
            },
        }
        i += 1;
    }
    assert(template.deep_view().take(i as int) =~= template.deep_view());
    string_of(&out)
}

/// `text` with every match of `pattern` written anew by `template`.
pub fn rewrite(pattern: &str, text: &str, template: &Vec<Part>) -> (r: String)
    ensures
        r@ == rewritten(pattern@, text@, template.deep_view()),
        !matches_in(pattern@, text@) ==> r@ == text@,
{
    let sc = scan(pattern, text);
    let mut pieces: Vec<String> = Vec::new();
    let mut i: usize = 0;
    while i < sc.found.len()
        invariant
            i <= sc.found.len(),
            pieces.len() == i,
            forall|k: int|
                0 <= k < i ==> pieces@[k]@ == filled(
                    template.deep_view(),
                    #[trigger] sc@.found[k],
                ),
        decreases sc.found.len() - i,
    {
        pieces.push(fill(template, &sc.found[i]));
        i += 1;
    }
    assert(pieces.deep_view() =~= each(
        sc@.found,
        |f: FoundView| filled(template.deep_view(), f),
    ));
    proof {
        if sc.found.len() == 0 {
            lemma_no_match_no_change(sc@, text@, pieces.deep_view());
        }
    }
    splice(&sc, &pieces)
}

/// `text` after `n` rewritings of every match of `pattern` by `template`.
pub open spec fn rewritten_times(
    pattern: Seq<char>,
    text: Seq<char>,
    template: Seq<PartView>,
    n: nat,
) -> Seq<char>
    decreases n,
{
    if n == 0 {
        text
    } else {
        rewritten_times(pattern, rewritten(pattern, text, template), template, (n - 1) as nat)
    }
}

/// `text` rewritten until `pattern` matches in it no more, and `left` times
/// at most.
pub open spec fn rewritten_until_gone(
    pattern: Seq<char>,
    text: Seq<char>,
    template: Seq<PartView>,
    left: nat,
) -> Seq<char>
    decreases left,
{
    if !matches_in(pattern, text) || left == 0 {
        text
    } else {
        rewritten_until_gone(
            pattern,
            rewritten(pattern, text, template),
            template,
            (left - 1) as nat,
        )
    }
}

/// In what `rewritten_until_gone` gives the pattern matches no more, unless
/// it matched after every one of the rewritings.
pub proof fn lemma_rewritten_until_gone(
    pattern: Seq<char>,
    text: Seq<char>,
    template: Seq<PartView>,
    left: nat,
)
    ensures
        !matches_in(pattern, rewritten_until_gone(pattern, text, template, left)) || forall|j: nat|
            j <= left ==> matches_in(pattern, #[trigger] rewritten_times(pattern, text, template, j)),
    decreases left,
{
    if !matches_in(pattern, text) || left == 0 {
        if matches_in(pattern, text) {
            assert forall|j: nat| j <= left implies matches_in(
                pattern,
                #[trigger] rewritten_times(pattern, text, template, j),
            ) by {
                assert(rewritten_times(pattern, text, template, 0) == text);
            }
        }
    } else {
        let next = rewritten(pattern, text, template);
        lemma_rewritten_until_gone(pattern, next, template, (left - 1) as nat);
        if matches_in(pattern, rewritten_until_gone(pattern, text, template, left)) {
            assert forall|j: nat| j <= left implies matches_in(
                pattern,
                #[trigger] rewritten_times(pattern, text, template, j),
            ) by {
                if j > 0 {
                    assert(rewritten_times(pattern, text, template, j) == rewritten_times(
                        pattern,
                        next,
                        template,
                        (j - 1) as nat,
                    ));
                    assert(matches_in(
                        pattern,
                        rewritten_times(pattern, next, template, (j - 1) as nat),
                    ));
                }
            }
        }
    }
}

/// Rewrites every match of `pattern` in `text` by `template`, and again
/// while the pattern matches in what the rewriting gave; a text is
/// rewritten as often as it has characters, at most.
pub fn rewrite_until_gone(pattern: &str, text: &str, template: &Vec<Part>) -> (r: String)
    ensures
        r@ == rewritten_until_gone(pattern@, text@, template.deep_view(), text@.len()),
        !matches_in(pattern@, text@) ==> r@ == text@,
        !matches_in(pattern@, r@) || forall|j: nat|
            j <= text@.len() ==> matches_in(
                pattern@,
                #[trigger] rewritten_times(pattern@, text@, template.deep_view(), j),
            ),
{
    proof {
        lemma_rewritten_until_gone(pattern@, text@, template.deep_view(), text@.len());
    }
    let ghost goal = rewritten_until_gone(pattern@, text@, template.deep_view(), text@.len());
    let mut current = String::from_str(text);
    let mut left: usize = text.unicode_len();
    loop
        invariant
            rewritten_until_gone(pattern@, current@, template.deep_view(), left as nat) == goal,
            goal == rewritten_until_gone(pattern@, text@, template.deep_view(), text@.len()),
            !matches_in(pattern@, text@) ==> goal == text@,
            !matches_in(pattern@, goal) || forall|j: nat|
                j <= text@.len() ==> matches_in(
                    pattern@,
                    #[trigger] rewritten_times(pattern@, text@, template.deep_view(), j),
                ),
        decreases left,
    {
        if left == 0 || !is_match(pattern, current.as_str()) {
            return current;
        }
        current = rewrite(pattern, current.as_str(), template);
        left -= 1;
    }
}

/// Whether a character has a meaning of its own in a pattern.
pub open spec fn is_meta(c: char) -> bool {
    c == '\\' || c == '.' || c == '+' || c == '*' || c == '?' || c == '(' || c == ')' || c == '|'
        || c == '[' || c == ']' || c == '{' || c == '}' || c == '^' || c == '$' || c == '#' || c
        == '&' || c == '-' || c == '~'
}

/// `text` with a backslash before every character that has a meaning of
/// its own in a pattern: the pattern that matches `text` and nothing else.
pub open spec fn escaped(text: Seq<char>) -> Seq<char>
    decreases text.len(),
{
    if text.len() == 0 {
        Seq::empty()
    } else if is_meta(text.last()) {
        escaped(text.drop_last()).push('\\').push(text.last())
    } else {
        escaped(text.drop_last()).push(text.last())
    }
}

/// `regex::escape`: the characters of `text` in order, each of the eighteen
/// that have a meaning of their own in a pattern behind a backslash.
#[verifier::external_body]
pub(crate) fn escape(text: &str) -> (r: String)
    ensures
        r@ == escaped(text@),
{
    regex::escape(text)
}

} // verus!
