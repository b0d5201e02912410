//! The index of a main page: the pages it lists, the numbered names they
//! get from their place in the list, and the links that follow the new
//! names.
use crate::pattern::{
    captures, each, first_captures, is_match, matches_in, regex_scan, scan, splice, FoundView,
};
use crate::text::{
    before, chars_of, ends_with, find, lemma_texts_push, lines, lowercase, occurs, occurs_at,
    push_all, push_str, push_two_digits, replace, replace_text, slice_of, split_lines,
    starts_with, string_of, text_ends_with, text_starts_with, to_lowercase, two_digits,
};
use crate::textmap::TextMap;
use std::path::Path;
use vstd::prelude::*;

verus! {

/// A link whose target is broken over two lines.
pub const BROKEN_LINK_PATTERN: &'static str = r"\]\([^)]*\n[^)]*\)";

/// A list item that is nothing but a link.
pub const ITEM_PATTERN: &'static str = r"^\s*-\s+\[[^\]]+\]\(([^)]+)\)\s*$";

/// The start of a name that has its number already.
pub const NUMBERED_PATTERN: &'static str = r"^\d{2}-";

/// The target of a link, between the brackets of its text and its end.
pub const LINK_TARGET_PATTERN: &'static str = r"\]\(([^)]+)\)";

/// The text with every link target that is broken over lines put on one
/// line.
pub open spec fn mended(text: Seq<char>) -> Seq<char> {
    let sc = regex_scan(BROKEN_LINK_PATTERN@, text);
    sc.replaced(each(sc.found, |f: FoundView| replace(f.group(0), "\n"@, ""@)))
}

/// Whether a target names another site.
pub open spec fn is_remote(target: Seq<char>) -> bool {
    starts_with(target, "http://"@) || starts_with(target, "https://"@)
}

/// The page that a line of the index lists: the target of its link, where
/// the line is a list item with a link to a markdown file of this site.
pub open spec fn listed(line: Seq<char>) -> Option<Seq<char>> {
    match first_captures(ITEM_PATTERN@, line) {
        Some(f) => if !is_remote(f.group(1)) && ends_with(lowercase(f.group(1)), ".md"@) {
            Some(f.group(1))
        } else {
            None
        },
        None => None,
    }
}

/// The pages that the lines list, in order.
pub open spec fn listed_in(lines: Seq<Seq<char>>) -> Seq<Seq<char>>
    decreases lines.len(),
{
    if lines.len() == 0 {
        Seq::empty()
    } else {
        match listed(lines.last()) {
            Some(t) => listed_in(lines.drop_last()).push(t),
            None => listed_in(lines.drop_last()),
        }
    }
}

/// The pages that the index lists, in order.
pub open spec fn index_of(text: Seq<char>) -> Seq<Seq<char>> {
    listed_in(lines(mended(text)))
}

/// A target cut at its last component.
#[derive(Clone, Debug)]
pub struct PathSplit {
    /// What stands before the last component, `None` where the target has
    /// nothing before it.
    pub parent: Option<String>,
    /// The last component, empty where the target has none.
    pub file_name: String,
}

/// A cut target as contracts speak of it.
pub struct PathSplitView {
    pub parent: Option<Seq<char>>,
    pub file_name: Seq<char>,
}

impl View for PathSplit {
    type V = PathSplitView;

    open spec fn view(&self) -> PathSplitView {
        PathSplitView { parent: self.parent.deep_view(), file_name: self.file_name@ }
    }
}

impl DeepView for PathSplit {
    type V = PathSplitView;

    open spec fn deep_view(&self) -> PathSplitView {
        self.view()
    }
}

/// `Path::file_name` of `target`, as text; empty where the path has no
/// file name. What a path's components are depends on the platform, so
/// nothing is stated of the result.
#[verifier::external_body]
pub(crate) fn file_name_of(target: &str) -> (r: String) {
    Path::new(target).file_name().and_then(|f| f.to_str()).unwrap_or("").to_string()
}

/// `Path::parent` of `target`, as text. What a path's components are
/// depends on the platform, so nothing is stated of the result.
#[verifier::external_body]
pub(crate) fn parent_of(target: &str) -> (r: Option<String>) {
    Path::new(target).parent().map(|p| p.display().to_string())
}

/// The numbered name of the page at place `place` of the index: the file
/// name behind its number, in the directory it is in. A page whose file
/// name has a number already gets none.
pub open spec fn numbered(place: nat, split: PathSplitView) -> Option<Seq<char>> {
    if matches_in(NUMBERED_PATTERN@, split.file_name) {
        None
    } else {
        let name = two_digits(place) + "-"@ + split.file_name;
        match split.parent {
            Some(dir) => if dir.len() > 0 {
                Some(dir + "/"@ + name)
            } else {
                Some(name)
            },
            None => Some(name),
        }
    }
}

/// The mapping from the pages of the index to their numbered names, the
/// page at index `i` being cut as `splits[i]` says and having place
/// `i + 1`.
pub open spec fn ordinals(items: Seq<Seq<char>>, splits: Seq<PathSplitView>) -> Map<
    Seq<char>,
    Seq<char>,
>
    decreases items.len(),
{
    if items.len() == 0 || splits.len() != items.len() {
        Map::empty()
    } else {
        let rest = ordinals(items.drop_last(), splits.drop_last());
        match numbered(items.len(), splits.last()) {
            Some(name) => rest.insert(items.last(), name),
            None => rest,
        }
    }
}

/// The length of the run of `../` at the start of `s` from `i` on, in
/// characters.
pub open spec fn ups(s: Seq<char>, i: int) -> int
    decreases s.len() - i,
{
    if 0 <= i && occurs_at(s, "../"@, i) && "../"@.len() == 3 {
        ups(s, i + 3)
    } else {
        i
    }
}

/// The length of what leads a relative target: its run of `../`, and a
/// `./` behind it.
pub open spec fn lead(s: Seq<char>) -> int {
    let u = ups(s, 0);
    if occurs_at(s, "./"@, u) {
        u + 2
    } else {
        u
    }
}

/// What is written for a link with the given target: the link to the new
/// name of the page, behind the same lead and with the same anchor, where
/// the mapping has the page; else the link as it is.
pub open spec fn relinked(
    whole: Seq<char>,
    target: Seq<char>,
    mapping: Map<Seq<char>, Seq<char>>,
) -> Seq<char> {
    if is_remote(target) {
        whole
    } else {
        let path = before(target, "#"@);
        let anchor = target.subrange(path.len() as int, target.len() as int);
        let k = lead(path);
        let page = path.subrange(k, path.len() as int);
        if 0 <= k <= path.len() && mapping.contains_key(page) {
            "]("@ + path.subrange(0, k) + mapping[page] + anchor + ")"@
        } else {
            whole
        }
    }
}

/// The text with every link to a page of the mapping pointing to its new
/// name.
pub open spec fn with_new_names(text: Seq<char>, mapping: Map<Seq<char>, Seq<char>>) -> Seq<
    char,
> {
    let sc = regex_scan(LINK_TARGET_PATTERN@, text);
    sc.replaced(each(sc.found, |f: FoundView| relinked(f.group(0), f.group(1), mapping)))
}

/// Puts every link target that is broken over lines on one line.
fn mend(text: &str) -> (r: String)
    ensures
        r@ == mended(text@),
{
    let sc = scan(BROKEN_LINK_PATTERN, text);
    let mut pieces: Vec<String> = Vec::new();
    let mut i: usize = 0;
    proof {
        reveal_strlit("\n");
    }
    while i < sc.found.len()
        invariant
            i <= sc.found.len(),
            pieces.len() == i,
            "\n"@.len() == 1,
            forall|k: int|
                0 <= k < i ==> pieces@[k]@ == replace((#[trigger] sc@.found[k]).group(0), "\n"@, ""@),
        decreases sc.found.len() - i,
    {
        let whole = sc.found[i].group_text(0);
        pieces.push(replace_text(whole.as_str(), "\n", ""));
        i += 1;
    }
    assert(pieces.deep_view() =~= each(
        sc@.found,
        |f: FoundView| replace(f.group(0), "\n"@, ""@),
    ));
    splice(&sc, &pieces)
}

/// Whether a target names another site.
fn remote(target: &str) -> (b: bool)
    ensures
        b == is_remote(target@),
{
    text_starts_with(target, "http://") || text_starts_with(target, "https://")
}

/// The pages that the index lists, in order.
pub fn parse_readme_index(text: &str) -> (r: Vec<String>)
    ensures
        r.deep_view() == index_of(text@),
{
    let whole = mend(text);
    let all = split_lines(whole.as_str());
    let mut items: Vec<String> = Vec::new();
    let mut i: usize = 0;
    assert(items.deep_view() =~= Seq::<Seq<char>>::empty());
    assert(all.deep_view().take(0) =~= Seq::<Seq<char>>::empty());
    while i < all.len()
        invariant
            i <= all.len(),
            items.deep_view() == listed_in(all.deep_view().take(i as int)),
        decreases all.len() - i,
    {
        let ghost before_items = items;
        assert(all.deep_view().take(i + 1).drop_last() =~= all.deep_view().take(i as int));
        match captures(ITEM_PATTERN, all[i].as_str()) {
            Some(f) => {
                let target = f.group_text(1);
                let lowered = to_lowercase(target.as_str());
                if !remote(target.as_str()) && text_ends_with(lowered.as_str(), ".md") {
                    items.push(target);
                    proof {
                        lemma_texts_push(before_items, items, target);
                    }
                }
            },
            None => {},
        }
        i += 1;
    }
    assert(all.deep_view().take(i as int) =~= all.deep_view());
    items
}

/// The numbered name of the page at place `place`.
pub fn numbered_name(place: usize, split: &PathSplit) -> (r: Option<String>)
    ensures
        r.deep_view() == numbered(place as nat, split@),
{
    if is_match(NUMBERED_PATTERN, split.file_name.as_str()) {
        return None;
    }
    let mut out: Vec<char> = Vec::new();
    match &split.parent {
        Some(dir) => {
            if dir.as_str().unicode_len() > 0 {
                push_str(&mut out, dir.as_str());
                push_str(&mut out, "/");
            }
        },
        None => {},
    }
    push_two_digits(&mut out, place);
    push_str(&mut out, "-");
    push_str(&mut out, split.file_name.as_str());
    let name = string_of(&out);
    assert(Some(name@) =~= numbered(place as nat, split@)) by {
        let expected = numbered(place as nat, split@);
        assert(expected is Some);
        assert(name@ =~= expected->0);
    }
    Some(name)
}

/// Numbers the pages `items` by their place, each being cut as `splits`
/// says.
pub fn number_pages(items: &Vec<String>, splits: &Vec<PathSplit>) -> (r: TextMap)
    requires
        splits.len() == items.len(),
    ensures
        r@ == ordinals(items.deep_view(), splits.deep_view()),
{
    let mut mapping = TextMap::new();
    let mut i: usize = 0;
    while i < items.len()
        invariant
            i <= items.len(),
            splits.len() == items.len(),
            mapping@ == ordinals(items.deep_view().take(i as int), splits.deep_view().take(i as int)),
        decreases items.len() - i,
    {
        assert(items.deep_view().take(i + 1).drop_last() =~= items.deep_view().take(i as int));
        assert(splits.deep_view().take(i + 1).drop_last() =~= splits.deep_view().take(i as int));
        match numbered_name(i + 1, &splits[i]) {
            Some(name) => {
                mapping.insert(items[i].clone(), name);
            },
            None => {},
        }
        i += 1;
    }
    assert(items.deep_view().take(i as int) =~= items.deep_view());
    assert(splits.deep_view().take(i as int) =~= splits.deep_view());
    mapping
}

/// The mapping from the pages that the index lists to their numbered
/// names. How a target is cut at its last component is the platform's
/// matter; the mapping is the one that `ordinals` makes of the cuts.
pub fn build_ordinal_mapping(text: &str) -> (r: TextMap)
    ensures
        exists|splits: Seq<PathSplitView>|
            splits.len() == index_of(text@).len() && r@ == #[trigger] ordinals(
                index_of(text@),
                splits,
            ),
{
    let items = parse_readme_index(text);
    let mut splits: Vec<PathSplit> = Vec::new();
    let mut i: usize = 0;
    while i < items.len()
        invariant
            i <= items.len(),
            splits.len() == i,
        decreases items.len() - i,
    {
        let file_name = file_name_of(items[i].as_str());
        let parent = parent_of(items[i].as_str());
        splits.push(PathSplit { parent, file_name });
        i += 1;
    }
    number_pages(&items, &splits)
}

/// The length of what leads a relative target.
fn lead_of(path: &Vec<char>) -> (k: usize)
    ensures
        k == lead(path@),
        k <= path.len(),
{
    let up = chars_of("../");
    let here = chars_of("./");
    proof {
        reveal_strlit("../");
        reveal_strlit("./");
    }
    let mut k: usize = 0;
    while occurs(path, &up, k)
        invariant
            k <= path.len(),
            up@ == "../"@,
            "../"@.len() == 3,
            ups(path@, 0) == ups(path@, k as int),
        decreases path.len() - k,
    {
        k += 3;
    }
    if occurs(path, &here, k) {
        k += 2;
    }
    k
}

/// What is written for a link with the given target.
fn relink(whole: &str, target: &str, mapping: &TextMap) -> (r: String)
    ensures
        r@ == relinked(whole@, target@, mapping@),
{
    if remote(target) {
        return String::from_str(whole);
    }
    let t = chars_of(target);
    let hash = chars_of("#");
    let cut: usize = match find(&t, &hash, 0) {
        Some(i) => i,
        None => t.len(),
    };
    let path = slice_of(&t, 0, cut);
    assert(path@ =~= before(target@, "#"@));
    let anchor = slice_of(&t, cut, t.len());
    let k = lead_of(&path);
    let page = string_of(&slice_of(&path, k, path.len()));
    match mapping.get(page.as_str()) {
        Some(name) => {
            let mut out: Vec<char> = Vec::new();
            push_str(&mut out, "](");
            push_all(&mut out, &slice_of(&path, 0, k));
            push_str(&mut out, name.as_str());
            push_all(&mut out, &anchor);
            push_str(&mut out, ")");
            assert(out@ =~= relinked(whole@, target@, mapping@));
            string_of(&out)
        },
        None => String::from_str(whole),
    }
}

/// Points every link to a page of the mapping to the new name of the page.
pub fn rewrite_markdown_links(text: &str, mapping: &TextMap) -> (r: String)
    ensures
        r@ == with_new_names(text@, mapping@),
{
    let sc = scan(LINK_TARGET_PATTERN, text);
    let mut pieces: Vec<String> = Vec::new();
    let mut i: usize = 0;
    while i < sc.found.len()
        invariant
            i <= sc.found.len(),
            pieces.len() == i,
            forall|k: int|
                0 <= k < i ==> pieces@[k]@ == relinked(
                    (#[trigger] sc@.found[k]).group(0),
                    sc@.found[k].group(1),
                    mapping@,
                ),
        decreases sc.found.len() - i,
    {
        let whole = sc.found[i].group_text(0);
        let target = sc.found[i].group_text(1);
        pieces.push(relink(whole.as_str(), target.as_str(), mapping));
        i += 1;
    }
    assert(pieces.deep_view() =~= each(
        sc@.found,
        |f: FoundView| relinked(f.group(0), f.group(1), mapping@),
    ));
    splice(&sc, &pieces)
}

} // verus!
