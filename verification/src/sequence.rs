//! Sequence diagrams: participants whose names hold a space or a hyphen get
//! an alias without them, in their declaration and in every other line. A
//! declaration that gives the name to show behind `as` keeps that name.
use crate::pattern::{captures, first_captures};
use crate::text::{
    chars_of, contains, find, first_from, lemma_replace_absent, push_str, replace, replace_text,
    same_text, slice_of, string_of, trim, trim_chars, trim_text,
};
use vstd::prelude::*;

verus! {

/// The grammar of a participant declaration.
pub const PARTICIPANT_PATTERN: &'static str = r"^\s*(participant)\s+(.+)$";

/// What stands between the name of a participant and the name it is shown
/// under.
pub const AS: &'static str = " as ";

/// A participant as its declaration states it.
#[derive(Clone, Debug)]
pub struct Participant {
    /// The name by which the other lines speak of the participant.
    pub name: String,
    /// The name under which the participant is shown.
    pub shown: String,
}

/// A participant as contracts speak of it.
pub struct ParticipantView {
    pub name: Seq<char>,
    pub shown: Seq<char>,
}

impl View for Participant {
    type V = ParticipantView;

    open spec fn view(&self) -> ParticipantView {
        ParticipantView { name: self.name@, shown: self.shown@ }
    }
}

impl DeepView for Participant {
    type V = ParticipantView;

    open spec fn deep_view(&self) -> ParticipantView {
        self.view()
    }
}

/// The participant that the text behind the keyword states: where the text
/// has the form `name as shown`, the two names, each trimmed; else the text
/// for both.
pub open spec fn participant_of(text: Seq<char>) -> ParticipantView {
    match first_from(text, AS@, 0) {
        Some(i) => ParticipantView {
            name: trim(text.subrange(0, i)),
            shown: trim(text.subrange(i + AS@.len(), text.len() as int)),
        },
        None => ParticipantView { name: text, shown: text },
    }
}

/// The participant that `line` declares, if it declares one.
pub open spec fn declared(line: Seq<char>) -> Option<ParticipantView> {
    match first_captures(PARTICIPANT_PATTERN@, line) {
        Some(f) => Some(participant_of(trim(f.group(2)))),
        None => None,
    }
}

/// The name that `line` declares, if it declares a participant.
pub open spec fn declared_name(line: Seq<char>) -> Option<Seq<char>> {
    match declared(line) {
        Some(p) => Some(p.name),
        None => None,
    }
}

/// Whether a name holds a space or a hyphen.
pub open spec fn needs_alias(name: Seq<char>) -> bool {
    name.contains(' ') || name.contains('-')
}

/// The name with an underscore in place of every space and hyphen.
pub open spec fn alias_of(name: Seq<char>) -> Seq<char> {
    Seq::new(
        name.len(),
        |i: int|
            if name[i] == ' ' || name[i] == '-' {
                '_'
            } else {
                name[i]
            },
    )
}

/// The names in need of an alias that the first `n` lines declare, each
/// once, in the order of their first declaration.
pub open spec fn names_upto(lines: Seq<Seq<char>>, n: int) -> Seq<Seq<char>>
    decreases n,
{
    if n <= 0 {
        Seq::empty()
    } else {
        let rest = names_upto(lines, n - 1);
        match declared_name(lines[n - 1]) {
            Some(name) => if needs_alias(name) && !rest.contains(name) {
                rest.push(name)
            } else {
                rest
            },
            None => rest,
        }
    }
}

/// The names in need of an alias that `lines` declare.
pub open spec fn names_of(lines: Seq<Seq<char>>) -> Seq<Seq<char>> {
    names_upto(lines, lines.len() as int)
}

/// `line` after the first `n` of `names` have given way to their aliases,
/// one name after the other.
pub open spec fn substituted(line: Seq<char>, names: Seq<Seq<char>>, n: int) -> Seq<char>
    decreases n,
{
    if n <= 0 {
        line
    } else {
        replace(substituted(line, names, n - 1), names[n - 1], alias_of(names[n - 1]))
    }
}

/// The declaration of a participant under the alias of its name, shown as
/// before.
pub open spec fn declaration(p: ParticipantView) -> Seq<char> {
    "participant "@ + alias_of(p.name) + AS@ + p.shown
}

/// What becomes of the declaration of `p`: it is written anew where the
/// name is in need of an alias, and stays where it is not.
pub open spec fn aliased_declaration(line: Seq<char>, p: ParticipantView) -> Seq<char> {
    if needs_alias(p.name) {
        declaration(p)
    } else {
        line
    }
}

/// What becomes of `line` in a block that declares `names`: a declaration
/// of a name in need of an alias is written anew, any other declaration
/// stays, and in every other line each name gives way to its alias.
pub open spec fn aliased_line(line: Seq<char>, names: Seq<Seq<char>>) -> Seq<char> {
    match declared(line) {
        Some(p) => aliased_declaration(line, p),
        None => substituted(line, names, names.len() as int),
    }
}

/// A declaration under a name that needs no alias stays as it is, whatever
/// name it shows.
pub proof fn lemma_clean_declaration_stays(line: Seq<char>, names: Seq<Seq<char>>)
    requires
        declared(line) matches Some(p) && !needs_alias(p.name),
    ensures
        aliased_line(line, names) == line,
{
}

/// The block with its participants aliased.
pub open spec fn aliased(lines: Seq<Seq<char>>) -> Seq<Seq<char>> {
    lines.map_values(|l: Seq<char>| aliased_line(l, names_of(lines)))
}

/// Whether no declaration among `lines` is under a name in need of an
/// alias.
pub open spec fn all_names_plain(lines: Seq<Seq<char>>) -> bool {
    forall|i: int|
        0 <= i < lines.len() ==> (#[trigger] declared(lines[i]) matches Some(p) ==> !needs_alias(
            p.name,
        ))
}

/// Lines whose declarations need no alias declare no name to replace.
pub proof fn lemma_plain_names(lines: Seq<Seq<char>>, n: int)
    requires
        all_names_plain(lines),
        0 <= n <= lines.len(),
    ensures
        names_upto(lines, n) == Seq::<Seq<char>>::empty(),
    decreases n,
{
    if n > 0 {
        lemma_plain_names(lines, n - 1);
        assert(declared(lines[n - 1]) matches Some(p) ==> !needs_alias(p.name));
    }
}

/// A block in which no declaration is under a name in need of an alias
/// stays as it is. So a second run changes nothing where the first has left
/// every declaration under its alias.
pub proof fn lemma_plain_block_stays(lines: Seq<Seq<char>>)
    requires
        all_names_plain(lines),
    ensures
        aliased(lines) == lines,
{
    lemma_plain_names(lines, lines.len() as int);
    assert forall|i: int| 0 <= i < lines.len() implies aliased(lines)[i] == lines[i] by {
        assert(declared(lines[i]) matches Some(p) ==> !needs_alias(p.name));
    }
    assert(aliased(lines) =~= lines);
}

/// A line in which none of the names stands stays as it is.
pub proof fn lemma_line_without_names_stays(line: Seq<char>, names: Seq<Seq<char>>, n: int)
    requires
        0 <= n <= names.len(),
        forall|i: int| 0 <= i < n ==> !contains(line, #[trigger] names[i]),
    ensures
        substituted(line, names, n) == line,
    decreases n,
{
    if n > 0 {
        lemma_line_without_names_stays(line, names, n - 1);
        assert(!contains(line, names[n - 1]));
        lemma_replace_absent(line, names[n - 1], alias_of(names[n - 1]));
    }
}

/// Whether two of the names share an alias, so that the aliases no longer
/// tell them apart.
pub open spec fn aliases_collide(names: Seq<Seq<char>>) -> bool {
    exists|i: int, j: int| 0 <= i < j < names.len() && #[trigger] same_alias(names, i, j)
}

/// Whether the names at `i` and `j` have the same alias.
pub open spec fn same_alias(names: Seq<Seq<char>>, i: int, j: int) -> bool {
    alias_of(names[i]) == alias_of(names[j])
}

/// The participant that the text behind the keyword states.
pub fn read_names(text: &str) -> (p: Participant)
    ensures
        p@ == participant_of(text@),
{
    let v = chars_of(text);
    let sep = chars_of(AS);
    match find(&v, &sep, 0) {
        Some(i) => {
            let name = trim_chars(&slice_of(&v, 0, i));
            let shown = trim_chars(&slice_of(&v, i + sep.len(), v.len()));
            Participant { name: string_of(&name), shown: string_of(&shown) }
        },
        None => Participant { name: string_of(&v), shown: string_of(&v) },
    }
}

/// The participant that `line` declares.
pub fn read_participant(line: &str) -> (r: Option<Participant>)
    ensures
        r.deep_view() == declared(line@),
{
    match captures(PARTICIPANT_PATTERN, line) {
        Some(f) => {
            let text = trim_text(f.group_text(2).as_str());
            Some(read_names(text.as_str()))
        },
        None => None,
    }
}

/// What becomes of the declaration of `p` that `line` holds.
pub fn alias_declaration(line: &str, p: &Participant) -> (r: String)
    ensures
        r@ == aliased_declaration(line@, p@),
{
    if name_needs_alias(p.name.as_str()) {
        let mut out: Vec<char> = Vec::new();
        push_str(&mut out, "participant ");
        push_str(&mut out, make_alias(p.name.as_str()).as_str());
        push_str(&mut out, AS);
        push_str(&mut out, p.shown.as_str());
        string_of(&out)
    } else {
        String::from_str(line)
    }
}

/// Whether a name holds a space or a hyphen.
pub fn name_needs_alias(name: &str) -> (b: bool)
    ensures
        b == needs_alias(name@),
{
    let v = chars_of(name);
    let mut i: usize = 0;
    while i < v.len()
        invariant
            i <= v.len(),
            v@ == name@,
            forall|k: int| 0 <= k < i ==> v@[k] != ' ' && v@[k] != '-',
        decreases v.len() - i,
    {
        if v[i] == ' ' || v[i] == '-' {
            assert(name@.contains(v@[i as int]));
            return true;
        }
        i += 1;
    }
    false
}

/// The alias of a name.
pub fn make_alias(name: &str) -> (r: String)
    ensures
        r@ == alias_of(name@),
{
    let v = chars_of(name);
    let mut out: Vec<char> = Vec::new();
    let mut i: usize = 0;
    while i < v.len()
        invariant
            i <= v.len(),
            out.len() == i,
            forall|k: int| 0 <= k < i ==> out@[k] == alias_of(v@)[k],
        decreases v.len() - i,
    {
        if v[i] == ' ' || v[i] == '-' {
            out.push('_');
        } else {
            out.push(v[i]);
        }
        i += 1;
    }
    assert(out@ =~= alias_of(v@));
    string_of(&out)
}

/// Whether `names` holds `name`.
fn holds_name(names: &Vec<String>, name: &str) -> (b: bool)
    ensures
        b == names.deep_view().contains(name@),
{
    let mut i: usize = 0;
    while i < names.len()
        invariant
            i <= names.len(),
            forall|k: int| 0 <= k < i ==> names.deep_view()[k] != name@,
        decreases names.len() - i,
    {
        if same_text(names[i].as_str(), name) {
            assert(names.deep_view()[i as int] == name@);
            return true;
        }
        i += 1;
    }
    false
}

/// The names in need of an alias that the lines declare.
fn collect_names(lines: &Vec<String>) -> (names: Vec<String>)
    ensures
        names.deep_view() == names_of(lines.deep_view()),
        forall|k: int| 0 <= k < names.len() ==> needs_alias(#[trigger] names@[k]@),
{
    let mut names: Vec<String> = Vec::new();
    let mut i: usize = 0;
    assert(names.deep_view() =~= Seq::<Seq<char>>::empty());
    while i < lines.len()
        invariant
            i <= lines.len(),
            names.deep_view() == names_upto(lines.deep_view(), i as int),
            forall|k: int| 0 <= k < names.len() ==> needs_alias(#[trigger] names@[k]@),
        decreases lines.len() - i,
    {
        let ghost before = names;
        match read_participant(lines[i].as_str()) {
            Some(p) => {
                let name = p.name;
                if name_needs_alias(name.as_str()) && !holds_name(&names, name.as_str()) {
                    names.push(name);
                    assert(names.deep_view() =~= before.deep_view().push(name@));
                }
            },
            None => {},
        }
        i += 1;
    }
    names
}

/// Whether two participants of the block share an alias.
pub fn has_alias_collision(lines: &Vec<String>) -> (b: bool)
    ensures
        b == aliases_collide(names_of(lines.deep_view())),
{
    let names = collect_names(lines);
    let ghost all = names.deep_view();
    let mut aliases: Vec<String> = Vec::new();
    let mut j: usize = 0;
    while j < names.len()
        invariant
            j <= names.len(),
            all == names.deep_view(),
            all == names_of(lines.deep_view()),
            aliases.len() == j,
            forall|k: int| 0 <= k < j ==> aliases.deep_view()[k] == alias_of(all[k]),
            forall|a: int, b: int| 0 <= a < b < j ==> !#[trigger] same_alias(all, a, b),
        decreases names.len() - j,
    {
        let alias = make_alias(names[j].as_str());
        assert(alias@ == alias_of(all[j as int]));
        if holds_name(&aliases, alias.as_str()) {
            let ghost i = choose|i: int|
                0 <= i < aliases.deep_view().len() && aliases.deep_view()[i] == alias@;
            assert(same_alias(all, i, j as int));
            return true;
        }
        let ghost before = aliases;
        assert forall|a: int| 0 <= a < j implies !#[trigger] same_alias(all, a, j as int) by {
            assert(aliases.deep_view()[a] != alias@);
        }
        aliases.push(alias);
        assert(aliases.deep_view() =~= before.deep_view().push(alias@));
        j += 1;
    }
    false
}

/// `line` with every name replaced by its alias, one name after the other.
fn substitute(line: &str, names: &Vec<String>) -> (r: String)
    requires
        forall|k: int| 0 <= k < names.len() ==> needs_alias(#[trigger] names@[k]@),
    ensures
        r@ == substituted(line@, names.deep_view(), names.len() as int),
{
    let mut current = String::from_str(line);
    let mut n: usize = 0;
    while n < names.len()
        invariant
            n <= names.len(),
            forall|k: int| 0 <= k < names.len() ==> needs_alias(#[trigger] names@[k]@),
            current@ == substituted(line@, names.deep_view(), n as int),
        decreases names.len() - n,
    {
        assert(needs_alias(names@[n as int]@));
        let alias = make_alias(names[n].as_str());
        current = replace_text(current.as_str(), names[n].as_str(), alias.as_str());
        n += 1;
    }
    current
}

/// Gives every participant whose name holds a space or a hyphen an alias,
/// in its declaration and wherever else the name stands.
pub fn fix_sequence_diagram_participants(lines: &Vec<String>) -> (r: Vec<String>)
    ensures
        r.deep_view() == aliased(lines.deep_view()),
        r.len() == lines.len(),
{
    let names = collect_names(lines);
    let mut out: Vec<String> = Vec::new();
    let mut i: usize = 0;
    while i < lines.len()
        invariant
            i <= lines.len(),
            out.len() == i,
            names.deep_view() == names_of(lines.deep_view()),
            forall|k: int| 0 <= k < names.len() ==> needs_alias(#[trigger] names@[k]@),
            forall|k: int|
                0 <= k < i ==> out@[k]@ == aliased_line(lines@[k]@, names_of(lines.deep_view())),
        decreases lines.len() - i,
    {
        let line = match read_participant(lines[i].as_str()) {
            Some(p) => alias_declaration(lines[i].as_str(), &p),
            None => substitute(lines[i].as_str(), &names),
        };
        out.push(line);
        i += 1;
    }
    assert(out.deep_view() =~= aliased(lines.deep_view()));
    out
}

} // verus!
