//! Character sequences: the model of text used by every contract of this
//! crate, and the executable helpers that work on it.
use vstd::prelude::*;

verus! {

broadcast use vstd::string::group_string_axioms;

/// Whether `c` is white space: one of the twenty-five characters that
/// Unicode lists under the property of that name.
pub open spec fn is_space(c: char) -> bool {
    let n = c as u32;
    ||| 0x09 <= n <= 0x0d
    ||| n == 0x20
    ||| n == 0x85
    ||| n == 0xa0
    ||| n == 0x1680
    ||| 0x2000 <= n <= 0x200a
    ||| n == 0x2028
    ||| n == 0x2029
    ||| n == 0x202f
    ||| n == 0x205f
    ||| n == 0x3000
}

/// The lower-case form of `s` in the sense of `str::to_lowercase`.
pub uninterp spec fn lowercase(s: Seq<char>) -> Seq<char>;

/// `char::is_whitespace`: whether the character has the Unicode property
/// `White_Space`, which `is_space` lists.
#[verifier::external_body]
pub(crate) fn char_is_space(c: char) -> (b: bool)
    ensures
        b == is_space(c),
{
    c.is_whitespace()
}

/// `str::to_lowercase`: the result is a function of the text alone, and
/// `lowercase` is its name.
#[verifier::external_body]
pub(crate) fn to_lowercase(s: &str) -> (r: String)
    ensures
        r@ == lowercase(s@),
{
    s.to_lowercase()
}

/// `String::from_iter` over the characters of `v`: the string made of
/// exactly these characters, in order.
#[verifier::external_body]
pub(crate) fn string_of(v: &Vec<char>) -> (s: String)
    ensures
        s@ == v@,
{
    String::from_iter(v.iter())
}

/// The characters of `s`.
pub fn chars_of(s: &str) -> (v: Vec<char>)
    ensures
        v@ == s@,
{
    let mut v: Vec<char> = Vec::new();
    for c in it: s.chars()
        invariant
            it.seq() == s@,
            v@ == it.seq().take(it.index()),
    {
        v.push(c);
    }
    v
}


/// `p` stands in `s` at index `i`.
pub open spec fn occurs_at(s: Seq<char>, p: Seq<char>, i: int) -> bool {
    0 <= i && i + p.len() <= s.len() && s.subrange(i, i + p.len()) == p
}

/// `p` stands somewhere in `s`.
pub open spec fn contains(s: Seq<char>, p: Seq<char>) -> bool {
    exists|i: int| occurs_at(s, p, i)
}

/// `s` begins with `p`.
pub open spec fn starts_with(s: Seq<char>, p: Seq<char>) -> bool {
    occurs_at(s, p, 0)
}

/// `s` ends with `p`.
pub open spec fn ends_with(s: Seq<char>, p: Seq<char>) -> bool {
    occurs_at(s, p, s.len() - p.len())
}

/// The least index from `from` on at which `p` stands in `s`.
pub open spec fn first_from(s: Seq<char>, p: Seq<char>, from: int) -> Option<int>
    decreases s.len() - from + 1,
{
    if from < 0 || from + p.len() > s.len() {
        None
    } else if occurs_at(s, p, from) {
        Some(from)
    } else {
        first_from(s, p, from + 1)
    }
}

/// `first_from` finds an occurrence, the first one, and misses none.
pub proof fn lemma_first_from(s: Seq<char>, p: Seq<char>, from: int)
    requires
        0 <= from,
    ensures
        match first_from(s, p, from) {
            Some(i) => from <= i && occurs_at(s, p, i) && forall|j: int|
                from <= j < i ==> !occurs_at(s, p, j),
            None => forall|j: int| from <= j ==> !occurs_at(s, p, j),
        },
    decreases s.len() - from + 1,
{
    if from + p.len() > s.len() {
    } else if occurs_at(s, p, from) {
    } else {
        lemma_first_from(s, p, from + 1);
    }
}

/// The index of the first character from `i` on that is no white space.
pub open spec fn skip_spaces(s: Seq<char>, i: int) -> int
    decreases s.len() - i,
{
    if 0 <= i < s.len() && is_space(s[i]) {
        skip_spaces(s, i + 1)
    } else {
        i
    }
}

/// The index of the first white space from `i` on, the length where there
/// is none.
pub open spec fn skip_word(s: Seq<char>, i: int) -> int
    decreases s.len() - i,
{
    if 0 <= i < s.len() && !is_space(s[i]) {
        skip_word(s, i + 1)
    } else {
        i
    }
}

/// The index behind the last character before `j` that is no white space.
pub open spec fn back_spaces(s: Seq<char>, j: int) -> int
    decreases j,
{
    if 0 < j <= s.len() && is_space(s[j - 1]) {
        back_spaces(s, j - 1)
    } else {
        j
    }
}

/// `skip_spaces` passes white space only, and stops at the first character
/// that is none.
pub proof fn lemma_skip_spaces(s: Seq<char>, i: int)
    requires
        0 <= i <= s.len(),
    ensures
        i <= skip_spaces(s, i) <= s.len(),
        forall|k: int| i <= k < skip_spaces(s, i) ==> is_space(s[k]),
        skip_spaces(s, i) < s.len() ==> !is_space(s[skip_spaces(s, i)]),
    decreases s.len() - i,
{
    if i < s.len() && is_space(s[i]) {
        lemma_skip_spaces(s, i + 1);
    }
}

/// `skip_word` passes no white space, and stops at the first.
pub proof fn lemma_skip_word(s: Seq<char>, i: int)
    requires
        0 <= i <= s.len(),
    ensures
        i <= skip_word(s, i) <= s.len(),
        forall|k: int| i <= k < skip_word(s, i) ==> !is_space(s[k]),
        skip_word(s, i) < s.len() ==> is_space(s[skip_word(s, i)]),
    decreases s.len() - i,
{
    if i < s.len() && !is_space(s[i]) {
        lemma_skip_word(s, i + 1);
    }
}

/// `back_spaces` passes white space only, and stops behind the last
/// character that is none.
pub proof fn lemma_back_spaces(s: Seq<char>, j: int)
    requires
        0 <= j <= s.len(),
    ensures
        0 <= back_spaces(s, j) <= j,
        forall|k: int| back_spaces(s, j) <= k < j ==> is_space(s[k]),
        back_spaces(s, j) > 0 ==> !is_space(s[back_spaces(s, j) - 1]),
    decreases j,
{
    if 0 < j && is_space(s[j - 1]) {
        lemma_back_spaces(s, j - 1);
    }
}

/// `s` without its leading white space.
pub open spec fn trim_start(s: Seq<char>) -> Seq<char> {
    s.subrange(skip_spaces(s, 0), s.len() as int)
}

/// `s` without its leading and trailing white space.
pub open spec fn trim(s: Seq<char>) -> Seq<char> {
    let a = skip_spaces(s, 0);
    let b = back_spaces(s, s.len() as int);
    if a <= b {
        s.subrange(a, b)
    } else {
        Seq::empty()
    }
}

/// A trimmed text neither begins nor ends with white space, and the text it
/// was trimmed from is that text between two stretches of white space.
pub proof fn lemma_trim(s: Seq<char>)
    ensures
        trim(s).len() > 0 ==> !is_space(trim(s)[0]) && !is_space(trim(s).last()),
        exists|head: Seq<char>, tail: Seq<char>|
            #![trigger head + trim(s) + tail]
            s == head + trim(s) + tail && (forall|k: int| 0 <= k < head.len() ==> is_space(head[k]))
                && (forall|k: int| 0 <= k < tail.len() ==> is_space(tail[k])),
{
    let a = skip_spaces(s, 0);
    let b = back_spaces(s, s.len() as int);
    lemma_skip_spaces(s, 0);
    lemma_back_spaces(s, s.len() as int);
    if a <= b {
        let head = s.subrange(0, a);
        let tail = s.subrange(b, s.len() as int);
        assert(s =~= head + trim(s) + tail);
        if a < b {
            assert(b > 0);
            assert(trim(s).last() == s[b - 1]);
        }
    } else {
        // every character is white space
        assert(a == s.len()) by {
            if a < s.len() {
                assert(!is_space(s[a]));
                assert(b <= a < s.len());
            }
        }
        let tail = Seq::<char>::empty();
        assert(s =~= s + trim(s) + tail);
    }
}

/// A text in which `from` does not stand stays as it is.
pub proof fn lemma_replace_absent(s: Seq<char>, from: Seq<char>, to: Seq<char>)
    requires
        !contains(s, from),
    ensures
        replace(s, from, to) == s,
{
    lemma_first_from(s, from, 0);
    match first_from(s, from, 0) {
        Some(i) => {
            assert(occurs_at(s, from, i));
        },
        None => {
            assert(s.subrange(0, s.len() as int) =~= s);
        },
    }
}

/// `s` up to the first occurrence of `p`, all of `s` where there is none.
pub open spec fn before(s: Seq<char>, p: Seq<char>) -> Seq<char> {
    match first_from(s, p, 0) {
        Some(i) => s.subrange(0, i),
        None => s,
    }
}

/// `s` from `pos` on, with `to` in place of each occurrence of `from`,
/// taken from left to right without overlap.
pub open spec fn replace_from(s: Seq<char>, from: Seq<char>, to: Seq<char>, pos: int) -> Seq<char>
    decreases s.len() - pos,
{
    match first_from(s, from, pos) {
        Some(i) => if from.len() > 0 && pos <= i && i + from.len() <= s.len() {
            s.subrange(pos, i) + to + replace_from(s, from, to, i + from.len())
        } else {
            s.subrange(pos, s.len() as int)
        },
        None => if 0 <= pos <= s.len() {
            s.subrange(pos, s.len() as int)
        } else {
            Seq::empty()
        },
    }
}

/// `s` with `to` in place of each occurrence of the non-empty `from`, taken
/// from left to right without overlap.
pub open spec fn replace(s: Seq<char>, from: Seq<char>, to: Seq<char>) -> Seq<char> {
    replace_from(s, from, to, 0)
}

/// A line without the carriage return that ends it, if one does.
pub open spec fn strip_cr(l: Seq<char>) -> Seq<char> {
    if l.len() > 0 && l.last() == '\r' {
        l.drop_last()
    } else {
        l
    }
}

/// The lines of `s` from `pos` on.
pub open spec fn lines_from(s: Seq<char>, pos: int) -> Seq<Seq<char>>
    decreases s.len() - pos,
{
    if pos < 0 || pos >= s.len() {
        Seq::empty()
    } else {
        match first_from(s, seq!['\n'], pos) {
            Some(i) => if pos <= i < s.len() {
                seq![strip_cr(s.subrange(pos, i))] + lines_from(s, i + 1)
            } else {
                Seq::empty()
            },
            None => seq![s.subrange(pos, s.len() as int)],
        }
    }
}

/// The lines of `s`: the stretches that end in a line feed or at the end of
/// the text, each without the line feed and without a carriage return just
/// before it. What follows the last line feed is a line only if it is not
/// empty.
pub open spec fn lines(s: Seq<char>) -> Seq<Seq<char>> {
    lines_from(s, 0)
}

/// The pieces of `s` from `pos` on that `c` separates.
pub open spec fn split_from(s: Seq<char>, c: char, pos: int) -> Seq<Seq<char>>
    decreases s.len() - pos,
{
    if pos < 0 || pos > s.len() {
        Seq::empty()
    } else {
        match first_from(s, seq![c], pos) {
            Some(i) => if pos <= i < s.len() {
                seq![s.subrange(pos, i)] + split_from(s, c, i + 1)
            } else {
                Seq::empty()
            },
            None => seq![s.subrange(pos, s.len() as int)],
        }
    }
}

/// The pieces of `s` that `c` separates: one more than `c` occurs in `s`.
pub open spec fn split(s: Seq<char>, c: char) -> Seq<Seq<char>> {
    split_from(s, c, 0)
}

/// The words of `s` from `pos` on.
pub open spec fn words_from(s: Seq<char>, pos: int) -> Seq<Seq<char>>
    decreases s.len() - pos,
{
    let a = skip_spaces(s, pos);
    let b = skip_word(s, a);
    if 0 <= pos <= a < b <= s.len() {
        seq![s.subrange(a, b)] + words_from(s, b)
    } else {
        Seq::empty()
    }
}

/// The words of `s`: its longest stretches without white space.
pub open spec fn words(s: Seq<char>) -> Seq<Seq<char>> {
    words_from(s, 0)
}

/// The texts of `parts` with `sep` between each two neighbours.
pub open spec fn join(parts: Seq<Seq<char>>, sep: Seq<char>) -> Seq<char>
    decreases parts.len(),
{
    if parts.len() == 0 {
        Seq::empty()
    } else if parts.len() == 1 {
        parts[0]
    } else {
        join(parts.drop_last(), sep) + sep + parts.last()
    }
}



/// Whether two character vectors hold the same text.
pub fn same_chars(a: &Vec<char>, b: &Vec<char>) -> (r: bool)
    ensures
        r == (a@ == b@),
{
    if a.len() != b.len() {
        return false;
    }
    let mut i: usize = 0;
    while i < a.len()
        invariant
            i <= a.len(),
            a.len() == b.len(),
            forall|k: int| 0 <= k < i ==> a@[k] == b@[k],
        decreases a.len() - i,
    {
        if a[i] != b[i] {
            return false;
        }
        i += 1;
    }
    assert(a@ =~= b@);
    true
}

/// Whether `p` stands in `v` at index `i`.
pub fn occurs(v: &Vec<char>, p: &Vec<char>, i: usize) -> (r: bool)
    ensures
        r == occurs_at(v@, p@, i as int),
{
    if p.len() > v.len() || i > v.len() - p.len() {
        return false;
    }
    let mut k: usize = 0;
    while k < p.len()
        invariant
            k <= p.len(),
            i + p.len() <= v.len(),
            forall|j: int| 0 <= j < k ==> v@[i + j] == p@[j],
        decreases p.len() - k,
    {
        if v[i + k] != p[k] {
            assert(v@.subrange(i as int, i + p.len())[k as int] == v@[i + k]);
            return false;
        }
        k += 1;
    }
    assert(v@.subrange(i as int, i + p.len()) =~= p@);
    true
}

/// The first index from `from` on at which `p` stands in `v`.
pub fn find(v: &Vec<char>, p: &Vec<char>, from: usize) -> (r: Option<usize>)
    ensures
        match r {
            Some(i) => first_from(v@, p@, from as int) == Some(i as int) && from <= i && i
                + p.len() <= v.len(),
            None => first_from(v@, p@, from as int) is None,
        },
{
    if p.len() > v.len() || from > v.len() - p.len() {
        return None;
    }
    let limit: usize = v.len() - p.len();
    let mut i: usize = from;
    loop
        invariant
            from <= i <= limit,
            limit == v.len() - p.len(),
            first_from(v@, p@, from as int) == first_from(v@, p@, i as int),
        decreases limit - i,
    {
        if occurs(v, p, i) {
            return Some(i);
        }
        if i == limit {
            assert(first_from(v@, p@, i + 1) is None);
            return None;
        }
        i += 1;
    }
}

/// The characters of `v` from index `from` up to `to`.
pub fn slice_of(v: &Vec<char>, from: usize, to: usize) -> (r: Vec<char>)
    requires
        from <= to <= v.len(),
    ensures
        r@ == v@.subrange(from as int, to as int),
{
    let mut r: Vec<char> = Vec::new();
    let mut i: usize = from;
    while i < to
        invariant
            from <= i <= to <= v.len(),
            r@ == v@.subrange(from as int, i as int),
        decreases to - i,
    {
        r.push(v[i]);
        assert(r@ =~= v@.subrange(from as int, i + 1));
        i += 1;
    }
    r
}

/// Appends the characters of `v` to `out`.
pub fn push_all(out: &mut Vec<char>, v: &Vec<char>)
    ensures
        final(out)@ == old(out)@ + v@,
{
    let mut i: usize = 0;
    while i < v.len()
        invariant
            i <= v.len(),
            out@ == old(out)@ + v@.subrange(0, i as int),
        decreases v.len() - i,
    {
        out.push(v[i]);
        assert(out@ =~= old(out)@ + v@.subrange(0, i + 1));
        i += 1;
    }
    assert(v@.subrange(0, v.len() as int) =~= v@);
}

/// Appends the characters of `s` to `out`.
pub fn push_str(out: &mut Vec<char>, s: &str)
    ensures
        final(out)@ == old(out)@ + s@,
{
    let v = chars_of(s);
    push_all(out, &v);
}

/// The index of the first character of `v` from `i` on that is no white
/// space.
pub fn skip_spaces_in(v: &Vec<char>, i: usize) -> (r: usize)
    requires
        i <= v.len(),
    ensures
        r == skip_spaces(v@, i as int),
        i <= r <= v.len(),
{
    let mut k: usize = i;
    while k < v.len() && char_is_space(v[k])
        invariant
            i <= k <= v.len(),
            skip_spaces(v@, i as int) == skip_spaces(v@, k as int),
        decreases v.len() - k,
    {
        k += 1;
    }
    k
}

/// The index of the first white space of `v` from `i` on.
pub fn skip_word_in(v: &Vec<char>, i: usize) -> (r: usize)
    requires
        i <= v.len(),
    ensures
        r == skip_word(v@, i as int),
        i <= r <= v.len(),
{
    let mut k: usize = i;
    while k < v.len() && !char_is_space(v[k])
        invariant
            i <= k <= v.len(),
            skip_word(v@, i as int) == skip_word(v@, k as int),
        decreases v.len() - k,
    {
        k += 1;
    }
    k
}

/// The index behind the last character of `v` before `j` that is no white
/// space.
pub fn back_spaces_in(v: &Vec<char>, j: usize) -> (r: usize)
    requires
        j <= v.len(),
    ensures
        r == back_spaces(v@, j as int),
        r <= j,
{
    let mut k: usize = j;
    while k > 0 && char_is_space(v[k - 1])
        invariant
            k <= j <= v.len(),
            back_spaces(v@, j as int) == back_spaces(v@, k as int),
        decreases k,
    {
        k -= 1;
    }
    k
}

/// `v` without its leading and trailing white space.
pub fn trim_chars(v: &Vec<char>) -> (r: Vec<char>)
    ensures
        r@ == trim(v@),
{
    let a = skip_spaces_in(v, 0);
    let b = back_spaces_in(v, v.len());
    if a <= b {
        slice_of(v, a, b)
    } else {
        Vec::new()
    }
}

/// `v` without its leading white space.
pub fn trim_start_chars(v: &Vec<char>) -> (r: Vec<char>)
    ensures
        r@ == trim_start(v@),
{
    let a = skip_spaces_in(v, 0);
    slice_of(v, a, v.len())
}

/// `v` with `to` in place of each occurrence of `from`.
pub fn replace_chars(v: &Vec<char>, from: &Vec<char>, to: &Vec<char>) -> (r: Vec<char>)
    requires
        from@.len() > 0,
    ensures
        r@ == replace(v@, from@, to@),
{
    let mut out: Vec<char> = Vec::new();
    let mut pos: usize = 0;
    loop
        invariant
            from@.len() > 0,
            pos <= v.len(),
            out@ + replace_from(v@, from@, to@, pos as int) == replace(v@, from@, to@),
        decreases v.len() - pos,
    {
        match find(v, from, pos) {
            Some(i) => {
                let gap = slice_of(v, pos, i);
                proof {
                    assert(out@ + gap@ + to@ + replace_from(v@, from@, to@, i + from@.len())
                        =~= out@ + (gap@ + to@ + replace_from(v@, from@, to@, i + from@.len())));
                }
                push_all(&mut out, &gap);
                push_all(&mut out, to);
                pos = i + from.len();
            },
            None => {
                let tail = slice_of(v, pos, v.len());
                push_all(&mut out, &tail);
                return out;
            },
        }
    }
}


/// Whether two texts are the same.
pub fn same_text(a: &str, b: &str) -> (r: bool)
    ensures
        r == (a@ == b@),
{
    let x = chars_of(a);
    let y = chars_of(b);
    same_chars(&x, &y)
}

/// `s` without its leading and trailing white space.
pub fn trim_text(s: &str) -> (r: String)
    ensures
        r@ == trim(s@),
{
    let v = chars_of(s);
    let t = trim_chars(&v);
    string_of(&t)
}

/// `s` without its leading white space.
pub fn trim_start_text(s: &str) -> (r: String)
    ensures
        r@ == trim_start(s@),
{
    let v = chars_of(s);
    let t = trim_start_chars(&v);
    string_of(&t)
}

/// Whether `s` begins with `p`.
pub fn text_starts_with(s: &str, p: &str) -> (r: bool)
    ensures
        r == starts_with(s@, p@),
{
    let v = chars_of(s);
    let q = chars_of(p);
    occurs(&v, &q, 0)
}

/// Whether `s` ends with `p`.
pub fn text_ends_with(s: &str, p: &str) -> (r: bool)
    ensures
        r == ends_with(s@, p@),
{
    let v = chars_of(s);
    let q = chars_of(p);
    if q.len() > v.len() {
        false
    } else {
        occurs(&v, &q, v.len() - q.len())
    }
}

/// Whether `p` stands somewhere in `v`.
pub fn chars_contain(v: &Vec<char>, p: &Vec<char>) -> (r: bool)
    ensures
        r == contains(v@, p@),
{
    proof {
        lemma_first_from(v@, p@, 0);
    }
    match find(v, p, 0) {
        Some(i) => {
            assert(occurs_at(v@, p@, i as int));
            true
        },
        None => {
            assert forall|j: int| !occurs_at(v@, p@, j) by {
                if j >= 0 {
                    assert(!occurs_at(v@, p@, j));
                }
            }
            false
        },
    }
}

/// Whether `p` stands somewhere in `s`.
pub fn text_contains(s: &str, p: &str) -> (r: bool)
    ensures
        r == contains(s@, p@),
{
    let v = chars_of(s);
    let q = chars_of(p);
    chars_contain(&v, &q)
}

/// `s` with `to` in place of each occurrence of `from`.
pub fn replace_text(s: &str, from: &str, to: &str) -> (r: String)
    requires
        from@.len() > 0,
    ensures
        r@ == replace(s@, from@, to@),
{
    let v = chars_of(s);
    let f = chars_of(from);
    let t = chars_of(to);
    let out = replace_chars(&v, &f, &t);
    string_of(&out)
}

/// `s` up to the first occurrence of `p`.
pub fn text_before(s: &str, p: &str) -> (r: String)
    ensures
        r@ == before(s@, p@),
{
    let v = chars_of(s);
    let q = chars_of(p);
    match find(&v, &q, 0) {
        Some(i) => string_of(&slice_of(&v, 0, i)),
        None => string_of(&v),
    }
}

/// The view of a vector of strings after a push.
pub proof fn lemma_texts_push(before: Vec<String>, after: Vec<String>, s: String)
    requires
        after@ == before@.push(s),
    ensures
        after.deep_view() == before.deep_view().push(s@),
{
    assert(after.deep_view() =~= before.deep_view().push(s@));
}

/// The lines of `text`.
pub fn split_lines(text: &str) -> (r: Vec<String>)
    ensures
        r.deep_view() == lines(text@),
{
    let v = chars_of(text);
    let mut nl: Vec<char> = Vec::new();
    nl.push('\n');
    assert(nl@ =~= seq!['\n']);
    let mut out: Vec<String> = Vec::new();
    let mut pos: usize = 0;
    assert(out.deep_view() =~= Seq::<Seq<char>>::empty());
    while pos < v.len()
        invariant
            pos <= v.len(),
            nl@ == seq!['\n'],
            out.deep_view() + lines_from(v@, pos as int) == lines(v@),
        decreases v.len() - pos,
    {
        let ghost before = out;
        match find(&v, &nl, pos) {
            Some(i) => {
                let mut end: usize = i;
                if end > pos && v[end - 1] == '\r' {
                    end -= 1;
                }
                let line = slice_of(&v, pos, end);
                assert(line@ =~= strip_cr(v@.subrange(pos as int, i as int)));
                let l = string_of(&line);
                out.push(l);
                proof {
                    lemma_texts_push(before, out, l);
                    assert(out.deep_view() + lines_from(v@, i + 1) =~= before.deep_view() + (
                    seq![l@] + lines_from(v@, i + 1)));
                }
                pos = i + 1;
            },
            None => {
                let line = slice_of(&v, pos, v.len());
                let l = string_of(&line);
                out.push(l);
                proof {
                    lemma_texts_push(before, out, l);
                    assert(out.deep_view() + lines_from(v@, v@.len() as int) =~= before.deep_view()
                        + seq![l@]);
                }
                pos = v.len();
            },
        }
    }
    assert(out.deep_view() + lines_from(v@, pos as int) =~= out.deep_view());
    out
}

/// The pieces of `text` that `c` separates.
pub fn split_text(text: &str, c: char) -> (r: Vec<String>)
    ensures
        r.deep_view() == split(text@, c),
{
    let v = chars_of(text);
    let mut sep: Vec<char> = Vec::new();
    sep.push(c);
    assert(sep@ =~= seq![c]);
    let mut out: Vec<String> = Vec::new();
    let mut pos: usize = 0;
    assert(out.deep_view() =~= Seq::<Seq<char>>::empty());
    loop
        invariant
            pos <= v.len(),
            sep@ == seq![c],
            v@ == text@,
            out.deep_view() + split_from(v@, c, pos as int) == split(v@, c),
        decreases v.len() - pos,
    {
        let ghost before = out;
        match find(&v, &sep, pos) {
            Some(i) => {
                let piece = slice_of(&v, pos, i);
                let l = string_of(&piece);
                out.push(l);
                proof {
                    lemma_texts_push(before, out, l);
                    assert(out.deep_view() + split_from(v@, c, i + 1) =~= before.deep_view() + (
                    seq![l@] + split_from(v@, c, i + 1)));
                }
                pos = i + 1;
            },
            None => {
                let piece = slice_of(&v, pos, v.len());
                let l = string_of(&piece);
                out.push(l);
                proof {
                    lemma_texts_push(before, out, l);
                    assert(out.deep_view() =~= before.deep_view() + seq![l@]);
                }
                return out;
            },
        }
    }
}

/// The words of `text`.
pub fn split_words(text: &str) -> (r: Vec<String>)
    ensures
        r.deep_view() == words(text@),
{
    let v = chars_of(text);
    let mut out: Vec<String> = Vec::new();
    let mut pos: usize = 0;
    assert(out.deep_view() =~= Seq::<Seq<char>>::empty());
    loop
        invariant
            pos <= v.len(),
            v@ == text@,
            out.deep_view() + words_from(v@, pos as int) == words(v@),
        decreases v.len() - pos,
    {
        let ghost before = out;
        let a = skip_spaces_in(&v, pos);
        let b = skip_word_in(&v, a);
        if a < b {
            let word = slice_of(&v, a, b);
            let l = string_of(&word);
            out.push(l);
            proof {
                lemma_texts_push(before, out, l);
                assert(out.deep_view() + words_from(v@, b as int) =~= before.deep_view() + (
                seq![l@] + words_from(v@, b as int)));
            }
            pos = b;
        } else {
            assert(out.deep_view() + words_from(v@, pos as int) =~= out.deep_view());
            return out;
        }
    }
}

/// The texts of `parts` with `sep` between each two neighbours.
pub fn join_texts(parts: &Vec<String>, sep: &str) -> (r: String)
    ensures
        r@ == join(parts.deep_view(), sep@),
{
    let mut out: Vec<char> = Vec::new();
    let mut i: usize = 0;
    while i < parts.len()
        invariant
            i <= parts.len(),
            out@ == join(parts.deep_view().take(i as int), sep@),
        decreases parts.len() - i,
    {
        assert(parts.deep_view().take(i + 1).drop_last() =~= parts.deep_view().take(i as int));
        if i > 0 {
            push_str(&mut out, sep);
        }
        push_str(&mut out, parts[i].as_str());
        i += 1;
    }
    assert(parts.deep_view().take(parts.len() as int) =~= parts.deep_view());
    string_of(&out)
}

/// The lines put together again, with the line feed at the end that the
/// text had.
pub open spec fn rejoined(parts: Seq<Seq<char>>, text: Seq<char>) -> Seq<char> {
    if ends_with(text, "\n"@) {
        join(parts, "\n"@) + "\n"@
    } else {
        join(parts, "\n"@)
    }
}


/// Puts lines together again.
pub fn rejoin(parts: &Vec<String>, text: &str) -> (r: String)
    ensures
        r@ == rejoined(parts.deep_view(), text@),
{
    let joined = join_texts(parts, "\n");
    if text_ends_with(text, "\n") {
        joined.concat("\n")
    } else {
        joined
    }
}


/// Joining a first text with others puts the separator behind the first,
/// unless there are no others.
pub proof fn lemma_join_first(first: Seq<char>, others: Seq<Seq<char>>, sep: Seq<char>)
    ensures
        join(seq![first] + others, sep) == if others.len() == 0 {
            first
        } else {
            first + sep + join(others, sep)
        },
    decreases others.len(),
{
    let all = seq![first] + others;
    if others.len() == 0 {
        assert(all =~= seq![first]);
        assert(join(all, sep) == all[0]);
    } else if others.len() == 1 {
        assert(all.len() == 2);
        assert(all.drop_last() =~= seq![first]);
        assert(join(all.drop_last(), sep) == first);
        assert(all.last() == others[0]);
        assert(join(others, sep) == others[0]);
        assert(join(all, sep) == join(all.drop_last(), sep) + sep + all.last());
    } else {
        lemma_join_first(first, others.drop_last(), sep);
        assert(all.drop_last() =~= seq![first] + others.drop_last());
        assert(all.last() == others.last());
        assert(join(all, sep) == join(all.drop_last(), sep) + sep + all.last());
        assert(join(others, sep) == join(others.drop_last(), sep) + sep + others.last());
        assert(join(all, sep) =~= first + sep + join(others, sep));
    }
}

/// `s` from `pos` on, without the line feed that ends `s`, if one does.
pub open spec fn body_from(s: Seq<char>, pos: int) -> Seq<char> {
    if pos >= s.len() {
        Seq::empty()
    } else if s.last() == '\n' {
        s.subrange(pos, s.len() - 1)
    } else {
        s.subrange(pos, s.len() as int)
    }
}

/// No carriage return of `s` stands before a line feed.
pub open spec fn plain_line_ends(s: Seq<char>) -> bool {
    forall|i: int| 0 <= i < s.len() - 1 && #[trigger] s[i] == '\r' ==> s[i + 1] != '\n'
}

/// In a text whose line ends are line feeds alone, the lines from `pos` on,
/// joined by line feeds, are the text from `pos` on without its last line
/// feed.
pub proof fn lemma_join_lines_from(s: Seq<char>, pos: int)
    requires
        0 <= pos <= s.len(),
        plain_line_ends(s),
    ensures
        join(lines_from(s, pos), seq!['\n']) == body_from(s, pos),
        pos < s.len() ==> lines_from(s, pos).len() > 0,
    decreases s.len() - pos,
{
    let nl = seq!['\n'];
    if pos < s.len() {
        lemma_first_from(s, nl, pos);
        match first_from(s, nl, pos) {
            Some(i) => {
                assert(s.subrange(i, i + 1) == nl);
                assert(s.subrange(i, i + 1)[0] == s[i]);
                assert(s[i] == '\n');
                let line = s.subrange(pos, i);
                assert(strip_cr(line) == line) by {
                    if line.len() > 0 && line.last() == '\r' {
                        assert(s[i - 1] == '\r');
                        assert(s[i - 1 + 1] == '\n');
                    }
                }
                lemma_join_lines_from(s, i + 1);
                let others = lines_from(s, i + 1);
                lemma_join_first(line, others, nl);
                if i + 1 == s.len() {
                    assert(others.len() == 0);
                    assert(line =~= body_from(s, pos));
                } else {
                    assert(line + nl + body_from(s, i + 1) =~= body_from(s, pos));
                }
            },
            None => {
                assert(s.last() != '\n') by {
                    if s.last() == '\n' {
                        let j = s.len() - 1;
                        assert(s.subrange(j, j + 1) =~= nl);
                        assert(occurs_at(s, nl, j));
                    }
                }
                let line = s.subrange(pos, s.len() as int);
                assert(lines_from(s, pos) =~= seq![line]);
            },
        }
    }
}

/// A text whose line ends are line feeds alone is its lines put together
/// again.
pub proof fn lemma_rejoined_lines(text: Seq<char>)
    requires
        plain_line_ends(text),
    ensures
        rejoined(lines(text), text) == text,
{
    reveal_strlit("\n");
    assert("\n"@ =~= seq!['\n']);
    lemma_join_lines_from(text, 0);
    if ends_with(text, "\n"@) {
        let j = text.len() - 1;
        assert(text.subrange(j, j + 1)[0] == text[j]);
        assert(text.last() == '\n');
        assert(body_from(text, 0) + seq!['\n'] =~= text);
    } else {
        if text.len() > 0 && text.last() == '\n' {
            let j = text.len() - 1;
            assert(text.subrange(j, j + 1) =~= seq!['\n']);
            assert(occurs_at(text, "\n"@, j));
        }
        assert(body_from(text, 0) =~= text);
    }
}

/// The character of a decimal digit.
pub open spec fn digit(d: int) -> char {
    if d == 0 {
        '0'
    } else if d == 1 {
        '1'
    } else if d == 2 {
        '2'
    } else if d == 3 {
        '3'
    } else if d == 4 {
        '4'
    } else if d == 5 {
        '5'
    } else if d == 6 {
        '6'
    } else if d == 7 {
        '7'
    } else if d == 8 {
        '8'
    } else {
        '9'
    }
}

/// A number in decimal digits, without leading zeros.
pub open spec fn decimal(n: nat) -> Seq<char>
    decreases n,
{
    if n < 10 {
        seq![digit(n as int)]
    } else {
        decimal(n / 10).push(digit((n % 10) as int))
    }
}

/// A number in at least two decimal digits.
pub open spec fn two_digits(n: nat) -> Seq<char> {
    if n < 10 {
        seq!['0'] + decimal(n)
    } else {
        decimal(n)
    }
}

/// The character of a decimal digit.
fn digit_of(d: usize) -> (c: char)
    requires
        d < 10,
    ensures
        c == digit(d as int),
{
    if d == 0 {
        '0'
    } else if d == 1 {
        '1'
    } else if d == 2 {
        '2'
    } else if d == 3 {
        '3'
    } else if d == 4 {
        '4'
    } else if d == 5 {
        '5'
    } else if d == 6 {
        '6'
    } else if d == 7 {
        '7'
    } else if d == 8 {
        '8'
    } else {
        '9'
    }
}

/// Appends `n` in decimal digits to `out`.
pub fn push_decimal(out: &mut Vec<char>, n: usize)
    ensures
        final(out)@ == old(out)@ + decimal(n as nat),
    decreases n,
{
    if n >= 10 {
        push_decimal(out, n / 10);
    }
    out.push(digit_of(n % 10));
    assert(out@ =~= old(out)@ + decimal(n as nat));
}

/// Appends `n` in at least two decimal digits to `out`.
pub fn push_two_digits(out: &mut Vec<char>, n: usize)
    ensures
        final(out)@ == old(out)@ + two_digits(n as nat),
{
    if n < 10 {
        out.push('0');
    }
    push_decimal(out, n);
    assert(out@ =~= old(out)@ + two_digits(n as nat));
}

} // verus!
