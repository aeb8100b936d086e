//! Character-sequence utilities shared by the line codec and the lock
//! document: trimming, substring search, case-insensitive ordering of
//! lines, line splitting and joining, and a stable insertion sort.

use vstd::prelude::*;
use vstd::string::*;

verus! {

/// The whitespace characters stripped from line ends. Line splitting
/// happens on `'\n'` before any trimming, so `'\n'` is not needed here.
pub open spec fn is_space(c: char) -> bool {
    c == ' ' || c == '\t' || c == '\r'
}

/// Exec mirror of [`is_space`].
pub fn is_space_char(c: char) -> (r: bool)
    ensures
        r == is_space(c),
{
    c == ' ' || c == '\t' || c == '\r'
}

pub open spec fn trim_start_spec(s: Seq<char>) -> Seq<char>
    decreases s.len(),
{
    if s.len() > 0 && is_space(s[0]) {
        trim_start_spec(s.drop_first())
    } else {
        s
    }
}

pub open spec fn trim_end_spec(s: Seq<char>) -> Seq<char>
    decreases s.len(),
{
    if s.len() > 0 && is_space(s[s.len() - 1]) {
        trim_end_spec(s.drop_last())
    } else {
        s
    }
}

/// The line with leading and trailing whitespace removed.
pub open spec fn trim_spec(s: Seq<char>) -> Seq<char> {
    trim_end_spec(trim_start_spec(s))
}

proof fn lemma_trim_start_idx(s: Seq<char>, i: int)
    requires
        0 <= i <= s.len(),
        forall|k: int| 0 <= k < i ==> is_space(s[k]),
        i < s.len() ==> !is_space(s[i]),
    ensures
        trim_start_spec(s) == s.subrange(i, s.len() as int),
    decreases i,
{
    if i == 0 {
        assert(s.subrange(0, s.len() as int) =~= s);
    } else {
        assert(is_space(s[0]));
        lemma_trim_start_idx(s.drop_first(), i - 1);
        assert(s.drop_first().subrange(i - 1, s.drop_first().len() as int) =~= s.subrange(
            i,
            s.len() as int,
        ));
    }
}

proof fn lemma_trim_end_idx(s: Seq<char>, j: int)
    requires
        0 <= j <= s.len(),
        forall|k: int| j <= k < s.len() ==> is_space(s[k]),
        j > 0 ==> !is_space(s[j - 1]),
    ensures
        trim_end_spec(s) == s.subrange(0, j),
    decreases s.len() - j,
{
    if j == s.len() {
        assert(s.subrange(0, s.len() as int) =~= s);
    } else {
        assert(is_space(s[s.len() - 1]));
        lemma_trim_end_idx(s.drop_last(), j);
        assert(s.drop_last().subrange(0, j) =~= s.subrange(0, j));
    }
}

proof fn lemma_trim_start_len(s: Seq<char>)
    ensures
        trim_start_spec(s).len() <= s.len(),
    decreases s.len(),
{
    if s.len() > 0 && is_space(s[0]) {
        lemma_trim_start_len(s.drop_first());
    }
}

proof fn lemma_trim_end_len(s: Seq<char>)
    ensures
        trim_end_spec(s).len() <= s.len(),
    decreases s.len(),
{
    if s.len() > 0 && is_space(s[s.len() - 1]) {
        lemma_trim_end_len(s.drop_last());
    }
}

/// A non-empty sequence equal to its own trim has non-space ends.
pub proof fn lemma_trimmed_ends(s: Seq<char>)
    requires
        trim_spec(s) == s,
        s.len() > 0,
    ensures
        !is_space(s[0]),
        !is_space(s[s.len() - 1]),
{
    if is_space(s[0]) {
        lemma_trim_start_len(s.drop_first());
        lemma_trim_end_len(trim_start_spec(s));
        assert(false);
    }
    assert(trim_start_spec(s) == s);
    if is_space(s[s.len() - 1]) {
        lemma_trim_end_len(s.drop_last());
        assert(false);
    }
}

proof fn lemma_trim_start_suffix(s: Seq<char>)
    ensures
        trim_start_spec(s) == s.subrange(
            s.len() - trim_start_spec(s).len(),
            s.len() as int,
        ),
    decreases s.len(),
{
    lemma_trim_start_len(s);
    if s.len() > 0 && is_space(s[0]) {
        lemma_trim_start_suffix(s.drop_first());
        lemma_trim_start_len(s.drop_first());
        assert(s.drop_first().subrange(
            s.drop_first().len() - trim_start_spec(s.drop_first()).len(),
            s.drop_first().len() as int,
        ) =~= s.subrange(s.len() - trim_start_spec(s).len(), s.len() as int));
    } else {
        assert(s.subrange(0, s.len() as int) =~= s);
    }
}

proof fn lemma_trim_end_prefix(s: Seq<char>)
    ensures
        trim_end_spec(s) == s.subrange(0, trim_end_spec(s).len() as int),
    decreases s.len(),
{
    lemma_trim_end_len(s);
    if s.len() > 0 && is_space(s[s.len() - 1]) {
        lemma_trim_end_prefix(s.drop_last());
        lemma_trim_end_len(s.drop_last());
        assert(s.drop_last().subrange(0, trim_end_spec(s).len() as int) =~= s.subrange(
            0,
            trim_end_spec(s).len() as int,
        ));
    } else {
        assert(s.subrange(0, s.len() as int) =~= s);
    }
}

/// The trim of a sequence is one of its contiguous runs.
pub proof fn lemma_trim_is_subrange(s: Seq<char>)
    ensures
        exists|a: int|
            0 <= a && a + trim_spec(s).len() <= s.len() && trim_spec(s) == #[trigger] s.subrange(
                a,
                a + trim_spec(s).len(),
            ),
{
    lemma_trim_start_suffix(s);
    lemma_trim_end_prefix(trim_start_spec(s));
    lemma_trim_start_len(s);
    lemma_trim_end_len(trim_start_spec(s));
    let a = s.len() - trim_start_spec(s).len();
    assert(trim_spec(s) =~= s.subrange(a, a + trim_spec(s).len()));
}

proof fn lemma_trim_start_first(s: Seq<char>)
    ensures
        trim_start_spec(s).len() > 0 ==> !is_space(trim_start_spec(s)[0]),
    decreases s.len(),
{
    if s.len() > 0 && is_space(s[0]) {
        lemma_trim_start_first(s.drop_first());
    }
}

proof fn lemma_trim_end_last(s: Seq<char>)
    ensures
        trim_end_spec(s).len() > 0 ==> !is_space(trim_end_spec(s)[trim_end_spec(s).len() - 1]),
    decreases s.len(),
{
    if s.len() > 0 && is_space(s[s.len() - 1]) {
        lemma_trim_end_last(s.drop_last());
    }
}

/// A non-empty trim has non-space ends, and trimming is idempotent.
pub proof fn lemma_trim_props(s: Seq<char>)
    ensures
        trim_spec(s).len() > 0 ==> !is_space(trim_spec(s)[0]),
        trim_spec(s).len() > 0 ==> !is_space(trim_spec(s)[trim_spec(s).len() - 1]),
        trim_spec(trim_spec(s)) == trim_spec(s),
{
    let t = trim_spec(s);
    lemma_trim_end_last(trim_start_spec(s));
    lemma_trim_start_first(s);
    lemma_trim_end_prefix(trim_start_spec(s));
    if t.len() > 0 {
        let x = trim_start_spec(s);
        lemma_trim_end_len(x);
        assert(t == x.subrange(0, t.len() as int));
        assert(x.subrange(0, t.len() as int)[0] == x[0]);
        lemma_trim_of_clean(t);
    }
}

/// A sequence that neither starts nor ends in whitespace is its own trim.
pub proof fn lemma_trim_of_clean(s: Seq<char>)
    requires
        s.len() > 0,
        !is_space(s[0]),
        !is_space(s[s.len() - 1]),
    ensures
        trim_spec(s) == s,
{
    lemma_trim_start_idx(s, 0);
    assert(trim_start_spec(s) =~= s);
    lemma_trim_end_idx(s, s.len() as int);
}

/// Removes leading and trailing whitespace, like the trimming the
/// document parser applies to each raw line.
pub fn trim_of<'a>(s: &'a str) -> (r: &'a str)
    ensures
        r@ == trim_spec(s@),
{
    let n = s.unicode_len();
    let mut i: usize = 0;
    while i < n && is_space_char(s.get_char(i))
        invariant
            0 <= i <= n,
            n == s@.len(),
            forall|k: int| 0 <= k < i ==> is_space(s@[k]),
        decreases n - i,
    {
        i = i + 1;
    }
    let mut j: usize = n;
    while j > i && is_space_char(s.get_char(j - 1))
        invariant
            i <= j <= n,
            n == s@.len(),
            forall|k: int| 0 <= k < i ==> is_space(s@[k]),
            i < n ==> !is_space(s@[i as int]),
            forall|k: int| j <= k < n ==> is_space(s@[k]),
        decreases j,
    {
        j = j - 1;
    }
    proof {
        lemma_trim_start_idx(s@, i as int);
        let t = s@.subrange(i as int, n as int);
        if j > i {
            lemma_trim_end_idx(t, j - i);
        } else {
            lemma_trim_end_idx(t, 0);
        }
        assert(t.subrange(0, j - i) =~= s@.subrange(i as int, j as int));
    }
    s.substring_char(i, j)
}

/// The pattern `pat` occurs in `s` starting at position `i`.
pub open spec fn occurs_at(s: Seq<char>, pat: Seq<char>, i: int) -> bool {
    0 <= i && i + pat.len() <= s.len() && s.subrange(i, i + pat.len()) == pat
}

/// The pattern `pat` occurs somewhere in `s`.
pub open spec fn occurs(s: Seq<char>, pat: Seq<char>) -> bool {
    exists|i: int| occurs_at(s, pat, i)
}

/// An occurrence pins each character of the pattern.
pub proof fn lemma_occurs_at_char(s: Seq<char>, pat: Seq<char>, i: int, k: int)
    requires
        occurs_at(s, pat, i),
        0 <= k < pat.len(),
    ensures
        s[i + k] == pat[k],
{
    assert(s.subrange(i, i + pat.len())[k] == s[i + k]);
}

/// A pattern whose first character never appears in `s` never occurs in `s`.
pub proof fn lemma_no_head_no_occurrence(s: Seq<char>, pat: Seq<char>)
    requires
        pat.len() > 0,
        forall|k: int| 0 <= k < s.len() ==> s[k] != pat[0],
    ensures
        !occurs(s, pat),
{
    assert forall|i: int| !occurs_at(s, pat, i) by {
        if occurs_at(s, pat, i) {
            lemma_occurs_at_char(s, pat, i, 0);
        }
    }
}

/// An occurrence wholly inside the left part of a concatenation.
pub proof fn lemma_occurs_at_left(a: Seq<char>, b: Seq<char>, pat: Seq<char>, i: int)
    requires
        occurs_at(a + b, pat, i),
        i + pat.len() <= a.len(),
    ensures
        occurs_at(a, pat, i),
{
    assert(a.subrange(i, i + pat.len()) =~= (a + b).subrange(i, i + pat.len()));
}

/// An occurrence that starts in the right part of a concatenation.
pub proof fn lemma_occurs_at_right(a: Seq<char>, b: Seq<char>, pat: Seq<char>, i: int)
    requires
        occurs_at(a + b, pat, i),
        i >= a.len(),
    ensures
        occurs_at(b, pat, i - a.len()),
{
    assert(b.subrange(i - a.len(), i - a.len() + pat.len()) =~= (a + b).subrange(
        i,
        i + pat.len(),
    ));
}

/// An occurrence in a part is an occurrence in the whole.
pub proof fn lemma_occurs_at_lift(a: Seq<char>, b: Seq<char>, pat: Seq<char>, i: int)
    requires
        occurs_at(b, pat, i),
    ensures
        occurs_at(a + b, pat, a.len() + i),
{
    assert((a + b).subrange(a.len() + i, a.len() + i + pat.len()) =~= b.subrange(
        i,
        i + pat.len(),
    ));
}

/// Wherever a pattern occurs, it has a first occurrence.
pub proof fn lemma_first_occurrence(s: Seq<char>, pat: Seq<char>, k0: int)
    requires
        occurs_at(s, pat, k0),
    ensures
        exists|k: int|
            (#[trigger] occurs_at(s, pat, k)) && forall|j: int| 0 <= j < k ==> !occurs_at(
                s,
                pat,
                j,
            ),
    decreases k0,
{
    if exists|j: int| 0 <= j < k0 && occurs_at(s, pat, j) {
        let j = choose|j: int| 0 <= j < k0 && occurs_at(s, pat, j);
        lemma_first_occurrence(s, pat, j);
    } else {
        assert(occurs_at(s, pat, k0) && forall|j: int| 0 <= j < k0 ==> !occurs_at(s, pat, j));
    }
}

/// Decides whether `pat` occurs in `s` at position `i`.
fn match_at(s: &str, n: usize, pat: &str, m: usize, i: usize) -> (r: bool)
    requires
        n == s@.len(),
        m == pat@.len(),
        i + m <= n,
    ensures
        r == occurs_at(s@, pat@, i as int),
{
    let mut k: usize = 0;
    while k < m
        invariant
            0 <= k <= m,
            n == s@.len(),
            m == pat@.len(),
            i + m <= n,
            forall|j: int| 0 <= j < k ==> s@[i + j] == pat@[j],
        decreases m - k,
    {
        if s.get_char(i + k) != pat.get_char(k) {
            assert(!occurs_at(s@, pat@, i as int)) by {
                if occurs_at(s@, pat@, i as int) {
                    lemma_occurs_at_char(s@, pat@, i as int, k as int);
                }
            }
            return false;
        }
        k = k + 1;
    }
    proof {
        assert(s@.subrange(i as int, i + m) =~= pat@);
    }
    true
}

/// Finds the first occurrence of `pat` in `s`.
pub fn find_first(s: &str, pat: &str) -> (r: Option<usize>)
    requires
        pat@.len() > 0,
    ensures
        match r {
            Some(i) => occurs_at(s@, pat@, i as int) && forall|j: int|
                0 <= j < i ==> !occurs_at(s@, pat@, j),
            None => !occurs(s@, pat@),
        },
{
    let n = s.unicode_len();
    let m = pat.unicode_len();
    if m > n {
        proof {
            assert forall|j: int| !occurs_at(s@, pat@, j) by {}
        }
        return None;
    }
    let mut i: usize = 0;
    while i <= n - m
        invariant
            0 <= i <= n - m + 1,
            n == s@.len(),
            m == pat@.len(),
            0 < m <= n,
            forall|j: int| 0 <= j < i ==> !occurs_at(s@, pat@, j),
        decreases n - i,
    {
        if match_at(s, n, pat, m, i) {
            return Some(i);
        }
        i = i + 1;
    }
    proof {
        assert forall|j: int| !occurs_at(s@, pat@, j) by {}
    }
    None
}

/// Finds the last position of the character `c` in `s`.
pub fn find_last_char(s: &str, c: char) -> (r: Option<usize>)
    ensures
        match r {
            Some(i) => 0 <= i < s@.len() && s@[i as int] == c && forall|k: int|
                i < k < s@.len() ==> s@[k] != c,
            None => forall|k: int| 0 <= k < s@.len() ==> s@[k] != c,
        },
{
    let n = s.unicode_len();
    let mut j: usize = n;
    while j > 0
        invariant
            0 <= j <= n,
            n == s@.len(),
            forall|k: int| j <= k < n ==> s@[k] != c,
        decreases j,
    {
        if s.get_char(j - 1) == c {
            return Some(j - 1);
        }
        j = j - 1;
    }
    None
}

/// The code point used to order a character: ASCII capitals fold onto
/// their lowercase forms, every other character keeps its own value.
pub open spec fn low(c: char) -> int {
    if 65 <= c as u32 && c as u32 <= 90 {
        c as u32 + 32
    } else {
        c as u32 as int
    }
}

fn low_of(c: char) -> (r: u32)
    ensures
        r == low(c),
{
    let v = c as u32;
    if 65 <= v && v <= 90 {
        v + 32
    } else {
        v
    }
}

/// Case-insensitive lexicographic order on rendered lines: the order in
/// which the document serializer emits them.
pub open spec fn line_le(a: Seq<char>, b: Seq<char>) -> bool
    decreases a.len(),
{
    if a.len() == 0 {
        true
    } else if b.len() == 0 {
        false
    } else if low(a[0]) != low(b[0]) {
        low(a[0]) < low(b[0])
    } else {
        line_le(a.drop_first(), b.drop_first())
    }
}

/// Any two lines are comparable.
proof fn lemma_line_le_total(a: Seq<char>, b: Seq<char>)
    ensures
        line_le(a, b) || line_le(b, a),
    decreases a.len(),
{
    if a.len() > 0 && b.len() > 0 && low(a[0]) == low(b[0]) {
        lemma_line_le_total(a.drop_first(), b.drop_first());
    }
}

/// The line order is transitive.
proof fn lemma_line_le_trans(a: Seq<char>, b: Seq<char>, c: Seq<char>)
    requires
        line_le(a, b),
        line_le(b, c),
    ensures
        line_le(a, c),
    decreases a.len(),
{
    if a.len() > 0 && b.len() > 0 && c.len() > 0 && low(a[0]) == low(b[0]) && low(b[0]) == low(
        c[0],
    ) {
        lemma_line_le_trans(a.drop_first(), b.drop_first(), c.drop_first());
    }
}

/// Decides the line order.
pub fn line_le_of(a: &str, b: &str) -> (r: bool)
    ensures
        r == line_le(a@, b@),
{
    let na = a.unicode_len();
    let nb = b.unicode_len();
    let mut i: usize = 0;
    proof {
        assert(a@.skip(0) =~= a@);
        assert(b@.skip(0) =~= b@);
    }
    loop
        invariant
            0 <= i <= na,
            i <= nb,
            na == a@.len(),
            nb == b@.len(),
            line_le(a@, b@) == line_le(a@.skip(i as int), b@.skip(i as int)),
        decreases na - i,
    {
        proof {
            assert(a@.skip(i as int).len() == na - i);
            assert(b@.skip(i as int).len() == nb - i);
        }
        if i >= na {
            return true;
        }
        if i >= nb {
            return false;
        }
        let la = low_of(a.get_char(i));
        let lb = low_of(b.get_char(i));
        proof {
            assert(a@.skip(i as int)[0] == a@[i as int]);
            assert(b@.skip(i as int)[0] == b@[i as int]);
        }
        if la < lb {
            return true;
        }
        if la > lb {
            return false;
        }
        proof {
            assert(a@.skip(i as int).drop_first() =~= a@.skip(i + 1));
            assert(b@.skip(i as int).drop_first() =~= b@.skip(i + 1));
        }
        i = i + 1;
    }
}

/// The text formed by the given lines, each followed by one newline.
/// No lines at all give the empty text.
pub open spec fn text_of_lines(ls: Seq<Seq<char>>) -> Seq<char>
    decreases ls.len(),
{
    if ls.len() == 0 {
        Seq::empty()
    } else {
        ls[0] + seq!['\n'] + text_of_lines(ls.drop_first())
    }
}

/// Appending one line appends its text and a newline.
pub proof fn lemma_text_of_push(ls: Seq<Seq<char>>, x: Seq<char>)
    ensures
        text_of_lines(ls.push(x)) == text_of_lines(ls) + x + seq!['\n'],
    decreases ls.len(),
{
    if ls.len() == 0 {
        assert(ls.push(x).drop_first() =~= ls);
        assert(ls.push(x)[0] == x);
        assert(text_of_lines(ls.push(x)) == x + seq!['\n'] + text_of_lines(ls));
        assert(x + seq!['\n'] + text_of_lines(ls) =~= text_of_lines(ls) + x + seq!['\n']);
    } else {
        assert(ls.push(x).drop_first() =~= ls.drop_first().push(x));
        assert(ls.push(x)[0] == ls[0]);
        lemma_text_of_push(ls.drop_first(), x);
        assert(ls[0] + seq!['\n'] + (text_of_lines(ls.drop_first()) + x + seq!['\n']) =~= (ls[0]
            + seq!['\n'] + text_of_lines(ls.drop_first())) + x + seq!['\n']);
    }
}

/// Index of the first newline in `s`, or `s.len()` if there is none.
pub open spec fn first_nl(s: Seq<char>) -> int
    decreases s.len(),
{
    if s.len() == 0 {
        0
    } else if s[0] == '\n' {
        0
    } else {
        1 + first_nl(s.drop_first())
    }
}

proof fn lemma_first_nl_bounds(s: Seq<char>)
    ensures
        0 <= first_nl(s) <= s.len(),
        first_nl(s) < s.len() ==> s[first_nl(s)] == '\n',
        forall|j: int| 0 <= j < first_nl(s) ==> s[j] != '\n',
    decreases s.len(),
{
    if s.len() > 0 && s[0] != '\n' {
        lemma_first_nl_bounds(s.drop_first());
        assert forall|j: int| 0 <= j < first_nl(s) implies s[j] != '\n' by {
            if j > 0 {
                assert(s.drop_first()[j - 1] == s[j]);
            }
        }
    }
}

/// Converse characterization: scanning finds exactly `first_nl`.
proof fn lemma_first_nl_is(s: Seq<char>, i: int)
    requires
        0 <= i <= s.len(),
        forall|j: int| 0 <= j < i ==> s[j] != '\n',
        i < s.len() ==> s[i] == '\n',
    ensures
        i < s.len() ==> first_nl(s) == i,
        i == s.len() ==> first_nl(s) == s.len(),
    decreases i,
{
    if s.len() > 0 && i > 0 {
        lemma_first_nl_is(s.drop_first(), i - 1);
    } else if s.len() > 0 && i == 0 && i == s.len() {
    } else if s.len() > 0 && i == 0 {
    }
}

/// The segments of `s` between its newlines, the text after the last
/// newline included even when it is empty.
pub open spec fn split_lines(s: Seq<char>) -> Seq<Seq<char>>
    decreases s.len(),
{
    let k = first_nl(s);
    if 0 <= k < s.len() {
        seq![s.subrange(0, k)] + split_lines(s.subrange(k + 1, s.len() as int))
    } else {
        seq![s]
    }
}

/// The lines the document parser walks: none for empty text, otherwise
/// the newline-separated segments.
pub open spec fn doc_lines(s: Seq<char>) -> Seq<Seq<char>> {
    if s.len() == 0 {
        Seq::empty()
    } else {
        split_lines(s)
    }
}

/// Splitting the text of newline-free lines gives the lines back,
/// followed by one empty segment from the trailing newline.
pub proof fn lemma_split_text_of(ls: Seq<Seq<char>>)
    requires
        forall|i: int| 0 <= i < ls.len() ==> !(#[trigger] ls[i]).contains('\n'),
    ensures
        split_lines(text_of_lines(ls)) == ls.push(Seq::<char>::empty()),
    decreases ls.len(),
{
    let t = text_of_lines(ls);
    if ls.len() == 0 {
        assert(t.len() == 0);
        lemma_first_nl_bounds(t);
        assert(split_lines(t) =~= seq![t]);
        assert(seq![t] =~= ls.push(Seq::<char>::empty()));
    } else {
        let rest = text_of_lines(ls.drop_first());
        assert(t =~= ls[0] + seq!['\n'] + rest);
        assert forall|j: int| 0 <= j < ls[0].len() implies t[j] != '\n' by {
            assert(t[j] == ls[0][j]);
            assert(ls[0].contains('\n') == exists|k: int|
                0 <= k < ls[0].len() && ls[0][k] == '\n');
            if t[j] == '\n' {
                assert(ls[0][j] == '\n');
                assert(ls[0].contains('\n'));
            }
        }
        assert(t[ls[0].len() as int] == '\n');
        lemma_first_nl_is(t, ls[0].len() as int);
        assert(first_nl(t) == ls[0].len());
        assert(t.subrange(0, ls[0].len() as int) =~= ls[0]);
        assert(t.subrange(ls[0].len() as int + 1, t.len() as int) =~= rest);
        assert(forall|i: int|
            0 <= i < ls.drop_first().len() ==> !(#[trigger] ls.drop_first()[i]).contains('\n'));
        lemma_split_text_of(ls.drop_first());
        assert(split_lines(t) =~= seq![ls[0]] + split_lines(rest));
        assert(seq![ls[0]] + ls.drop_first().push(Seq::<char>::empty()) =~= ls.push(
            Seq::<char>::empty(),
        ));
    }
}

/// Splits text into its lines, as [`split_lines`] describes.
pub fn split_lines_of(s: &str) -> (v: Vec<String>)
    ensures
        v@.map_values(|x: String| x@) == doc_lines(s@),
{
    let mut v: Vec<String> = Vec::new();
    let n = s.unicode_len();
    if n == 0 {
        proof {
            assert(v@.map_values(|x: String| x@) =~= doc_lines(s@));
        }
        return v;
    }
    let mut start: usize = 0;
    let mut pos: usize = 0;
    proof {
        assert(s@.subrange(0, n as int) =~= s@);
    }
    loop
        invariant
            0 <= start <= pos <= n,
            n == s@.len(),
            n > 0,
            forall|j: int| start <= j < pos ==> s@[j] != '\n',
            split_lines(s@) == v@.map_values(|x: String| x@) + split_lines(
                s@.subrange(start as int, n as int),
            ),
        decreases n - pos, n - start,
    {
        let ghost tail = s@.subrange(start as int, n as int);
        if pos == n {
            proof {
                lemma_first_nl_is(tail, (pos - start) as int);
                assert(split_lines(tail) =~= seq![tail]);
            }
            let ghost v0 = v@.map_values(|x: String| x@);
            let line = s.substring_char(start, n);
            v.push(String::from_str(line));
            proof {
                assert(v@.map_values(|x: String| x@) =~= v0.push(tail));
                assert(split_lines(s@) =~= v@.map_values(|x: String| x@));
            }
            return v;
        }
        if s.get_char(pos) == '\n' {
            proof {
                lemma_first_nl_is(tail, (pos - start) as int);
                assert(tail[(pos - start) as int] == s@[pos as int]);
                assert(split_lines(tail) =~= seq![tail.subrange(0, (pos - start) as int)]
                    + split_lines(tail.subrange((pos - start) as int + 1, tail.len() as int)));
                assert(tail.subrange(0, (pos - start) as int) =~= s@.subrange(
                    start as int,
                    pos as int,
                ));
                assert(tail.subrange((pos - start) as int + 1, tail.len() as int) =~= s@.subrange(
                    pos as int + 1,
                    n as int,
                ));
            }
            let ghost v0 = v@.map_values(|x: String| x@);
            let line = s.substring_char(start, pos);
            v.push(String::from_str(line));
            proof {
                assert(v@.map_values(|x: String| x@) =~= v0.push(
                    s@.subrange(start as int, pos as int),
                ));
                assert(v@.map_values(|x: String| x@) + split_lines(
                    s@.subrange(pos as int + 1, n as int),
                ) =~= (v0 + seq![s@.subrange(start as int, pos as int)]) + split_lines(
                    s@.subrange(pos as int + 1, n as int),
                ));
            }
            start = pos + 1;
            pos = pos + 1;
        } else {
            pos = pos + 1;
        }
    }
}

/// No segment of a split carries a newline.
pub proof fn lemma_split_lines_no_nl(s: Seq<char>)
    ensures
        forall|i: int, k: int|
            #![trigger split_lines(s)[i][k]]
            0 <= i < split_lines(s).len() && 0 <= k < split_lines(s)[i].len()
                ==> split_lines(s)[i][k] != '\n',
    decreases s.len(),
{
    lemma_first_nl_bounds(s);
    let f = first_nl(s);
    if 0 <= f < s.len() {
        let head = s.subrange(0, f);
        let rest = s.subrange(f + 1, s.len() as int);
        lemma_split_lines_no_nl(rest);
        assert forall|i: int, k: int|
            #![trigger split_lines(s)[i][k]]
            0 <= i < split_lines(s).len() && 0 <= k < split_lines(s)[i].len()
                implies split_lines(s)[i][k] != '\n' by {
            if i == 0 {
                assert(split_lines(s)[0] == head);
                assert(head[k] == s[k]);
            } else {
                assert(split_lines(s)[i] == split_lines(rest)[i - 1]);
            }
        }
    } else {
        assert forall|i: int, k: int|
            #![trigger split_lines(s)[i][k]]
            0 <= i < split_lines(s).len() && 0 <= k < split_lines(s)[i].len()
                implies split_lines(s)[i][k] != '\n' by {
            assert(split_lines(s)[i] == s);
            assert(s[k] != '\n');
        }
    }
}

/// Decides equality of two strings by their characters.
pub fn str_eq(a: &str, b: &str) -> (r: bool)
    ensures
        r == (a@ == b@),
{
    let na = a.unicode_len();
    let nb = b.unicode_len();
    if na != nb {
        return false;
    }
    let mut i: usize = 0;
    while i < na
        invariant
            0 <= i <= na,
            na == a@.len(),
            na == b@.len(),
            forall|k: int| 0 <= k < i ==> a@[k] == b@[k],
        decreases na - i,
    {
        if a.get_char(i) != b.get_char(i) {
            return false;
        }
        i = i + 1;
    }
    proof {
        assert(a@ =~= b@);
    }
    true
}

/// The character sequences behind a sequence of strings.
pub open spec fn views_of(v: Seq<String>) -> Seq<Seq<char>> {
    v.map_values(|x: String| x@)
}

/// Stable insertion of a line into an already sorted run: the new line
/// goes after every line it compares equal to.
pub open spec fn insert_line(x: Seq<char>, s: Seq<Seq<char>>) -> Seq<Seq<char>>
    decreases s.len(),
{
    if s.len() == 0 {
        seq![x]
    } else if line_le(s.last(), x) {
        s.push(x)
    } else {
        insert_line(x, s.drop_last()).push(s.last())
    }
}

/// The serializer's line order: a stable insertion sort under [`line_le`].
pub open spec fn sort_lines(s: Seq<Seq<char>>) -> Seq<Seq<char>>
    decreases s.len(),
{
    if s.len() == 0 {
        Seq::empty()
    } else {
        insert_line(s.last(), sort_lines(s.drop_last()))
    }
}

/// The lines stand in case-insensitive lexicographic order.
pub open spec fn sorted_le(s: Seq<Seq<char>>) -> bool {
    forall|i: int, j: int| 0 <= i < j < s.len() ==> #[trigger] line_le(s[i], s[j])
}

proof fn lemma_insert_len(x: Seq<char>, s: Seq<Seq<char>>)
    ensures
        insert_line(x, s).len() == s.len() + 1,
    decreases s.len(),
{
    if s.len() > 0 && !line_le(s.last(), x) {
        lemma_insert_len(x, s.drop_last());
    }
}

/// Every line of the inserted run is the new line or one of the old run.
proof fn lemma_insert_membership(x: Seq<char>, s: Seq<Seq<char>>)
    ensures
        forall|k: int|
            0 <= k < insert_line(x, s).len() ==> insert_line(x, s)[k] == x || exists|m: int|
                0 <= m < s.len() && s[m] == #[trigger] insert_line(x, s)[k],
    decreases s.len(),
{
    if s.len() == 0 {
    } else if line_le(s.last(), x) {
        assert forall|k: int| 0 <= k < insert_line(x, s).len() implies insert_line(x, s)[k] == x
            || exists|m: int| 0 <= m < s.len() && s[m] == #[trigger] insert_line(x, s)[k] by {
            if k < s.len() {
                assert(s[k] == insert_line(x, s)[k]);
            }
        }
    } else {
        lemma_insert_membership(x, s.drop_last());
        let r0 = insert_line(x, s.drop_last());
        assert forall|k: int| 0 <= k < insert_line(x, s).len() implies insert_line(x, s)[k] == x
            || exists|m: int| 0 <= m < s.len() && s[m] == #[trigger] insert_line(x, s)[k] by {
            if k < r0.len() {
                assert(insert_line(x, s)[k] == r0[k]);
                if r0[k] != x {
                    let m = choose|m: int| 0 <= m < s.drop_last().len() && s.drop_last()[m]
                        == r0[k];
                    assert(s[m] == r0[k]);
                }
            } else {
                assert(insert_line(x, s)[k] == s.last());
                assert(s[s.len() - 1] == s.last());
            }
        }
    }
}

proof fn lemma_insert_sorted(x: Seq<char>, s: Seq<Seq<char>>)
    requires
        sorted_le(s),
    ensures
        sorted_le(insert_line(x, s)),
    decreases s.len(),
{
    if s.len() == 0 {
    } else if line_le(s.last(), x) {
        let r = s.push(x);
        assert forall|i: int, j: int| 0 <= i < j < r.len() implies #[trigger] line_le(
            r[i],
            r[j],
        ) by {
            if j < s.len() {
            } else {
                assert(r[j] == x);
                if i < s.len() - 1 {
                    assert(line_le(s[i], s[s.len() - 1]));
                    lemma_line_le_trans(s[i], s.last(), x);
                } else {
                    assert(r[i] == s.last());
                }
            }
        }
    } else {
        assert(sorted_le(s.drop_last()));
        lemma_insert_sorted(x, s.drop_last());
        lemma_insert_membership(x, s.drop_last());
        lemma_insert_len(x, s.drop_last());
        let r0 = insert_line(x, s.drop_last());
        let r = r0.push(s.last());
        lemma_line_le_total(s.last(), x);
        assert forall|i: int, j: int| 0 <= i < j < r.len() implies #[trigger] line_le(
            r[i],
            r[j],
        ) by {
            if j < r0.len() {
            } else {
                assert(r[j] == s.last());
                assert(r[i] == r0[i]);
                if r0[i] == x {
                    assert(line_le(x, s.last()));
                } else {
                    let m = choose|m: int| 0 <= m < s.drop_last().len() && s.drop_last()[m]
                        == r0[i];
                    assert(s[m] == r0[i]);
                    assert(line_le(s[m], s[s.len() - 1]));
                }
            }
        }
    }
}

pub proof fn lemma_sort_len(s: Seq<Seq<char>>)
    ensures
        sort_lines(s).len() == s.len(),
    decreases s.len(),
{
    if s.len() > 0 {
        lemma_sort_len(s.drop_last());
        lemma_insert_len(s.last(), sort_lines(s.drop_last()));
    }
}

pub proof fn lemma_sort_sorted(s: Seq<Seq<char>>)
    ensures
        sorted_le(sort_lines(s)),
    decreases s.len(),
{
    if s.len() == 0 {
    } else {
        lemma_sort_sorted(s.drop_last());
        lemma_insert_sorted(s.last(), sort_lines(s.drop_last()));
    }
}

/// Every line of the sorted run comes from the original run.
pub proof fn lemma_sort_membership(s: Seq<Seq<char>>)
    ensures
        forall|k: int|
            0 <= k < sort_lines(s).len() ==> exists|m: int|
                0 <= m < s.len() && s[m] == #[trigger] sort_lines(s)[k],
    decreases s.len(),
{
    if s.len() > 0 {
        lemma_sort_membership(s.drop_last());
        lemma_insert_membership(s.last(), sort_lines(s.drop_last()));
        let r = sort_lines(s);
        assert forall|k: int| 0 <= k < r.len() implies exists|m: int|
            0 <= m < s.len() && s[m] == #[trigger] r[k] by {
            if r[k] == s.last() {
                assert(s[s.len() - 1] == r[k]);
            } else {
                let m0 = choose|m0: int|
                    0 <= m0 < sort_lines(s.drop_last()).len() && sort_lines(s.drop_last())[m0]
                        == r[k];
                let m = choose|m: int|
                    0 <= m < s.drop_last().len() && s.drop_last()[m] == sort_lines(
                        s.drop_last(),
                    )[m0];
                assert(s[m] == r[k]);
            }
        }
    }
}

/// When the new line compares at least as high as the whole run, stable
/// insertion appends it.
proof fn lemma_insert_all_le(x: Seq<char>, s: Seq<Seq<char>>)
    requires
        forall|i: int| 0 <= i < s.len() ==> line_le(#[trigger] s[i], x),
    ensures
        insert_line(x, s) == s.push(x),
{
    if s.len() == 0 {
        assert(insert_line(x, s) =~= s.push(x));
    } else {
        assert(line_le(s[s.len() - 1], x));
    }
}

/// Sorting an already sorted run leaves it unchanged.
pub proof fn lemma_sort_of_sorted(s: Seq<Seq<char>>)
    requires
        sorted_le(s),
    ensures
        sort_lines(s) == s,
    decreases s.len(),
{
    if s.len() > 0 {
        assert(sorted_le(s.drop_last()));
        lemma_sort_of_sorted(s.drop_last());
        assert forall|i: int| 0 <= i < s.drop_last().len() implies line_le(
            #[trigger] s.drop_last()[i],
            s.last(),
        ) by {
            assert(line_le(s[i], s[s.len() - 1]));
        }
        lemma_insert_all_le(s.last(), s.drop_last());
        assert(s.drop_last().push(s.last()) =~= s);
    }
}

/// Stable insertion lands at the position an exec scan from the end finds.
proof fn lemma_insert_at_pos(x: Seq<char>, s: Seq<Seq<char>>, p: int)
    requires
        0 <= p <= s.len(),
        p > 0 ==> line_le(s[p - 1], x),
        forall|i: int| p <= i < s.len() ==> !line_le(#[trigger] s[i], x),
    ensures
        insert_line(x, s) == s.insert(p, x),
    decreases s.len(),
{
    if s.len() == 0 {
        assert(insert_line(x, s) =~= s.insert(0, x));
    } else if line_le(s.last(), x) {
        assert(p == s.len());
        assert(s.push(x) =~= s.insert(p, x));
    } else {
        assert(p < s.len());
        lemma_insert_at_pos(x, s.drop_last(), p);
        assert(s.drop_last().insert(p, x).push(s.last()) =~= s.insert(p, x));
    }
}

/// Sorts the given lines into the serializer's order.
pub fn sort_strings(lines: &Vec<String>) -> (r: Vec<String>)
    ensures
        views_of(r@) == sort_lines(views_of(lines@)),
{
    let ghost all = views_of(lines@);
    let mut acc: Vec<String> = Vec::new();
    let mut idx: usize = 0;
    proof {
        assert(views_of(acc@) =~= sort_lines(all.take(0)));
    }
    while idx < lines.len()
        invariant
            0 <= idx <= lines.len(),
            all == views_of(lines@),
            views_of(acc@) == sort_lines(all.take(idx as int)),
        decreases lines.len() - idx,
    {
        let x = lines[idx].clone();
        let mut p: usize = acc.len();
        proof {
            lemma_sort_len(all.take(idx as int));
        }
        while p > 0 && !line_le_of(acc[p - 1].as_str(), x.as_str())
            invariant
                0 <= p <= acc.len(),
                acc.len() == idx,
                idx <= lines.len(),
                all == views_of(lines@),
                views_of(acc@) == sort_lines(all.take(idx as int)),
                x@ == all[idx as int],
                forall|i: int| p <= i < acc.len() ==> !line_le(#[trigger] views_of(acc@)[i], x@),
            decreases p,
        {
            proof {
                assert(views_of(acc@)[p - 1] == acc@[p - 1]@);
            }
            p = p - 1;
        }
        proof {
            assert(p > 0 ==> line_le(views_of(acc@)[p - 1], x@));
            lemma_insert_at_pos(x@, views_of(acc@), p as int);
            assert(all.take(idx + 1).drop_last() =~= all.take(idx as int));
            assert(all.take(idx + 1).last() == all[idx as int]);
        }
        let ghost acc0 = views_of(acc@);
        acc.insert(p, x);
        proof {
            assert(views_of(acc@) =~= acc0.insert(p as int, x@));
        }
        idx = idx + 1;
    }
    proof {
        assert(all.take(lines@.len() as int) =~= all);
    }
    acc
}

} // verus!
