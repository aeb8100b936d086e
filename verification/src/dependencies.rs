//! Dependency records and the line codec.
//!
//! A lock line is either a simple pin `name==version[ ; qualifiers]` or a
//! source-control pin `url@ref#egg=name`. Records keep every character of
//! the line they were parsed from, split into fields, so that rendering
//! reproduces the line exactly.

use vstd::prelude::*;
use vstd::string::*;

use crate::text::{
    find_first, find_last_char, is_space, is_space_char, lemma_no_head_no_occurrence,
    lemma_occurs_at_char, lemma_occurs_at_left, lemma_occurs_at_lift, lemma_occurs_at_right,
    occurs, occurs_at, trim_spec,
};

verus! {

/// The package-name marker of a source-control line.
pub open spec fn marker() -> Seq<char> {
    seq!['#', 'e', 'g', 'g', '=']
}

/// The operator that separates a name from a version.
pub open spec fn eqeq() -> Seq<char> {
    seq!['=', '=']
}

/// Characters allowed in a source-control URL or in the package name
/// behind the marker.
pub open spec fn plain_char(c: char) -> bool {
    !is_space(c) && c != '#' && c != '\n'
}

/// Characters allowed in a version value.
pub open spec fn version_char(c: char) -> bool {
    plain_char(c) && c != ';'
}

/// Characters allowed in a package name on a simple line.
pub open spec fn name_char(c: char) -> bool {
    version_char(c) && c != '='
}

/// Characters allowed in a source-control reference.
pub open spec fn ref_char(c: char) -> bool {
    plain_char(c) && c != '@'
}

pub open spec fn valid_name(s: Seq<char>) -> bool {
    s.len() > 0 && forall|k: int| 0 <= k < s.len() ==> name_char(#[trigger] s[k])
}

pub open spec fn valid_version(s: Seq<char>) -> bool {
    s.len() > 0 && forall|k: int| 0 <= k < s.len() ==> version_char(#[trigger] s[k])
}

pub open spec fn valid_url(s: Seq<char>) -> bool {
    s.len() > 0 && forall|k: int| 0 <= k < s.len() ==> plain_char(#[trigger] s[k])
}

pub open spec fn valid_ref(s: Seq<char>) -> bool {
    s.len() > 0 && forall|k: int| 0 <= k < s.len() ==> ref_char(#[trigger] s[k])
}

pub open spec fn valid_git_name(s: Seq<char>) -> bool {
    s.len() > 0 && forall|k: int| 0 <= k < s.len() ==> plain_char(#[trigger] s[k])
}

/// The operator field: optional spacing, `==`, optional spacing.
pub open spec fn op_shape(s: Seq<char>, i: int) -> bool {
    &&& 0 <= i
    &&& i + 2 <= s.len()
    &&& s[i] == '='
    &&& s[i + 1] == '='
    &&& forall|j: int| 0 <= j < i ==> is_space(#[trigger] s[j])
    &&& forall|j: int| i + 2 <= j < s.len() ==> is_space(#[trigger] s[j])
}

pub open spec fn valid_op(s: Seq<char>) -> bool {
    exists|i: int| op_shape(s, i)
}

/// The verbatim text after the version value: empty, or opened by a
/// space or `;`, closed by a non-space, and free of newlines.
pub open spec fn valid_trailing(s: Seq<char>) -> bool {
    s.len() == 0 || ((is_space(s[0]) || s[0] == ';') && !is_space(s[s.len() - 1]) && forall|k: int|
        0 <= k < s.len() ==> #[trigger] s[k] != '\n')
}

/// Free-form qualifier text a caller may attach to new records: one
/// line, no marker characters, not ending in whitespace.
pub open spec fn valid_qualifier(s: Seq<char>) -> bool {
    s.len() > 0 && !is_space(s[s.len() - 1]) && forall|k: int|
        0 <= k < s.len() ==> #[trigger] s[k] != '\n' && s[k] != '#'
}

/// Mathematical model of a simple pin.
#[verifier::ext_equal]
pub struct SimpleView {
    pub name: Seq<char>,
    pub op: Seq<char>,
    pub version: Seq<char>,
    pub trailing: Seq<char>,
}

/// Mathematical model of a source-control pin.
#[verifier::ext_equal]
pub struct GitView {
    pub url: Seq<char>,
    pub git_ref: Seq<char>,
    pub name: Seq<char>,
}

/// Mathematical model of one dependency record.
#[verifier::ext_equal]
pub enum DepView {
    Simple(SimpleView),
    Git(GitView),
}

pub open spec fn simple_line(v: SimpleView) -> Seq<char> {
    v.name + v.op + v.version + v.trailing
}

pub open spec fn git_line(v: GitView) -> Seq<char> {
    v.url + seq!['@'] + v.git_ref + marker() + v.name
}

pub open spec fn wf_simple(v: SimpleView) -> bool {
    &&& valid_name(v.name)
    &&& valid_op(v.op)
    &&& valid_version(v.version)
    &&& valid_trailing(v.trailing)
    &&& !occurs(simple_line(v), marker())
}

pub open spec fn wf_git(v: GitView) -> bool {
    &&& valid_url(v.url)
    &&& valid_ref(v.git_ref)
    &&& valid_git_name(v.name)
}

impl DepView {
    /// The exact line this record renders to.
    pub open spec fn line(self) -> Seq<char> {
        match self {
            DepView::Simple(v) => simple_line(v),
            DepView::Git(v) => git_line(v),
        }
    }

    /// The package name the record pins.
    pub open spec fn name(self) -> Seq<char> {
        match self {
            DepView::Simple(v) => v.name,
            DepView::Git(v) => v.name,
        }
    }

    /// Structural validity: every field in its alphabet, so that the
    /// rendered line parses back to a record rendering the same line.
    pub open spec fn wf(self) -> bool {
        match self {
            DepView::Simple(v) => wf_simple(v),
            DepView::Git(v) => wf_git(v),
        }
    }
}

/// `d` is a record the codec may return for the trimmed line `t`.
pub open spec fn parses_exact(d: DepView, t: Seq<char>) -> bool {
    d.wf() && d.line() == t
}

/// Some record renders exactly to the trimmed line `t`.
pub open spec fn line_parseable(t: Seq<char>) -> bool {
    exists|d: DepView| parses_exact(d, t)
}

/// A simple pin: `name==version`, rendered with the original spacing
/// kept in `op` and any qualifier text kept verbatim in `trailing`.
#[derive(Debug)]
pub struct SimpleDependency {
    pub name: String,
    pub op: String,
    pub version: String,
    pub trailing: String,
}

impl View for SimpleDependency {
    type V = SimpleView;

    open spec fn view(&self) -> SimpleView {
        SimpleView { name: self.name@, op: self.op@, version: self.version@, trailing: self.trailing@ }
    }
}

/// A source-control pin: `url@ref#egg=name`.
#[derive(Debug)]
pub struct GitDependency {
    pub url: String,
    pub git_ref: String,
    pub name: String,
}

impl View for GitDependency {
    type V = GitView;

    open spec fn view(&self) -> GitView {
        GitView { url: self.url@, git_ref: self.git_ref@, name: self.name@ }
    }
}

/// One record of the lock document.
#[derive(Debug)]
pub enum LockedDependency {
    Simple(SimpleDependency),
    Git(GitDependency),
}

impl View for LockedDependency {
    type V = DepView;

    open spec fn view(&self) -> DepView {
        match self {
            LockedDependency::Simple(s) => DepView::Simple(s@),
            LockedDependency::Git(g) => DepView::Git(g@),
        }
    }
}

/// One externally observed installed dependency: plain name and version
/// as the installer reports them. Never persisted directly.
#[derive(Debug)]
pub struct FrozenDependency {
    pub name: String,
    pub version: String,
}

/// Mathematical model of an observed dependency.
#[verifier::ext_equal]
pub struct FrozenView {
    pub name: Seq<char>,
    pub version: Seq<char>,
}

impl View for FrozenDependency {
    type V = FrozenView;

    open spec fn view(&self) -> FrozenView {
        FrozenView { name: self.name@, version: self.version@ }
    }
}

impl FrozenDependency {
    pub fn new(name: &str, version: &str) -> (r: FrozenDependency)
        ensures
            r@.name == name@,
            r@.version == version@,
    {
        FrozenDependency { name: String::from_str(name), version: String::from_str(version) }
    }
}

/// A structural parse failure of one line; the caller adds the line
/// number.
#[derive(Debug)]
pub struct ParseError {
    pub details: String,
}

impl LockedDependency {
    /// The package name this record pins.
    pub fn name(&self) -> (r: &str)
        ensures
            r@ == self@.name(),
    {
        match self {
            LockedDependency::Simple(s) => s.name.as_str(),
            LockedDependency::Git(g) => g.name.as_str(),
        }
    }

    /// Renders the record back to its lock line.
    pub fn line(&self) -> (r: String)
        ensures
            r@ == self@.line(),
    {
        match self {
            LockedDependency::Simple(s) => {
                let mut r = String::new();
                r.append(s.name.as_str());
                r.append(s.op.as_str());
                r.append(s.version.as_str());
                r.append(s.trailing.as_str());
                proof {
                    assert(r@ =~= simple_line(s@));
                }
                r
            },
            LockedDependency::Git(g) => {
                let mut r = String::new();
                r.append(g.url.as_str());
                r.append("@");
                r.append(g.git_ref.as_str());
                r.append("#egg=");
                r.append(g.name.as_str());
                proof {
                    reveal_strlit("@");
                    reveal_strlit("#egg=");
                    assert(("@")@ =~= seq!['@']);
                    assert(("#egg=")@ =~= marker());
                    assert(r@ =~= git_line(g@));
                }
                r
            },
        }
    }
}

fn check_all_chars(s: &str, kind: u8) -> (r: bool)
    requires
        kind <= 3,
    ensures
        kind == 0 ==> r == (forall|k: int| 0 <= k < s@.len() ==> name_char(#[trigger] s@[k])),
        kind == 1 ==> r == (forall|k: int| 0 <= k < s@.len() ==> version_char(#[trigger] s@[k])),
        kind == 2 ==> r == (forall|k: int| 0 <= k < s@.len() ==> plain_char(#[trigger] s@[k])),
        kind == 3 ==> r == (forall|k: int| 0 <= k < s@.len() ==> ref_char(#[trigger] s@[k])),
{
    let n = s.unicode_len();
    let mut i: usize = 0;
    while i < n
        invariant
            0 <= i <= n,
            n == s@.len(),
            kind == 0 ==> forall|k: int| 0 <= k < i ==> name_char(#[trigger] s@[k]),
            kind == 1 ==> forall|k: int| 0 <= k < i ==> version_char(#[trigger] s@[k]),
            kind == 2 ==> forall|k: int| 0 <= k < i ==> plain_char(#[trigger] s@[k]),
            kind == 3 ==> forall|k: int| 0 <= k < i ==> ref_char(#[trigger] s@[k]),
        decreases n - i,
    {
        let c = s.get_char(i);
        let plain = !is_space_char(c) && c != '#' && c != '\n';
        let ok = if kind == 0 {
            plain && c != ';' && c != '='
        } else if kind == 1 {
            plain && c != ';'
        } else if kind == 2 {
            plain
        } else {
            plain && c != '@'
        };
        if !ok {
            return false;
        }
        i = i + 1;
    }
    true
}

/// Decides [`valid_name`], for callers that must establish it before a
/// bump or freeze.
pub fn is_valid_name(s: &str) -> (r: bool)
    ensures
        r == valid_name(s@),
{
    s.unicode_len() > 0 && check_all_chars(s, 0)
}

/// Decides [`valid_version`].
pub fn is_valid_version(s: &str) -> (r: bool)
    ensures
        r == valid_version(s@),
{
    s.unicode_len() > 0 && check_all_chars(s, 1)
}

/// Decides [`valid_ref`].
pub fn is_valid_ref(s: &str) -> (r: bool)
    ensures
        r == valid_ref(s@),
{
    s.unicode_len() > 0 && check_all_chars(s, 3)
}

/// Decides [`valid_qualifier`].
pub fn is_valid_qualifier(s: &str) -> (r: bool)
    ensures
        r == valid_qualifier(s@),
{
    let n = s.unicode_len();
    if n == 0 {
        return false;
    }
    if is_space_char(s.get_char(n - 1)) {
        return false;
    }
    let mut i: usize = 0;
    while i < n
        invariant
            0 <= i <= n,
            n == s@.len(),
            forall|k: int| 0 <= k < i ==> #[trigger] s@[k] != '\n' && s@[k] != '#',
        decreases n - i,
    {
        let c = s.get_char(i);
        if c == '\n' || c == '#' {
            return false;
        }
        i = i + 1;
    }
    true
}

/// In a well-formed source-control line the first marker occurrence sits
/// exactly between the reference and the package name, and the last `@`
/// before it exactly between the URL and the reference.
/// Index facts of a rendered source-control line, region by region.
#[verifier::spinoff_prover]
proof fn lemma_git_regions(g: GitView, t: Seq<char>)
    requires
        git_line(g) == t,
    ensures
        t.len() == g.url.len() + 1 + g.git_ref.len() + 5 + g.name.len(),
        forall|q: int| 0 <= q < g.url.len() ==> t[q] == g.url[q],
        t[g.url.len() as int] == '@',
        forall|q: int|
            g.url.len() < q < g.url.len() + 1 + g.git_ref.len() ==> t[q] == g.git_ref[q
                - g.url.len() - 1],
        forall|q: int|
            g.url.len() + 1 + g.git_ref.len() <= q < g.url.len() + 1 + g.git_ref.len() + 5
                ==> t[q] == marker()[q - g.url.len() - 1 - g.git_ref.len()],
        forall|q: int|
            g.url.len() + 1 + g.git_ref.len() + 5 <= q < t.len() ==> t[q] == g.name[q
                - g.url.len() - 1 - g.git_ref.len() - 5],
        occurs_at(t, marker(), g.url.len() as int + 1 + g.git_ref.len() as int),
{
    let u = g.url.len() as int;
    let rr = g.git_ref.len() as int;
    let kk = u + 1 + rr;
    assert(t =~= g.url + seq!['@'] + g.git_ref + marker() + g.name);
    assert(t.len() == u + 1 + rr + 5 + g.name.len());
    assert forall|q: int| 0 <= q < u implies t[q] == g.url[q] by {}
    assert(t[u] == '@');
    assert forall|q: int| u < q < kk implies t[q] == g.git_ref[q - u - 1] by {}
    assert forall|q: int| kk <= q < kk + 5 implies t[q] == marker()[q - kk] by {}
    assert forall|q: int| kk + 5 <= q < t.len() implies t[q] == g.name[q - kk - 5] by {}
    assert(occurs_at(t, marker(), kk)) by {
        assert(t.subrange(kk, kk + 5) =~= marker());
    }
}

/// In a well-formed source-control line the first marker occurrence sits
/// exactly between the reference and the package name, and the last `@`
/// before it exactly between the URL and the reference.
#[verifier::rlimit(100)]
#[verifier::spinoff_prover]
proof fn lemma_git_marker_pos(g: GitView, t: Seq<char>, k: int)
    requires
        wf_git(g),
        git_line(g) == t,
        occurs_at(t, marker(), k),
        forall|p: int| 0 <= p < k ==> !occurs_at(t, marker(), p),
    ensures
        k == g.url.len() + 1 + g.git_ref.len(),
        t.len() == k + 5 + g.name.len(),
        t[g.url.len() as int] == '@',
        forall|q: int| g.url.len() < q < k ==> t[q] != '@',
        g.url == t.subrange(0, g.url.len() as int),
        g.git_ref == t.subrange(g.url.len() as int + 1, k),
        g.name == t.subrange(k + 5, t.len() as int),
{
    let u = g.url.len() as int;
    let rr = g.git_ref.len() as int;
    let kk = u + 1 + rr;
    lemma_git_regions(g, t);
    // no occurrence can start earlier: no '#' stands before position kk
    assert forall|p: int| 0 <= p < kk implies !occurs_at(t, marker(), p) by {
        if occurs_at(t, marker(), p) {
            lemma_occurs_at_char(t, marker(), p, 0);
            assert(t[p] == '#');
            if p < u {
                assert(plain_char(g.url[p]));
            } else if p == u {
            } else {
                assert(ref_char(g.git_ref[p - u - 1]));
            }
        }
    }
    if k < kk {
        assert(!occurs_at(t, marker(), k));
        assert(false);
    }
    if k > kk {
        assert(!occurs_at(t, marker(), kk));
        assert(false);
    }
    assert forall|q: int| u < q < k implies t[q] != '@' by {
        assert(ref_char(g.git_ref[q - u - 1]));
    }
    assert(g.url =~= t.subrange(0, u));
    assert(g.git_ref =~= t.subrange(u + 1, k));
    assert(g.name =~= t.subrange(k + 5, t.len() as int));
}

/// In a well-formed simple line the first `==` occurrence sits inside the
/// operator field, which pins where every field begins and ends.
#[verifier::rlimit(100)]
#[verifier::spinoff_prover]
proof fn lemma_simple_positions(v: SimpleView, t: Seq<char>, e: int)
    requires
        wf_simple(v),
        simple_line(v) == t,
        occurs_at(t, eqeq(), e),
        forall|p: int| 0 <= p < e ==> !occurs_at(t, eqeq(), p),
    ensures
        v.name.len() <= e,
        e + 2 <= v.name.len() + v.op.len(),
        t.len() == v.name.len() + v.op.len() + v.version.len() + v.trailing.len(),
        v.name == t.subrange(0, v.name.len() as int),
        forall|q: int| v.name.len() <= q < e ==> is_space(t[q]),
        forall|q: int| e + 2 <= q < v.name.len() + v.op.len() ==> is_space(t[q]),
        !is_space(t[v.name.len() as int + v.op.len() as int]),
        v.version == t.subrange(
            v.name.len() as int + v.op.len() as int,
            v.name.len() as int + v.op.len() as int + v.version.len() as int,
        ),
        v.trailing == t.subrange(
            v.name.len() as int + v.op.len() as int + v.version.len() as int,
            t.len() as int,
        ),
{
    let nn = v.name.len() as int;
    let oo = v.op.len() as int;
    let vv = v.version.len() as int;
    let i = choose|i: int| op_shape(v.op, i);
    assert(op_shape(v.op, i));
    assert(t =~= v.name + v.op + v.version + v.trailing);
    assert(t.len() == nn + oo + vv + v.trailing.len());
    assert forall|q: int| 0 <= q < nn implies t[q] == v.name[q] by {}
    assert forall|q: int| nn <= q < nn + oo implies t[q] == v.op[q - nn] by {}
    assert forall|q: int| nn + oo <= q < nn + oo + vv implies t[q] == v.version[q - nn - oo] by {}
    assert forall|q: int| nn + oo + vv <= q < t.len() implies t[q] == v.trailing[q - nn - oo
        - vv] by {}
    let ee = nn + i;
    assert(occurs_at(t, eqeq(), ee)) by {
        assert(t[ee] == '=');
        assert(t[ee + 1] == '=');
        assert(t.subrange(ee, ee + 2) =~= eqeq());
    }
    assert forall|p: int| 0 <= p < ee implies !occurs_at(t, eqeq(), p) by {
        if occurs_at(t, eqeq(), p) {
            lemma_occurs_at_char(t, eqeq(), p, 0);
            assert(t[p] == '=');
            if p < nn {
                assert(name_char(v.name[p]));
            } else {
                assert(is_space(v.op[p - nn]));
            }
        }
    }
    if e < ee {
        assert(!occurs_at(t, eqeq(), e));
        assert(false);
    }
    if e > ee {
        assert(!occurs_at(t, eqeq(), ee));
        assert(false);
    }
    assert forall|q: int| nn <= q < e implies is_space(t[q]) by {
        assert(is_space(v.op[q - nn]));
    }
    assert forall|q: int| e + 2 <= q < nn + oo implies is_space(t[q]) by {
        assert(is_space(v.op[q - nn]));
    }
    assert(version_char(v.version[0]));
    assert(v.name =~= t.subrange(0, nn));
    assert(v.version =~= t.subrange(nn + oo, nn + oo + vv));
    assert(v.trailing =~= t.subrange(nn + oo + vv, t.len() as int));
}

fn scan_version_end(line: &str, vs: usize, n: usize) -> (ve: usize)
    requires
        vs <= n,
        n == line@.len(),
    ensures
        vs <= ve <= n,
        forall|q: int| vs <= q < ve ==> !is_space(#[trigger] line@[q]) && line@[q] != ';',
        ve < n ==> (is_space(line@[ve as int]) || line@[ve as int] == ';'),
{
    let mut ve = vs;
    while ve < n
        invariant
            vs <= ve <= n,
            n == line@.len(),
            forall|q: int| vs <= q < ve ==> !is_space(#[trigger] line@[q]) && line@[q] != ';',
        decreases n - ve,
    {
        let c = line.get_char(ve);
        if is_space_char(c) || c == ';' {
            return ve;
        }
        ve = ve + 1;
    }
    ve
}

fn parse_git(line: &str, n: usize, k: usize) -> (r: Result<LockedDependency, ParseError>)
    requires
        n == line@.len(),
        occurs_at(line@, marker(), k as int),
        forall|j: int| 0 <= j < k ==> !occurs_at(line@, marker(), j),
    ensures
        match r {
            Ok(d) => parses_exact(d@, line@),
            Err(_) => !line_parseable(line@),
        },
{
    let ghost t = line@;
    proof {
        assert(k + 5 <= n);
    }
    let before = line.substring_char(0, k);
    let egg_name = line.substring_char(k + 5, n);
    match find_last_char(before, '@') {
        None => {
            proof {
                if line_parseable(t) {
                    let d = choose|d: DepView| parses_exact(d, t);
                    match d {
                        DepView::Simple(_) => {
                            assert(occurs(t, marker()));
                        },
                        DepView::Git(g) => {
                            lemma_git_marker_pos(g, t, k as int);
                            assert(before@[g.url.len() as int] == '@');
                        },
                    }
                }
            }
            Err(ParseError { details: String::from_str("missing '@' before the package marker") })
        },
        Some(j) => {
            let url_s = before.substring_char(0, j);
            let ref_s = before.substring_char(j + 1, k);
            proof {
                assert(url_s@ =~= t.subrange(0, j as int));
                assert(ref_s@ =~= t.subrange(j + 1, k as int));
            }
            let url_ok = url_s.unicode_len() > 0 && check_all_chars(url_s, 2);
            let ref_ok = ref_s.unicode_len() > 0 && check_all_chars(ref_s, 3);
            let name_ok = egg_name.unicode_len() > 0 && check_all_chars(egg_name, 2);
            if url_ok && ref_ok && name_ok {
                let dep = GitDependency {
                    url: String::from_str(url_s),
                    git_ref: String::from_str(ref_s),
                    name: String::from_str(egg_name),
                };
                proof {
                    assert(t[j as int] == '@');
                    assert(t.subrange(k as int, k + 5) =~= marker());
                    assert(t =~= t.subrange(0, j as int) + seq![t[j as int]] + t.subrange(
                        j + 1,
                        k as int,
                    ) + t.subrange(k as int, k + 5) + t.subrange(k + 5, n as int));
                    assert(git_line(dep@) =~= t);
                    assert(parses_exact(DepView::Git(dep@), t));
                }
                Ok(LockedDependency::Git(dep))
            } else {
                proof {
                    if line_parseable(t) {
                        let d = choose|d: DepView| parses_exact(d, t);
                        match d {
                            DepView::Simple(_) => {
                                assert(occurs(t, marker()));
                            },
                            DepView::Git(g) => {
                                lemma_git_marker_pos(g, t, k as int);
                                let u = g.url.len() as int;
                                assert(before@[u] == '@');
                                assert(j >= u);
                                if j > u {
                                    assert(t[j as int] != '@');
                                    assert(before@[j as int] == t[j as int]);
                                    assert(false);
                                }
                                assert(url_s@ == g.url);
                                assert(ref_s@ == g.git_ref);
                                assert(egg_name@ == g.name);
                                assert(false);
                            },
                        }
                    }
                }
                Err(ParseError { details: String::from_str("malformed source-control line") })
            }
        },
    }
}

fn parse_simple(line: &str, n: usize) -> (r: Result<LockedDependency, ParseError>)
    requires
        n == line@.len(),
        n > 0,
        trim_spec(line@) == line@,
        !occurs(line@, marker()),
        forall|q: int| 0 <= q < n ==> #[trigger] line@[q] != '\n',
    ensures
        match r {
            Ok(d) => parses_exact(d@, line@),
            Err(_) => !line_parseable(line@),
        },
{
    let ghost t = line@;
    proof {
        reveal_strlit("==");
        assert(("==")@ =~= eqeq());
        crate::text::lemma_trimmed_ends(t);
    }
    match find_first(line, "==") {
        None => {
            proof {
                if line_parseable(t) {
                    let d = choose|d: DepView| parses_exact(d, t);
                    match d {
                        DepView::Simple(v) => {
                            let i = choose|i: int| op_shape(v.op, i);
                            let nn = v.name.len() as int;
                            assert(t =~= v.name + v.op + v.version + v.trailing);
                            assert(t[nn + i] == v.op[i]);
                            assert(t[nn + i + 1] == v.op[i + 1]);
                            assert(occurs_at(t, eqeq(), nn + i)) by {
                                assert(t.subrange(nn + i, nn + i + 2) =~= eqeq());
                            }
                        },
                        DepView::Git(g) => {
                            let u = g.url.len() as int;
                            let kk = u + 1 + g.git_ref.len() as int;
                            assert(t =~= g.url + seq!['@'] + g.git_ref + marker() + g.name);
                            assert(occurs_at(t, marker(), kk)) by {
                                assert(t.subrange(kk, kk + 5) =~= marker());
                            }
                        },
                    }
                }
            }
            Err(ParseError { details: String::from_str("expected 'name==version'") })
        },
        Some(e) => {
            let mut ne = e;
            while ne > 0 && is_space_char(line.get_char(ne - 1))
                invariant
                    0 <= ne <= e,
                    e <= n == line@.len(),
                    forall|q: int| ne <= q < e ==> is_space(#[trigger] line@[q]),
                decreases ne,
            {
                ne = ne - 1;
            }
            let mut vs = e + 2;
            proof {
                assert(e + 2 <= n);
            }
            while vs < n && is_space_char(line.get_char(vs))
                invariant
                    e + 2 <= vs <= n,
                    n == line@.len(),
                    forall|q: int| e + 2 <= q < vs ==> is_space(#[trigger] line@[q]),
                decreases n - vs,
            {
                vs = vs + 1;
            }
            let ve = scan_version_end(line, vs, n);
            let name_s = line.substring_char(0, ne);
            let op_s = line.substring_char(ne, vs);
            let version_s = line.substring_char(vs, ve);
            let trailing_s = line.substring_char(ve, n);
            if is_valid_name(name_s) && is_valid_version(version_s) {
                let dep = SimpleDependency {
                    name: String::from_str(name_s),
                    op: String::from_str(op_s),
                    version: String::from_str(version_s),
                    trailing: String::from_str(trailing_s),
                };
                proof {
                    lemma_occurs_at_char(t, eqeq(), e as int, 0);
                    lemma_occurs_at_char(t, eqeq(), e as int, 1);
                    assert(op_shape(op_s@, e - ne)) by {
                        assert forall|jj: int| 0 <= jj < e - ne implies is_space(
                            #[trigger] op_s@[jj],
                        ) by {
                            assert(op_s@[jj] == t[ne + jj]);
                        }
                        assert forall|jj: int| e - ne + 2 <= jj < op_s@.len() implies is_space(
                            #[trigger] op_s@[jj],
                        ) by {
                            assert(op_s@[jj] == t[ne + jj]);
                        }
                        assert(op_s@[e - ne] == t[e as int]);
                        assert(op_s@[e - ne + 1] == t[e + 1]);
                    }
                    assert(valid_trailing(trailing_s@)) by {
                        if trailing_s@.len() > 0 {
                            assert(trailing_s@[0] == t[ve as int]);
                            assert(trailing_s@[trailing_s@.len() - 1] == t[n - 1]);
                            assert(forall|q: int|
                                0 <= q < trailing_s@.len() ==> #[trigger] trailing_s@[q] == t[ve
                                    + q]);
                        }
                    }
                    assert(t =~= t.subrange(0, ne as int) + t.subrange(ne as int, vs as int)
                        + t.subrange(vs as int, ve as int) + t.subrange(ve as int, n as int));
                    assert(simple_line(dep@) =~= t);
                    assert(parses_exact(DepView::Simple(dep@), t));
                }
                Ok(LockedDependency::Simple(dep))
            } else {
                proof {
                    if line_parseable(t) {
                        let d = choose|d: DepView| parses_exact(d, t);
                        match d {
                            DepView::Git(g) => {
                                let u = g.url.len() as int;
                                let kk = u + 1 + g.git_ref.len() as int;
                                assert(t =~= g.url + seq!['@'] + g.git_ref + marker() + g.name);
                                assert(occurs_at(t, marker(), kk)) by {
                                    assert(t.subrange(kk, kk + 5) =~= marker());
                                }
                                assert(false);
                            },
                            DepView::Simple(v) => {
                                lemma_simple_positions(v, t, e as int);
                                let nn = v.name.len() as int;
                                let oo = v.op.len() as int;
                                let vv = v.version.len() as int;
                                // the backward space scan stops exactly at the name end
                                assert(name_char(v.name[nn - 1]));
                                assert(t[nn - 1] == v.name[nn - 1]);
                                if ne < nn {
                                    assert(is_space(t[nn - 1]));
                                    assert(false);
                                }
                                if ne > nn {
                                    assert(is_space(t[ne - 1]));
                                    assert(false);
                                }
                                assert(name_s@ =~= v.name);
                                // the forward space scan stops exactly at the version start
                                if vs < nn + oo {
                                    assert(is_space(t[vs as int]));
                                    assert(false);
                                }
                                if vs > nn + oo {
                                    assert(is_space(t[nn + oo]));
                                    assert(false);
                                }
                                // the version scan stops exactly at the version end
                                assert(forall|q: int|
                                    nn + oo <= q < nn + oo + vv ==> version_char(
                                        #[trigger] t[q],
                                    ));
                                if ve < nn + oo + vv {
                                    assert(is_space(t[ve as int]) || t[ve as int] == ';');
                                    assert(false);
                                }
                                if ve > nn + oo + vv {
                                    if nn + oo + vv == n {
                                        assert(false);
                                    } else {
                                        assert(v.trailing[0] == t[nn + oo + vv]);
                                        assert(is_space(t[nn + oo + vv]) || t[nn + oo + vv]
                                            == ';');
                                        assert(!is_space(t[nn + oo + vv]) && t[nn + oo + vv]
                                            != ';');
                                        assert(false);
                                    }
                                }
                                assert(version_s@ =~= v.version);
                                assert(false);
                            },
                        }
                    }
                }
                Err(ParseError { details: String::from_str("expected 'name==version'") })
            }
        },
    }
}

/// Parses one trimmed, non-empty, non-comment lock line into a record.
///
/// Succeeds exactly on the lines some well-formed record renders to, and
/// then returns such a record: rendering the result reproduces the line.
pub fn parse_line(line: &str) -> (r: Result<LockedDependency, ParseError>)
    requires
        trim_spec(line@) == line@,
        line@.len() > 0,
        line@[0] != '#',
        forall|q: int| 0 <= q < line@.len() ==> #[trigger] line@[q] != '\n',
    ensures
        match r {
            Ok(d) => parses_exact(d@, line@),
            Err(_) => !line_parseable(line@),
        },
        (r is Ok) <==> line_parseable(line@),
{
    proof {
        reveal_strlit("#egg=");
        assert(("#egg=")@ =~= marker());
    }
    let n = line.unicode_len();
    let r = match find_first(line, "#egg=") {
        Some(k) => parse_git(line, n, k),
        None => parse_simple(line, n),
    };
    proof {
        if r is Ok {
            let d = r->Ok_0;
            assert(parses_exact(d@, line@));
        }
    }
    r
}

/// Text inserted before an interpreter-version qualifier.
pub open spec fn py_prefix() -> Seq<char> {
    seq![' ', ';', ' ', 'p', 'y', 't', 'h', 'o', 'n', '_', 'v', 'e', 'r', 's', 'i', 'o', 'n', ' ']
}

/// Text inserted before a platform qualifier.
pub open spec fn sp_prefix() -> Seq<char> {
    seq![' ', ';', ' ', 's', 'y', 's', '_', 'p', 'l', 'a', 't', 'f', 'o', 'r', 'm', ' ', '=', '=', ' ', '\'']
}

/// The qualifier text appended for an ambient interpreter version.
pub open spec fn py_qualifier(q: Seq<char>) -> Seq<char> {
    py_prefix() + q
}

/// The qualifier text appended for an ambient platform.
pub open spec fn sp_qualifier(q: Seq<char>) -> Seq<char> {
    sp_prefix() + q + seq!['\'']
}

/// Appending text that opens with a space and is free of `#` to a line
/// free of the marker leaves it free of the marker.
proof fn lemma_append_no_marker(t: Seq<char>, suffix: Seq<char>)
    requires
        !occurs(t, marker()),
        suffix.len() > 0,
        suffix[0] == ' ',
        forall|k: int| 0 <= k < suffix.len() ==> #[trigger] suffix[k] != '#',
    ensures
        !occurs(t + suffix, marker()),
{
    let t2 = t + suffix;
    assert forall|p: int| !occurs_at(t2, marker(), p) by {
        if occurs_at(t2, marker(), p) {
            lemma_occurs_at_char(t2, marker(), p, 0);
            if p + 5 <= t.len() {
                lemma_occurs_at_left(t, suffix, marker(), p);
                assert(occurs(t, marker()));
            } else if p >= t.len() {
                assert(t2[p] == suffix[p - t.len()]);
            } else {
                let k = t.len() - p;
                assert(0 < k < 5);
                lemma_occurs_at_char(t2, marker(), p, k);
                assert(t2[t.len() as int] == suffix[0]);
                assert(marker()[k] != ' ');
            }
        }
    }
}

/// Swapping in a valid version keeps a simple record well formed.
proof fn lemma_wf_version_swap(v: SimpleView, nv: Seq<char>)
    requires
        wf_simple(v),
        valid_version(nv),
    ensures
        wf_simple(SimpleView { version: nv, ..v }),
{
    let w = SimpleView { version: nv, ..v };
    let t = simple_line(w);
    let head = v.name + v.op + nv;
    assert(t =~= head + v.trailing);
    let old_head = v.name + v.op + v.version;
    assert(simple_line(v) =~= old_head + v.trailing);
    assert forall|p: int| !occurs_at(t, marker(), p) by {
        if occurs_at(t, marker(), p) {
            lemma_occurs_at_char(t, marker(), p, 0);
            if p < head.len() {
                if p < v.name.len() {
                    assert(t[p] == v.name[p]);
                    assert(name_char(v.name[p]));
                } else if p < v.name.len() + v.op.len() {
                    let i = choose|i: int| op_shape(v.op, i);
                    assert(op_shape(v.op, i));
                    let j = p - v.name.len();
                    assert(t[p] == v.op[j]);
                    assert(v.op[j] == '=' || is_space(v.op[j]));
                } else {
                    assert(t[p] == nv[p - v.name.len() - v.op.len()]);
                    assert(version_char(nv[p - v.name.len() - v.op.len()]));
                }
            } else {
                lemma_occurs_at_right(head, v.trailing, marker(), p);
                lemma_occurs_at_lift(old_head, v.trailing, marker(), p - head.len());
                assert(occurs(simple_line(v), marker()));
            }
        }
    }
}

/// Appending qualifier text keeps a simple record well formed.
proof fn lemma_wf_trailing_append(v: SimpleView, suffix: Seq<char>)
    requires
        wf_simple(v),
        suffix.len() > 0,
        suffix[0] == ' ',
        !is_space(suffix[suffix.len() - 1]),
        forall|k: int| 0 <= k < suffix.len() ==> #[trigger] suffix[k] != '#' && suffix[k] != '\n',
    ensures
        wf_simple(SimpleView { trailing: v.trailing + suffix, ..v }),
{
    let w = SimpleView { trailing: v.trailing + suffix, ..v };
    assert(valid_trailing(w.trailing)) by {
        if v.trailing.len() > 0 {
            assert(w.trailing[0] == v.trailing[0]);
        } else {
            assert(w.trailing[0] == suffix[0]);
        }
        assert(w.trailing[w.trailing.len() - 1] == suffix[suffix.len() - 1]);
        assert forall|k: int| 0 <= k < w.trailing.len() implies #[trigger] w.trailing[k]
            != '\n' by {
            if k < v.trailing.len() {
                assert(w.trailing[k] == v.trailing[k]);
            } else {
                assert(w.trailing[k] == suffix[k - v.trailing.len()]);
            }
        }
    }
    assert(simple_line(w) =~= simple_line(v) + suffix);
    lemma_append_no_marker(simple_line(v), suffix);
}

impl SimpleDependency {
    /// A fresh `name==version` record for a newly observed dependency.
    pub fn from_frozen(dep: &FrozenDependency) -> (r: SimpleDependency)
        requires
            valid_name(dep.name@),
            valid_version(dep.version@),
        ensures
            r@ == (SimpleView {
                name: dep.name@,
                op: eqeq(),
                version: dep.version@,
                trailing: Seq::<char>::empty(),
            }),
            wf_simple(r@),
    {
        let r = SimpleDependency {
            name: dep.name.clone(),
            op: String::from_str("=="),
            version: dep.version.clone(),
            trailing: String::new(),
        };
        proof {
            reveal_strlit("==");
            assert(("==")@ =~= eqeq());
            assert(op_shape(r@.op, 0));
            let t = simple_line(r@);
            assert forall|k: int| 0 <= k < t.len() implies t[k] != '#' by {
                if k < r@.name.len() {
                    assert(t[k] == r@.name[k]);
                } else if k < r@.name.len() + 2 {
                    assert(t[k] == eqeq()[k - r@.name.len()]);
                } else {
                    assert(t[k] == r@.version[k - r@.name.len() - 2]);
                }
            }
            assert(!occurs(t, marker())) by {
                lemma_no_head_no_occurrence(t, marker());
            }
        }
        r
    }

    /// Overwrites the pinned version, keeping name, spacing and
    /// qualifier text exactly as they were.
    pub fn freeze(&mut self, version: &str)
        requires
            wf_simple(old(self)@),
            valid_version(version@),
        ensures
            final(self)@ == (SimpleView { version: version@, ..old(self)@ }),
            wf_simple(final(self)@),
    {
        proof {
            lemma_wf_version_swap(old(self)@, version@);
        }
        self.version = String::from_str(version);
    }

    /// Overwrites the pinned version and reports whether it changed.
    pub fn bump(&mut self, version: &str) -> (changed: bool)
        requires
            wf_simple(old(self)@),
            valid_version(version@),
        ensures
            final(self)@ == (SimpleView { version: version@, ..old(self)@ }),
            wf_simple(final(self)@),
            changed == (version@ != old(self)@.version),
    {
        let changed = !self.version.eq(&String::from_str(version));
        self.freeze(version);
        changed
    }

    /// Appends an interpreter-version qualifier to the record.
    pub fn python_version(&mut self, q: &str)
        requires
            wf_simple(old(self)@),
            valid_qualifier(q@),
        ensures
            final(self)@ == (SimpleView {
                trailing: old(self)@.trailing + py_qualifier(q@),
                ..old(self)@
            }),
            wf_simple(final(self)@),
    {
        let ghost t0 = self.trailing@;
        self.trailing.append(" ; python_version ");
        self.trailing.append(q);
        proof {
            reveal_strlit(" ; python_version ");
            assert((" ; python_version ")@ =~= py_prefix());
            assert(self.trailing@ =~= t0 + py_qualifier(q@));
            let suffix = py_qualifier(q@);
            assert(suffix[suffix.len() - 1] == q@[q@.len() - 1]);
            assert forall|k: int| 0 <= k < suffix.len() implies #[trigger] suffix[k] != '#'
                && suffix[k] != '\n' by {
                if k >= py_prefix().len() {
                    assert(suffix[k] == q@[k - py_prefix().len()]);
                }
            }
            lemma_wf_trailing_append(old(self)@, suffix);
        }
    }

    /// Appends a platform qualifier to the record.
    pub fn sys_platform(&mut self, q: &str)
        requires
            wf_simple(old(self)@),
            valid_qualifier(q@),
        ensures
            final(self)@ == (SimpleView {
                trailing: old(self)@.trailing + sp_qualifier(q@),
                ..old(self)@
            }),
            wf_simple(final(self)@),
    {
        let ghost t0 = self.trailing@;
        self.trailing.append(" ; sys_platform == '");
        self.trailing.append(q);
        self.trailing.append("'");
        proof {
            reveal_strlit(" ; sys_platform == '");
            reveal_strlit("'");
            assert((" ; sys_platform == '")@ =~= sp_prefix());
            assert(("'")@ =~= seq!['\'']);
            assert(self.trailing@ =~= t0 + sp_qualifier(q@));
            let suffix = sp_qualifier(q@);
            assert(suffix[suffix.len() - 1] == '\'');
            assert forall|k: int| 0 <= k < suffix.len() implies #[trigger] suffix[k] != '#'
                && suffix[k] != '\n' by {
                if py_prefix().len() <= k {
                }
                if sp_prefix().len() <= k < sp_prefix().len() + q@.len() {
                    assert(suffix[k] == q@[k - sp_prefix().len()]);
                }
            }
            lemma_wf_trailing_append(old(self)@, suffix);
        }
    }
}

/// The codec is deterministic: at most one well-formed record renders
/// to any given line, so a parsed line pins its record completely.
#[verifier::rlimit(100)]
#[verifier::spinoff_prover]
pub proof fn lemma_parse_deterministic(d1: DepView, d2: DepView, t: Seq<char>)
    requires
        parses_exact(d1, t),
        parses_exact(d2, t),
    ensures
        d1 == d2,
{
    match (d1, d2) {
        (DepView::Simple(v1), DepView::Simple(v2)) => {
            let i1 = choose|i: int| op_shape(v1.op, i);
            assert(op_shape(v1.op, i1));
            assert(t =~= v1.name + v1.op + v1.version + v1.trailing);
            let ee = v1.name.len() + i1;
            assert(occurs_at(t, eqeq(), ee)) by {
                assert(t[ee] == v1.op[i1]);
                assert(t[ee + 1] == v1.op[i1 + 1]);
                assert(t.subrange(ee, ee + 2) =~= eqeq());
            }
            crate::text::lemma_first_occurrence(t, eqeq(), ee);
            let e = choose|e: int|
                (#[trigger] occurs_at(t, eqeq(), e)) && forall|j: int|
                    0 <= j < e ==> !occurs_at(t, eqeq(), j);
            lemma_simple_positions(v1, t, e);
            lemma_simple_positions(v2, t, e);
            let n1 = v1.name.len() as int;
            let n2 = v2.name.len() as int;
            if n1 < n2 {
                assert(name_char(v2.name[n2 - 1]));
                assert(t[n2 - 1] == v2.name[n2 - 1]) by {
                    assert(t.subrange(0, n2)[n2 - 1] == t[n2 - 1]);
                }
                assert(is_space(t[n2 - 1]));
                assert(false);
            }
            if n2 < n1 {
                assert(name_char(v1.name[n1 - 1]));
                assert(t[n1 - 1] == v1.name[n1 - 1]) by {
                    assert(t.subrange(0, n1)[n1 - 1] == t[n1 - 1]);
                }
                assert(is_space(t[n1 - 1]));
                assert(false);
            }
            let vs1 = n1 + v1.op.len() as int;
            let vs2 = n2 + v2.op.len() as int;
            if vs1 < vs2 {
                assert(is_space(t[vs1]));
                assert(false);
            }
            if vs2 < vs1 {
                assert(is_space(t[vs2]));
                assert(false);
            }
            let ve1 = vs1 + v1.version.len() as int;
            let ve2 = vs2 + v2.version.len() as int;
            if ve1 < ve2 {
                assert(t[ve1] == v2.version[ve1 - vs2]) by {
                    assert(t.subrange(vs2, ve2)[ve1 - vs2] == t[ve1]);
                }
                assert(version_char(v2.version[ve1 - vs2]));
                if v1.trailing.len() == 0 {
                    assert(false);
                } else {
                    assert(t[ve1] == v1.trailing[0]) by {
                        assert(t.subrange(ve1, t.len() as int)[0] == t[ve1]);
                    }
                    assert(is_space(v1.trailing[0]) || v1.trailing[0] == ';');
                    assert(false);
                }
            }
            if ve2 < ve1 {
                assert(t[ve2] == v1.version[ve2 - vs1]) by {
                    assert(t.subrange(vs1, ve1)[ve2 - vs1] == t[ve2]);
                }
                assert(version_char(v1.version[ve2 - vs1]));
                if v2.trailing.len() == 0 {
                    assert(false);
                } else {
                    assert(t[ve2] == v2.trailing[0]) by {
                        assert(t.subrange(ve2, t.len() as int)[0] == t[ve2]);
                    }
                    assert(is_space(v2.trailing[0]) || v2.trailing[0] == ';');
                    assert(false);
                }
            }
            assert(t =~= v2.name + v2.op + v2.version + v2.trailing);
            assert(v1.op =~= t.subrange(n1, vs1));
            assert(v2.op =~= t.subrange(n2, vs2));
            assert(v1 =~= v2);
        },
        (DepView::Git(g1), DepView::Git(g2)) => {
            lemma_git_regions(g1, t);
            let kk = g1.url.len() as int + 1 + g1.git_ref.len() as int;
            crate::text::lemma_first_occurrence(t, marker(), kk);
            let k = choose|k: int|
                (#[trigger] occurs_at(t, marker(), k)) && forall|j: int|
                    0 <= j < k ==> !occurs_at(t, marker(), j);
            lemma_git_marker_pos(g1, t, k);
            lemma_git_marker_pos(g2, t, k);
            let u1 = g1.url.len() as int;
            let u2 = g2.url.len() as int;
            if u1 < u2 {
                assert(t[u2] == '@');
                assert(false);
            }
            if u2 < u1 {
                assert(t[u1] == '@');
                assert(false);
            }
            assert(g1 =~= g2);
        },
        (DepView::Simple(_), DepView::Git(g2)) => {
            lemma_git_regions(g2, t);
            assert(occurs(t, marker()));
            assert(false);
        },
        (DepView::Git(g1), DepView::Simple(_)) => {
            lemma_git_regions(g1, t);
            assert(occurs(t, marker()));
            assert(false);
        },
    }
}

/// The rendered line of a well-formed record survives the document
/// walk unchanged: it is non-empty, no comment, free of newlines, and
/// its own trim.
#[verifier::spinoff_prover]
pub proof fn lemma_wf_line_clean(d: DepView)
    requires
        d.wf(),
    ensures
        d.line().len() > 0,
        d.line()[0] != '#',
        forall|k: int| 0 <= k < d.line().len() ==> #[trigger] d.line()[k] != '\n',
        trim_spec(d.line()) == d.line(),
{
    let t = d.line();
    match d {
        DepView::Simple(v) => {
            let nn = v.name.len() as int;
            let oo = v.op.len() as int;
            let vv = v.version.len() as int;
            let i = choose|i: int| op_shape(v.op, i);
            assert(op_shape(v.op, i));
            assert(t =~= v.name + v.op + v.version + v.trailing);
            assert(t[0] == v.name[0]);
            assert(name_char(v.name[0]));
            assert forall|k: int| 0 <= k < t.len() implies #[trigger] t[k] != '\n' by {
                if k < nn {
                    assert(t[k] == v.name[k]);
                    assert(name_char(v.name[k]));
                } else if k < nn + oo {
                    assert(t[k] == v.op[k - nn]);
                    assert(v.op[k - nn] == '=' || is_space(v.op[k - nn]));
                } else if k < nn + oo + vv {
                    assert(t[k] == v.version[k - nn - oo]);
                    assert(version_char(v.version[k - nn - oo]));
                } else {
                    assert(t[k] == v.trailing[k - nn - oo - vv]);
                }
            }
            if v.trailing.len() > 0 {
                assert(t[t.len() - 1] == v.trailing[v.trailing.len() - 1]);
            } else {
                assert(t[t.len() - 1] == v.version[vv - 1]);
                assert(version_char(v.version[vv - 1]));
            }
            crate::text::lemma_trim_of_clean(t);
        },
        DepView::Git(g) => {
            let u = g.url.len() as int;
            let rr = g.git_ref.len() as int;
            let kk = u + 1 + rr;
            lemma_git_regions(g, t);
            assert(t[0] == g.url[0]);
            assert(plain_char(g.url[0]));
            assert forall|k: int| 0 <= k < t.len() implies #[trigger] t[k] != '\n' by {
                if k < u {
                    assert(plain_char(g.url[k]));
                } else if k == u {
                } else if k < kk {
                    assert(ref_char(g.git_ref[k - u - 1]));
                } else if k < kk + 5 {
                    assert(t[k] == marker()[k - kk]);
                } else {
                    assert(plain_char(g.name[k - kk - 5]));
                }
            }
            assert(t[t.len() - 1] == g.name[g.name.len() - 1]);
            assert(plain_char(g.name[g.name.len() - 1]));
            crate::text::lemma_trim_of_clean(t);
        },
    }
}

impl GitDependency {
    /// Overwrites the source-control reference and reports whether it
    /// changed.
    pub fn bump(&mut self, git_ref: &str) -> (changed: bool)
        requires
            wf_git(old(self)@),
            valid_ref(git_ref@),
        ensures
            final(self)@ == (GitView { git_ref: git_ref@, ..old(self)@ }),
            wf_git(final(self)@),
            changed == (git_ref@ != old(self)@.git_ref),
    {
        let changed = !self.git_ref.eq(&String::from_str(git_ref));
        self.git_ref = String::from_str(git_ref);
        changed
    }
}

} // verus!
