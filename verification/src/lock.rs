//! The lock document: an ordered collection of dependency records with
//! optional ambient qualifiers, parsed from text and serialized back in
//! case-insensitive sorted order, reconciled against observed installs
//! ("freeze") and patched one record at a time ("bump").

use vstd::prelude::*;
use vstd::string::*;

use crate::dependencies::{
    line_parseable, parse_line, parses_exact, DepView, FrozenDependency, FrozenView,
    LockedDependency, valid_qualifier,
};
use crate::error::Error;
use crate::text::{
    doc_lines, lemma_split_lines_no_nl, lemma_text_of_push, lemma_trim_props, sort_lines,
    sort_strings, split_lines_of, text_of_lines, trim_of, trim_spec, views_of,
};

verus! {

/// The record views behind a vector of records.
pub open spec fn dep_views(v: Seq<LockedDependency>) -> Seq<DepView> {
    v.map_values(|d: LockedDependency| d@)
}

/// Mathematical model of a lock document.
#[verifier::ext_equal]
pub struct LockView {
    pub deps: Seq<DepView>,
    pub python_version: Option<Seq<char>>,
    pub sys_platform: Option<Seq<char>>,
}

/// A lock document.
///
/// Constructed from raw lock text, mutated by exactly one `freeze` or
/// one bump, serialized back, and discarded.
#[derive(Debug)]
pub struct Lock {
    dependencies: Vec<LockedDependency>,
    python_version: Option<String>,
    sys_platform: Option<String>,
}

impl View for Lock {
    type V = LockView;

    closed spec fn view(&self) -> LockView {
        LockView {
            deps: dep_views(self.dependencies@),
            python_version: match self.python_version {
                Some(ref s) => Some(s@),
                None => None,
            },
            sys_platform: match self.sys_platform {
                Some(ref s) => Some(s@),
                None => None,
            },
        }
    }
}

impl Lock {
    /// Every record is well formed and the ambient qualifiers, when
    /// set, are acceptable qualifier text.
    pub open spec fn wf(&self) -> bool {
        &&& forall|i: int| 0 <= i < self@.deps.len() ==> (#[trigger] self@.deps[i]).wf()
        &&& match self@.python_version {
            Some(q) => valid_qualifier(q),
            None => true,
        }
        &&& match self@.sys_platform {
            Some(q) => valid_qualifier(q),
            None => true,
        }
    }
}

/// A raw line the document parser passes over: blank, or a comment once
/// trimmed.
pub open spec fn is_skip(l: Seq<char>) -> bool {
    trim_spec(l).len() == 0 || trim_spec(l)[0] == '#'
}

/// The records `deps` are exactly what parsing the raw lines yields:
/// skipped lines contribute nothing, every other line contributes the
/// record that renders to its trimmed text, in order.
pub open spec fn doc_matches(lines: Seq<Seq<char>>, deps: Seq<DepView>) -> bool
    decreases lines.len(),
{
    if lines.len() == 0 {
        deps.len() == 0
    } else if is_skip(lines[0]) {
        doc_matches(lines.drop_first(), deps)
    } else {
        deps.len() > 0 && parses_exact(deps[0], trim_spec(lines[0])) && doc_matches(
            lines.drop_first(),
            deps.drop_first(),
        )
    }
}

/// Every raw line is skipped or parses.
pub open spec fn all_parseable(lines: Seq<Seq<char>>) -> bool {
    forall|i: int|
        0 <= i < lines.len() ==> is_skip(#[trigger] lines[i]) || line_parseable(
            trim_spec(lines[i]),
        )
}

proof fn lemma_doc_matches_push_skip(lines: Seq<Seq<char>>, deps: Seq<DepView>, x: Seq<char>)
    requires
        doc_matches(lines, deps),
        is_skip(x),
    ensures
        doc_matches(lines.push(x), deps),
    decreases lines.len(),
{
    if lines.len() == 0 {
        assert(lines.push(x).drop_first() =~= lines);
    } else {
        assert(lines.push(x).drop_first() =~= lines.drop_first().push(x));
        assert(lines.push(x)[0] == lines[0]);
        if is_skip(lines[0]) {
            lemma_doc_matches_push_skip(lines.drop_first(), deps, x);
        } else {
            lemma_doc_matches_push_skip(lines.drop_first(), deps.drop_first(), x);
        }
    }
}

proof fn lemma_doc_matches_push_dep(
    lines: Seq<Seq<char>>,
    deps: Seq<DepView>,
    x: Seq<char>,
    d: DepView,
)
    requires
        doc_matches(lines, deps),
        !is_skip(x),
        parses_exact(d, trim_spec(x)),
    ensures
        doc_matches(lines.push(x), deps.push(d)),
    decreases lines.len(),
{
    if lines.len() == 0 {
        assert(lines.push(x).drop_first() =~= lines);
        assert(lines.push(x)[0] == x);
        assert(deps.push(d)[0] == d);
        assert(deps.push(d).drop_first() =~= deps);
    } else {
        assert(lines.push(x).drop_first() =~= lines.drop_first().push(x));
        assert(lines.push(x)[0] == lines[0]);
        if is_skip(lines[0]) {
            lemma_doc_matches_push_dep(lines.drop_first(), deps, x, d);
        } else {
            assert(deps.push(d)[0] == deps[0]);
            assert(deps.push(d).drop_first() =~= deps.drop_first().push(d));
            lemma_doc_matches_push_dep(lines.drop_first(), deps.drop_first(), x, d);
        }
    }
}

impl Lock {
    /// Parses raw lock text into a document.
    ///
    /// Skips blank and comment lines, hands every other line to the
    /// codec, and stops at the first line no record renders to,
    /// reporting its 1-based number. Succeeds exactly when every line
    /// is skipped or parseable; the ambient qualifiers start unset.
    pub fn from_string(string: &str) -> (r: Result<Lock, Error>)
        ensures
            match r {
                Ok(lock) => {
                    &&& lock.wf()
                    &&& lock@.python_version is None
                    &&& lock@.sys_platform is None
                    &&& doc_matches(doc_lines(string@), lock@.deps)
                },
                Err(e) => match e {
                    Error::MalformedLock { line, details } => {
                        &&& 1 <= line <= doc_lines(string@).len()
                        &&& !is_skip(doc_lines(string@)[line - 1])
                        &&& !line_parseable(trim_spec(doc_lines(string@)[line - 1]))
                        &&& forall|j: int|
                            0 <= j < line - 1 ==> is_skip(#[trigger] doc_lines(string@)[j])
                                || line_parseable(trim_spec(doc_lines(string@)[j]))
                    },
                    _ => false,
                },
            },
            (r is Ok) <==> all_parseable(doc_lines(string@)),
    {
        let ghost ls = doc_lines(string@);
        let lines = split_lines_of(string);
        let mut deps: Vec<LockedDependency> = Vec::new();
        let mut i: usize = 0;
        proof {
            assert(ls.take(0) =~= Seq::<Seq<char>>::empty());
            assert(dep_views(deps@) =~= Seq::<DepView>::empty());
            if string@.len() > 0 {
                lemma_split_lines_no_nl(string@);
            }
        }
        while i < lines.len()
            invariant
                0 <= i <= lines.len(),
                ls == doc_lines(string@),
                crate::text::views_of(lines@) == ls,
                doc_matches(ls.take(i as int), dep_views(deps@)),
                forall|j: int|
                    0 <= j < i ==> is_skip(#[trigger] ls[j]) || line_parseable(trim_spec(ls[j])),
                forall|j: int| 0 <= j < dep_views(deps@).len() ==> (#[trigger] dep_views(
                    deps@,
                )[j]).wf(),
                forall|j: int, k: int|
                    #![trigger ls[j][k]]
                    0 <= j < ls.len() && 0 <= k < ls[j].len() ==> ls[j][k] != '\n',
            decreases lines.len() - i,
        {
            let ghost raw = ls[i as int];
            proof {
                assert(lines@[i as int]@ == ls[i as int]);
                assert(ls.take(i + 1).drop_last() =~= ls.take(i as int));
                assert(ls.take(i + 1).last() == raw);
                lemma_trim_props(raw);
            }
            let trimmed = trim_of(lines[i].as_str());
            let tn = trimmed.unicode_len();
            let skip = tn == 0 || trimmed.get_char(0) == '#';
            if skip {
                proof {
                    assert(is_skip(raw));
                    lemma_doc_matches_push_skip(ls.take(i as int), dep_views(deps@), raw);
                    assert(ls.take(i as int).push(raw) =~= ls.take(i + 1));
                }
            } else {
                proof {
                    assert forall|q: int| 0 <= q < trimmed@.len() implies #[trigger] trimmed@[q]
                        != '\n' by {
                        crate::text::lemma_trim_is_subrange(raw);
                        let a = choose|a: int|
                            0 <= a && a + trim_spec(raw).len() <= raw.len() && trim_spec(raw)
                                == #[trigger] raw.subrange(a, a + trim_spec(raw).len());
                        assert(trimmed@[q] == raw.subrange(a, a + trim_spec(raw).len())[q]);
                        assert(raw[a + q] != '\n');
                    }
                }
                match parse_line(trimmed) {
                    Ok(dep) => {
                        proof {
                            lemma_doc_matches_push_dep(
                                ls.take(i as int),
                                dep_views(deps@),
                                raw,
                                dep@,
                            );
                            assert(ls.take(i as int).push(raw) =~= ls.take(i + 1));
                        }
                        let ghost dv0 = dep_views(deps@);
                        deps.push(dep);
                        proof {
                            assert(dep_views(deps@) =~= dv0.push(dep@));
                        }
                    },
                    Err(pe) => {
                        proof {
                            assert(!line_parseable(trim_spec(raw)));
                            assert(!all_parseable(ls));
                        }
                        return Err(Error::MalformedLock { line: i + 1, details: pe.details });
                    },
                }
            }
            i = i + 1;
        }
        proof {
            assert(ls.take(lines@.len() as int) =~= ls);
        }
        Ok(Lock { dependencies: deps, python_version: None, sys_platform: None })
    }
}

/// The rendered line of every record, in document order.
pub open spec fn lines_of(deps: Seq<DepView>) -> Seq<Seq<char>> {
    deps.map_values(|d: DepView| d.line())
}

/// The serialized text of a document: its rendered lines in
/// case-insensitive sorted order, each closed by a newline; an empty
/// document serializes to the empty text.
pub open spec fn lock_text(deps: Seq<DepView>) -> Seq<char> {
    if deps.len() == 0 {
        Seq::empty()
    } else {
        text_of_lines(sort_lines(lines_of(deps)))
    }
}

impl Lock {
    /// Serializes the document, as [`lock_text`] describes.
    pub fn to_string(&self) -> (r: String)
        requires
            self.wf(),
        ensures
            r@ == lock_text(self@.deps),
    {
        let ghost dvs = self@.deps;
        let mut lines: Vec<String> = Vec::new();
        let mut i: usize = 0;
        proof {
            assert(views_of(lines@) =~= lines_of(dvs.take(0)));
        }
        while i < self.dependencies.len()
            invariant
                0 <= i <= self.dependencies@.len(),
                dvs == dep_views(self.dependencies@),
                views_of(lines@) == lines_of(dvs.take(i as int)),
            decreases self.dependencies@.len() - i,
        {
            let l = self.dependencies[i].line();
            let ghost lv0 = views_of(lines@);
            lines.push(l);
            proof {
                assert(views_of(lines@) =~= lv0.push(self.dependencies@[i as int]@.line()));
                assert(lines_of(dvs.take(i + 1)) =~= lines_of(dvs.take(i as int)).push(
                    dvs[i as int].line(),
                ));
            }
            i = i + 1;
        }
        proof {
            assert(dvs.take(self.dependencies@.len() as int) =~= dvs);
        }
        if lines.len() == 0 {
            return String::new();
        }
        let sorted = sort_strings(&lines);
        let ghost svs = views_of(sorted@);
        let mut out = String::new();
        let mut j: usize = 0;
        proof {
            reveal_strlit("\n");
            assert(("\n")@ =~= seq!['\n']);
            assert(out@ =~= text_of_lines(svs.take(0)));
        }
        while j < sorted.len()
            invariant
                0 <= j <= sorted@.len(),
                svs == views_of(sorted@),
                out@ == text_of_lines(svs.take(j as int)),
                ("\n")@ == seq!['\n'],
            decreases sorted@.len() - j,
        {
            out.append(sorted[j].as_str());
            out.append("\n");
            proof {
                lemma_text_of_push(svs.take(j as int), svs[j as int]);
                assert(svs.take(j + 1) =~= svs.take(j as int).push(svs[j as int]));
            }
            j = j + 1;
        }
        proof {
            assert(svs.take(sorted@.len() as int) =~= svs);
        }
        out
    }

    /// Records the ambient interpreter version that `freeze` attaches
    /// to newly appended records. A pure field assignment.
    pub fn python_version(&mut self, python_version: &str)
        requires
            old(self).wf(),
            valid_qualifier(python_version@),
        ensures
            final(self)@ == (LockView {
                python_version: Some(python_version@),
                ..old(self)@
            }),
            final(self).wf(),
    {
        self.python_version = Some(String::from_str(python_version));
        proof {
            assert(final(self)@ =~= (LockView {
                python_version: Some(python_version@),
                ..old(self)@
            }));
        }
    }

    /// Records the ambient platform that `freeze` attaches to newly
    /// appended records. A pure field assignment.
    pub fn sys_platform(&mut self, sys_platform: &str)
        requires
            old(self).wf(),
            valid_qualifier(sys_platform@),
        ensures
            final(self)@ == (LockView { sys_platform: Some(sys_platform@), ..old(self)@ }),
            final(self).wf(),
    {
        self.sys_platform = Some(String::from_str(sys_platform));
        proof {
            assert(final(self)@ =~= (LockView {
                sys_platform: Some(sys_platform@),
                ..old(self)@
            }));
        }
    }
}

/// How many records carry the given name.
pub open spec fn count_name(deps: Seq<DepView>, name: Seq<char>) -> int
    decreases deps.len(),
{
    if deps.len() == 0 {
        0
    } else {
        (if deps[0].name() == name {
            1int
        } else {
            0int
        }) + count_name(deps.drop_first(), name)
    }
}

/// Index of the first record carrying the name, or `deps.len()` if none
/// does.
pub open spec fn first_match_idx(deps: Seq<DepView>, name: Seq<char>) -> int
    decreases deps.len(),
{
    if deps.len() == 0 {
        0
    } else if deps[0].name() == name {
        0
    } else {
        1 + first_match_idx(deps.drop_first(), name)
    }
}

proof fn lemma_count_push(s: Seq<DepView>, d: DepView, name: Seq<char>)
    ensures
        count_name(s.push(d), name) == count_name(s, name) + (if d.name() == name {
            1int
        } else {
            0int
        }),
    decreases s.len(),
{
    if s.len() == 0 {
        assert(s.push(d).drop_first() =~= s);
    } else {
        assert(s.push(d).drop_first() =~= s.drop_first().push(d));
        assert(s.push(d)[0] == s[0]);
        lemma_count_push(s.drop_first(), d, name);
    }
}

proof fn lemma_first_push(s: Seq<DepView>, d: DepView, name: Seq<char>)
    ensures
        first_match_idx(s.push(d), name) == (if first_match_idx(s, name) < s.len() {
            first_match_idx(s, name)
        } else if d.name() == name {
            s.len() as int
        } else {
            s.len() as int + 1
        }),
    decreases s.len(),
{
    lemma_first_props(s, name);
    if s.len() == 0 {
        assert(s.push(d).drop_first() =~= s);
    } else {
        assert(s.push(d).drop_first() =~= s.drop_first().push(d));
        assert(s.push(d)[0] == s[0]);
        lemma_first_push(s.drop_first(), d, name);
        lemma_first_props(s.drop_first(), name);
    }
}

/// The first match index is in range exactly when the count is positive,
/// and then points at the first record with the name.
pub proof fn lemma_first_props(s: Seq<DepView>, name: Seq<char>)
    ensures
        0 <= first_match_idx(s, name) <= s.len(),
        (count_name(s, name) > 0) <==> (first_match_idx(s, name) < s.len()),
        count_name(s, name) >= 0,
        first_match_idx(s, name) < s.len() ==> s[first_match_idx(s, name)].name() == name,
        forall|j: int| 0 <= j < first_match_idx(s, name) ==> (#[trigger] s[j]).name() != name,
    decreases s.len(),
{
    if s.len() > 0 {
        lemma_first_props(s.drop_first(), name);
        if s[0].name() != name {
            assert forall|j: int| 0 <= j < first_match_idx(s, name) implies (#[trigger] s[j]).name()
                != name by {
                if j > 0 {
                    assert(s.drop_first()[j - 1] == s[j]);
                }
            }
        }
    }
}

/// What a version bump does to one record: a simple record gets the new
/// version, a source-control record is left alone.
pub open spec fn version_apply(d: DepView, nv: Seq<char>) -> DepView {
    match d {
        DepView::Simple(v) => DepView::Simple(crate::dependencies::SimpleView { version: nv, ..v }),
        DepView::Git(_) => d,
    }
}

/// What a reference bump does to one record: a source-control record
/// gets the new reference, a simple record is left alone.
pub open spec fn ref_apply(d: DepView, nr: Seq<char>) -> DepView {
    match d {
        DepView::Simple(_) => d,
        DepView::Git(g) => DepView::Git(crate::dependencies::GitView { git_ref: nr, ..g }),
    }
}

/// A strategy that mutates one record in place during a bump.
pub trait Bumper {
    /// The strategy's payload is acceptable for the field it writes.
    spec fn valid(&self) -> bool;

    /// The record the strategy leaves behind.
    spec fn apply(&self, d: DepView) -> DepView;

    /// Mutates the record as [`Bumper::apply`] describes and reports
    /// whether anything changed.
    fn bump(&self, dep: &mut LockedDependency) -> (changed: bool)
        requires
            self.valid(),
            old(dep)@.wf(),
        ensures
            final(dep)@ == self.apply(old(dep)@),
            final(dep)@.wf(),
            final(dep)@.name() == old(dep)@.name(),
            changed == (final(dep)@ != old(dep)@),
    ;
}

/// Writes a new version into the `Simple` variant.
pub struct SimpleBumper {
    pub version: String,
}

impl SimpleBumper {
    pub fn new(version: &str) -> (r: SimpleBumper)
        ensures
            r.version@ == version@,
    {
        SimpleBumper { version: String::from_str(version) }
    }
}

impl Bumper for SimpleBumper {
    open spec fn valid(&self) -> bool {
        crate::dependencies::valid_version(self.version@)
    }

    open spec fn apply(&self, d: DepView) -> DepView {
        version_apply(d, self.version@)
    }

    fn bump(&self, dep: &mut LockedDependency) -> (changed: bool) {
        match dep {
            LockedDependency::Simple(s) => {
                let ghost v0 = s@;
                let changed = s.bump(self.version.as_str());
                proof {
                    if self.version@ == v0.version {
                        assert(s@ =~= v0);
                    }
                }
                changed
            },
            LockedDependency::Git(_) => false,
        }
    }
}

/// Writes a new reference into the `Git` variant.
pub struct GitBumper {
    pub git_ref: String,
}

impl GitBumper {
    pub fn new(git_ref: &str) -> (r: GitBumper)
        ensures
            r.git_ref@ == git_ref@,
    {
        GitBumper { git_ref: String::from_str(git_ref) }
    }
}

impl Bumper for GitBumper {
    open spec fn valid(&self) -> bool {
        crate::dependencies::valid_ref(self.git_ref@)
    }

    open spec fn apply(&self, d: DepView) -> DepView {
        ref_apply(d, self.git_ref@)
    }

    fn bump(&self, dep: &mut LockedDependency) -> (changed: bool) {
        match dep {
            LockedDependency::Git(g) => {
                let ghost v0 = g@;
                let changed = g.bump(self.git_ref.as_str());
                proof {
                    if self.git_ref@ == v0.git_ref {
                        assert(g@ =~= v0);
                    }
                }
                changed
            },
            LockedDependency::Simple(_) => false,
        }
    }
}

impl Lock {
    /// Shared behaviour of the two bump kinds: scan for the name, fail
    /// on zero or several matches without touching anything, and apply
    /// the strategy to the single match.
    fn bump_impl<B: Bumper>(&mut self, bumper: &B, name: &str) -> (r: Result<bool, Error>)
        requires
            old(self).wf(),
            bumper.valid(),
        ensures
            final(self).wf(),
            final(self)@.python_version == old(self)@.python_version,
            final(self)@.sys_platform == old(self)@.sys_platform,
            match r {
                Ok(changed) => {
                    let deps0 = old(self)@.deps;
                    let i = first_match_idx(deps0, name@);
                    &&& count_name(deps0, name@) == 1
                    &&& final(self)@.deps == deps0.update(i, bumper.apply(deps0[i]))
                    &&& changed == (bumper.apply(deps0[i]) != deps0[i])
                },
                Err(Error::NothingToBump { name: n }) => n@ == name@ && count_name(
                    old(self)@.deps,
                    name@,
                ) == 0 && final(self)@ == old(self)@,
                Err(Error::MultipleBumps { name: n }) => n@ == name@ && count_name(
                    old(self)@.deps,
                    name@,
                ) >= 2 && final(self)@ == old(self)@,
                Err(_) => false,
            },
    {
        let ghost dvs = old(self)@.deps;
        let mut matches: usize = 0;
        let mut idx: usize = 0;
        let mut i: usize = 0;
        proof {
            assert(dvs.take(0) =~= Seq::<DepView>::empty());
        }
        while i < self.dependencies.len()
            invariant
                0 <= i <= self.dependencies@.len(),
                *self == *old(self),
                dvs == dep_views(self.dependencies@),
                matches == count_name(dvs.take(i as int), name@),
                matches <= i,
                matches > 0 ==> 0 <= idx < i && idx == first_match_idx(dvs.take(i as int), name@)
                    && first_match_idx(dvs.take(i as int), name@) < i,
                matches == 0 ==> first_match_idx(dvs.take(i as int), name@) == i,
            decreases self.dependencies@.len() - i,
        {
            proof {
                assert(dvs.take(i + 1) =~= dvs.take(i as int).push(dvs[i as int]));
                lemma_count_push(dvs.take(i as int), dvs[i as int], name@);
                lemma_first_push(dvs.take(i as int), dvs[i as int], name@);
                lemma_first_props(dvs.take(i as int), name@);
            }
            if crate::text::str_eq(self.dependencies[i].name(), name) {
                if matches == 0 {
                    idx = i;
                }
                matches = matches + 1;
            }
            i = i + 1;
        }
        proof {
            assert(dvs.take(self.dependencies@.len() as int) =~= dvs);
            lemma_first_props(dvs, name@);
        }
        if matches == 0 {
            return Err(Error::NothingToBump { name: String::from_str(name) });
        }
        if matches > 1 {
            return Err(Error::MultipleBumps { name: String::from_str(name) });
        }
        let ghost fidx = first_match_idx(dvs, name@);
        let mut d = self.dependencies.remove(idx);
        let changed = bumper.bump(&mut d);
        self.dependencies.insert(idx, d);
        proof {
            assert(dep_views(self.dependencies@) =~= dvs.update(
                fidx,
                bumper.apply(dvs[fidx]),
            ));
            assert(final(self)@.deps == dvs.update(fidx, bumper.apply(dvs[fidx])));
            let fdeps = final(self)@.deps;
            assert forall|j: int| 0 <= j < fdeps.len() implies (#[trigger] fdeps[j]).wf() by {
                if j != fidx {
                    assert(final(self)@.deps[j] == dvs[j]);
                }
            }
        }
        Ok(changed)
    }

    /// Bumps the version pinned for `name`.
    ///
    /// Fails with `NothingToBump` when no record carries the name and
    /// with `MultipleBumps` when several do, leaving the document
    /// untouched either way. With exactly one match, only that record
    /// changes: a simple record takes the new version, a source-control
    /// record is left as it was; `changed` reports whether the record
    /// differs from before.
    pub fn bump(&mut self, name: &str, version: &str) -> (r: Result<bool, Error>)
        requires
            old(self).wf(),
            crate::dependencies::valid_version(version@),
        ensures
            final(self).wf(),
            final(self)@.python_version == old(self)@.python_version,
            final(self)@.sys_platform == old(self)@.sys_platform,
            match r {
                Ok(changed) => {
                    let deps0 = old(self)@.deps;
                    let i = first_match_idx(deps0, name@);
                    &&& count_name(deps0, name@) == 1
                    &&& final(self)@.deps == deps0.update(i, version_apply(deps0[i], version@))
                    &&& changed == (version_apply(deps0[i], version@) != deps0[i])
                },
                Err(Error::NothingToBump { name: n }) => n@ == name@ && count_name(
                    old(self)@.deps,
                    name@,
                ) == 0 && final(self)@ == old(self)@,
                Err(Error::MultipleBumps { name: n }) => n@ == name@ && count_name(
                    old(self)@.deps,
                    name@,
                ) >= 2 && final(self)@ == old(self)@,
                Err(_) => false,
            },
    {
        let simple_bumper = SimpleBumper::new(version);
        self.bump_impl(&simple_bumper, name)
    }

    /// Bumps the source-control reference pinned for `name`, with the
    /// same match rules as [`Lock::bump`]; a simple record under that
    /// name is left as it was.
    pub fn git_bump(&mut self, name: &str, git_ref: &str) -> (r: Result<bool, Error>)
        requires
            old(self).wf(),
            crate::dependencies::valid_ref(git_ref@),
        ensures
            final(self).wf(),
            final(self)@.python_version == old(self)@.python_version,
            final(self)@.sys_platform == old(self)@.sys_platform,
            match r {
                Ok(changed) => {
                    let deps0 = old(self)@.deps;
                    let i = first_match_idx(deps0, name@);
                    &&& count_name(deps0, name@) == 1
                    &&& final(self)@.deps == deps0.update(i, ref_apply(deps0[i], git_ref@))
                    &&& changed == (ref_apply(deps0[i], git_ref@) != deps0[i])
                },
                Err(Error::NothingToBump { name: n }) => n@ == name@ && count_name(
                    old(self)@.deps,
                    name@,
                ) == 0 && final(self)@ == old(self)@,
                Err(Error::MultipleBumps { name: n }) => n@ == name@ && count_name(
                    old(self)@.deps,
                    name@,
                ) >= 2 && final(self)@ == old(self)@,
                Err(_) => false,
            },
    {
        let git_bumper = GitBumper::new(git_ref);
        self.bump_impl(&git_bumper, name)
    }
}

/// The observed-dependency views behind a slice of them.
pub open spec fn frozen_views(v: Seq<FrozenDependency>) -> Seq<FrozenView> {
    v.map_values(|d: FrozenDependency| d@)
}

/// The version the first observed entry with the given name reports.
pub open spec fn first_match(obs: Seq<FrozenView>, name: Seq<char>) -> Option<Seq<char>>
    decreases obs.len(),
{
    if obs.len() == 0 {
        None
    } else if obs[0].name == name {
        Some(obs[0].version)
    } else {
        first_match(obs.drop_first(), name)
    }
}

/// Some record carries the given name.
pub open spec fn has_name(deps: Seq<DepView>, name: Seq<char>) -> bool {
    exists|i: int| 0 <= i < deps.len() && (#[trigger] deps[i]).name() == name
}

/// What the patch step of `freeze` does to one record: a source-control
/// record is never touched; a simple record whose name an observed
/// entry carries takes that entry's version, unless it already has it.
pub open spec fn patch_one(d: DepView, obs: Seq<FrozenView>) -> DepView {
    match d {
        DepView::Git(_) => d,
        DepView::Simple(v) => match first_match(obs, v.name) {
            None => d,
            Some(ver) => if ver == v.version {
                d
            } else {
                DepView::Simple(crate::dependencies::SimpleView { version: ver, ..v })
            },
        },
    }
}

/// The patch step applied to every record.
pub open spec fn patch_all(deps: Seq<DepView>, obs: Seq<FrozenView>) -> Seq<DepView> {
    deps.map_values(|d: DepView| patch_one(d, obs))
}

/// The qualifier text a newly appended record starts with: the ambient
/// interpreter-version qualifier, then the ambient platform qualifier,
/// each only when set.
pub open spec fn base_trailing(pv: Option<Seq<char>>, sp: Option<Seq<char>>) -> Seq<char> {
    (match pv {
        None => Seq::<char>::empty(),
        Some(p) => crate::dependencies::py_qualifier(p),
    }) + (match sp {
        None => Seq::<char>::empty(),
        Some(s) => crate::dependencies::sp_qualifier(s),
    })
}

/// The record appended for an observed dependency no record names.
pub open spec fn new_dep(o: FrozenView, pv: Option<Seq<char>>, sp: Option<Seq<char>>) -> DepView {
    DepView::Simple(
        crate::dependencies::SimpleView {
            name: o.name,
            op: crate::dependencies::eqeq(),
            version: o.version,
            trailing: base_trailing(pv, sp),
        },
    )
}

/// The records the append step adds: one new simple record per observed
/// entry whose name no record of `deps0` carries, in observed order.
pub open spec fn added_deps(
    deps0: Seq<DepView>,
    obs: Seq<FrozenView>,
    pv: Option<Seq<char>>,
    sp: Option<Seq<char>>,
) -> Seq<DepView>
    decreases obs.len(),
{
    if obs.len() == 0 {
        Seq::empty()
    } else {
        (if has_name(deps0, obs[0].name) {
            Seq::<DepView>::empty()
        } else {
            seq![new_dep(obs[0], pv, sp)]
        }) + added_deps(deps0, obs.drop_first(), pv, sp)
    }
}

/// What `freeze` leaves in the document: every record patched, then the
/// missing observed dependencies appended.
pub open spec fn freeze_spec(
    deps: Seq<DepView>,
    obs: Seq<FrozenView>,
    pv: Option<Seq<char>>,
    sp: Option<Seq<char>>,
) -> Seq<DepView> {
    patch_all(deps, obs) + added_deps(patch_all(deps, obs), obs, pv, sp)
}

/// The notice `freeze` emits for a patched record.
pub open spec fn change_notice(name: Seq<char>, ov: Seq<char>, nv: Seq<char>) -> Seq<char> {
    name + seq![':', ' '] + ov + seq![' ', '-', '>', ' '] + nv
}

/// The notices the patch step emits for one record: none, or one
/// `name: old -> new` line.
pub open spec fn patch_notice_of(d: DepView, obs: Seq<FrozenView>) -> Seq<Seq<char>> {
    match d {
        DepView::Git(_) => Seq::empty(),
        DepView::Simple(v) => match first_match(obs, v.name) {
            None => Seq::empty(),
            Some(ver) => if ver == v.version {
                Seq::empty()
            } else {
                seq![change_notice(v.name, v.version, ver)]
            },
        },
    }
}

/// The notices the patch step emits, in document order.
pub open spec fn patch_notices(deps: Seq<DepView>, obs: Seq<FrozenView>) -> Seq<Seq<char>>
    decreases deps.len(),
{
    if deps.len() == 0 {
        Seq::empty()
    } else {
        patch_notice_of(deps[0], obs) + patch_notices(deps.drop_first(), obs)
    }
}

/// The notices the append step emits: one `+ line` per appended record.
pub open spec fn add_notices(
    deps0: Seq<DepView>,
    obs: Seq<FrozenView>,
    pv: Option<Seq<char>>,
    sp: Option<Seq<char>>,
) -> Seq<Seq<char>>
    decreases obs.len(),
{
    if obs.len() == 0 {
        Seq::empty()
    } else {
        (if has_name(deps0, obs[0].name) {
            Seq::<Seq<char>>::empty()
        } else {
            seq![seq!['+', ' '] + new_dep(obs[0], pv, sp).line()]
        }) + add_notices(deps0, obs.drop_first(), pv, sp)
    }
}

/// Every notice `freeze` emits, change notices first.
pub open spec fn freeze_notices(
    deps: Seq<DepView>,
    obs: Seq<FrozenView>,
    pv: Option<Seq<char>>,
    sp: Option<Seq<char>>,
) -> Seq<Seq<char>> {
    patch_notices(deps, obs) + add_notices(patch_all(deps, obs), obs, pv, sp)
}

proof fn lemma_patch_notices_push(s: Seq<DepView>, d: DepView, obs: Seq<FrozenView>)
    ensures
        patch_notices(s.push(d), obs) == patch_notices(s, obs) + patch_notice_of(d, obs),
    decreases s.len(),
{
    if s.len() == 0 {
        assert(s.push(d).drop_first() =~= s);
        assert(s.push(d)[0] == d);
        assert(patch_notices(s.push(d), obs) =~= patch_notices(s, obs) + patch_notice_of(d, obs));
    } else {
        assert(s.push(d).drop_first() =~= s.drop_first().push(d));
        assert(s.push(d)[0] == s[0]);
        lemma_patch_notices_push(s.drop_first(), d, obs);
        assert(patch_notice_of(s[0], obs) + (patch_notices(s.drop_first(), obs) + patch_notice_of(
            d,
            obs,
        )) =~= (patch_notice_of(s[0], obs) + patch_notices(s.drop_first(), obs))
            + patch_notice_of(d, obs));
    }
}

proof fn lemma_added_push(
    deps0: Seq<DepView>,
    obs: Seq<FrozenView>,
    o: FrozenView,
    pv: Option<Seq<char>>,
    sp: Option<Seq<char>>,
)
    ensures
        added_deps(deps0, obs.push(o), pv, sp) == added_deps(deps0, obs, pv, sp) + (if has_name(
            deps0,
            o.name,
        ) {
            Seq::<DepView>::empty()
        } else {
            seq![new_dep(o, pv, sp)]
        }),
        add_notices(deps0, obs.push(o), pv, sp) == add_notices(deps0, obs, pv, sp) + (if has_name(
            deps0,
            o.name,
        ) {
            Seq::<Seq<char>>::empty()
        } else {
            seq![seq!['+', ' '] + new_dep(o, pv, sp).line()]
        }),
    decreases obs.len(),
{
    if obs.len() == 0 {
        assert(obs.push(o).drop_first() =~= obs);
        assert(obs.push(o)[0] == o);
        assert(added_deps(deps0, obs.push(o), pv, sp) =~= added_deps(deps0, obs, pv, sp) + (
        if has_name(deps0, o.name) {
            Seq::<DepView>::empty()
        } else {
            seq![new_dep(o, pv, sp)]
        }));
        assert(add_notices(deps0, obs.push(o), pv, sp) =~= add_notices(deps0, obs, pv, sp) + (
        if has_name(deps0, o.name) {
            Seq::<Seq<char>>::empty()
        } else {
            seq![seq!['+', ' '] + new_dep(o, pv, sp).line()]
        }));
    } else {
        assert(obs.push(o).drop_first() =~= obs.drop_first().push(o));
        assert(obs.push(o)[0] == obs[0]);
        lemma_added_push(deps0, obs.drop_first(), o, pv, sp);
        let head = if has_name(deps0, obs[0].name) {
            Seq::<DepView>::empty()
        } else {
            seq![new_dep(obs[0], pv, sp)]
        };
        let tail = if has_name(deps0, o.name) {
            Seq::<DepView>::empty()
        } else {
            seq![new_dep(o, pv, sp)]
        };
        assert(head + (added_deps(deps0, obs.drop_first(), pv, sp) + tail) =~= (head + added_deps(
            deps0,
            obs.drop_first(),
            pv,
            sp,
        )) + tail);
        let headn = if has_name(deps0, obs[0].name) {
            Seq::<Seq<char>>::empty()
        } else {
            seq![seq!['+', ' '] + new_dep(obs[0], pv, sp).line()]
        };
        let tailn = if has_name(deps0, o.name) {
            Seq::<Seq<char>>::empty()
        } else {
            seq![seq!['+', ' '] + new_dep(o, pv, sp).line()]
        };
        assert(headn + (add_notices(deps0, obs.drop_first(), pv, sp) + tailn) =~= (headn
            + add_notices(deps0, obs.drop_first(), pv, sp)) + tailn);
    }
}

proof fn lemma_first_match_is(obs: Seq<FrozenView>, name: Seq<char>, j: int)
    requires
        0 <= j <= obs.len(),
        forall|k: int| 0 <= k < j ==> (#[trigger] obs[k]).name != name,
        j < obs.len() ==> obs[j].name == name,
    ensures
        j < obs.len() ==> first_match(obs, name) == Some(obs[j].version),
        j == obs.len() ==> first_match(obs, name) is None,
    decreases j,
{
    if obs.len() > 0 && j > 0 {
        lemma_first_match_is(obs.drop_first(), name, j - 1);
    }
}

/// Finds the first observed entry with the given name.
fn find_frozen(obs: &[FrozenDependency], name: &str) -> (r: Option<usize>)
    ensures
        match r {
            Some(j) => 0 <= j < obs@.len() && obs@[j as int]@.name == name@ && first_match(
                frozen_views(obs@),
                name@,
            ) == Some(obs@[j as int]@.version),
            None => first_match(frozen_views(obs@), name@) is None,
        },
{
    let n = obs.len();
    let mut j: usize = 0;
    while j < n
        invariant
            0 <= j <= n,
            n == obs@.len(),
            forall|k: int| 0 <= k < j ==> (#[trigger] obs@[k])@.name != name@,
        decreases n - j,
    {
        if crate::text::str_eq(obs[j].name.as_str(), name) {
            proof {
                lemma_first_match_is(frozen_views(obs@), name@, j as int);
            }
            return Some(j);
        }
        j = j + 1;
    }
    proof {
        lemma_first_match_is(frozen_views(obs@), name@, n as int);
    }
    None
}

/// Does any of the first `n1` records carry the name?
fn has_name_within(deps: &Vec<LockedDependency>, n1: usize, name: &str) -> (r: bool)
    requires
        n1 <= deps@.len(),
    ensures
        r == has_name(dep_views(deps@).take(n1 as int), name@),
{
    let mut k: usize = 0;
    while k < n1
        invariant
            0 <= k <= n1 <= deps@.len(),
            forall|m: int| 0 <= m < k ==> (#[trigger] dep_views(deps@)[m]).name() != name@,
        decreases n1 - k,
    {
        if crate::text::str_eq(deps[k].name(), name) {
            proof {
                assert(dep_views(deps@).take(n1 as int)[k as int].name() == name@);
            }
            return true;
        }
        k = k + 1;
    }
    proof {
        assert forall|i: int|
            0 <= i < dep_views(deps@).take(n1 as int).len() implies (#[trigger] dep_views(
            deps@,
        ).take(n1 as int)[i]).name() != name@ by {
            assert(dep_views(deps@).take(n1 as int)[i] == dep_views(deps@)[i]);
        }
    }
    false
}

impl Lock {
    /// The patch step: rewrites the version of every simple record an
    /// observed entry names, and reports each rewrite.
    fn patch_existing_deps(&mut self, frozen: &[FrozenDependency]) -> (notices: Vec<String>)
        requires
            old(self).wf(),
            forall|i: int|
                0 <= i < frozen@.len() ==> crate::dependencies::valid_version(
                    (#[trigger] frozen@[i])@.version,
                ),
        ensures
            final(self).wf(),
            final(self)@.deps == patch_all(old(self)@.deps, frozen_views(frozen@)),
            final(self)@.python_version == old(self)@.python_version,
            final(self)@.sys_platform == old(self)@.sys_platform,
            views_of(notices@) == patch_notices(old(self)@.deps, frozen_views(frozen@)),
    {
        let ghost dvs = old(self)@.deps;
        let ghost obs = frozen_views(frozen@);
        let mut out: Vec<LockedDependency> = Vec::new();
        let mut notices: Vec<String> = Vec::new();
        let n0 = self.dependencies.len();
        let mut i: usize = 0;
        proof {
            assert(dvs.take(0) =~= Seq::<DepView>::empty());
            assert(patch_all(dvs.take(0), obs) =~= Seq::<DepView>::empty());
            assert(dep_views(out@) =~= Seq::<DepView>::empty());
            assert(dvs.skip(0) =~= dvs);
            assert(views_of(notices@) =~= patch_notices(dvs.take(0), obs));
        }
        while i < n0
            invariant
                0 <= i <= n0,
                n0 == dvs.len(),
                dvs == old(self)@.deps,
                obs == frozen_views(frozen@),
                forall|ii: int| 0 <= ii < dvs.len() ==> (#[trigger] dvs[ii]).wf(),
                forall|ii: int|
                    0 <= ii < frozen@.len() ==> crate::dependencies::valid_version(
                        (#[trigger] frozen@[ii])@.version,
                    ),
                dep_views(self.dependencies@) == dvs.skip(i as int),
                self.python_version == old(self).python_version,
                self.sys_platform == old(self).sys_platform,
                dep_views(out@) == patch_all(dvs.take(i as int), obs),
                views_of(notices@) == patch_notices(dvs.take(i as int), obs),
                forall|j: int| 0 <= j < dep_views(out@).len() ==> (#[trigger] dep_views(
                    out@,
                )[j]).wf(),
            decreases n0 - i,
        {
            proof {
                assert(dvs.skip(i as int)[0] == dvs[i as int]);
                assert(dvs.skip(i as int).drop_first() =~= dvs.skip(i + 1));
                assert(dvs.take(i + 1) =~= dvs.take(i as int).push(dvs[i as int]));
                lemma_patch_notices_push(dvs.take(i as int), dvs[i as int], obs);
            }
            let ghost out0 = dep_views(out@);
            let d = self.dependencies.remove(0);
            let patched: LockedDependency = match d {
                LockedDependency::Git(g) => LockedDependency::Git(g),
                LockedDependency::Simple(mut s) => {
                    match find_frozen(frozen, s.name.as_str()) {
                        None => LockedDependency::Simple(s),
                        Some(j) => {
                            if crate::text::str_eq(
                                s.version.as_str(),
                                frozen[j].version.as_str(),
                            ) {
                                LockedDependency::Simple(s)
                            } else {
                                let mut msg = String::new();
                                msg.append(s.name.as_str());
                                msg.append(": ");
                                msg.append(s.version.as_str());
                                msg.append(" -> ");
                                msg.append(frozen[j].version.as_str());
                                proof {
                                    reveal_strlit(": ");
                                    reveal_strlit(" -> ");
                                    assert((": ")@ =~= seq![':', ' ']);
                                    assert((" -> ")@ =~= seq![' ', '-', '>', ' ']);
                                    assert(msg@ =~= change_notice(
                                        s@.name,
                                        s@.version,
                                        frozen@[j as int]@.version,
                                    ));
                                }
                                notices.push(msg);
                                s.freeze(frozen[j].version.as_str());
                                LockedDependency::Simple(s)
                            }
                        },
                    }
                },
            };
            proof {
                if patched@ != patch_one(dvs[i as int], obs) {
                    assert(patched@ =~= patch_one(dvs[i as int], obs));
                }
            }
            out.push(patched);
            proof {
                assert(dep_views(out@) =~= out0.push(patch_one(dvs[i as int], obs)));
                assert(patch_all(dvs.take(i + 1), obs) =~= patch_all(dvs.take(i as int), obs).push(
                    patch_one(dvs[i as int], obs),
                ));
                assert(views_of(notices@) =~= patch_notices(dvs.take(i + 1), obs));
            }
            i = i + 1;
        }
        self.dependencies = out;
        proof {
            assert(dvs.take(n0 as int) =~= dvs);
        }
        notices
    }

    /// The append step: adds one record per observed dependency whose
    /// name no record carries, stamped with the ambient qualifiers, and
    /// reports each addition.
    fn add_missing_deps(&mut self, frozen: &[FrozenDependency]) -> (notices: Vec<String>)
        requires
            old(self).wf(),
            forall|i: int|
                0 <= i < frozen@.len() ==> crate::dependencies::valid_name(
                    (#[trigger] frozen@[i])@.name,
                ) && crate::dependencies::valid_version(frozen@[i]@.version),
        ensures
            final(self).wf(),
            final(self)@.deps == old(self)@.deps + added_deps(
                old(self)@.deps,
                frozen_views(frozen@),
                old(self)@.python_version,
                old(self)@.sys_platform,
            ),
            final(self)@.python_version == old(self)@.python_version,
            final(self)@.sys_platform == old(self)@.sys_platform,
            views_of(notices@) == add_notices(
                old(self)@.deps,
                frozen_views(frozen@),
                old(self)@.python_version,
                old(self)@.sys_platform,
            ),
    {
        let ghost dvs0 = old(self)@.deps;
        let ghost obs = frozen_views(frozen@);
        let ghost pv = old(self)@.python_version;
        let ghost sp = old(self)@.sys_platform;
        let mut notices: Vec<String> = Vec::new();
        let n1 = self.dependencies.len();
        let mut j: usize = 0;
        proof {
            assert(obs.take(0) =~= Seq::<FrozenView>::empty());
            assert(added_deps(dvs0, obs.take(0), pv, sp) =~= Seq::<DepView>::empty());
            assert(dep_views(self.dependencies@) + added_deps(dvs0, obs.take(0), pv, sp)
                =~= dep_views(self.dependencies@));
            assert(views_of(notices@) =~= add_notices(dvs0, obs.take(0), pv, sp));
        }
        while j < frozen.len()
            invariant
                0 <= j <= frozen@.len(),
                n1 == dvs0.len(),
                dvs0 == old(self)@.deps,
                obs == frozen_views(frozen@),
                pv == old(self)@.python_version,
                sp == old(self)@.sys_platform,
                old(self).wf(),
                forall|ii: int|
                    0 <= ii < frozen@.len() ==> crate::dependencies::valid_name(
                        (#[trigger] frozen@[ii])@.name,
                    ) && crate::dependencies::valid_version(frozen@[ii]@.version),
                dep_views(self.dependencies@) == dvs0 + added_deps(dvs0, obs.take(j as int), pv, sp),
                self.python_version == old(self).python_version,
                self.sys_platform == old(self).sys_platform,
                views_of(notices@) == add_notices(dvs0, obs.take(j as int), pv, sp),
                forall|ii: int| 0 <= ii < dep_views(self.dependencies@).len() ==> (
                #[trigger] dep_views(self.dependencies@)[ii]).wf(),
            decreases frozen@.len() - j,
        {
            proof {
                assert(obs.take(j + 1) =~= obs.take(j as int).push(obs[j as int]));
                lemma_added_push(dvs0, obs.take(j as int), obs[j as int], pv, sp);
                assert(dep_views(self.dependencies@).len() == self.dependencies@.len());
                assert(dep_views(self.dependencies@).len() == dvs0.len() + added_deps(
                    dvs0,
                    obs.take(j as int),
                    pv,
                    sp,
                ).len());
                assert(n1 <= self.dependencies@.len());
                assert(dep_views(self.dependencies@).take(n1 as int) =~= dvs0);
            }
            let present = has_name_within(&self.dependencies, n1, frozen[j].name.as_str());
            if !present {
                let mut nd = crate::dependencies::SimpleDependency::from_frozen(&frozen[j]);
                if let Some(pvs) = &self.python_version {
                    nd.python_version(pvs.as_str());
                }
                if let Some(sps) = &self.sys_platform {
                    nd.sys_platform(sps.as_str());
                }
                proof {
                    assert(nd@ =~= (match new_dep(obs[j as int], pv, sp) {
                        DepView::Simple(v) => v,
                        DepView::Git(_) => nd@,
                    }));
                }
                let dep = LockedDependency::Simple(nd);
                let l = dep.line();
                let mut msg = String::from_str("+ ");
                msg.append(l.as_str());
                proof {
                    reveal_strlit("+ ");
                    assert(("+ ")@ =~= seq!['+', ' ']);
                    assert(msg@ =~= seq!['+', ' '] + new_dep(obs[j as int], pv, sp).line());
                }
                let ghost nt0 = views_of(notices@);
                let ghost sd0 = dep_views(self.dependencies@);
                notices.push(msg);
                self.dependencies.push(dep);
                proof {
                    assert(views_of(notices@) =~= nt0.push(
                        seq!['+', ' '] + new_dep(obs[j as int], pv, sp).line(),
                    ));
                    assert(dep_views(self.dependencies@) =~= sd0.push(
                        new_dep(obs[j as int], pv, sp),
                    ));
                    assert(dep_views(self.dependencies@) =~= dvs0 + added_deps(
                        dvs0,
                        obs.take(j + 1),
                        pv,
                        sp,
                    ));
                    assert(views_of(notices@) =~= add_notices(dvs0, obs.take(j + 1), pv, sp));
                }
            } else {
                proof {
                    assert(dep_views(self.dependencies@) =~= dvs0 + added_deps(
                        dvs0,
                        obs.take(j + 1),
                        pv,
                        sp,
                    ));
                    assert(views_of(notices@) =~= add_notices(dvs0, obs.take(j + 1), pv, sp));
                }
            }
            j = j + 1;
        }
        proof {
            assert(obs.take(frozen@.len() as int) =~= obs);
        }
        notices
    }

    /// Reconciles the document with the observed dependency list:
    /// patches the version of every matching simple record, appends a
    /// record for every unseen name, deletes nothing, and returns the
    /// change and append notices in order. Source-control records are
    /// never touched.
    pub fn freeze(&mut self, deps: &[FrozenDependency]) -> (notices: Vec<String>)
        requires
            old(self).wf(),
            forall|i: int|
                0 <= i < deps@.len() ==> crate::dependencies::valid_name(
                    (#[trigger] deps@[i])@.name,
                ) && crate::dependencies::valid_version(deps@[i]@.version),
        ensures
            final(self).wf(),
            final(self)@.deps == freeze_spec(
                old(self)@.deps,
                frozen_views(deps@),
                old(self)@.python_version,
                old(self)@.sys_platform,
            ),
            final(self)@.python_version == old(self)@.python_version,
            final(self)@.sys_platform == old(self)@.sys_platform,
            views_of(notices@) == freeze_notices(
                old(self)@.deps,
                frozen_views(deps@),
                old(self)@.python_version,
                old(self)@.sys_platform,
            ),
    {
        let mut notices = self.patch_existing_deps(deps);
        let mut more = self.add_missing_deps(deps);
        let ghost nt1 = views_of(notices@);
        let ghost nt2 = views_of(more@);
        notices.append(&mut more);
        proof {
            assert(views_of(notices@) =~= nt1 + nt2);
        }
        notices
    }
}

/// The trimmed text of every line the document walk keeps, in order.
pub open spec fn nonskip_trimmed(lines: Seq<Seq<char>>) -> Seq<Seq<char>>
    decreases lines.len(),
{
    if lines.len() == 0 {
        Seq::empty()
    } else if is_skip(lines[0]) {
        nonskip_trimmed(lines.drop_first())
    } else {
        seq![trim_spec(lines[0])] + nonskip_trimmed(lines.drop_first())
    }
}

proof fn lemma_doc_matches_renders(lines: Seq<Seq<char>>, rp: Seq<DepView>)
    requires
        doc_matches(lines, rp),
    ensures
        lines_of(rp) == nonskip_trimmed(lines),
    decreases lines.len(),
{
    if lines.len() == 0 {
        assert(lines_of(rp) =~= nonskip_trimmed(lines));
    } else if is_skip(lines[0]) {
        lemma_doc_matches_renders(lines.drop_first(), rp);
    } else {
        lemma_doc_matches_renders(lines.drop_first(), rp.drop_first());
        assert(lines_of(rp) =~= seq![rp[0].line()] + lines_of(rp.drop_first()));
        assert(rp[0].line() == trim_spec(lines[0]));
    }
}

proof fn lemma_nonskip_push_skip(lines: Seq<Seq<char>>, x: Seq<char>)
    requires
        is_skip(x),
    ensures
        nonskip_trimmed(lines.push(x)) == nonskip_trimmed(lines),
    decreases lines.len(),
{
    if lines.len() == 0 {
        assert(lines.push(x).drop_first() =~= lines);
        assert(lines.push(x)[0] == x);
    } else {
        assert(lines.push(x).drop_first() =~= lines.drop_first().push(x));
        assert(lines.push(x)[0] == lines[0]);
        lemma_nonskip_push_skip(lines.drop_first(), x);
    }
}

proof fn lemma_nonskip_of_clean(ls: Seq<Seq<char>>)
    requires
        forall|i: int|
            0 <= i < ls.len() ==> !is_skip(#[trigger] ls[i]) && trim_spec(ls[i]) == ls[i],
    ensures
        nonskip_trimmed(ls) == ls,
    decreases ls.len(),
{
    if ls.len() > 0 {
        assert forall|i: int|
            0 <= i < ls.drop_first().len() implies !is_skip(#[trigger] ls.drop_first()[i])
            && trim_spec(ls.drop_first()[i]) == ls.drop_first()[i] by {
            assert(ls.drop_first()[i] == ls[i + 1]);
        }
        lemma_nonskip_of_clean(ls.drop_first());
        assert(nonskip_trimmed(ls) =~= ls);
    }
}

/// Facts shared by the round-trip lemmas: for a non-empty well-formed
/// document, the serialized text splits back into the sorted lines plus
/// one final empty segment, and each sorted line is the rendered line
/// of one of the records.
proof fn lemma_lock_text_lines(deps: Seq<DepView>)
    requires
        forall|i: int| 0 <= i < deps.len() ==> (#[trigger] deps[i]).wf(),
        deps.len() > 0,
    ensures
        lock_text(deps).len() > 0,
        doc_lines(lock_text(deps)) == sort_lines(lines_of(deps)).push(Seq::<char>::empty()),
        forall|k: int|
            0 <= k < sort_lines(lines_of(deps)).len() ==> exists|m: int|
                0 <= m < deps.len() && #[trigger] sort_lines(lines_of(deps))[k] == deps[m].line(),
        forall|k: int|
            0 <= k < sort_lines(lines_of(deps)).len() ==> !is_skip(
                #[trigger] sort_lines(lines_of(deps))[k],
            ) && trim_spec(sort_lines(lines_of(deps))[k]) == sort_lines(lines_of(deps))[k],
{
    let lns = lines_of(deps);
    let srt = sort_lines(lns);
    crate::text::lemma_sort_len(lns);
    crate::text::lemma_sort_membership(lns);
    assert forall|k: int| 0 <= k < srt.len() implies exists|m: int|
        0 <= m < deps.len() && #[trigger] srt[k] == deps[m].line() by {
        let m = choose|m: int| 0 <= m < lns.len() && lns[m] == srt[k];
        assert(lns[m] == deps[m].line());
        assert(srt[k] == deps[m].line());
    }
    assert forall|k: int| 0 <= k < srt.len() implies !is_skip(#[trigger] srt[k]) && trim_spec(
        srt[k],
    ) == srt[k] by {
        let m = choose|m: int| 0 <= m < deps.len() && srt[k] == deps[m].line();
        crate::dependencies::lemma_wf_line_clean(deps[m]);
    }
    let t = text_of_lines(srt);
    assert(t.len() > 0);
    assert forall|i: int| 0 <= i < srt.len() implies !(#[trigger] srt[i]).contains('\n') by {
        let m = choose|m: int| 0 <= m < deps.len() && srt[i] == deps[m].line();
        crate::dependencies::lemma_wf_line_clean(deps[m]);
        if srt[i].contains('\n') {
            let k = choose|k: int| 0 <= k < srt[i].len() && srt[i][k] == '\n';
            assert(deps[m].line()[k] != '\n');
        }
    }
    crate::text::lemma_split_text_of(srt);
}

/// Round-trip stability: parsing serialized text and serializing again
/// reproduces the text. `reparsed` is any record sequence the document
/// parser may return for the serialized text of `deps`; its serialized
/// text is the same.
pub proof fn lemma_round_trip(deps: Seq<DepView>, reparsed: Seq<DepView>)
    requires
        forall|i: int| 0 <= i < deps.len() ==> (#[trigger] deps[i]).wf(),
        doc_matches(doc_lines(lock_text(deps)), reparsed),
    ensures
        lock_text(reparsed) == lock_text(deps),
{
    if deps.len() == 0 {
        assert(lock_text(deps) == Seq::<char>::empty());
        assert(doc_lines(lock_text(deps)) =~= Seq::<Seq<char>>::empty());
        assert(reparsed.len() == 0);
    } else {
        let lns = lines_of(deps);
        let srt = sort_lines(lns);
        lemma_lock_text_lines(deps);
        lemma_doc_matches_renders(srt.push(Seq::<char>::empty()), reparsed);
        assert(is_skip(Seq::<char>::empty()));
        lemma_nonskip_push_skip(srt, Seq::<char>::empty());
        lemma_nonskip_of_clean(srt);
        assert(lines_of(reparsed) == srt);
        crate::text::lemma_sort_len(lns);
        assert(reparsed.len() == srt.len());
        crate::text::lemma_sort_sorted(lns);
        crate::text::lemma_sort_of_sorted(srt);
        assert(lock_text(reparsed) == text_of_lines(sort_lines(lines_of(reparsed))));
    }
}

/// The serialized text of a well-formed document parses: every line of
/// it is blank or the rendering of a well-formed record, so
/// [`Lock::from_string`] accepts it.
pub proof fn lemma_serialize_parses(deps: Seq<DepView>)
    requires
        forall|i: int| 0 <= i < deps.len() ==> (#[trigger] deps[i]).wf(),
    ensures
        all_parseable(doc_lines(lock_text(deps))),
{
    if deps.len() == 0 {
        assert(doc_lines(lock_text(deps)) =~= Seq::<Seq<char>>::empty());
    } else {
        let srt = sort_lines(lines_of(deps));
        lemma_lock_text_lines(deps);
        let lines = srt.push(Seq::<char>::empty());
        assert forall|i: int| 0 <= i < lines.len() implies is_skip(#[trigger] lines[i])
            || line_parseable(trim_spec(lines[i])) by {
            if i < srt.len() {
                assert(lines[i] == srt[i]);
                let m = choose|m: int| 0 <= m < deps.len() && srt[i] == deps[m].line();
                assert(parses_exact(deps[m], trim_spec(srt[i])));
                assert(line_parseable(trim_spec(lines[i])));
            } else {
                assert(lines[i] =~= Seq::<char>::empty());
                assert(is_skip(lines[i]));
            }
        }
    }
}

/// Sort order: the lines of the serialized text stand in
/// case-insensitive lexicographic order, whatever order the records
/// came in.
pub proof fn lemma_serialized_sorted(deps: Seq<DepView>)
    ensures
        crate::text::sorted_le(sort_lines(lines_of(deps))),
{
    crate::text::lemma_sort_sorted(lines_of(deps));
}

proof fn lemma_patch_one_name(d: DepView, obs: Seq<FrozenView>)
    ensures
        patch_one(d, obs).name() == d.name(),
{
}

/// Monotonic retention: no freeze ever removes a name. Every name some
/// record carried before the freeze is carried by some record after,
/// whatever the observed list holds.
pub proof fn lemma_freeze_retains_names(
    deps: Seq<DepView>,
    obs: Seq<FrozenView>,
    pv: Option<Seq<char>>,
    sp: Option<Seq<char>>,
)
    ensures
        forall|nm: Seq<char>|
            has_name(deps, nm) ==> #[trigger] has_name(freeze_spec(deps, obs, pv, sp), nm),
{
    let res = freeze_spec(deps, obs, pv, sp);
    assert forall|nm: Seq<char>| has_name(deps, nm) implies #[trigger] has_name(res, nm) by {
        let i = choose|i: int| 0 <= i < deps.len() && (#[trigger] deps[i]).name() == nm;
        lemma_patch_one_name(deps[i], obs);
        assert(patch_all(deps, obs)[i] == patch_one(deps[i], obs));
        assert(res[i] == patch_all(deps, obs)[i]);
        assert(res[i].name() == nm);
    }
}

proof fn lemma_patch_one_id(d: DepView, obs: Seq<FrozenView>)
    ensures
        patch_one(patch_one(d, obs), obs) == patch_one(d, obs),
{
    match d {
        DepView::Git(_) => {},
        DepView::Simple(v) => {
            match first_match(obs, v.name) {
                None => {},
                Some(_) => {},
            }
        },
    }
}

proof fn lemma_first_match_distinct(obs: Seq<FrozenView>, j: int)
    requires
        forall|a: int, b: int|
            0 <= a < b < obs.len() ==> (#[trigger] obs[a]).name != (#[trigger] obs[b]).name,
        0 <= j < obs.len(),
    ensures
        first_match(obs, obs[j].name) == Some(obs[j].version),
    decreases obs.len(),
{
    if j > 0 {
        assert(obs[0].name != obs[j].name);
        assert forall|a: int, b: int|
            0 <= a < b < obs.drop_first().len() implies (#[trigger] obs.drop_first()[a]).name != (
        #[trigger] obs.drop_first()[b]).name by {
            assert(obs.drop_first()[a] == obs[a + 1]);
            assert(obs.drop_first()[b] == obs[b + 1]);
        }
        lemma_first_match_distinct(obs.drop_first(), j - 1);
    }
}

proof fn lemma_added_elems(
    deps0: Seq<DepView>,
    obs: Seq<FrozenView>,
    pv: Option<Seq<char>>,
    sp: Option<Seq<char>>,
)
    ensures
        forall|k: int|
            0 <= k < added_deps(deps0, obs, pv, sp).len() ==> exists|j: int|
                0 <= j < obs.len() && #[trigger] added_deps(deps0, obs, pv, sp)[k] == new_dep(
                    obs[j],
                    pv,
                    sp,
                ),
    decreases obs.len(),
{
    if obs.len() > 0 {
        lemma_added_elems(deps0, obs.drop_first(), pv, sp);
        let a = added_deps(deps0, obs, pv, sp);
        let rest = added_deps(deps0, obs.drop_first(), pv, sp);
        assert forall|k: int| 0 <= k < a.len() implies exists|j: int|
            0 <= j < obs.len() && #[trigger] a[k] == new_dep(obs[j], pv, sp) by {
            if has_name(deps0, obs[0].name) {
                assert(a[k] == rest[k]);
                let j = choose|j: int|
                    0 <= j < obs.drop_first().len() && rest[k] == new_dep(
                        obs.drop_first()[j],
                        pv,
                        sp,
                    );
                assert(obs.drop_first()[j] == obs[j + 1]);
                assert(a[k] == new_dep(obs[j + 1], pv, sp));
            } else {
                if k == 0 {
                    assert(a[0] == new_dep(obs[0], pv, sp));
                } else {
                    assert(a[k] == rest[k - 1]);
                    let j = choose|j: int|
                        0 <= j < obs.drop_first().len() && rest[k - 1] == new_dep(
                            obs.drop_first()[j],
                            pv,
                            sp,
                        );
                    assert(obs.drop_first()[j] == obs[j + 1]);
                    assert(a[k] == new_dep(obs[j + 1], pv, sp));
                }
            }
        }
    }
}

proof fn lemma_added_contains(
    deps0: Seq<DepView>,
    obs: Seq<FrozenView>,
    j: int,
    pv: Option<Seq<char>>,
    sp: Option<Seq<char>>,
)
    requires
        0 <= j < obs.len(),
        !has_name(deps0, obs[j].name),
    ensures
        has_name(added_deps(deps0, obs, pv, sp), obs[j].name),
    decreases obs.len(),
{
    let a = added_deps(deps0, obs, pv, sp);
    if j == 0 {
        assert(a[0] == new_dep(obs[0], pv, sp));
        assert(a[0].name() == obs[0].name);
    } else {
        assert(obs.drop_first()[j - 1] == obs[j]);
        lemma_added_contains(deps0, obs.drop_first(), j - 1, pv, sp);
        let rest = added_deps(deps0, obs.drop_first(), pv, sp);
        let i = choose|i: int| 0 <= i < rest.len() && (#[trigger] rest[i]).name() == obs[j].name;
        let head = if has_name(deps0, obs[0].name) {
            Seq::<DepView>::empty()
        } else {
            seq![new_dep(obs[0], pv, sp)]
        };
        assert(a[head.len() + i] == rest[i]);
        assert(a[head.len() + i].name() == obs[j].name);
    }
}

proof fn lemma_added_all_present(
    deps0: Seq<DepView>,
    obs: Seq<FrozenView>,
    pv: Option<Seq<char>>,
    sp: Option<Seq<char>>,
)
    requires
        forall|j: int| 0 <= j < obs.len() ==> has_name(deps0, (#[trigger] obs[j]).name),
    ensures
        added_deps(deps0, obs, pv, sp) == Seq::<DepView>::empty(),
        add_notices(deps0, obs, pv, sp) == Seq::<Seq<char>>::empty(),
    decreases obs.len(),
{
    if obs.len() > 0 {
        assert(has_name(deps0, obs[0].name));
        assert forall|j: int| 0 <= j < obs.drop_first().len() implies has_name(
            deps0,
            (#[trigger] obs.drop_first()[j]).name,
        ) by {
            assert(obs.drop_first()[j] == obs[j + 1]);
        }
        lemma_added_all_present(deps0, obs.drop_first(), pv, sp);
        assert(added_deps(deps0, obs, pv, sp) =~= Seq::<DepView>::empty());
        assert(add_notices(deps0, obs, pv, sp) =~= Seq::<Seq<char>>::empty());
    } else {
        assert(added_deps(deps0, obs, pv, sp) =~= Seq::<DepView>::empty());
        assert(add_notices(deps0, obs, pv, sp) =~= Seq::<Seq<char>>::empty());
    }
}

proof fn lemma_patch_notice_empty(d: DepView, obs: Seq<FrozenView>)
    requires
        patch_one(d, obs) == d,
    ensures
        patch_notice_of(d, obs) == Seq::<Seq<char>>::empty(),
{
    match d {
        DepView::Git(_) => {},
        DepView::Simple(v) => {
            match first_match(obs, v.name) {
                None => {},
                Some(ver) => {
                    if ver != v.version {
                        assert(patch_one(d, obs) != d) by {
                            let w = crate::dependencies::SimpleView { version: ver, ..v };
                            assert(patch_one(d, obs) == DepView::Simple(w));
                            assert(w.version != v.version);
                        }
                    }
                },
            }
        },
    }
}

proof fn lemma_patch_all_id(deps: Seq<DepView>, obs: Seq<FrozenView>)
    requires
        forall|i: int| 0 <= i < deps.len() ==> patch_one(#[trigger] deps[i], obs) == deps[i],
    ensures
        patch_all(deps, obs) == deps,
        patch_notices(deps, obs) == Seq::<Seq<char>>::empty(),
    decreases deps.len(),
{
    assert(patch_all(deps, obs) =~= deps);
    if deps.len() > 0 {
        lemma_patch_notice_empty(deps[0], obs);
        assert forall|i: int| 0 <= i < deps.drop_first().len() implies patch_one(
            #[trigger] deps.drop_first()[i],
            obs,
        ) == deps.drop_first()[i] by {
            assert(deps.drop_first()[i] == deps[i + 1]);
        }
        lemma_patch_all_id(deps.drop_first(), obs);
        assert(patch_notices(deps, obs) =~= Seq::<Seq<char>>::empty());
    }
}

/// Idempotent freeze: a second freeze with the same observed list, on a
/// document the first freeze produced, changes nothing and reports
/// nothing. Holds when the observed entries carry pairwise distinct
/// names, as one installer report does.
pub proof fn lemma_freeze_idempotent(
    deps: Seq<DepView>,
    obs: Seq<FrozenView>,
    pv: Option<Seq<char>>,
    sp: Option<Seq<char>>,
)
    requires
        forall|a: int, b: int|
            0 <= a < b < obs.len() ==> (#[trigger] obs[a]).name != (#[trigger] obs[b]).name,
    ensures
        freeze_spec(freeze_spec(deps, obs, pv, sp), obs, pv, sp) == freeze_spec(deps, obs, pv, sp),
        freeze_notices(freeze_spec(deps, obs, pv, sp), obs, pv, sp) == Seq::<Seq<char>>::empty(),
{
    let p = patch_all(deps, obs);
    let a = added_deps(p, obs, pv, sp);
    let r = freeze_spec(deps, obs, pv, sp);
    assert(r == p + a);
    // a second patch leaves every record alone
    assert forall|i: int| 0 <= i < r.len() implies patch_one(#[trigger] r[i], obs) == r[i] by {
        if i < p.len() {
            assert(r[i] == p[i]);
            assert(p[i] == patch_one(deps[i], obs));
            lemma_patch_one_id(deps[i], obs);
        } else {
            assert(r[i] == a[i - p.len()]);
            lemma_added_elems(p, obs, pv, sp);
            let j = choose|j: int| 0 <= j < obs.len() && a[i - p.len()] == new_dep(obs[j], pv, sp);
            lemma_first_match_distinct(obs, j);
        }
    }
    lemma_patch_all_id(r, obs);
    // every observed name is present after the first freeze
    assert forall|j: int| 0 <= j < obs.len() implies has_name(r, (#[trigger] obs[j]).name) by {
        if has_name(p, obs[j].name) {
            let i = choose|i: int| 0 <= i < p.len() && (#[trigger] p[i]).name() == obs[j].name;
            assert(r[i] == p[i]);
            assert(has_name(r, obs[j].name));
        } else {
            lemma_added_contains(p, obs, j, pv, sp);
            let i = choose|i: int| 0 <= i < a.len() && (#[trigger] a[i]).name() == obs[j].name;
            assert(r[p.len() + i] == a[i]);
            assert(has_name(r, obs[j].name));
        }
    }
    lemma_added_all_present(r, obs, pv, sp);
    assert(freeze_spec(r, obs, pv, sp) =~= r);
    assert(freeze_notices(r, obs, pv, sp) =~= Seq::<Seq<char>>::empty());
}

} // verus!

