//! Resolution of user-supplied path specifiers into one ordered,
//! duplicate-free list of file paths.
//!
//! A specifier is a literal path, a glob pattern, or a negated form of either
//! (prefixed with `!`). Specifiers apply left to right over an ordered
//! sequence: a positive specifier appends each path it yields, moving an
//! already-present path to the end; a negative one removes the first matching
//! occurrence. Resolution is last-write-wins-by-append, not a single filtered
//! pass.

use vstd::prelude::*;

verus! {

/// The concrete paths one specifier stands for, together with its sign:
/// `positive` is false for a specifier that carried the negation marker.
#[derive(Debug)]
pub struct Expansion {
    pub positive: bool,
    pub paths: Vec<String>,
}

/// The mathematical shadow of an [`Expansion`].
pub ghost struct ExpansionModel {
    pub positive: bool,
    pub paths: Seq<Seq<char>>,
}

impl View for Expansion {
    type V = ExpansionModel;

    open spec fn view(&self) -> ExpansionModel {
        ExpansionModel { positive: self.positive, paths: self.paths.deep_view() }
    }
}

impl DeepView for Expansion {
    type V = ExpansionModel;

    open spec fn deep_view(&self) -> ExpansionModel {
        self.view()
    }
}

/// The net effect of one concrete path on the resolved sequence: a positive
/// incorporation removes any earlier occurrence and appends the path at the
/// end; a negative one removes the first occurrence, if any.
pub open spec fn incorporate(set: Seq<Seq<char>>, path: Seq<char>, positive: bool) -> Seq<
    Seq<char>,
> {
    if positive {
        set.remove_value(path).push(path)
    } else {
        set.remove_value(path)
    }
}

/// All paths of one expansion incorporated in order, under one sign.
pub open spec fn incorporate_all(
    set: Seq<Seq<char>>,
    paths: Seq<Seq<char>>,
    positive: bool,
) -> Seq<Seq<char>>
    decreases paths.len(),
{
    if paths.len() == 0 {
        set
    } else {
        incorporate_all(incorporate(set, paths[0], positive), paths.drop_first(), positive)
    }
}

/// A sequence of expansions folded, left to right, over a starting sequence.
pub open spec fn resolve_from(set: Seq<Seq<char>>, exps: Seq<ExpansionModel>) -> Seq<Seq<char>>
    decreases exps.len(),
{
    if exps.len() == 0 {
        set
    } else {
        resolve_from(incorporate_all(set, exps[0].paths, exps[0].positive), exps.drop_first())
    }
}

/// What a list of specifier expansions resolves to.
pub open spec fn resolve(exps: Seq<ExpansionModel>) -> Seq<Seq<char>> {
    resolve_from(Seq::empty(), exps)
}

proof fn lemma_incorporate_all_push(
    set: Seq<Seq<char>>,
    paths: Seq<Seq<char>>,
    path: Seq<char>,
    positive: bool,
)
    ensures
        incorporate_all(set, paths.push(path), positive) == incorporate(
            incorporate_all(set, paths, positive),
            path,
            positive,
        ),
    decreases paths.len(),
{
    if paths.len() == 0 {
        assert(paths.push(path)[0] == path);
        assert(paths.push(path).drop_first() =~= paths);
        assert(incorporate_all(set, paths, positive) == set);
        assert(incorporate_all(set, paths.push(path), positive) == incorporate_all(
            incorporate(set, path, positive),
            paths.push(path).drop_first(),
            positive,
        ));
        assert(incorporate_all(incorporate(set, path, positive), paths, positive)
            == incorporate(set, path, positive));
    } else {
        assert(paths.push(path)[0] == paths[0]);
        assert(paths.push(path).drop_first() =~= paths.drop_first().push(path));
        lemma_incorporate_all_push(
            incorporate(set, paths[0], positive),
            paths.drop_first(),
            path,
            positive,
        );
    }
}

proof fn lemma_resolve_from_push(set: Seq<Seq<char>>, exps: Seq<ExpansionModel>, e: ExpansionModel)
    ensures
        resolve_from(set, exps.push(e)) == incorporate_all(
            resolve_from(set, exps),
            e.paths,
            e.positive,
        ),
    decreases exps.len(),
{
    if exps.len() == 0 {
        assert(exps.push(e)[0] == e);
        assert(exps.push(e).drop_first() =~= exps);
        assert(resolve_from(set, exps.push(e)) == resolve_from(
            incorporate_all(set, e.paths, e.positive),
            exps.push(e).drop_first(),
        ));
        assert(resolve_from(incorporate_all(set, e.paths, e.positive), exps)
            == incorporate_all(set, e.paths, e.positive));
        assert(resolve_from(set, exps) == set);
    } else {
        assert(exps.push(e)[0] == exps[0]);
        assert(exps.push(e).drop_first() =~= exps.drop_first().push(e));
        lemma_resolve_from_push(
            incorporate_all(set, exps[0].paths, exps[0].positive),
            exps.drop_first(),
            e,
        );
    }
}

proof fn lemma_remove_value_unique(set: Seq<Seq<char>>, path: Seq<char>)
    requires
        set.no_duplicates(),
    ensures
        set.remove_value(path).no_duplicates(),
        !set.remove_value(path).contains(path),
{
    set.index_of_first_ensures(path);
    match set.index_of_first(path) {
        Some(i) => {
            set.remove_ensures(i);
            let removed = set.remove(i);
            assert forall|a: int, b: int|
                0 <= a < removed.len() && 0 <= b < removed.len() && a != b implies removed[a]
                != removed[b] by {}
            assert forall|a: int| 0 <= a < removed.len() implies removed[a] != path by {}
        },
        None => {},
    }
}

proof fn lemma_incorporate_unique(set: Seq<Seq<char>>, path: Seq<char>, positive: bool)
    requires
        set.no_duplicates(),
    ensures
        incorporate(set, path, positive).no_duplicates(),
{
    lemma_remove_value_unique(set, path);
    if positive {
        let removed = set.remove_value(path);
        let pushed = removed.push(path);
        assert forall|a: int, b: int|
            0 <= a < pushed.len() && 0 <= b < pushed.len() && a != b implies pushed[a]
            != pushed[b] by {}
    }
}

proof fn lemma_incorporate_all_unique(set: Seq<Seq<char>>, paths: Seq<Seq<char>>, positive: bool)
    requires
        set.no_duplicates(),
    ensures
        incorporate_all(set, paths, positive).no_duplicates(),
    decreases paths.len(),
{
    if paths.len() > 0 {
        lemma_incorporate_unique(set, paths[0], positive);
        lemma_incorporate_all_unique(incorporate(set, paths[0], positive), paths.drop_first(), positive);
    }
}

proof fn lemma_resolve_from_unique(set: Seq<Seq<char>>, exps: Seq<ExpansionModel>)
    requires
        set.no_duplicates(),
    ensures
        resolve_from(set, exps).no_duplicates(),
    decreases exps.len(),
{
    if exps.len() > 0 {
        lemma_incorporate_all_unique(set, exps[0].paths, exps[0].positive);
        lemma_resolve_from_unique(
            incorporate_all(set, exps[0].paths, exps[0].positive),
            exps.drop_first(),
        );
    }
}

/// Law: whatever the specifiers, the resolved sequence never holds a path
/// twice.
pub proof fn lemma_resolved_set_unique(exps: Seq<ExpansionModel>)
    ensures
        resolve(exps).no_duplicates(),
{
    lemma_resolve_from_unique(Seq::empty(), exps);
}

proof fn lemma_remove_value_contains_other(set: Seq<Seq<char>>, path: Seq<char>, x: Seq<char>)
    requires
        x != path,
    ensures
        set.remove_value(path).contains(x) == set.contains(x),
{
    set.index_of_first_ensures(path);
    match set.index_of_first(path) {
        Some(i) => {
            set.remove_ensures(i);
            let removed = set.remove(i);
            if set.contains(x) {
                let k = choose|k: int| 0 <= k < set.len() && set[k] == x;
                if k < i {
                    assert(removed[k] == x);
                } else {
                    assert(removed[k - 1] == x);
                }
                assert(removed.contains(x));
            }
            if removed.contains(x) {
                let j = choose|j: int| 0 <= j < removed.len() && removed[j] == x;
                if j < i {
                    assert(set[j] == x);
                } else {
                    assert(set[j + 1] == x);
                }
                assert(set.contains(x));
            }
        },
        None => {},
    }
}

proof fn lemma_incorporate_positive_contains(set: Seq<Seq<char>>, path: Seq<char>, x: Seq<char>)
    ensures
        incorporate(set, path, true).contains(x) == (set.contains(x) || x == path),
{
    let removed = set.remove_value(path);
    let pushed = removed.push(path);
    if x == path {
        assert(pushed[removed.len() as int] == x);
        assert(pushed.contains(x));
    } else {
        lemma_remove_value_contains_other(set, path, x);
        if removed.contains(x) {
            let j = choose|j: int| 0 <= j < removed.len() && removed[j] == x;
            assert(pushed[j] == x);
            assert(pushed.contains(x));
        }
        if pushed.contains(x) {
            let j = choose|j: int| 0 <= j < pushed.len() && pushed[j] == x;
            assert(j < removed.len());
            assert(removed.contains(x));
        }
    }
}

proof fn lemma_contains_unfold(paths: Seq<Seq<char>>, x: Seq<char>)
    requires
        paths.len() > 0,
    ensures
        paths.contains(x) == (paths[0] == x || paths.drop_first().contains(x)),
{
    if paths.drop_first().contains(x) {
        let j = choose|j: int| 0 <= j < paths.drop_first().len() && paths.drop_first()[j] == x;
        assert(paths[j + 1] == x);
    }
    if paths.contains(x) {
        let j = choose|j: int| 0 <= j < paths.len() && paths[j] == x;
        if j > 0 {
            assert(paths.drop_first()[j - 1] == x);
        }
    }
}

proof fn lemma_incorporate_all_contains(set: Seq<Seq<char>>, paths: Seq<Seq<char>>, x: Seq<char>)
    ensures
        incorporate_all(set, paths, true).contains(x) == (set.contains(x) || paths.contains(x)),
    decreases paths.len(),
{
    if paths.len() == 0 {
        assert(!paths.contains(x));
    } else {
        lemma_incorporate_positive_contains(set, paths[0], x);
        lemma_incorporate_all_contains(incorporate(set, paths[0], true), paths.drop_first(), x);
        lemma_contains_unfold(paths, x);
    }
}

/// Holds when no specifier in the list carried the negation marker.
pub open spec fn all_positive(exps: Seq<ExpansionModel>) -> bool {
    forall|i: int| 0 <= i < exps.len() ==> (#[trigger] exps[i]).positive
}

/// All concrete paths of a list of expansions, concatenated in input order.
pub open spec fn concat_paths(exps: Seq<ExpansionModel>) -> Seq<Seq<char>>
    decreases exps.len(),
{
    if exps.len() == 0 {
        Seq::empty()
    } else {
        exps[0].paths + concat_paths(exps.drop_first())
    }
}

/// The deduplicated-by-append union of a path sequence: every path is
/// incorporated positively, so a repeated path moves to the end.
pub open spec fn dedup_by_append(paths: Seq<Seq<char>>) -> Seq<Seq<char>> {
    incorporate_all(Seq::empty(), paths, true)
}

proof fn lemma_incorporate_all_concat(
    set: Seq<Seq<char>>,
    a: Seq<Seq<char>>,
    b: Seq<Seq<char>>,
    positive: bool,
)
    ensures
        incorporate_all(set, a + b, positive) == incorporate_all(
            incorporate_all(set, a, positive),
            b,
            positive,
        ),
    decreases a.len(),
{
    if a.len() == 0 {
        assert(a + b =~= b);
    } else {
        assert((a + b)[0] == a[0]);
        assert((a + b).drop_first() =~= a.drop_first() + b);
        lemma_incorporate_all_concat(incorporate(set, a[0], positive), a.drop_first(), b, positive);
    }
}

proof fn lemma_resolve_from_positive(set: Seq<Seq<char>>, exps: Seq<ExpansionModel>)
    requires
        all_positive(exps),
    ensures
        resolve_from(set, exps) == incorporate_all(set, concat_paths(exps), true),
    decreases exps.len(),
{
    if exps.len() == 0 {
        assert(incorporate_all(set, concat_paths(exps), true) == set);
    } else {
        assert(exps[0].positive);
        assert(all_positive(exps.drop_first())) by {
            assert forall|i: int|
                0 <= i < exps.drop_first().len() implies (#[trigger] exps.drop_first()[i]).positive by {
                assert(exps.drop_first()[i] == exps[i + 1]);
            }
        }
        lemma_incorporate_all_concat(set, exps[0].paths, concat_paths(exps.drop_first()), true);
        lemma_resolve_from_positive(incorporate_all(set, exps[0].paths, true), exps.drop_first());
    }
}

/// Law: for specifier lists with no negations, the resolved sequence is the
/// deduplicated-by-append union of all expansions in input order.
pub proof fn lemma_positive_resolution_is_union(exps: Seq<ExpansionModel>)
    requires
        all_positive(exps),
    ensures
        resolve(exps) == dedup_by_append(concat_paths(exps)),
{
    lemma_resolve_from_positive(Seq::empty(), exps);
}

/// Law: the deduplicated-by-append union holds exactly the paths of its
/// input, each at most once.
pub proof fn lemma_dedup_by_append_props(paths: Seq<Seq<char>>)
    ensures
        dedup_by_append(paths).no_duplicates(),
        forall|x: Seq<char>| #[trigger] dedup_by_append(paths).contains(x) == paths.contains(x),
{
    lemma_incorporate_all_unique(Seq::empty(), paths, true);
    assert forall|x: Seq<char>| #[trigger]
        dedup_by_append(paths).contains(x) == paths.contains(x) by {
        lemma_incorporate_all_contains(Seq::empty(), paths, x);
        assert(!Seq::<Seq<char>>::empty().contains(x));
    }
}

/// The expansion list that feeds a path sequence back to the resolver as
/// plain literal paths, one positive specifier per path.
pub open spec fn literal_expansions(paths: Seq<Seq<char>>) -> Seq<ExpansionModel> {
    Seq::new(paths.len(), |i: int| ExpansionModel { positive: true, paths: seq![paths[i]] })
}

proof fn lemma_resolve_from_fresh_literals(set: Seq<Seq<char>>, paths: Seq<Seq<char>>)
    requires
        (set + paths).no_duplicates(),
    ensures
        resolve_from(set, literal_expansions(paths)) == set + paths,
    decreases paths.len(),
{
    let exps = literal_expansions(paths);
    if paths.len() == 0 {
        assert(set + paths =~= set);
    } else {
        let p0 = paths[0];
        assert(exps[0] == ExpansionModel { positive: true, paths: seq![p0] });
        assert(!set.contains(p0)) by {
            if set.contains(p0) {
                let i = choose|i: int| 0 <= i < set.len() && set[i] == p0;
                assert((set + paths)[i] == p0);
                assert((set + paths)[set.len() as int] == p0);
            }
        }
        set.index_of_first_ensures(p0);
        assert(set.remove_value(p0) == set);
        assert(seq![p0][0] == p0);
        assert(seq![p0].drop_first() =~= Seq::<Seq<char>>::empty());
        assert(incorporate_all(set, seq![p0], true) == incorporate_all(
            incorporate(set, p0, true),
            seq![p0].drop_first(),
            true,
        ));
        assert(incorporate_all(set, seq![p0], true) == set.push(p0));
        assert(exps.drop_first() =~= literal_expansions(paths.drop_first()));
        assert(set.push(p0) + paths.drop_first() =~= set + paths);
        lemma_resolve_from_fresh_literals(set.push(p0), paths.drop_first());
    }
}

/// Law: resolution is idempotent. A resolved set, which never holds a path
/// twice, fed back to the resolver as literal paths yields itself unchanged.
pub proof fn lemma_resolution_idempotent(paths: Seq<Seq<char>>)
    requires
        paths.no_duplicates(),
    ensures
        resolve(literal_expansions(paths)) == paths,
{
    assert(Seq::<Seq<char>>::empty() + paths =~= paths);
    lemma_resolve_from_fresh_literals(Seq::empty(), paths);
}

proof fn lemma_deep_view_push(pre: Vec<String>, post: Vec<String>, x: String)
    requires
        post@ == pre@.push(x),
    ensures
        post.deep_view() == pre.deep_view().push(x@),
{
    assert forall|i: int| 0 <= i < post.deep_view().len() implies post.deep_view()[i]
        == pre.deep_view().push(x@)[i] by {
        assert(post.deep_view()[i] == post@[i]@);
    }
    assert(post.deep_view() =~= pre.deep_view().push(x@));
}

proof fn lemma_deep_view_remove(pre: Vec<String>, post: Vec<String>, i: int)
    requires
        0 <= i < pre@.len(),
        post@ == pre@.remove(i),
    ensures
        post.deep_view() == pre.deep_view().remove(i),
{
    pre@.remove_ensures(i);
    pre.deep_view().remove_ensures(i);
    assert forall|j: int| 0 <= j < post.deep_view().len() implies post.deep_view()[j]
        == pre.deep_view().remove(i)[j] by {
        assert(post.deep_view()[j] == post@[j]@);
        if j < i {
            assert(post@[j] == pre@[j]);
            assert(pre.deep_view().remove(i)[j] == pre.deep_view()[j]);
        } else {
            assert(post@[j] == pre@[j + 1]);
            assert(pre.deep_view().remove(i)[j] == pre.deep_view()[j + 1]);
        }
    }
    assert(post.deep_view() =~= pre.deep_view().remove(i));
}

/// The index of the first occurrence of `path` in `set`, if any.
fn find_first(set: &Vec<String>, path: &String) -> (r: Option<usize>)
    ensures
        match r {
            Some(i) => {
                &&& i < set@.len()
                &&& set.deep_view()[i as int] == path@
                &&& forall|j: int| 0 <= j < i ==> set.deep_view()[j] != path@
            },
            None => !set.deep_view().contains(path@),
        },
{
    let n = set.len();
    let mut i: usize = 0;
    while i < n
        invariant
            i <= n,
            n == set@.len(),
            forall|j: int| 0 <= j < i ==> set.deep_view()[j] != path@,
        decreases n - i,
    {
        if set[i].eq(path) {
            assert(set.deep_view()[i as int] == set@[i as int]@);
            return Some(i);
        }
        assert(set.deep_view()[i as int] == set@[i as int]@);
        i = i + 1;
    }
    assert forall|j: int| 0 <= j < set.deep_view().len() implies set.deep_view()[j] != path@ by {}
    None
}

/// Incorporate one concrete path: remove the first occurrence if present,
/// then, for a positive specifier, append the path at the end.
pub fn incorporate_path(set: &mut Vec<String>, path: String, positive: bool)
    ensures
        final(set).deep_view() == incorporate(old(set).deep_view(), path@, positive),
{
    let ghost pre = *old(set);
    proof {
        pre.deep_view().index_of_first_ensures(path@);
    }
    match find_first(set, &path) {
        Some(i) => {
            let ghost dv = pre.deep_view();
            assert(dv.index_of_first(path@) == Some(i as int));
            let _ = set.remove(i);
            proof {
                lemma_deep_view_remove(pre, *set, i as int);
                assert(set.deep_view() == dv.remove_value(path@));
            }
        },
        None => {
            assert(set.deep_view() == pre.deep_view().remove_value(path@));
        },
    }
    let ghost mid = *set;
    if positive {
        set.push(path);
        proof {
            lemma_deep_view_push(mid, *set, path);
        }
    }
}

/// Errors of path-set resolution.
#[derive(Debug)]
pub enum PathError {
    /// Neither a path-list file nor any specifier was supplied.
    NoPathsGiven,
    /// A specifier is not valid glob syntax; holds the offending pattern.
    InvalidGlobPattern(String),
    /// An entry could not be read while a glob pattern was walked; holds
    /// the unreadable path.
    GlobWalkFailed(String),
    /// No specifier matched anything on the filesystem.
    NoFilesMatched,
}

/// Resolve a list of already-expanded specifiers. This is where the ordered
/// last-write-wins-by-append semantics lives: expansions fold left to right
/// over an initially empty sequence, and an empty final sequence is an error,
/// never a silent empty answer.
pub fn resolve_expanded(expansions: &Vec<Expansion>) -> (r: Result<Vec<String>, PathError>)
    ensures
        match r {
            Ok(set) => {
                &&& set.deep_view() == resolve(expansions.deep_view())
                &&& set@.len() > 0
                &&& set.deep_view().no_duplicates()
            },
            Err(e) => {
                &&& e == PathError::NoFilesMatched
                &&& resolve(expansions.deep_view()).len() == 0
            },
        },
{
    let ghost model = expansions.deep_view();
    let mut set: Vec<String> = Vec::new();
    let n = expansions.len();
    assert(set.deep_view() =~= resolve(model.take(0)));
    let mut k: usize = 0;
    while k < n
        invariant
            k <= n,
            n == expansions@.len(),
            model == expansions.deep_view(),
            set.deep_view() == resolve(model.take(k as int)),
        decreases n - k,
    {
        let exp = &expansions[k];
        let ghost e = model[k as int];
        assert(e == expansions@[k as int]@);
        let ghost base = set.deep_view();
        let m = exp.paths.len();
        let mut j: usize = 0;
        while j < m
            invariant
                j <= m,
                m == exp.paths@.len(),
                e == exp@,
                set.deep_view() == incorporate_all(base, e.paths.take(j as int), e.positive),
            decreases m - j,
        {
            assert(exp.paths.deep_view()[j as int] == exp.paths@[j as int]@);
            incorporate_path(&mut set, exp.paths[j].clone(), exp.positive);
            proof {
                lemma_incorporate_all_push(base, e.paths.take(j as int), e.paths[j as int], e.positive);
                assert(e.paths.take(j as int).push(e.paths[j as int]) =~= e.paths.take(j + 1));
            }
            j = j + 1;
        }
        proof {
            assert(e.paths.take(m as int) =~= e.paths);
            lemma_resolve_from_push(Seq::empty(), model.take(k as int), e);
            assert(model.take(k as int).push(e) =~= model.take(k + 1));
        }
        k = k + 1;
    }
    proof {
        assert(model.take(n as int) =~= model);
        lemma_resolved_set_unique(model);
    }
    if set.is_empty() {
        Err(PathError::NoFilesMatched)
    } else {
        Ok(set)
    }
}

/// Whether a specifier token carries the negation marker.
pub open spec fn is_negated(token: Seq<char>) -> bool {
    token.len() > 0 && token[0] == '!'
}

/// The pattern under a specifier: the token with its leading run of negation
/// markers stripped.
pub open spec fn pattern_of(token: Seq<char>) -> Seq<char>
    decreases token.len(),
{
    if token.len() > 0 && token[0] == '!' {
        pattern_of(token.drop_first())
    } else {
        token
    }
}

/// Split one specifier token into its sign and its underlying pattern.
pub fn split_specifier(token: &String) -> (r: (bool, String))
    ensures
        r.0 == !is_negated(token@),
        r.1@ == pattern_of(token@),
{
    let s = token.as_str();
    let n = s.unicode_len();
    let mut i: usize = 0;
    assert(s@.skip(0) =~= s@);
    while i < n && s.get_char(i) == '!'
        invariant
            i <= n,
            n == s@.len(),
            pattern_of(s@) == pattern_of(s@.skip(i as int)),
            forall|j: int| 0 <= j < i ==> s@[j] == '!',
        decreases n - i,
    {
        proof {
            assert(s@.skip(i as int)[0] == s@[i as int]);
            assert(s@.skip(i as int).drop_first() =~= s@.skip(i + 1));
        }
        i = i + 1;
    }
    proof {
        if i < n {
            assert(s@.skip(i as int)[0] == s@[i as int]);
        }
        assert(pattern_of(s@) == s@.skip(i as int));
        assert(s@.subrange(i as int, n as int) =~= s@.skip(i as int));
    }
    let pattern = s.substring_char(i, n).to_owned();
    (i == 0, pattern)
}

/// A failure while one glob pattern was expanded against the filesystem.
enum GlobFault {
    /// The pattern is not valid glob syntax.
    InvalidPattern,
    /// An entry met during the walk could not be read; holds that entry's
    /// path as the walk reported it.
    UnreadablePath(String),
}

/// Relies on glob::glob: expands a shell-style pattern against the current
/// working directory, yielding matches in alphabetical order, and fails only
/// when the pattern itself is invalid syntax. An error from the walk itself
/// (an unreadable directory) ends the expansion. Which paths come back
/// depends on the state of the disk, so nothing is promised of the result;
/// callers state what holds of every outcome.
#[verifier::external_body]
fn expand_glob(pattern: &String) -> (r: Result<Vec<String>, GlobFault>) {
    let entries = match glob::glob(pattern.as_str()) {
        Ok(entries) => entries,
        Err(_) => return Err(GlobFault::InvalidPattern),
    };
    let mut found: Vec<String> = Vec::new();
    for entry in entries {
        match entry {
            Ok(path) => match path.to_str() {
                Some(utf8) => found.push(utf8.to_owned()),
                None => {},
            },
            Err(e) => return Err(GlobFault::UnreadablePath(e.path().to_string_lossy().into_owned())),
        }
    }
    Ok(found)
}

/// Relies on std::path::Path::exists: whether the pattern names an existing
/// filesystem entry directly. The answer depends on the state of the disk,
/// so nothing is promised of it.
#[verifier::external_body]
fn path_exists(pattern: &String) -> bool {
    std::path::Path::new(pattern.as_str()).exists()
}

/// Resolve specifier tokens against the filesystem, left to right: a token
/// naming an existing entry counts as a literal path, any other token is
/// expanded as a glob pattern, and each concrete path found is incorporated
/// under the token's sign. What the filesystem holds decides which paths
/// appear; whatever it holds, a returned set is never empty and never holds
/// a path twice, and a reported pattern is one of the specifiers' own.
pub fn resolve_specifiers(specifiers: &Vec<String>) -> (r: Result<Vec<String>, PathError>)
    ensures
        match r {
            Ok(set) => {
                &&& set@.len() > 0
                &&& set.deep_view().no_duplicates()
                &&& exists|exps: Seq<ExpansionModel>|
                    {
                        &&& #[trigger] resolve(exps) == set.deep_view()
                        &&& exps.len() == specifiers@.len()
                        &&& forall|i: int|
                            0 <= i < exps.len() ==> (#[trigger] exps[i]).positive == !is_negated(
                                specifiers.deep_view()[i],
                            )
                    }
            },
            Err(e) => match e {
                PathError::NoPathsGiven => false,
                PathError::InvalidGlobPattern(p) => exists|i: int|
                    0 <= i < specifiers@.len() && p@ == pattern_of(
                        #[trigger] specifiers.deep_view()[i],
                    ),
                PathError::GlobWalkFailed(_) => true,
                PathError::NoFilesMatched => true,
            },
        },
{
    let mut expansions: Vec<Expansion> = Vec::new();
    let n = specifiers.len();
    let mut k: usize = 0;
    while k < n
        invariant
            k <= n,
            n == specifiers@.len(),
            expansions@.len() == k,
            forall|i: int|
                0 <= i < k ==> (#[trigger] expansions.deep_view()[i]).positive == !is_negated(
                    specifiers.deep_view()[i],
                ),
        decreases n - k,
    {
        let ghost pre = expansions.deep_view();
        let (positive, pattern) = split_specifier(&specifiers[k]);
        assert(specifiers.deep_view()[k as int] == specifiers@[k as int]@);
        if path_exists(&pattern) {
            expansions.push(Expansion { positive, paths: vec![pattern] });
        } else {
            match expand_glob(&pattern) {
                Ok(found) => expansions.push(Expansion { positive, paths: found }),
                Err(GlobFault::InvalidPattern) => {
                    return Err(PathError::InvalidGlobPattern(pattern));
                },
                Err(GlobFault::UnreadablePath(failed)) => {
                    return Err(PathError::GlobWalkFailed(failed));
                },
            }
        }
        proof {
            assert forall|i: int|
                0 <= i < k + 1 implies (#[trigger] expansions.deep_view()[i]).positive
                == !is_negated(specifiers.deep_view()[i]) by {
                assert(expansions.deep_view()[i] == expansions@[i]@);
                if i < k {
                    assert(pre[i] == expansions@[i]@);
                }
            }
        }
        k = k + 1;
    }
    let resolved = resolve_expanded(&expansions);
    proof {
        if resolved is Ok {
            let witness = expansions.deep_view();
            assert(resolve(witness) == resolved->Ok_0.deep_view());
        }
    }
    resolved
}

/// The whitespace that is trimmed off the ends of a path-list file.
pub open spec fn is_space(c: char) -> bool {
    c == ' ' || c == '\t' || c == '\r' || c == '\n'
}

/// The text with leading whitespace dropped.
pub open spec fn trim_start(s: Seq<char>) -> Seq<char>
    decreases s.len(),
{
    if s.len() > 0 && is_space(s[0]) {
        trim_start(s.drop_first())
    } else {
        s
    }
}

/// The text with trailing whitespace dropped.
pub open spec fn trim_end(s: Seq<char>) -> Seq<char>
    decreases s.len(),
{
    if s.len() > 0 && is_space(s.last()) {
        trim_end(s.drop_last())
    } else {
        s
    }
}

/// The text with whitespace dropped from both ends.
pub open spec fn trimmed(s: Seq<char>) -> Seq<char> {
    trim_end(trim_start(s))
}

/// One line with a carriage return dropped from its end, as a line ending
/// `\r\n` leaves one on the piece before the `\n`.
pub open spec fn strip_cr(line: Seq<char>) -> Seq<char> {
    if line.len() > 0 && line.last() == '\r' {
        line.drop_last()
    } else {
        line
    }
}

/// The lines of `rest`, with `cur` the line accumulated so far.
pub open spec fn split_rest(rest: Seq<char>, cur: Seq<char>) -> Seq<Seq<char>>
    decreases rest.len(),
{
    if rest.len() == 0 {
        seq![strip_cr(cur)]
    } else if rest[0] == '\n' {
        seq![strip_cr(cur)] + split_rest(rest.drop_first(), Seq::empty())
    } else {
        split_rest(rest.drop_first(), cur.push(rest[0]))
    }
}

/// The lines of a text: pieces split at `\n`, each with a trailing `\r`
/// dropped; an empty text has no lines.
pub open spec fn split_lines(s: Seq<char>) -> Seq<Seq<char>> {
    if s.len() == 0 {
        Seq::empty()
    } else {
        split_rest(s, Seq::empty())
    }
}

/// What a path-list file's contents stand for: its text trimmed, then split
/// into lines, taken verbatim — no glob expansion and no negation handling.
pub open spec fn list_lines(s: Seq<char>) -> Seq<Seq<char>> {
    split_lines(trimmed(s))
}

proof fn lemma_trim_start_skip(s: Seq<char>, k: int)
    requires
        0 <= k <= s.len(),
        forall|j: int| 0 <= j < k ==> is_space(#[trigger] s[j]),
        k == s.len() || !is_space(s[k]),
    ensures
        trim_start(s) == s.skip(k),
    decreases k,
{
    if k == 0 {
        assert(s.skip(0) =~= s);
    } else {
        assert(is_space(s[0]));
        assert(s.drop_first() =~= s.skip(1));
        lemma_trim_start_skip(s.skip(1), k - 1);
        assert(s.skip(1).skip(k - 1) =~= s.skip(k));
    }
}

proof fn lemma_trim_end_take(s: Seq<char>, k: int)
    requires
        0 <= k <= s.len(),
        forall|j: int| k <= j < s.len() ==> is_space(#[trigger] s[j]),
        k == 0 || !is_space(s[k - 1]),
    ensures
        trim_end(s) == s.take(k),
    decreases s.len(),
{
    if k == s.len() {
        assert(s.take(k) =~= s);
        if s.len() > 0 {
            assert(!is_space(s.last()));
        }
    } else {
        assert(is_space(s.last()));
        assert(s.drop_last() =~= s.take(s.len() - 1));
        lemma_trim_end_take(s.take(s.len() - 1), k);
        assert(s.take(s.len() - 1).take(k) =~= s.take(k));
    }
}

fn is_space_char(c: char) -> (r: bool)
    ensures
        r == is_space(c),
{
    c == ' ' || c == '\t' || c == '\r' || c == '\n'
}

/// The verbatim resolved set that a path-list file stands for: its contents
/// trimmed and split into lines, one path per line. Specifier semantics play
/// no part here, and an empty result is not an error.
pub fn paths_from_list(content: &str) -> (lines: Vec<String>)
    ensures
        lines.deep_view() == list_lines(content@),
{
    let n = content.unicode_len();
    let mut start: usize = 0;
    while start < n && is_space_char(content.get_char(start))
        invariant
            start <= n,
            n == content@.len(),
            forall|j: int| 0 <= j < start ==> is_space(#[trigger] content@[j]),
        decreases n - start,
    {
        start = start + 1;
    }
    let mut end: usize = n;
    while end > start && is_space_char(content.get_char(end - 1))
        invariant
            start <= end <= n,
            n == content@.len(),
            forall|j: int| end <= j < n ==> is_space(#[trigger] content@[j]),
        decreases end,
    {
        end = end - 1;
    }
    proof {
        lemma_trim_start_skip(content@, start as int);
        let u = content@.skip(start as int);
        assert forall|j: int| (end - start) <= j < u.len() implies is_space(#[trigger] u[j]) by {
            assert(u[j] == content@[j + start]);
        }
        if end > start {
            assert(u[end - start - 1] == content@[end - 1]);
        }
        lemma_trim_end_take(u, end - start);
        assert(trimmed(content@) =~= content@.subrange(start as int, end as int));
    }
    let body = content.substring_char(start, end);
    let ghost t = trimmed(content@);
    assert(body@ == t);
    let m = end - start;
    let mut lines: Vec<String> = Vec::new();
    if m == 0 {
        assert(lines.deep_view() =~= list_lines(content@));
        return lines;
    }
    let mut i: usize = 0;
    let mut line_start: usize = 0;
    proof {
        assert(t.skip(0) =~= t);
        assert(t.subrange(0, 0) =~= Seq::<char>::empty());
        assert(lines.deep_view() =~= Seq::<Seq<char>>::empty());
        assert(Seq::<Seq<char>>::empty() + split_rest(t, Seq::empty()) =~= split_rest(
            t,
            Seq::empty(),
        ));
    }
    while i < m
        invariant
            line_start <= i <= m,
            m == t.len(),
            body@ == t,
            t.len() > 0,
            lines.deep_view() + split_rest(t.skip(i as int), t.subrange(line_start as int, i as int))
                == split_rest(t, Seq::empty()),
        decreases m - i,
    {
        let ghost pre_lines = lines;
        let ghost cur = t.subrange(line_start as int, i as int);
        proof {
            assert(t.skip(i as int)[0] == t[i as int]);
            assert(t.skip(i as int).drop_first() =~= t.skip(i + 1));
        }
        if body.get_char(i) == '\n' {
            let piece = extract_line(body, line_start, i);
            lines.push(piece);
            proof {
                lemma_deep_view_push(pre_lines, lines, piece);
                assert(t.subrange(i + 1, i + 1) =~= Seq::<char>::empty());
            }
            line_start = i + 1;
        } else {
            proof {
                assert(cur.push(t[i as int]) =~= t.subrange(line_start as int, i + 1));
            }
        }
        i = i + 1;
    }
    let ghost pre_lines = lines;
    let piece = extract_line(body, line_start, m);
    lines.push(piece);
    proof {
        lemma_deep_view_push(pre_lines, lines, piece);
        assert(t.skip(m as int).len() == 0);
        assert(lines.deep_view() == split_lines(t));
    }
    lines
}

/// One line of the body, its trailing carriage return dropped.
fn extract_line(body: &str, from: usize, to: usize) -> (piece: String)
    requires
        from <= to <= body@.len(),
    ensures
        piece@ == strip_cr(body@.subrange(from as int, to as int)),
{
    let ghost line = body@.subrange(from as int, to as int);
    if to > from && body.get_char(to - 1) == '\r' {
        assert(line.last() == body@[to - 1]);
        assert(line.drop_last() =~= body@.subrange(from as int, to - 1));
        body.substring_char(from, to - 1).to_owned()
    } else {
        if to > from {
            assert(line.last() == body@[to - 1]);
        }
        body.substring_char(from, to).to_owned()
    }
}

/// Resolve the whole path set as the command line supplies it. A path-list
/// file's contents, when given, win and are taken verbatim; otherwise the
/// specifier tokens are resolved against the filesystem; with neither,
/// resolution fails.
pub fn collect_paths(list_content: Option<&str>, specifiers: Option<&Vec<String>>) -> (r: Result<
    Vec<String>,
    PathError,
>)
    ensures
        match list_content {
            Some(content) => r matches Ok(set) && set.deep_view() == list_lines(content@),
            None => match specifiers {
                Some(tokens) => match r {
                    Ok(set) => {
                        &&& set@.len() > 0
                        &&& set.deep_view().no_duplicates()
                        &&& exists|exps: Seq<ExpansionModel>|
                            {
                                &&& #[trigger] resolve(exps) == set.deep_view()
                                &&& exps.len() == tokens@.len()
                                &&& forall|i: int|
                                    0 <= i < exps.len() ==> (#[trigger] exps[i]).positive
                                        == !is_negated(tokens.deep_view()[i])
                            }
                    },
                    Err(e) => match e {
                        PathError::NoPathsGiven => false,
                        PathError::InvalidGlobPattern(p) => exists|i: int|
                            0 <= i < tokens@.len() && p@ == pattern_of(
                                #[trigger] tokens.deep_view()[i],
                            ),
                        PathError::GlobWalkFailed(_) => true,
                        PathError::NoFilesMatched => true,
                    },
                },
                None => r == Err::<Vec<String>, PathError>(PathError::NoPathsGiven),
            },
        },
{
    match list_content {
        Some(content) => Ok(paths_from_list(content)),
        None => match specifiers {
            Some(tokens) => resolve_specifiers(tokens),
            None => Err(PathError::NoPathsGiven),
        },
    }
}

} // verus!
