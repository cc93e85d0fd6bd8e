//! The editor's saved settings: the list of recently opened images.
//!
//! Two entries name the same image when `std::path::Path` finds them equal,
//! which compares paths component by component. How a platform splits a path
//! into components is its own; for plain paths (see `is_plain_path`) every
//! platform splits them as `plain_components` says, and the lists below are
//! fixed exactly. Otherwise the specs take the answers of the comparisons as
//! inputs.

use vstd::prelude::*;
use crate::file_types::{
    is_supported_image, is_file_name_outcome, is_image_file_name, is_plain_path, plain_components,
};

verus! {

/// How many recent images the list keeps.
pub const RECENT_IMAGE_LIMIT: usize = 5;

/// What comparing the paths `a` and `b` may answer: a path is the same as
/// itself, and two plain paths are the same exactly when their components are.
pub open spec fn path_eq_outcome(a: Seq<char>, b: Seq<char>, r: bool) -> bool {
    &&& a == b ==> r
    &&& is_plain_path(a) && is_plain_path(b) ==> (r <==> plain_components(a) == plain_components(b))
}

/// One answer that fits `path_eq_outcome` for every pair of paths.
pub open spec fn default_same(a: Seq<char>, b: Seq<char>) -> bool {
    a == b || (is_plain_path(a) && is_plain_path(b) && plain_components(a) == plain_components(b))
}

pub proof fn lemma_default_same(a: Seq<char>, b: Seq<char>)
    ensures
        path_eq_outcome(a, b, default_same(a, b)),
{
}

/// `std::path::Path`'s `==` on two paths given as text. Claimed of it, as the
/// documentation of `Path` and `Path::components` gives it: a path equals
/// itself, and two plain paths are equal exactly when their components are.
/// Paths with a `\`, a `:` or a leading `//` are split by the platform's own
/// rules (separators, prefixes), which are not stated.
#[verifier::external_body]
fn same_path(a: &str, b: &str) -> (r: bool)
    ensures
        a@ == b@ ==> r,
        is_plain_path(a@) && is_plain_path(b@) ==> (r <==> plain_components(a@) == plain_components(b@)),
{
    std::path::Path::new(a) == std::path::Path::new(b)
}

/// A plain relative file name: a plain path without any `/`.
pub open spec fn is_plain_file_name(name: Seq<char>) -> bool {
    is_plain_path(name) && name.len() > 0 && !name.contains('/')
}

/// `std::path::Path::join` of a file name onto a directory, as text. Claimed
/// of it for a plain file name (see `is_plain_file_name`): on an empty
/// directory it gives the name; on a plain directory (see `is_plain_path`) it
/// adds the name after a separator, writing none when the directory ends in
/// `/`, else the platform's own (`/` or `\`). Other names, and directories with
/// a prefix or `\` separators, are joined by the platform's rules, which are
/// not stated.
#[verifier::external_body]
fn join_file_name(dir: &str, name: &str) -> (r: String)
    ensures
        is_plain_file_name(name@) && dir@.len() == 0 ==> r@ == name@,
        is_plain_file_name(name@) && is_plain_path(dir@) && dir@.len() > 0 && dir@.last() == '/' ==> r@ == dir@
            + name@,
        is_plain_file_name(name@) && is_plain_path(dir@) && dir@.len() > 0 && dir@.last() != '/' ==> (r@ == dir@
            + seq!['/'] + name@ || r@ == dir@ + seq!['\\'] + name@),
{
    std::path::Path::new(dir).join(name).to_string_lossy().into_owned()
}

/// The name of the settings file.
pub open spec fn config_file_name() -> Seq<char> {
    seq!['c', 'o', 'n', 'f', 'i', 'g', '.', 'j', 's', 'o', 'n']
}

/// Where the settings are saved, given the settings directory that the
/// program found for this platform and user: `config.json` inside it, joined
/// as `Path::join` does. No directory, no settings file.
pub fn config_path(config_dir: Option<&str>) -> (r: Option<String>)
    ensures
        config_dir is None ==> r is None,
        config_dir matches Some(d) ==> r matches Some(f) && {
            &&& d@.len() == 0 ==> f@ == config_file_name()
            &&& is_plain_path(d@) && d@.len() > 0 && d@.last() == '/' ==> f@ == d@ + config_file_name()
            &&& is_plain_path(d@) && d@.len() > 0 && d@.last() != '/' ==> (f@ == d@ + seq!['/']
                + config_file_name() || f@ == d@ + seq!['\\'] + config_file_name())
        },
{
    match config_dir {
        None => None,
        Some(d) => {
            let name = "config.json";
            proof {
                reveal_strlit("config.json");
                assert(name@ =~= config_file_name());
                let n = config_file_name();
                assert(!n.contains('\\') && !n.contains(':') && !n.contains('/')) by {
                    assert forall|i: int| 0 <= i < n.len() implies n[i] != '\\' && n[i] != ':' && n[i] != '/' by {}
                }
                assert(is_plain_file_name(name@));
            }
            Some(join_file_name(d, name))
        },
    }
}

/// The saved settings.
pub struct AppConfig {
    pub recent_images: Vec<String>,
}

impl Default for AppConfig {
    fn default() -> (r: Self)
        ensures
            r.recent_images@.len() == 0,
    {
        AppConfig { recent_images: Vec::new() }
    }
}

/// The texts of a list of paths.
pub open spec fn path_views(paths: Seq<String>) -> Seq<Seq<char>> {
    Seq::new(paths.len(), |i: int| paths[i]@)
}

/// No two entries are the same path: their texts differ, and so do the
/// components of two plain ones.
pub open spec fn distinct_paths(s: Seq<Seq<char>>) -> bool {
    forall|a: int, b: int|
        0 <= a < b < s.len() ==> #[trigger] s[a] != #[trigger] s[b] && !(is_plain_path(s[a]) && is_plain_path(
            s[b],
        ) && plain_components(s[a]) == plain_components(s[b]))
}

/// The first `n` paths, without those that `same` says are the path opened.
pub open spec fn others_of(paths: Seq<Seq<char>>, same: Seq<bool>, n: int) -> Seq<Seq<char>>
    decreases n,
{
    if n <= 0 {
        Seq::empty()
    } else {
        let prev = others_of(paths, same, n - 1);
        if same[n - 1] {
            prev
        } else {
            prev.push(paths[n - 1])
        }
    }
}

/// The list after `p` was opened, where `same[i]` says whether `paths[i]` is
/// the same path as `p`: `p` first, then the other paths in their order, as
/// many as fit under the limit.
pub open spec fn recorded(paths: Seq<Seq<char>>, p: Seq<char>, same: Seq<bool>) -> Seq<Seq<char>> {
    let others = others_of(paths, same, paths.len() as int);
    let keep = if others.len() < RECENT_IMAGE_LIMIT - 1 {
        others.len() as int
    } else {
        RECENT_IMAGE_LIMIT - 1
    };
    seq![p] + others.take(keep)
}

/// `same` holds answers that comparing each of `paths` with `p` may give.
pub open spec fn same_answers(paths: Seq<Seq<char>>, p: Seq<char>, same: Seq<bool>) -> bool {
    &&& same.len() == paths.len()
    &&& forall|i: int| 0 <= i < paths.len() ==> path_eq_outcome(paths[i], p, #[trigger] same[i])
}

/// The cleaned list after looking at the first `n` paths, where `valid[i]` says
/// whether path `i` is still a usable image and `dup[i]` whether it is the same
/// path as one kept before it: usable paths not kept yet are kept in order,
/// until the limit is reached.
pub open spec fn cleaned(paths: Seq<Seq<char>>, valid: Seq<bool>, dup: Seq<bool>, n: int) -> Seq<Seq<char>>
    decreases n,
{
    if n <= 0 {
        Seq::empty()
    } else {
        let prev = cleaned(paths, valid, dup, n - 1);
        if prev.len() == RECENT_IMAGE_LIMIT || !valid[n - 1] || dup[n - 1] {
            prev
        } else {
            prev.push(paths[n - 1])
        }
    }
}

/// `ans` holds answers that comparing each of `kept` with `x` may give.
pub open spec fn eq_answers(kept: Seq<Seq<char>>, x: Seq<char>, ans: Seq<bool>) -> bool {
    &&& ans.len() == kept.len()
    &&& forall|k: int| 0 <= k < kept.len() ==> path_eq_outcome(kept[k], x, #[trigger] ans[k])
}

/// `d` is what asking whether `x` is the same path as one of `kept` may give.
pub open spec fn dup_outcome(kept: Seq<Seq<char>>, x: Seq<char>, d: bool) -> bool {
    exists|ans: Seq<bool>| #[trigger] eq_answers(kept, x, ans) && d == ans.contains(true)
}

/// The answers `valid` and `dup` fit a cleaning of `paths` wherever the
/// cleaning asks: `valid[i]` while the list is not full, `dup[i]` for a usable
/// path then.
pub open spec fn dup_answers(paths: Seq<Seq<char>>, valid: Seq<bool>, dup: Seq<bool>) -> bool {
    &&& dup.len() == paths.len()
    &&& forall|i: int|
        0 <= i < paths.len() && cleaned(paths, valid, dup, i).len() < RECENT_IMAGE_LIMIT && valid[i]
            ==> dup_outcome(cleaned(paths, valid, dup, i), paths[i], #[trigger] dup[i])
}

proof fn lemma_others_same_flags(paths: Seq<Seq<char>>, s1: Seq<bool>, s2: Seq<bool>, n: int)
    requires
        forall|k: int| 0 <= k < n ==> #[trigger] s1[k] == s2[k],
    ensures
        others_of(paths, s1, n) == others_of(paths, s2, n),
    decreases n,
{
    if n > 0 {
        lemma_others_same_flags(paths, s1, s2, n - 1);
    }
}

proof fn lemma_others_prefix(paths: Seq<Seq<char>>, same: Seq<bool>, i: int, n: int)
    requires
        0 <= i <= n,
    ensures
        others_of(paths, same, i).len() <= others_of(paths, same, n).len(),
        others_of(paths, same, n).take(others_of(paths, same, i).len() as int) == others_of(paths, same, i),
    decreases n - i,
{
    if n > i {
        lemma_others_prefix(paths, same, i, n - 1);
        let a = others_of(paths, same, i);
        let b = others_of(paths, same, n - 1);
        let c = others_of(paths, same, n);
        assert(c.take(a.len() as int) =~= b.take(a.len() as int));
    } else {
        assert(others_of(paths, same, n).take(others_of(paths, same, n).len() as int) =~= others_of(
            paths,
            same,
            n,
        ));
    }
}

/// Each of `others_of` is one of the first `n` paths that `same` calls other
/// than the path opened.
proof fn lemma_others_from(paths: Seq<Seq<char>>, same: Seq<bool>, n: int)
    requires
        0 <= n <= paths.len(),
        n <= same.len(),
    ensures
        forall|k: int|
            0 <= k < others_of(paths, same, n).len() ==> exists|j: int|
                0 <= j < n && !same[j] && #[trigger] others_of(paths, same, n)[k] == paths[j],
        distinct_paths(paths.take(n)) ==> distinct_paths(others_of(paths, same, n)),
    decreases n,
{
    if n > 0 {
        lemma_others_from(paths, same, n - 1);
        let prev = others_of(paths, same, n - 1);
        let cur = others_of(paths, same, n);
        assert forall|k: int| 0 <= k < cur.len() implies exists|j: int|
            0 <= j < n && !same[j] && #[trigger] cur[k] == paths[j] by {
            if k < prev.len() {
                assert(cur[k] == prev[k]);
                let j = choose|j: int|
                    0 <= j < n - 1 && !same[j] && #[trigger] prev[k] == paths[j];
                assert(cur[k] == paths[j]);
            } else {
                assert(cur[k] == paths[n - 1]);
            }
        }
        if distinct_paths(paths.take(n)) {
            let t = paths.take(n);
            assert forall|a: int, b: int| 0 <= a < b < n - 1 implies #[trigger] paths.take(n - 1)[a]
                != #[trigger] paths.take(n - 1)[b] && !(is_plain_path(paths.take(n - 1)[a]) && is_plain_path(
                paths.take(n - 1)[b],
            ) && plain_components(paths.take(n - 1)[a]) == plain_components(paths.take(n - 1)[b])) by {
                assert(t[a] == paths.take(n - 1)[a] && t[b] == paths.take(n - 1)[b]);
            }
            if !same[n - 1] {
                assert forall|a: int, b: int| 0 <= a < b < cur.len() implies #[trigger] cur[a] != #[trigger] cur[b]
                    && !(is_plain_path(cur[a]) && is_plain_path(cur[b]) && plain_components(cur[a])
                    == plain_components(cur[b])) by {
                    if b == cur.len() - 1 {
                        assert(cur[a] == prev[a]);
                        let j = choose|j: int|
                            0 <= j < n - 1 && !same[j] && #[trigger] prev[a] == paths[j];
                        assert(t[j] == paths[j] && t[n - 1] == paths[n - 1]);
                    } else {
                        assert(cur[a] == prev[a] && cur[b] == prev[b]);
                    }
                }
            }
        }
    }
}

/// The path just opened heads the recent list; the list keeps at most
/// `RECENT_IMAGE_LIMIT` paths, the others taken in their order from the old
/// list and none of them the same path as the one opened; a list with no path
/// twice stays so.
pub proof fn lemma_recorded_facts(paths: Seq<Seq<char>>, p: Seq<char>, same: Seq<bool>)
    requires
        same_answers(paths, p, same),
    ensures
        recorded(paths, p, same).len() <= RECENT_IMAGE_LIMIT,
        recorded(paths, p, same)[0] == p,
        forall|i: int|
            1 <= i < recorded(paths, p, same).len() ==> paths.contains(#[trigger] recorded(paths, p, same)[i]) && !(
            recorded(paths, p, same)[i] == p || (is_plain_path(recorded(paths, p, same)[i]) && is_plain_path(p)
                && plain_components(recorded(paths, p, same)[i]) == plain_components(p))),
        distinct_paths(paths) ==> distinct_paths(recorded(paths, p, same)),
{
    let n = paths.len() as int;
    let others = others_of(paths, same, n);
    let r = recorded(paths, p, same);
    lemma_others_from(paths, same, n);
    assert(paths.take(n) =~= paths);
    assert forall|i: int| 1 <= i < r.len() implies paths.contains(#[trigger] r[i]) && !(r[i] == p || (
    is_plain_path(r[i]) && is_plain_path(p) && plain_components(r[i]) == plain_components(p))) by {
        assert(r[i] == others[i - 1]);
        let j = choose|j: int|
            0 <= j < n && !same[j] && #[trigger] others[i - 1] == paths[j];
        assert(path_eq_outcome(paths[j], p, same[j]));
    }
    if distinct_paths(paths) {
        assert forall|a: int, b: int| 0 <= a < b < r.len() implies #[trigger] r[a] != #[trigger] r[b] && !(
        is_plain_path(r[a]) && is_plain_path(r[b]) && plain_components(r[a]) == plain_components(r[b])) by {
            assert(r[b] == others[b - 1]);
            if a > 0 {
                assert(r[a] == others[a - 1]);
            } else {
                let j = choose|j: int|
                    0 <= j < n && !same[j] && #[trigger] others[b - 1] == paths[j];
                assert(path_eq_outcome(paths[j], p, same[j]));
            }
        }
    }
}

proof fn lemma_others_not_eq(paths: Seq<Seq<char>>, p: Seq<char>, same: Seq<bool>, eq: spec_fn(Seq<char>, Seq<char>) -> bool, n: int)
    requires
        0 <= n <= paths.len(),
        same.len() == paths.len(),
        forall|i: int| 0 <= i < paths.len() ==> #[trigger] same[i] == eq(paths[i], p),
    ensures
        forall|k: int| 0 <= k < others_of(paths, same, n).len() ==> !eq(#[trigger] others_of(paths, same, n)[k], p),
    decreases n,
{
    if n > 0 {
        lemma_others_not_eq(paths, p, same, eq, n - 1);
        let prev = others_of(paths, same, n - 1);
        let cur = others_of(paths, same, n);
        assert forall|k: int| 0 <= k < cur.len() implies !eq(#[trigger] cur[k], p) by {
            if k < prev.len() {
                assert(cur[k] == prev[k]);
            }
        }
    }
}

proof fn lemma_others_of_recorded(r: Seq<Seq<char>>, p: Seq<char>, same: Seq<bool>, m: int)
    requires
        1 <= m <= r.len(),
        same.len() == r.len(),
        same[0],
        forall|i: int| 1 <= i < r.len() ==> !#[trigger] same[i],
    ensures
        others_of(r, same, m) == r.subrange(1, m),
    decreases m,
{
    if m == 1 {
        assert(others_of(r, same, 0) =~= Seq::<Seq<char>>::empty());
        assert(r.subrange(1, 1) =~= Seq::<Seq<char>>::empty());
    } else {
        lemma_others_of_recorded(r, p, same, m - 1);
        assert(r.subrange(1, m) =~= r.subrange(1, m - 1).push(r[m - 1]));
    }
}

/// Opening the same path twice in a row changes nothing the second time, when
/// the comparison answers as a fixed function `eq` under which a path is the
/// same as itself (as `Path`'s `==` does).
pub proof fn lemma_record_twice(
    paths: Seq<Seq<char>>,
    p: Seq<char>,
    eq: spec_fn(Seq<char>, Seq<char>) -> bool,
    s1: Seq<bool>,
    s2: Seq<bool>,
)
    requires
        eq(p, p),
        s1.len() == paths.len(),
        forall|i: int| 0 <= i < paths.len() ==> #[trigger] s1[i] == eq(paths[i], p),
        s2.len() == recorded(paths, p, s1).len(),
        forall|i: int| 0 <= i < s2.len() ==> #[trigger] s2[i] == eq(recorded(paths, p, s1)[i], p),
    ensures
        recorded(recorded(paths, p, s1), p, s2) == recorded(paths, p, s1),
{
    let r1 = recorded(paths, p, s1);
    let others = others_of(paths, s1, paths.len() as int);
    lemma_others_not_eq(paths, p, s1, eq, paths.len() as int);
    assert(r1.len() <= RECENT_IMAGE_LIMIT);
    assert forall|i: int| 1 <= i < r1.len() implies !#[trigger] s2[i] by {
        assert(r1[i] == others[i - 1]);
    }
    assert(s2[0] == eq(r1[0], p));
    lemma_others_of_recorded(r1, p, s2, r1.len() as int);
    let o2 = others_of(r1, s2, r1.len() as int);
    assert(o2.take(o2.len() as int) =~= o2);
    assert(recorded(r1, p, s2) =~= r1);
}

proof fn lemma_cleaned_same_flags(
    paths: Seq<Seq<char>>,
    v1: Seq<bool>,
    d1: Seq<bool>,
    v2: Seq<bool>,
    d2: Seq<bool>,
    n: int,
)
    requires
        forall|k: int| 0 <= k < n ==> #[trigger] v1[k] == v2[k] && d1[k] == d2[k],
    ensures
        cleaned(paths, v1, d1, n) == cleaned(paths, v2, d2, n),
    decreases n,
{
    if n > 0 {
        lemma_cleaned_same_flags(paths, v1, d1, v2, d2, n - 1);
    }
}

proof fn lemma_cleaned_full(paths: Seq<Seq<char>>, valid: Seq<bool>, dup: Seq<bool>, i: int, n: int)
    requires
        0 <= i <= n,
        cleaned(paths, valid, dup, i).len() == RECENT_IMAGE_LIMIT,
    ensures
        cleaned(paths, valid, dup, n) == cleaned(paths, valid, dup, i),
    decreases n - i,
{
    if n > i {
        lemma_cleaned_full(paths, valid, dup, i, n - 1);
    }
}

/// Cleaning keeps at most `RECENT_IMAGE_LIMIT` paths, never more than it
/// looked at; when it keeps every path it looked at, they are those paths in
/// their order. With answers that comparing paths may give, no path is kept
/// twice.
pub proof fn lemma_cleaned_facts(paths: Seq<Seq<char>>, valid: Seq<bool>, dup: Seq<bool>, n: int)
    requires
        0 <= n <= paths.len(),
    ensures
        cleaned(paths, valid, dup, n).len() <= n,
        cleaned(paths, valid, dup, n).len() <= RECENT_IMAGE_LIMIT,
        cleaned(paths, valid, dup, n).len() == n ==> cleaned(paths, valid, dup, n) == paths.take(n),
        dup_answers(paths, valid, dup) ==> distinct_paths(cleaned(paths, valid, dup, n)),
    decreases n,
{
    if n > 0 {
        lemma_cleaned_facts(paths, valid, dup, n - 1);
        let prev = cleaned(paths, valid, dup, n - 1);
        assert(paths.take(n) =~= paths.take(n - 1).push(paths[n - 1]));
        if cleaned(paths, valid, dup, n).len() == n {
            assert(prev.len() == n - 1);
        }
        if dup_answers(paths, valid, dup) && !(prev.len() == RECENT_IMAGE_LIMIT || !valid[n - 1] || dup[n - 1]) {
            let x = paths[n - 1];
            assert(dup_outcome(prev, x, dup[n - 1]));
            let ans = choose|ans: Seq<bool>| #[trigger] eq_answers(prev, x, ans) && dup[n - 1] == ans.contains(true);
            let cur = prev.push(x);
            assert forall|a: int, b: int| 0 <= a < b < cur.len() implies #[trigger] cur[a] != #[trigger] cur[b]
                && !(is_plain_path(cur[a]) && is_plain_path(cur[b]) && plain_components(cur[a])
                == plain_components(cur[b])) by {
                if b == cur.len() - 1 {
                    assert(cur[a] == prev[a]);
                    assert(path_eq_outcome(prev[a], x, ans[a]));
                    if ans[a] {
                        assert(ans.contains(true));
                    }
                } else {
                    assert(cur[a] == prev[a] && cur[b] == prev[b]);
                }
            }
        }
    }
}

/// `dup[i]` says whether `x` is, under `eq`, the same path as one already kept.
pub open spec fn dup_by(kept: Seq<Seq<char>>, x: Seq<char>, eq: spec_fn(Seq<char>, Seq<char>) -> bool) -> bool {
    exists|k: int| 0 <= k < kept.len() && eq(#[trigger] kept[k], x)
}

/// The answers of a cleaning of `paths` when usability is the fixed predicate
/// `usable` and sameness the fixed function `eq`.
pub open spec fn fixed_answers(
    paths: Seq<Seq<char>>,
    usable: spec_fn(Seq<char>) -> bool,
    eq: spec_fn(Seq<char>, Seq<char>) -> bool,
    valid: Seq<bool>,
    dup: Seq<bool>,
) -> bool {
    &&& valid.len() == paths.len()
    &&& dup.len() == paths.len()
    &&& forall|i: int| 0 <= i < paths.len() ==> #[trigger] valid[i] == usable(paths[i])
    &&& forall|i: int|
        0 <= i < paths.len() ==> #[trigger] dup[i] == dup_by(cleaned(paths, valid, dup, i), paths[i], eq)
}

proof fn lemma_cleaned_by_fixed(
    paths: Seq<Seq<char>>,
    usable: spec_fn(Seq<char>) -> bool,
    eq: spec_fn(Seq<char>, Seq<char>) -> bool,
    valid: Seq<bool>,
    dup: Seq<bool>,
    n: int,
)
    requires
        0 <= n <= paths.len(),
        fixed_answers(paths, usable, eq, valid, dup),
    ensures
        forall|k: int| 0 <= k < cleaned(paths, valid, dup, n).len() ==> usable(#[trigger] cleaned(paths, valid, dup, n)[k]),
        forall|a: int, b: int|
            0 <= a < b < cleaned(paths, valid, dup, n).len() ==> !eq(
                #[trigger] cleaned(paths, valid, dup, n)[a],
                #[trigger] cleaned(paths, valid, dup, n)[b],
            ),
    decreases n,
{
    if n > 0 {
        lemma_cleaned_by_fixed(paths, usable, eq, valid, dup, n - 1);
        let prev = cleaned(paths, valid, dup, n - 1);
        let cur = cleaned(paths, valid, dup, n);
        if !(prev.len() == RECENT_IMAGE_LIMIT || !valid[n - 1] || dup[n - 1]) {
            assert(valid[n - 1] == usable(paths[n - 1]));
            assert(dup[n - 1] == dup_by(prev, paths[n - 1], eq));
            assert forall|k: int| 0 <= k < cur.len() implies usable(#[trigger] cur[k]) by {
                if k < prev.len() {
                    assert(cur[k] == prev[k]);
                }
            }
            assert forall|a: int, b: int| 0 <= a < b < cur.len() implies !eq(#[trigger] cur[a], #[trigger] cur[b]) by {
                if b == cur.len() - 1 {
                    assert(cur[a] == prev[a]);
                } else {
                    assert(cur[a] == prev[a] && cur[b] == prev[b]);
                }
            }
        }
    }
}

/// Cleaning a cleaned list again, with the same usability test and the same
/// comparison (fixed functions, as for a list looked at twice with nothing
/// changed on disk), keeps it as it is.
pub proof fn lemma_clean_twice(
    paths: Seq<Seq<char>>,
    usable: spec_fn(Seq<char>) -> bool,
    eq: spec_fn(Seq<char>, Seq<char>) -> bool,
    v1: Seq<bool>,
    d1: Seq<bool>,
    v2: Seq<bool>,
    d2: Seq<bool>,
)
    requires
        fixed_answers(paths, usable, eq, v1, d1),
        fixed_answers(cleaned(paths, v1, d1, paths.len() as int), usable, eq, v2, d2),
    ensures
        ({
            let c1 = cleaned(paths, v1, d1, paths.len() as int);
            cleaned(c1, v2, d2, c1.len() as int) == c1
        }),
{
    let c1 = cleaned(paths, v1, d1, paths.len() as int);
    lemma_cleaned_by_fixed(paths, usable, eq, v1, d1, paths.len() as int);
    lemma_cleaned_facts(paths, v1, d1, paths.len() as int);
    lemma_clean_twice_prefix(c1, usable, eq, v2, d2, c1.len() as int);
    assert(c1.take(c1.len() as int) =~= c1);
}

proof fn lemma_clean_twice_prefix(
    c1: Seq<Seq<char>>,
    usable: spec_fn(Seq<char>) -> bool,
    eq: spec_fn(Seq<char>, Seq<char>) -> bool,
    v2: Seq<bool>,
    d2: Seq<bool>,
    m: int,
)
    requires
        0 <= m <= c1.len() <= RECENT_IMAGE_LIMIT,
        fixed_answers(c1, usable, eq, v2, d2),
        forall|k: int| 0 <= k < c1.len() ==> usable(#[trigger] c1[k]),
        forall|a: int, b: int| 0 <= a < b < c1.len() ==> !eq(#[trigger] c1[a], #[trigger] c1[b]),
    ensures
        cleaned(c1, v2, d2, m) == c1.take(m),
    decreases m,
{
    if m == 0 {
        assert(c1.take(0) =~= Seq::<Seq<char>>::empty());
    } else {
        lemma_clean_twice_prefix(c1, usable, eq, v2, d2, m - 1);
        let prev = c1.take(m - 1);
        assert(v2[m - 1] == usable(c1[m - 1]));
        assert(d2[m - 1] == dup_by(cleaned(c1, v2, d2, m - 1), c1[m - 1], eq));
        if dup_by(prev, c1[m - 1], eq) {
            let k = choose|k: int| 0 <= k < prev.len() && eq(#[trigger] prev[k], c1[m - 1]);
            assert(prev[k] == c1[k]);
        }
        assert(c1.take(m) =~= prev.push(c1[m - 1]));
    }
}

/// Between plain paths the comparison has one possible answer: `default_same`.
pub proof fn lemma_plain_answers(a: Seq<char>, b: Seq<char>, r: bool)
    requires
        path_eq_outcome(a, b, r),
        is_plain_path(a),
        is_plain_path(b),
    ensures
        r == default_same(a, b),
{
}

/// Opening the same path twice in a row changes nothing the second time, for
/// the answers that `record_recent_image`'s contract allows each call when the
/// path and the list are plain.
pub proof fn lemma_record_twice_plain(paths: Seq<Seq<char>>, p: Seq<char>, s1: Seq<bool>, s2: Seq<bool>)
    requires
        is_plain_path(p),
        forall|i: int| 0 <= i < paths.len() ==> is_plain_path(#[trigger] paths[i]),
        same_answers(paths, p, s1),
        same_answers(recorded(paths, p, s1), p, s2),
    ensures
        recorded(recorded(paths, p, s1), p, s2) == recorded(paths, p, s1),
{
    let eq = |a: Seq<char>, b: Seq<char>| default_same(a, b);
    let r1 = recorded(paths, p, s1);
    lemma_recorded_facts(paths, p, s1);
    assert forall|i: int| 0 <= i < paths.len() implies #[trigger] s1[i] == eq(paths[i], p) by {
        lemma_plain_answers(paths[i], p, s1[i]);
    }
    assert forall|i: int| 0 <= i < s2.len() implies #[trigger] s2[i] == eq(r1[i], p) by {
        if i > 0 {
            assert(paths.contains(r1[i]));
            let j = choose|j: int| 0 <= j < paths.len() && paths[j] == r1[i];
            assert(is_plain_path(paths[j]));
        }
        lemma_plain_answers(r1[i], p, s2[i]);
    }
    assert(eq(p, p));
    lemma_record_twice(paths, p, eq, s1, s2);
}

proof fn lemma_cleaned_members(
    paths: Seq<Seq<char>>,
    usable: spec_fn(Seq<char>) -> bool,
    valid: Seq<bool>,
    dup: Seq<bool>,
    n: int,
)
    requires
        0 <= n <= paths.len(),
        forall|i: int| 0 <= i < paths.len() ==> is_plain_path(#[trigger] paths[i]),
        forall|i: int|
            0 <= i < paths.len() && cleaned(paths, valid, dup, i).len() < RECENT_IMAGE_LIMIT ==> #[trigger] valid[i]
                == usable(paths[i]),
    ensures
        forall|k: int|
            0 <= k < cleaned(paths, valid, dup, n).len() ==> is_plain_path(#[trigger] cleaned(paths, valid, dup, n)[k])
                && usable(cleaned(paths, valid, dup, n)[k]),
    decreases n,
{
    if n > 0 {
        lemma_cleaned_members(paths, usable, valid, dup, n - 1);
        lemma_cleaned_facts(paths, valid, dup, n - 1);
        let prev = cleaned(paths, valid, dup, n - 1);
        let cur = cleaned(paths, valid, dup, n);
        if !(prev.len() == RECENT_IMAGE_LIMIT || !valid[n - 1] || dup[n - 1]) {
            assert(valid[n - 1] == usable(paths[n - 1]));
            assert forall|k: int| 0 <= k < cur.len() implies is_plain_path(#[trigger] cur[k]) && usable(cur[k]) by {
                if k < prev.len() {
                    assert(cur[k] == prev[k]);
                }
            }
        }
    }
}

proof fn lemma_clean_twice_plain_prefix(
    c1: Seq<Seq<char>>,
    usable: spec_fn(Seq<char>) -> bool,
    v2: Seq<bool>,
    d2: Seq<bool>,
    m: int,
)
    requires
        0 <= m <= c1.len() <= RECENT_IMAGE_LIMIT,
        forall|k: int| 0 <= k < c1.len() ==> is_plain_path(#[trigger] c1[k]) && usable(c1[k]),
        distinct_paths(c1),
        forall|i: int|
            0 <= i < c1.len() && cleaned(c1, v2, d2, i).len() < RECENT_IMAGE_LIMIT ==> #[trigger] v2[i] == usable(c1[i]),
        dup_answers(c1, v2, d2),
    ensures
        cleaned(c1, v2, d2, m) == c1.take(m),
    decreases m,
{
    if m == 0 {
        assert(c1.take(0) =~= Seq::<Seq<char>>::empty());
    } else {
        lemma_clean_twice_plain_prefix(c1, usable, v2, d2, m - 1);
        let prev = c1.take(m - 1);
        let x = c1[m - 1];
        assert(v2[m - 1] == usable(x));
        assert(is_plain_path(x) && usable(x));
        assert(dup_outcome(prev, x, d2[m - 1]));
        let ans = choose|ans: Seq<bool>| #[trigger] eq_answers(prev, x, ans) && d2[m - 1] == ans.contains(true);
        if ans.contains(true) {
            let k = choose|k: int| 0 <= k < ans.len() && ans[k] == true;
            assert(prev[k] == c1[k]);
            assert(is_plain_path(c1[k]));
            assert(path_eq_outcome(prev[k], x, ans[k]));
            assert(c1[k] != c1[m - 1] && !(is_plain_path(c1[k]) && is_plain_path(c1[m - 1]) && plain_components(c1[k])
                == plain_components(c1[m - 1])));
        }
        assert(c1.take(m) =~= prev.push(x));
    }
}

/// Cleaning a cleaned list again with the same usability test keeps it as it
/// is, for the answers that `clean_recent_images`'s contract allows each call
/// when the paths are plain.
pub proof fn lemma_clean_twice_plain(
    paths: Seq<Seq<char>>,
    usable: spec_fn(Seq<char>) -> bool,
    v1: Seq<bool>,
    d1: Seq<bool>,
    v2: Seq<bool>,
    d2: Seq<bool>,
)
    requires
        forall|i: int| 0 <= i < paths.len() ==> is_plain_path(#[trigger] paths[i]),
        forall|i: int|
            0 <= i < paths.len() && cleaned(paths, v1, d1, i).len() < RECENT_IMAGE_LIMIT ==> #[trigger] v1[i]
                == usable(paths[i]),
        dup_answers(paths, v1, d1),
        ({
            let c1 = cleaned(paths, v1, d1, paths.len() as int);
            &&& forall|i: int|
                0 <= i < c1.len() && cleaned(c1, v2, d2, i).len() < RECENT_IMAGE_LIMIT ==> #[trigger] v2[i]
                    == usable(c1[i])
            &&& dup_answers(c1, v2, d2)
        }),
    ensures
        ({
            let c1 = cleaned(paths, v1, d1, paths.len() as int);
            cleaned(c1, v2, d2, c1.len() as int) == c1
        }),
{
    let c1 = cleaned(paths, v1, d1, paths.len() as int);
    lemma_cleaned_members(paths, usable, v1, d1, paths.len() as int);
    lemma_cleaned_facts(paths, v1, d1, paths.len() as int);
    lemma_clean_twice_plain_prefix(c1, usable, v2, d2, c1.len() as int);
    assert(c1.take(c1.len() as int) =~= c1);
}

fn contains_path(list: &Vec<String>, p: &String) -> (r: bool)
    ensures
        dup_outcome(path_views(list@), p@, r),
{
    let ghost lv = path_views(list@);
    let ghost mut ans: Seq<bool> = Seq::empty();
    let mut i: usize = 0;
    while i < list.len()
        invariant
            i <= list@.len(),
            lv == path_views(list@),
            ans.len() == i,
            forall|k: int| 0 <= k < i ==> path_eq_outcome(lv[k], p@, #[trigger] ans[k]) && !ans[k],
        decreases list@.len() - i,
    {
        if same_path(list[i].as_str(), p.as_str()) {
            let ghost rest = Seq::new((list@.len() - i - 1) as nat, |k: int| default_same(lv[i + 1 + k], p@));
            let ghost full = ans.push(true) + rest;
            proof {
                assert forall|k: int| 0 <= k < lv.len() implies path_eq_outcome(lv[k], p@, #[trigger] full[k]) by {
                    if k > i {
                        assert(full[k] == rest[k - i - 1]);
                        lemma_default_same(lv[k], p@);
                    }
                }
                assert(eq_answers(lv, p@, full));
                assert(full[i as int]);
                assert(full.contains(true));
            }
            return true;
        }
        proof {
            ans = ans.push(false);
        }
        i += 1;
    }
    proof {
        assert(eq_answers(lv, p@, ans));
        assert(!ans.contains(true));
    }
    false
}

/// Puts `path` at the top of the recent list, drops its older entry (the entry
/// that `Path` finds the same path), and keeps the list within
/// `RECENT_IMAGE_LIMIT`.
pub fn record_recent_image(paths: &[String], path: &str) -> (recent: Vec<String>)
    ensures
        exists|same: Seq<bool>|
            #[trigger] same_answers(path_views(paths@), path@, same) && path_views(recent@) == recorded(
                path_views(paths@),
                path@,
                same,
            ),
{
    let p = path.to_owned();
    let ghost pv = path_views(paths@);
    let ghost mut same: Seq<bool> = Seq::empty();
    let mut recent: Vec<String> = Vec::with_capacity(RECENT_IMAGE_LIMIT);
    recent.push(p.clone());
    let n = paths.len();
    let mut i: usize = 0;
    assert(path_views(recent@) =~= seq![path@] + others_of(pv, same, 0));
    while i < n && recent.len() < RECENT_IMAGE_LIMIT
        invariant
            i <= n,
            n == paths@.len(),
            pv == path_views(paths@),
            p@ == path@,
            same.len() == i,
            forall|k: int| 0 <= k < i ==> path_eq_outcome(pv[k], path@, #[trigger] same[k]),
            recent@.len() <= RECENT_IMAGE_LIMIT,
            path_views(recent@) == seq![path@] + others_of(pv, same, i as int),
        decreases n - i,
    {
        let ghost before = path_views(recent@);
        let eq = same_path(paths[i].as_str(), path);
        let ghost old_same = same;
        proof {
            same = same.push(eq);
            lemma_others_same_flags(pv, old_same, same, i as int);
        }
        if !eq {
            recent.push(paths[i].clone());
            assert(path_views(recent@) =~= before.push(pv[i as int]));
        } else {
            assert(path_views(recent@) =~= before);
        }
        i += 1;
    }
    let ghost rest = Seq::new((n - i) as nat, |k: int| default_same(pv[i + k], path@));
    let ghost all = same + rest;
    proof {
        assert forall|k: int| 0 <= k < n implies path_eq_outcome(pv[k], path@, #[trigger] all[k]) by {
            if k >= i {
                assert(all[k] == rest[k - i]);
                lemma_default_same(pv[k], path@);
            } else {
                assert(all[k] == same[k]);
            }
        }
        assert(same_answers(pv, path@, all));
        assert forall|k: int| 0 <= k < i implies #[trigger] same[k] == all[k] by {}
        lemma_others_same_flags(pv, same, all, i as int);
        lemma_others_prefix(pv, all, i as int, n as int);
        let others = others_of(pv, all, n as int);
        let fi = others_of(pv, all, i as int);
        if i == n {
            assert(others.take(others.len() as int) =~= others);
        } else {
            assert(fi.len() == RECENT_IMAGE_LIMIT - 1);
            assert(others.take(RECENT_IMAGE_LIMIT - 1) =~= fi);
        }
        assert(path_views(recent@) =~= recorded(pv, path@, all));
    }
    recent
}

/// Keeps the paths that `is_valid` accepts, in order, each path once (as
/// `Path` compares them), and at most `RECENT_IMAGE_LIMIT` of them. `is_valid`
/// is asked about the paths in order until the list is full.
pub fn clean_recent_images<F: Fn(&String) -> bool>(paths: &[String], is_valid: F) -> (r: Vec<String>)
    requires
        forall|i: int| 0 <= i < paths@.len() ==> is_valid.requires((&paths@[i],)),
    ensures
        exists|valid: Seq<bool>, dup: Seq<bool>|
            {
                &&& valid.len() == paths@.len()
                &&& #[trigger] dup_answers(path_views(paths@), valid, dup)
                &&& forall|i: int|
                    0 <= i < paths@.len() && cleaned(path_views(paths@), valid, dup, i).len() < RECENT_IMAGE_LIMIT
                        ==> is_valid.ensures((&paths@[i],), #[trigger] valid[i])
                &&& path_views(r@) == cleaned(path_views(paths@), valid, dup, paths@.len() as int)
            },
{
    let ghost pv = path_views(paths@);
    let n = paths.len();
    let mut kept: Vec<String> = Vec::new();
    let ghost mut valid: Seq<bool> = Seq::empty();
    let ghost mut dup: Seq<bool> = Seq::empty();
    let mut i: usize = 0;
    let mut full = false;
    while i < n && !full
        invariant
            i <= n,
            n == paths@.len(),
            pv == path_views(paths@),
            valid.len() == i,
            dup.len() == i,
            forall|j: int| 0 <= j < n ==> is_valid.requires((&paths@[j],)),
            forall|j: int|
                0 <= j < i && cleaned(pv, valid, dup, j).len() < RECENT_IMAGE_LIMIT ==> is_valid.ensures(
                    (&paths@[j],),
                    #[trigger] valid[j],
                ),
            forall|j: int|
                0 <= j < i && cleaned(pv, valid, dup, j).len() < RECENT_IMAGE_LIMIT && valid[j]
                    ==> dup_outcome(cleaned(pv, valid, dup, j), pv[j], #[trigger] dup[j]),
            path_views(kept@) == cleaned(pv, valid, dup, i as int),
            full ==> kept@.len() == RECENT_IMAGE_LIMIT,
        decreases n - i + (if full { 0int } else { 1int }),
    {
        proof {
            lemma_cleaned_facts(pv, valid, dup, i as int);
        }
        if kept.len() == RECENT_IMAGE_LIMIT {
            full = true;
        } else {
            let ok = is_valid(&paths[i]);
            let d = if ok {
                contains_path(&kept, &paths[i])
            } else {
                false
            };
            let ghost old_valid = valid;
            let ghost old_dup = dup;
            proof {
                valid = valid.push(ok);
                dup = dup.push(d);
                assert forall|j: int| 0 <= j <= i implies cleaned(pv, valid, dup, j) == cleaned(pv, old_valid, old_dup, j) by {
                    lemma_cleaned_same_flags(pv, old_valid, old_dup, valid, dup, j);
                }
            }
            if ok && !d {
                let ghost before = path_views(kept@);
                kept.push(paths[i].clone());
                assert(path_views(kept@) =~= before.push(pv[i as int]));
            }
            i += 1;
        }
    }
    let ghost all_valid = valid + Seq::new((n - i) as nat, |k: int| false);
    let ghost all_dup = dup + Seq::new((n - i) as nat, |k: int| false);
    proof {
        assert forall|j: int| 0 <= j <= i implies cleaned(pv, all_valid, all_dup, j) == cleaned(pv, valid, dup, j) by {
            lemma_cleaned_same_flags(pv, valid, dup, all_valid, all_dup, j);
        }
        if full {
            assert forall|j: int| i <= j <= n implies cleaned(pv, all_valid, all_dup, j) == cleaned(
                pv,
                all_valid,
                all_dup,
                i as int,
            ) by {
                lemma_cleaned_full(pv, all_valid, all_dup, i as int, j);
            }
        }
        assert forall|j: int|
            0 <= j < n && cleaned(pv, all_valid, all_dup, j).len() < RECENT_IMAGE_LIMIT implies is_valid.ensures(
            (&paths@[j],),
            #[trigger] all_valid[j],
        ) by {
            if j >= i {
                assert(cleaned(pv, all_valid, all_dup, j) == cleaned(pv, all_valid, all_dup, i as int));
                assert(false);
            } else {
                assert(all_valid[j] == valid[j]);
            }
        }
        assert forall|j: int|
            0 <= j < n && cleaned(pv, all_valid, all_dup, j).len() < RECENT_IMAGE_LIMIT && all_valid[j] implies dup_outcome(
            cleaned(pv, all_valid, all_dup, j),
            pv[j],
            #[trigger] all_dup[j],
        ) by {
            if j >= i {
                assert(all_valid[j] == false);
            } else {
                assert(all_valid[j] == valid[j] && all_dup[j] == dup[j]);
            }
        }
        assert(dup_answers(pv, all_valid, all_dup));
    }
    kept
}

/// `ok` is what checking `p` gives when `on_disk` answers for its existence and
/// then its file name (an outcome of taking it) decides whether it is an image.
pub open spec fn usable_check<F: Fn(&String) -> bool>(on_disk: &F, p: &String, ok: bool) -> bool {
    exists|b: bool|
        {
            &&& #[trigger] on_disk.ensures((p,), b)
            &&& if b {
                exists|o: Option<Seq<char>>| #[trigger] is_file_name_outcome(o, p@) && ok == is_image_file_name(o)
            } else {
                !ok
            }
        }
}

impl AppConfig {
    /// Drops the recent images that are gone from disk or are no image file,
    /// and second entries of a path, keeping at most `RECENT_IMAGE_LIMIT`;
    /// returns whether the list changed. `on_disk` says whether a path exists.
    pub fn clean_recent_images<F: Fn(&String) -> bool>(&mut self, on_disk: &F) -> (changed: bool)
        requires
            forall|i: int| 0 <= i < old(self).recent_images@.len() ==> on_disk.requires((&old(self).recent_images@[i],)),
        ensures
            exists|valid: Seq<bool>, dup: Seq<bool>|
                {
                    &&& valid.len() == old(self).recent_images@.len()
                    &&& #[trigger] dup_answers(path_views(old(self).recent_images@), valid, dup)
                    &&& forall|i: int|
                        0 <= i < valid.len() && cleaned(path_views(old(self).recent_images@), valid, dup, i).len()
                            < RECENT_IMAGE_LIMIT ==> usable_check(on_disk, &old(self).recent_images@[i], #[trigger] valid[i])
                    &&& path_views(final(self).recent_images@) == cleaned(
                        path_views(old(self).recent_images@),
                        valid,
                        dup,
                        valid.len() as int,
                    )
                },
            changed == (path_views(final(self).recent_images@) != path_views(old(self).recent_images@)),
    {
        let before_len = self.recent_images.len();
        let ghost before = self.recent_images@;
        let check = |p: &String| -> (ok: bool)
            requires
                on_disk.requires((p,)),
            ensures
                usable_check(on_disk, p, ok),
            {
                let b = on_disk(p);
                if b {
                    let r = is_supported_image(p.as_str());
                    proof {
                        let o = choose|o: Option<Seq<char>>| #[trigger] is_file_name_outcome(o, p@) && r == is_image_file_name(o);
                        assert(on_disk.ensures((p,), b));
                        assert(usable_check(on_disk, p, r));
                    }
                    r
                } else {
                    proof {
                        assert(on_disk.ensures((p,), b));
                        assert(usable_check(on_disk, p, false));
                    }
                    false
                }
            };
        let cleaned_list = clean_recent_images(&self.recent_images, check);
        let ghost pair = choose|valid: Seq<bool>, dup: Seq<bool>|
            {
                &&& valid.len() == before.len()
                &&& #[trigger] dup_answers(path_views(before), valid, dup)
                &&& forall|i: int|
                    0 <= i < before.len() && cleaned(path_views(before), valid, dup, i).len() < RECENT_IMAGE_LIMIT
                        ==> check.ensures((&before[i],), #[trigger] valid[i])
                &&& path_views(cleaned_list@) == cleaned(path_views(before), valid, dup, before.len() as int)
            };
        let ghost valid = pair.0;
        let ghost dup = pair.1;
        let changed = cleaned_list.len() != before_len;
        self.recent_images = cleaned_list;
        proof {
            lemma_cleaned_facts(path_views(before), valid, dup, before.len() as int);
            assert(path_views(before).take(before.len() as int) =~= path_views(before));
            assert forall|i: int|
                0 <= i < valid.len() && cleaned(path_views(before), valid, dup, i).len() < RECENT_IMAGE_LIMIT
                    implies usable_check(on_disk, &before[i], #[trigger] valid[i]) by {
                assert(check.ensures((&before[i],), valid[i]));
            }
        }
        changed
    }

    /// Puts `path` at the top of the recent list (see `record_recent_image`).
    pub fn record_recent_image(&mut self, path: &str)
        ensures
            exists|same: Seq<bool>|
                #[trigger] same_answers(path_views(old(self).recent_images@), path@, same) && path_views(
                    final(self).recent_images@,
                ) == recorded(path_views(old(self).recent_images@), path@, same),
    {
        self.recent_images = record_recent_image(&self.recent_images, path);
    }
}

} // verus!
