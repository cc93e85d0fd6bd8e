//! Jeff Thompson's 2013 "Sort Pixel Portal": walk a line of pixels from a seed,
//! sort the walked pixels by luminance, then jump to a random unvisited pixel of
//! similar colour to the last sorted one and walk again.
//!
//! The random choices (the first seed, the reseeds, the jumps) come from the
//! `rand` crate. `portal_step` does everything between two choices and has an
//! exact contract for every seed; `portal_sort` states what holds whatever the
//! random choices were.

use vstd::prelude::*;
use std::collections::HashSet;
use rand::Rng;
use crate::pixel::{Rgba, pixels_of, read_pixels, write_pixels, lemma_pixels_of_bytes};
use crate::stable_sort::{SortKey, stable_sorted, stable_sort_by_key, lemma_stable_sorted};

verus! {

broadcast use vstd::std_specs::hash::group_hash_axioms, vstd::std_specs::hash::axiom_spec_hash_set_len;

/// `rand::rngs::ThreadRng`, the handle to the thread-local generator, carried
/// through as an opaque value.
#[verifier::external_type_specification]
#[verifier::external_body]
pub struct ExThreadRng(rand::rngs::ThreadRng);

/// `rand::rng()`: a handle to the thread-local generator. Nothing is claimed of it.
#[verifier::external_body]
fn thread_rng() -> rand::rngs::ThreadRng {
    rand::rng()
}

/// `Rng::random_range(0..bound)` on the thread-local generator: a value below
/// `bound`. rand panics on an empty range, hence `bound > 0`. Which value comes
/// back is chance and is not stated.
#[verifier::external_body]
fn random_below(rng: &mut rand::rngs::ThreadRng, bound: usize) -> (r: usize)
    requires
        bound > 0,
    ensures
        r < bound,
{
    rng.random_range(0..bound)
}

/// The way a portal walk goes from its seed.
#[derive(Clone, Copy, Debug, PartialEq, Eq, Structural)]
pub enum PortalDirection {
    Left,
    Right,
    Up,
    Down,
}

impl Default for PortalDirection {
    fn default() -> (r: Self)
        ensures
            r == PortalDirection::Down,
    {
        PortalDirection::Down
    }
}

/// Parameters for the "Sort Pixel Portal" sort (Jeff Thompson, 2013).
#[derive(Clone, Copy, Debug, PartialEq, Eq, Structural)]
pub struct PortalSortParams {
    pub max_iterations: u32,
    pub dist: u32,
    pub margin: u8,
    pub mark_seeds: bool,
    pub direction: PortalDirection,
}

impl Default for PortalSortParams {
    fn default() -> (r: Self)
        ensures
            r == (PortalSortParams {
                max_iterations: 2000,
                dist: 200,
                margin: 50,
                mark_seeds: false,
                direction: PortalDirection::Down,
            }),
    {
        PortalSortParams {
            max_iterations: 2000,
            dist: 200,
            margin: 50,
            mark_seeds: false,
            direction: PortalDirection::default(),
        }
    }
}

/// What a portal sort did: how many walks it started and how many pixels it visited.
#[derive(Clone, Copy, Debug, PartialEq, Eq, Structural)]
pub struct PortalSortStats {
    pub iterations: u32,
    pub traversed: usize,
}

impl Default for PortalSortStats {
    fn default() -> (r: Self)
        ensures
            r == (PortalSortStats { iterations: 0, traversed: 0 }),
    {
        PortalSortStats { iterations: 0, traversed: 0 }
    }
}

/// The geometry of a walk: the distance between two of its pixels in the
/// row-major buffer, and whether it goes to higher indices.
pub open spec fn walk_step(d: PortalDirection, w: int) -> int {
    match d {
        PortalDirection::Down | PortalDirection::Up => w,
        PortalDirection::Right | PortalDirection::Left => 1,
    }
}

pub open spec fn walks_forward(d: PortalDirection) -> bool {
    d is Down || d is Right
}

pub open spec fn walks_horizontally(d: PortalDirection) -> bool {
    d is Right || d is Left
}

/// The pixels a walk from `pos` visits from its `i`-th step on: it goes on while
/// it stays in the image (and, walking sideways, in the seed's row), meets no
/// visited pixel, and has made fewer than `dist` steps.
pub open spec fn portal_path(
    pos: int,
    i: int,
    dist: int,
    w: int,
    pc: int,
    d: PortalDirection,
    visited: Set<usize>,
) -> Seq<usize>
    decreases dist - i,
{
    if i < 0 || i >= dist {
        Seq::empty()
    } else {
        let idx = if walks_forward(d) {
            pos + i * walk_step(d, w)
        } else {
            pos - i * walk_step(d, w)
        };
        if idx < 0 || idx >= pc || (walks_horizontally(d) && idx / w != pos / w) || visited.contains(
            idx as usize,
        ) {
            Seq::empty()
        } else {
            seq![idx as usize] + portal_path(pos, i + 1, dist, w, pc, d, visited.insert(idx as usize))
        }
    }
}

/// The colour a walked pixel gets: the sorted colour at its place in the walk,
/// or pure red for the seed when seeds are marked.
pub open spec fn painted_colors(sorted: Seq<Rgba>, mark_seeds: bool) -> Seq<Rgba> {
    Seq::new(
        sorted.len(),
        |k: int|
            if mark_seeds && k == 0 {
                Rgba { r: 255, g: 0, b: 0, a: 255 }
            } else {
                sorted[k]
            },
    )
}

/// `img` after the first `k` pixels of `path` got the colours `vals`.
pub open spec fn paint(img: Seq<Rgba>, path: Seq<usize>, vals: Seq<Rgba>, k: int) -> Seq<Rgba>
    decreases k,
{
    if k <= 0 {
        img
    } else {
        paint(img, path, vals, k - 1).update(path[k - 1] as int, vals[k - 1])
    }
}

/// The colours of the pixels of `path`, in walk order.
pub open spec fn path_colors(img: Seq<Rgba>, path: Seq<usize>) -> Seq<Rgba> {
    Seq::new(path.len(), |k: int| img[path[k] as int])
}

pub open spec fn abs_diff(a: u8, b: u8) -> int {
    if a >= b {
        a - b
    } else {
        b - a
    }
}

/// Each colour channel of `c` is within `margin` of the seed's (strictly).
pub open spec fn near(seed: Rgba, c: Rgba, margin: int) -> bool {
    &&& abs_diff(seed.r, c.r) < margin
    &&& abs_diff(seed.g, c.g) < margin
    &&& abs_diff(seed.b, c.b) < margin
}

/// The indices below `n` in increasing order.
pub open spec fn indices(n: int) -> Seq<usize> {
    Seq::new(n as nat, |i: int| i as usize)
}

/// The unvisited pixels of similar colour to `seed`, in index order.
pub open spec fn candidates(img: Seq<Rgba>, pc: int, seed: Rgba, margin: int, visited: Set<usize>) -> Seq<usize> {
    indices(pc).filter(|i: usize| !visited.contains(i) && near(seed, img[i as int], margin))
}


/// The walk length: `dist`, and at least one step.
pub open spec fn dist_of(p: PortalSortParams) -> int {
    if p.dist == 0 {
        1
    } else {
        p.dist as int
    }
}

/// The number of walks a sort may start: `max_iterations`, and at least one.
pub open spec fn max_walks(p: PortalSortParams) -> int {
    if p.max_iterations == 0 {
        1
    } else {
        p.max_iterations as int
    }
}

/// The walked pixels are in the image, were not visited before, and are distinct.
pub proof fn lemma_portal_path_facts(
    pos: int,
    i: int,
    dist: int,
    w: int,
    pc: int,
    d: PortalDirection,
    visited: Set<usize>,
)
    ensures
        forall|k: int|
            0 <= k < portal_path(pos, i, dist, w, pc, d, visited).len() ==> {
                &&& #[trigger] portal_path(pos, i, dist, w, pc, d, visited)[k] < pc
                &&& !visited.contains(portal_path(pos, i, dist, w, pc, d, visited)[k])
            },
        portal_path(pos, i, dist, w, pc, d, visited).no_duplicates(),
        portal_path(pos, i, dist, w, pc, d, visited).len() <= if dist - i > 0 { dist - i } else { 0 },
    decreases dist - i,
{
    if i < 0 || i >= dist {
    } else {
        let idx = if walks_forward(d) {
            pos + i * walk_step(d, w)
        } else {
            pos - i * walk_step(d, w)
        };
        if idx < 0 || idx >= pc || (walks_horizontally(d) && idx / w != pos / w) || visited.contains(
            idx as usize,
        ) {
        } else {
            let v2 = visited.insert(idx as usize);
            lemma_portal_path_facts(pos, i + 1, dist, w, pc, d, v2);
            let rest = portal_path(pos, i + 1, dist, w, pc, d, v2);
            let path = portal_path(pos, i, dist, w, pc, d, visited);
            assert(path == seq![idx as usize] + rest);
            assert forall|k: int| 0 <= k < path.len() implies #[trigger] path[k] < pc && !visited.contains(path[k]) by {
                if k > 0 {
                    assert(path[k] == rest[k - 1]);
                }
            }
            assert forall|a: int, b: int| 0 <= a < b < path.len() implies path[a] != path[b] by {
                assert(path[b] == rest[b - 1]);
                if a > 0 {
                    assert(path[a] == rest[a - 1]);
                } else {
                    assert(!v2.contains(rest[b - 1]));
                }
            }
        }
    }
}

/// The index the walk from `pos` reaches at step `i` (its `i`-th pixel).
spec fn step_index(pos: int, i: int, w: int, d: PortalDirection) -> int {
    if walks_forward(d) {
        pos + i * walk_step(d, w)
    } else {
        pos - i * walk_step(d, w)
    }
}

proof fn lemma_path_at(
    pos: int,
    i: int,
    dist: int,
    w: int,
    pc: int,
    d: PortalDirection,
    visited: Set<usize>,
    k: int,
)
    requires
        0 <= i,
        pc <= usize::MAX,
        0 <= k < portal_path(pos, i, dist, w, pc, d, visited).len(),
    ensures
        portal_path(pos, i, dist, w, pc, d, visited)[k] as int == step_index(pos, i + k, w, d),
        0 <= step_index(pos, i + k, w, d) < pc,
    decreases k,
{
    let idx = step_index(pos, i, w, d);
    let v2 = visited.insert(idx as usize);
    let path = portal_path(pos, i, dist, w, pc, d, visited);
    let rest = portal_path(pos, i + 1, dist, w, pc, d, v2);
    assert(path == seq![idx as usize] + rest);
    if k == 0 {
        assert(path[0] == idx as usize);
    } else {
        lemma_path_at(pos, i + 1, dist, w, pc, d, v2, k - 1);
        assert(path[k] == rest[k - 1]);
        assert((i + 1) + (k - 1) == i + k);
    }
}

proof fn lemma_portal_path_steps(
    pos: int,
    i: int,
    dist: int,
    w: int,
    pc: int,
    d: PortalDirection,
    visited: Set<usize>,
)
    requires
        0 <= i,
        pc <= usize::MAX,
    ensures
        ({
            let path = portal_path(pos, i, dist, w, pc, d, visited);
            let n = i + path.len();
            let idx = step_index(pos, n, w, d);
            n >= dist || idx < 0 || idx >= pc || (walks_horizontally(d) && idx / w != pos / w)
                || visited.union(path.to_set()).contains(idx as usize)
        }),
    decreases dist - i,
{
    let path = portal_path(pos, i, dist, w, pc, d, visited);
    if i >= dist {
        assert(path.len() == 0);
        assert(path.to_set() =~= Set::<usize>::empty());
        assert(visited.union(path.to_set()) =~= visited);
    } else {
        let idx = step_index(pos, i, w, d);
        if idx < 0 || idx >= pc || (walks_horizontally(d) && idx / w != pos / w) || visited.contains(idx as usize) {
            assert(path.len() == 0);
            assert(path.to_set() =~= Set::<usize>::empty());
            assert(visited.union(path.to_set()) =~= visited);
        } else {
            let v2 = visited.insert(idx as usize);
            lemma_portal_path_steps(pos, i + 1, dist, w, pc, d, v2);
            let rest = portal_path(pos, i + 1, dist, w, pc, d, v2);
            assert(path == seq![idx as usize] + rest);
            assert(path.to_set() =~= rest.to_set().insert(idx as usize)) by {
                assert forall|x: usize| path.to_set().contains(x) <==> rest.to_set().insert(idx as usize).contains(x) by {
                    if path.contains(x) {
                        let k = choose|k: int| 0 <= k < path.len() && path[k] == x;
                        if k > 0 {
                            assert(rest[k - 1] == x);
                        }
                    }
                    if rest.contains(x) {
                        let k = choose|k: int| 0 <= k < rest.len() && rest[k] == x;
                        assert(path[k + 1] == x);
                    }
                    if x == idx as usize {
                        assert(path[0] == x);
                    }
                }
            }
            assert(visited.union(path.to_set()) =~= v2.union(rest.to_set()));
            assert(i + 1 + rest.len() == i + path.len());
        }
    }
}

/// The `k`-th pixel of a walk from `pos` in a `w`-wide image: `k` rows up, `k`
/// rows down, `k` pixels left or `k` pixels right.
pub open spec fn walk_pixel(pos: int, k: int, w: int, d: PortalDirection) -> int {
    match d {
        PortalDirection::Up => pos - k * w,
        PortalDirection::Down => pos + k * w,
        PortalDirection::Left => pos - k,
        PortalDirection::Right => pos + k,
    }
}

/// The walk `path` from `pos` stopped where it had to: after `dist` pixels, or
/// because its next pixel is off the image, past the end of the seed's row
/// (walking sideways), or visited before or on the walk.
pub open spec fn walk_stops(
    pos: int,
    path: Seq<usize>,
    dist: int,
    w: int,
    pc: int,
    d: PortalDirection,
    visited: Set<usize>,
) -> bool {
    let n = path.len() as int;
    let next = walk_pixel(pos, n, w, d);
    ||| n >= dist
    ||| next < 0
    ||| next >= pc
    ||| (d is Left || d is Right) && next / w != pos / w
    ||| visited.contains(next as usize)
    ||| path.contains(next as usize)
}

/// A walk goes the way its direction says: its `k`-th pixel is `walk_pixel`
/// (`pos - k*w` walking up, `pos + k*w` down, `pos - k` left, `pos + k` right),
/// each in the image. It stops only after `dist` pixels, at the image's edge,
/// at the end of the seed's row (walking sideways), or at a pixel visited
/// before or on the walk.
pub proof fn lemma_walk_direction(pos: int, dist: int, w: int, pc: int, d: PortalDirection, visited: Set<usize>)
    requires
        pc <= usize::MAX,
    ensures
        forall|k: int|
            0 <= k < portal_path(pos, 0, dist, w, pc, d, visited).len() ==> #[trigger] portal_path(
                pos,
                0,
                dist,
                w,
                pc,
                d,
                visited,
            )[k] as int == walk_pixel(pos, k, w, d),
        forall|k: int|
            0 <= k < portal_path(pos, 0, dist, w, pc, d, visited).len() ==> 0 <= #[trigger] walk_pixel(pos, k, w, d)
                < pc,
        walk_stops(pos, portal_path(pos, 0, dist, w, pc, d, visited), dist, w, pc, d, visited),
{
    let path = portal_path(pos, 0, dist, w, pc, d, visited);
    lemma_portal_path_steps(pos, 0, dist, w, pc, d, visited);
    let n = path.len() as int;
    assert forall|k: int| #[trigger] step_index(pos, k, w, d) == walk_pixel(pos, k, w, d) by {
        assert(k * 1 == k);
    }
    assert forall|k: int|
        #![trigger path[k]]
        #![trigger walk_pixel(pos, k, w, d)]
        0 <= k < n implies (path[k] as int == walk_pixel(pos, k, w, d) && 0 <= walk_pixel(pos, k, w, d) < pc) by {
        lemma_path_at(pos, 0, dist, w, pc, d, visited, k);
        assert(0 + k == k);
        assert(step_index(pos, k, w, d) == walk_pixel(pos, k, w, d));
    }
    let idx = step_index(pos, 0int + path.len(), w, d);
    assert(0int + path.len() == n);
    assert(idx == walk_pixel(pos, n, w, d));
    assert(walks_horizontally(d) == (d is Left || d is Right));
    assert(n >= dist || idx < 0 || idx >= pc || (walks_horizontally(d) && idx / w != pos / w) || visited.union(
        path.to_set(),
    ).contains(idx as usize));
    if visited.union(path.to_set()).contains(idx as usize) && !visited.contains(idx as usize) {
        assert(path.to_set().contains(idx as usize));
        assert(path.contains(idx as usize));
    }
    assert(n >= dist || walk_pixel(pos, n, w, d) < 0 || walk_pixel(pos, n, w, d) >= pc || ((d is Left || d is Right)
        && walk_pixel(pos, n, w, d) / w != pos / w) || visited.contains(walk_pixel(pos, n, w, d) as usize)
        || path.contains(walk_pixel(pos, n, w, d) as usize));
}

fn abs_diff_u8(a: u8, b: u8) -> (r: i32)
    ensures
        r == abs_diff(a, b),
{
    if a >= b {
        (a - b) as i32
    } else {
        (b - a) as i32
    }
}

/// The unvisited pixels of similar colour to `seed`, in index order.
pub fn find_next_candidates(
    img: &Vec<Rgba>,
    pixel_count: usize,
    seed: Rgba,
    margin: i32,
    traversed: &HashSet<usize>,
) -> (r: Vec<usize>)
    requires
        pixel_count <= img@.len(),
    ensures
        r@ == candidates(img@, pixel_count as int, seed, margin as int, traversed@),
{
    let ghost pred = |i: usize| !traversed@.contains(i) && near(seed, img@[i as int], margin as int);
    let mut results: Vec<usize> = Vec::new();
    let mut i: usize = 0;
    while i < pixel_count
        invariant
            i <= pixel_count <= img@.len(),
            pred == (|i: usize| !traversed@.contains(i) && near(seed, img@[i as int], margin as int)),
            results@ == indices(i as int).filter(pred),
        decreases pixel_count - i,
    {
        let ghost before = indices(i as int);
        assert(indices(i + 1).drop_last() =~= before);
        proof {
            reveal(Seq::filter);
        }
        if !traversed.contains(&i) {
            let c = img[i];
            if abs_diff_u8(seed.r, c.r) < margin && abs_diff_u8(seed.g, c.g) < margin && abs_diff_u8(seed.b, c.b) < margin {
                results.push(i);
            }
        }
        i += 1;
    }
    results
}

/// Every candidate is a pixel of the image.
pub proof fn lemma_candidates_in_image(img: Seq<Rgba>, pc: int, seed: Rgba, margin: int, visited: Set<usize>)
    requires
        pc >= 0,
    ensures
        forall|k: int| 0 <= k < candidates(img, pc, seed, margin, visited).len()
            ==> #[trigger] candidates(img, pc, seed, margin, visited)[k] < pc,
{
    let c = candidates(img, pc, seed, margin, visited);
    assert forall|k: int| 0 <= k < c.len() implies #[trigger] c[k] < pc by {
        let p = |i: usize| !visited.contains(i) && near(seed, img[i as int], margin);
        assert(c.contains(c[k]));
        indices(pc).lemma_filter_contains_rev(p, c[k]);
        let j = choose|j: int| 0 <= j < indices(pc).len() && indices(pc)[j] == c[k];
    }
}

proof fn lemma_filter_increasing(s: Seq<usize>, pred: spec_fn(usize) -> bool)
    requires
        forall|a: int, b: int| 0 <= a < b < s.len() ==> #[trigger] s[a] < #[trigger] s[b],
    ensures
        forall|a: int, b: int|
            0 <= a < b < s.filter(pred).len() ==> #[trigger] s.filter(pred)[a] < #[trigger] s.filter(pred)[b],
    decreases s.len(),
{
    reveal(Seq::filter);
    if s.len() > 0 {
        let front = s.drop_last();
        assert forall|a: int, b: int| 0 <= a < b < front.len() implies #[trigger] front[a] < #[trigger] front[b] by {
            assert(front[a] == s[a] && front[b] == s[b]);
        }
        lemma_filter_increasing(front, pred);
        let sub = front.filter(pred);
        if pred(s.last()) {
            let t = sub.push(s.last());
            assert(s.filter(pred) == t);
            assert forall|a: int, b: int| 0 <= a < b < t.len() implies #[trigger] t[a] < #[trigger] t[b] by {
                if b == t.len() - 1 {
                    assert(sub.contains(t[a]));
                    front.lemma_filter_contains_rev(pred, t[a]);
                    let j = choose|j: int| 0 <= j < front.len() && front[j] == t[a];
                    assert(s[j] < s[s.len() - 1]);
                }
            }
        } else {
            assert(s.filter(pred) == sub);
        }
    }
}

/// Where the portal sort may jump: exactly the pixels of the image that were
/// not visited and whose red, green and blue each differ from the seed's by
/// less than `margin`, in increasing order.
pub proof fn lemma_candidates_are_near(img: Seq<Rgba>, pc: int, seed: Rgba, margin: int, visited: Set<usize>)
    requires
        0 <= pc <= img.len(),
        pc <= usize::MAX + 1,
    ensures
        ({
            let c = candidates(img, pc, seed, margin, visited);
            &&& forall|k: int|
                0 <= k < c.len() ==> {
                    let q = img[#[trigger] c[k] as int];
                    &&& c[k] < pc
                    &&& !visited.contains(c[k])
                    &&& seed.r - q.r < margin && q.r - seed.r < margin
                    &&& seed.g - q.g < margin && q.g - seed.g < margin
                    &&& seed.b - q.b < margin && q.b - seed.b < margin
                }
            &&& forall|i: usize|
                #![trigger visited.contains(i)]
                0 <= i < pc && !visited.contains(i) && seed.r - img[i as int].r < margin && img[i as int].r - seed.r
                    < margin && seed.g - img[i as int].g < margin && img[i as int].g - seed.g < margin && seed.b
                    - img[i as int].b < margin && img[i as int].b - seed.b < margin ==> c.contains(i)
            &&& forall|a: int, b: int| 0 <= a < b < c.len() ==> #[trigger] c[a] < #[trigger] c[b]
        }),
{
    broadcast use vstd::seq_lib::group_filter_ensures;

    let pred = |i: usize| !visited.contains(i) && near(seed, img[i as int], margin);
    let ix = indices(pc);
    let c = candidates(img, pc, seed, margin, visited);
    assert(c == ix.filter(pred));
    lemma_candidates_in_image(img, pc, seed, margin, visited);
    assert forall|k: int| 0 <= k < c.len() implies {
        let q = img[#[trigger] c[k] as int];
        &&& c[k] < pc
        &&& !visited.contains(c[k])
        &&& seed.r - q.r < margin && q.r - seed.r < margin
        &&& seed.g - q.g < margin && q.g - seed.g < margin
        &&& seed.b - q.b < margin && q.b - seed.b < margin
    } by {
        assert(c.contains(c[k]));
        ix.lemma_filter_contains_rev(pred, c[k]);
        assert(pred(c[k]));
    }
    assert forall|i: usize|
        #![trigger visited.contains(i)]
        0 <= i < pc && !visited.contains(i) && seed.r - img[i as int].r < margin && img[i as int].r - seed.r < margin
            && seed.g - img[i as int].g < margin && img[i as int].g - seed.g < margin && seed.b - img[i as int].b
            < margin && img[i as int].b - seed.b < margin implies c.contains(i) by {
        assert(ix[i as int] == i);
        assert(pred(i));
        ix.lemma_filter_contains(pred, i as int);
    }
    assert forall|a: int, b: int| 0 <= a < b < ix.len() implies #[trigger] ix[a] < #[trigger] ix[b] by {}
    lemma_filter_increasing(ix, pred);
}

fn walk_portal(
    img: &Vec<Rgba>,
    pos: usize,
    dist: usize,
    w: usize,
    pc: usize,
    d: PortalDirection,
    traversed: &mut HashSet<usize>,
) -> (r: (Vec<usize>, Vec<Rgba>))
    requires
        pos < pc,
        1 <= w <= pc,
        pc == img@.len(),
        4 * pc <= usize::MAX,
    ensures
        r.0@ == portal_path(pos as int, 0, dist as int, w as int, pc as int, d, old(traversed)@),
        r.1@ == path_colors(img@, r.0@),
        final(traversed)@ == old(traversed)@.union(r.0@.to_set()),
{
    let ghost t0 = traversed@;
    let ghost goal = portal_path(pos as int, 0, dist as int, w as int, pc as int, d, t0);
    let step: usize = match d {
        PortalDirection::Down | PortalDirection::Up => w,
        PortalDirection::Right | PortalDirection::Left => 1,
    };
    let forward = match d {
        PortalDirection::Down | PortalDirection::Right => true,
        PortalDirection::Up | PortalDirection::Left => false,
    };
    let horizontal = match d {
        PortalDirection::Right | PortalDirection::Left => true,
        PortalDirection::Down | PortalDirection::Up => false,
    };
    let start_row = pos / w;
    let mut path: Vec<usize> = Vec::with_capacity(dist);
    let mut colors: Vec<Rgba> = Vec::with_capacity(dist);
    let mut i: usize = 0;
    let mut offset: usize = 0;
    let mut done = false;
    assert(path@ + goal =~= goal);
    assert(t0.union(path@.to_set()) =~= t0);
    while i < dist && !done
        invariant
            i <= dist,
            pos < pc,
            1 <= w <= pc,
            4 * pc <= usize::MAX,
            pc == img@.len(),
            step == walk_step(d, w as int),
            forward == walks_forward(d),
            horizontal == walks_horizontally(d),
            start_row == pos / w,
            offset == i * step,
            offset <= pc + step,
            goal == portal_path(pos as int, 0, dist as int, w as int, pc as int, d, t0),
            done ==> goal == path@,
            !done ==> goal == path@ + portal_path(pos as int, i as int, dist as int, w as int, pc as int, d, traversed@),
            traversed@ == t0.union(path@.to_set()),
            colors@ == path_colors(img@, path@),
        decreases dist - i + (if done { 0int } else { 1int }),
    {
        let ghost rest = portal_path(pos as int, i as int, dist as int, w as int, pc as int, d, traversed@);
        let idx: usize;
        if forward {
            idx = pos + offset;
        } else if offset > pos {
            done = true;
            assert(path@ + rest =~= path@);
            continue;
        } else {
            idx = pos - offset;
        }
        if idx >= pc || (horizontal && idx / w != start_row) || traversed.contains(&idx) {
            done = true;
            assert(path@ + rest =~= path@);
        } else {
            let ghost t_before = traversed@;
            let ghost pold = path@;
            path.push(idx);
            colors.push(img[idx]);
            traversed.insert(idx);
            proof {
                let next = portal_path(pos as int, i + 1, dist as int, w as int, pc as int, d, traversed@);
                assert(rest == seq![idx] + next);
                assert(path@.drop_last() + rest =~= path@ + next);
                assert(path@ == pold.push(idx));
                pold.lemma_push_to_set_commute(idx);
                assert(traversed@ == t_before.insert(idx));
                assert(t0.union(path@.to_set()) =~= t0.union(pold.to_set()).insert(idx));
                assert(colors@ =~= path_colors(img@, path@));
            }
            assert(offset + step <= pc + step);
            assert((i + 1) * step == i * step + step) by (nonlinear_arith);
            offset = offset + step;
            i += 1;
        }
    }
    proof {
        if !done {
            assert(portal_path(pos as int, i as int, dist as int, w as int, pc as int, d, traversed@) =~= Seq::<usize>::empty());
            assert(path@ + Seq::<usize>::empty() =~= path@);
        }
    }
    (path, colors)
}


/// What the portal sort knows between walks: the pixels, and which were visited.
pub struct PortalState {
    pub img: Seq<Rgba>,
    pub visited: Set<usize>,
}

/// The pixels the walk from `pos` visits.
pub open spec fn walk_path(st: PortalState, pos: int, p: PortalSortParams, w: int, pc: int) -> Seq<usize> {
    portal_path(pos, 0, dist_of(p), w, pc, p.direction, st.visited)
}

/// The colours of a walk, stably sorted by luminance.
pub open spec fn walk_sorted(st: PortalState, path: Seq<usize>) -> Seq<Rgba> {
    stable_sorted(SortKey::Luma, path_colors(st.img, path))
}

/// The state after the walk from `pos`: the walked pixels get their sorted
/// colours (the seed red when seeds are marked) and become visited. A walk that
/// visits nothing changes nothing.
pub open spec fn after_walk(st: PortalState, pos: int, p: PortalSortParams, w: int, pc: int) -> PortalState {
    let path = walk_path(st, pos, p, w, pc);
    if path.len() == 0 {
        st
    } else {
        PortalState {
            img: paint(st.img, path, painted_colors(walk_sorted(st, path), p.mark_seeds), path.len() as int),
            visited: st.visited.union(path.to_set()),
        }
    }
}

/// Where the sort may jump after the walk from `pos`: none when the walk
/// visited nothing (the sort reseeds anywhere), else the unvisited pixels close
/// in colour to the last sorted colour.
pub open spec fn walk_candidates(st: PortalState, pos: int, p: PortalSortParams, w: int, pc: int) -> Option<Seq<usize>> {
    let path = walk_path(st, pos, p, w, pc);
    if path.len() == 0 {
        None
    } else {
        let next = after_walk(st, pos, p, w, pc);
        Some(candidates(next.img, pc, walk_sorted(st, path).last(), p.margin as int, next.visited))
    }
}

/// The state after walks from each seed in turn.
pub open spec fn walks(st: PortalState, seeds: Seq<usize>, p: PortalSortParams, w: int, pc: int) -> PortalState
    decreases seeds.len(),
{
    if seeds.len() == 0 {
        st
    } else {
        after_walk(walks(st, seeds.drop_last(), p, w, pc), seeds.last() as int, p, w, pc)
    }
}

/// `next` is a seed the sort may take after the walk from `pos`.
pub open spec fn may_follow(st: PortalState, pos: int, next: usize, p: PortalSortParams, w: int, pc: int) -> bool {
    match walk_candidates(st, pos, p, w, pc) {
        None => true,
        Some(c) => c.contains(next),
    }
}

/// The seeds are pixels of the image, and each one after the first is one the
/// sort may take after the walk before it.
pub open spec fn valid_seeds(st: PortalState, seeds: Seq<usize>, p: PortalSortParams, w: int, pc: int) -> bool {
    forall|i: int|
        0 <= i < seeds.len() ==> #[trigger] seeds[i] < pc && (i > 0 ==> may_follow(
            walks(st, seeds.take(i - 1), p, w, pc),
            seeds[i - 1] as int,
            seeds[i],
            p,
            w,
            pc,
        ))
}

/// The sort stopped after these walks: it made as many as it may, or the last
/// walk left nowhere to jump.
pub open spec fn walks_ended(st: PortalState, seeds: Seq<usize>, p: PortalSortParams, w: int, pc: int) -> bool {
    ||| seeds.len() == max_walks(p)
    ||| seeds.len() > 0 && walk_candidates(walks(st, seeds.drop_last(), p, w, pc), seeds.last() as int, p, w, pc)
        == Some(Seq::<usize>::empty())
}

proof fn lemma_valid_seeds_push(st: PortalState, s: Seq<usize>, q: usize, p: PortalSortParams, w: int, pc: int)
    ensures
        valid_seeds(st, s.push(q), p, w, pc) <==> (valid_seeds(st, s, p, w, pc) && q < pc && (s.len() > 0
            ==> may_follow(walks(st, s.drop_last(), p, w, pc), s.last() as int, q, p, w, pc))),
{
    let t = s.push(q);
    assert forall|i: int| 0 <= i <= s.len() implies #[trigger] t.take(i) == s.take(i) by {
        assert(t.take(i) =~= s.take(i));
    }
    if s.len() > 0 {
        assert(s.take(s.len() - 1) =~= s.drop_last());
    }
    if valid_seeds(st, t, p, w, pc) {
        assert forall|i: int| 0 <= i < s.len() implies #[trigger] s[i] < pc && (i > 0 ==> may_follow(
            walks(st, s.take(i - 1), p, w, pc),
            s[i - 1] as int,
            s[i],
            p,
            w,
            pc,
        )) by {
            assert(t[i] == s[i]);
            if i > 0 {
                assert(t.take(i - 1) == s.take(i - 1));
            }
        }
        assert(t[s.len() as int] == q);
    }
    if valid_seeds(st, s, p, w, pc) && q < pc && (s.len() > 0 ==> may_follow(
        walks(st, s.drop_last(), p, w, pc),
        s.last() as int,
        q,
        p,
        w,
        pc,
    )) {
        assert forall|i: int| 0 <= i < t.len() implies #[trigger] t[i] < pc && (i > 0 ==> may_follow(
            walks(st, t.take(i - 1), p, w, pc),
            t[i - 1] as int,
            t[i],
            p,
            w,
            pc,
        )) by {
            if i < s.len() {
                assert(t[i] == s[i]);
                if i > 0 {
                    assert(t.take(i - 1) == s.take(i - 1));
                }
            } else if i > 0 {
                assert(t.take(i - 1) == s.take(i - 1));
            }
        }
    }
}

/// One walk of the portal sort from the seed `pos`: the walked pixels are
/// stably sorted by luminance along the walk (the seed turns red when seeds are
/// marked), they become visited, and the unvisited pixels close in colour to
/// the last sorted colour are returned. `None` when the walk visits nothing (the
/// seed was visited already); then nothing changes.
pub fn portal_step(
    img: &mut Vec<Rgba>,
    pos: usize,
    w: usize,
    pixel_count: usize,
    params: PortalSortParams,
    traversed: &mut HashSet<usize>,
) -> (r: Option<Vec<usize>>)
    requires
        pos < pixel_count,
        1 <= w <= pixel_count,
        old(img)@.len() == pixel_count,
        4 * pixel_count <= usize::MAX,
    ensures
        ({
            let st = PortalState { img: old(img)@, visited: old(traversed)@ };
            let next = after_walk(st, pos as int, params, w as int, pixel_count as int);
            &&& final(img)@ == next.img
            &&& final(traversed)@ == next.visited
            &&& match r {
                None => walk_candidates(st, pos as int, params, w as int, pixel_count as int) is None,
                Some(c) => walk_candidates(st, pos as int, params, w as int, pixel_count as int) == Some(c@),
            }
        }),
{
    let ghost img0 = img@;
    let ghost t0 = traversed@;
    let dist: usize = if params.dist == 0 { 1 } else { params.dist as usize };
    let (path, colors) = walk_portal(img, pos, dist, w, pixel_count, params.direction, traversed);
    if colors.len() == 0 {
        proof {
            assert(path@ =~= Seq::<usize>::empty());
            assert(t0.union(path@.to_set()) =~= t0);
        }
        return None;
    }
    let sorted = stable_sort_by_key(SortKey::Luma, &colors);
    proof {
        lemma_portal_path_facts(pos as int, 0, dist as int, w as int, pixel_count as int, params.direction, t0);
    }
    let ghost vals = painted_colors(sorted@, params.mark_seeds);
    let n = path.len();
    let mut k: usize = 0;
    while k < n
        invariant
            k <= n,
            n == path@.len(),
            sorted@.len() == n,
            img@.len() == pixel_count,
            forall|j: int| 0 <= j < n ==> #[trigger] path@[j] < pixel_count,
            vals == painted_colors(sorted@, params.mark_seeds),
            img@ == paint(img0, path@, vals, k as int),
        decreases n - k,
    {
        let c = if params.mark_seeds && k == 0 {
            Rgba { r: 255, g: 0, b: 0, a: 255 }
        } else {
            sorted[k]
        };
        img.set(path[k], c);
        k += 1;
    }
    let last = sorted[n - 1];
    let margin = params.margin as i32;
    let cands = find_next_candidates(img, pixel_count, last, margin, traversed);
    Some(cands)
}

proof fn lemma_paint_untouched(img: Seq<Rgba>, path: Seq<usize>, vals: Seq<Rgba>, k: int, j: int)
    requires
        0 <= k <= path.len(),
        0 <= j < img.len(),
        forall|m: int| 0 <= m < k ==> #[trigger] path[m] != j,
        forall|m: int| 0 <= m < k ==> #[trigger] path[m] < img.len(),
    ensures
        paint(img, path, vals, k)[j] == img[j],
        paint(img, path, vals, k).len() == img.len(),
    decreases k,
{
    if k > 0 {
        lemma_paint_untouched(img, path, vals, k - 1, j);
    }
}

proof fn lemma_paint_len(img: Seq<Rgba>, path: Seq<usize>, vals: Seq<Rgba>, k: int)
    requires
        0 <= k <= path.len(),
        forall|m: int| 0 <= m < k ==> #[trigger] path[m] < img.len(),
    ensures
        paint(img, path, vals, k).len() == img.len(),
    decreases k,
{
    if k > 0 {
        lemma_paint_len(img, path, vals, k - 1);
    }
}

proof fn lemma_paint_prefix(img: Seq<Rgba>, path: Seq<usize>, vals: Seq<Rgba>, k: int)
    requires
        0 <= k <= path.len(),
        path.no_duplicates(),
        forall|m: int| 0 <= m < path.len() ==> #[trigger] path[m] < img.len(),
        vals.len() == path.len(),
    ensures
        paint(img, path, vals, k).to_multiset().add(path_colors(img, path).take(k).to_multiset())
            =~= img.to_multiset().add(vals.take(k).to_multiset()),
    decreases k,
{
    broadcast use vstd::seq_lib::group_to_multiset_ensures;
    broadcast use vstd::multiset::group_multiset_axioms;

    let cols = path_colors(img, path);
    if k == 0 {
        assert(cols.take(0) =~= Seq::<Rgba>::empty());
        assert(vals.take(0) =~= Seq::<Rgba>::empty());
    } else {
        let j = k - 1;
        lemma_paint_prefix(img, path, vals, j);
        let prev = paint(img, path, vals, j);
        let p = path[j] as int;
        assert forall|m: int| 0 <= m < j implies #[trigger] path[m] != p by {}
        lemma_paint_len(img, path, vals, j);
        lemma_paint_untouched(img, path, vals, j, p);
        assert(prev[p] == cols[j]);
        assert(cols.take(k) =~= cols.take(j).push(cols[j]));
        assert(vals.take(k) =~= vals.take(j).push(vals[j]));
        assert(prev.to_multiset().count(cols[j]) > 0) by {
            assert(prev.contains(prev[p]));
        }
        let cur = paint(img, path, vals, k);
        assert(cur == prev.update(p, vals[j]));
        assert(cur.to_multiset() == prev.to_multiset().insert(vals[j]).remove(cols[j]));
        let lhs = cur.to_multiset().add(cols.take(k).to_multiset());
        let rhs = img.to_multiset().add(vals.take(k).to_multiset());
        assert forall|x: Rgba| #[trigger] lhs.count(x) == rhs.count(x) by {
            assert(prev.to_multiset().add(cols.take(j).to_multiset()).count(x) == img.to_multiset().add(
                vals.take(j).to_multiset(),
            ).count(x));
        }
        assert(lhs =~= rhs);
    }
}

/// Writing a reordering of the walked pixels' own colours back over a walk of
/// distinct pixels only moves pixels around.
pub proof fn lemma_paint_permutes(img: Seq<Rgba>, path: Seq<usize>, vals: Seq<Rgba>)
    requires
        path.no_duplicates(),
        forall|m: int| 0 <= m < path.len() ==> #[trigger] path[m] < img.len(),
        vals.len() == path.len(),
        vals.to_multiset() == path_colors(img, path).to_multiset(),
    ensures
        paint(img, path, vals, path.len() as int).to_multiset() == img.to_multiset(),
{
    broadcast use vstd::multiset::group_multiset_axioms;

    let cols = path_colors(img, path);
    lemma_paint_prefix(img, path, vals, path.len() as int);
    assert(cols.take(path.len() as int) =~= cols);
    assert(vals.take(path.len() as int) =~= vals);
    let fin = paint(img, path, vals, path.len() as int);
    assert(fin.to_multiset() =~= img.to_multiset()) by {
        assert forall|x: Rgba| #[trigger] fin.to_multiset().count(x) == img.to_multiset().count(x) by {
            assert(fin.to_multiset().add(cols.to_multiset()).count(x) == img.to_multiset().add(
                vals.to_multiset(),
            ).count(x));
        }
    }
}


/// Jeff Thompson's "Sort Pixel Portal" on a `width` by `height` RGBA8 image.
///
/// Starting from a random seed, each walk visits up to `dist` pixels in the
/// chosen direction (stopping at the image edge, at the end of the seed's row
/// when walking sideways, and at a visited pixel), sorts them by luminance along
/// the walk, and jumps to a random unvisited pixel whose colour is within
/// `margin` of the last sorted colour; a walk that visits nothing reseeds at
/// random. The sort stops after `max_iterations` walks (at least one) or when no
/// such pixel is left. `portal_step` states each walk exactly.
///
/// An empty image, or a buffer shorter than the image, is left as it is.
#[verifier::rlimit(40)]
#[verifier::spinoff_prover]
pub fn portal_sort(rgba: &mut [u8], width: u32, height: u32, params: PortalSortParams) -> (stats: PortalSortStats)
    requires
        4 * (width as int) * (height as int) <= usize::MAX,
    ensures
        ({
            let pc = (width as int) * (height as int);
            if pc == 0 || old(rgba)@.len() < 4 * pc {
                &&& final(rgba)@ == old(rgba)@
                &&& stats == (PortalSortStats { iterations: 0, traversed: 0 })
            } else {
                &&& final(rgba)@.len() == old(rgba)@.len()
                &&& final(rgba)@.skip(4 * pc) == old(rgba)@.skip(4 * pc)
                &&& !params.mark_seeds ==> pixels_of(final(rgba)@, pc).to_multiset() == pixels_of(
                    old(rgba)@,
                    pc,
                ).to_multiset()
                &&& 1 <= stats.iterations <= max_walks(params)
                &&& stats.traversed <= pc
                &&& exists|seeds: Seq<usize>| {
                    let init = PortalState { img: pixels_of(old(rgba)@, pc), visited: Set::empty() };
                    &&& #[trigger] seeds.len() == stats.iterations
                    &&& valid_seeds(init, seeds, params, width as int, pc)
                    &&& walks_ended(init, seeds, params, width as int, pc)
                    &&& pixels_of(final(rgba)@, pc) == walks(init, seeds, params, width as int, pc).img
                    &&& stats.traversed == walks(init, seeds, params, width as int, pc).visited.len()
                }
            }
        }),
{
    let w = width as usize;
    let h = height as usize;
    assert(4 * w * h == 4 * (w * h)) by (nonlinear_arith);
    let pixel_count = w * h;
    if pixel_count == 0 || rgba.len() < pixel_count * 4 {
        return PortalSortStats::default();
    }
    assert(w <= pixel_count) by (nonlinear_arith)
        requires
            pixel_count == w * h,
            pixel_count > 0,
    ;
    let ghost start = rgba@;
    let mut img = read_pixels(rgba, pixel_count);
    let ghost img0 = img@;
    let ghost all = indices(pixel_count as int).to_set();
    let max_iterations = if params.max_iterations == 0 { 1 } else { params.max_iterations };
    let capacity = if pixel_count < 1024 * 1024 { pixel_count } else { 1024 * 1024 };
    let mut traversed: HashSet<usize> = HashSet::with_capacity(capacity);
    let mut rng = thread_rng();
    let mut stats = PortalSortStats::default();
    let mut pos = random_below(&mut rng, pixel_count);
    let mut stop = false;
    let ghost init = PortalState { img: img0, visited: Set::empty() };
    let ghost mut seeds: Seq<usize> = Seq::empty();
    assert(traversed@.subset_of(all));
    proof {
        lemma_valid_seeds_push(init, seeds, pos, params, w as int, pixel_count as int);
    }
    while stats.iterations < max_iterations && !stop
        invariant
            1 <= w <= pixel_count,
            seeds.len() == stats.iterations,
            walks(init, seeds, params, w as int, pixel_count as int) == (PortalState { img: img@, visited: traversed@ }),
            !stop ==> valid_seeds(init, seeds.push(pos), params, w as int, pixel_count as int),
            stop ==> valid_seeds(init, seeds, params, w as int, pixel_count as int),
            stop ==> seeds.len() > 0 && walk_candidates(
                walks(init, seeds.drop_last(), params, w as int, pixel_count as int),
                seeds.last() as int,
                params,
                w as int,
                pixel_count as int,
            ) == Some(Seq::<usize>::empty()),
            4 * pixel_count <= usize::MAX,
            max_iterations as int == max_walks(params),
            stats.iterations <= max_iterations,
            pos < pixel_count,
            img@.len() == pixel_count,
            !params.mark_seeds ==> img@.to_multiset() == img0.to_multiset(),
            all == indices(pixel_count as int).to_set(),
            traversed@.subset_of(all),
            stop ==> stats.iterations >= 1,
        decreases max_iterations - stats.iterations + (if stop { 0int } else { 1int }),
    {
        stats.iterations = stats.iterations + 1;
        let ghost before = img@;
        let ghost t_before = traversed@;
        let r = portal_step(&mut img, pos, w, pixel_count, params, &mut traversed);
        let ghost prev_seeds = seeds;
        proof {
            seeds = seeds.push(pos);
            assert(seeds.drop_last() =~= prev_seeds);
        }
        proof {
            let path = portal_path(
                pos as int,
                0,
                dist_of(params),
                w as int,
                pixel_count as int,
                params.direction,
                t_before,
            );
            lemma_portal_path_facts(pos as int, 0, dist_of(params), w as int, pixel_count as int, params.direction, t_before);
            if path.len() > 0 {
                let sorted = stable_sorted(SortKey::Luma, path_colors(before, path));
                lemma_stable_sorted(SortKey::Luma, path_colors(before, path));
                lemma_paint_len(before, path, painted_colors(sorted, params.mark_seeds), path.len() as int);
                if !params.mark_seeds {
                    assert(painted_colors(sorted, false) =~= sorted);
                    lemma_paint_permutes(before, path, sorted);
                }
                assert forall|x: usize| #[trigger] path.to_set().contains(x) implies all.contains(x) by {
                    let k = choose|k: int| 0 <= k < path.len() && path[k] == x;
                    assert(indices(pixel_count as int)[x as int] == x);
                }
            }
        }
        match r {
            None => {
                pos = random_below(&mut rng, pixel_count);
                proof {
                    lemma_valid_seeds_push(init, seeds, pos, params, w as int, pixel_count as int);
                }
            },
            Some(cands) => {
                if cands.len() == 0 {
                    stop = true;
                    assert(cands@ =~= Seq::<usize>::empty());
                } else {
                    let k = random_below(&mut rng, cands.len());
                    proof {
                        let path = portal_path(
                            pos as int,
                            0,
                            dist_of(params),
                            w as int,
                            pixel_count as int,
                            params.direction,
                            t_before,
                        );
                        let sorted = stable_sorted(SortKey::Luma, path_colors(before, path));
                        lemma_candidates_in_image(img@, pixel_count as int, sorted.last(), params.margin as int, traversed@);
                    }
                    pos = cands[k];
                    proof {
                        assert(cands@.contains(pos));
                        lemma_valid_seeds_push(init, seeds, pos, params, w as int, pixel_count as int);
                    }
                }
            },
        }
    }
    proof {
        if !stop {
            lemma_valid_seeds_push(init, seeds, pos, params, w as int, pixel_count as int);
        }
        vstd::set_lib::lemma_len_subset(traversed@, all);
        indices(pixel_count as int).lemma_cardinality_of_set();
    }
    stats.traversed = traversed.len();
    write_pixels(rgba, &img);
    proof {
        lemma_pixels_of_bytes(img@, start.skip(4 * pixel_count as int));
        assert(rgba@.skip(4 * pixel_count as int) =~= start.skip(4 * pixel_count as int));
        assert(walks_ended(init, seeds, params, w as int, pixel_count as int));
        assert(seeds.len() == stats.iterations);
    }
    stats
}

} // verus!
