//! The image being edited and the counters that tell stale render requests
//! from current ones.
//!
//! Every load or clear of the source moves the source epoch; every preview
//! request that must be the latest one moves the preview epoch. A request
//! remembers both epochs; it is current while neither has moved since.

use vstd::prelude::*;
use std::sync::Arc;

verus! {

/// A decoded RGBA8 image.
pub struct DecodedImage {
    pub rgba: Vec<u8>,
    pub width: u32,
    pub height: u32,
}

/// The epoch after `e`; the counter wraps around.
pub open spec fn next_epoch(e: usize) -> usize {
    if e == usize::MAX {
        0
    } else {
        (e + 1) as usize
    }
}

fn advance(e: usize) -> (r: usize)
    ensures
        r == next_epoch(e),
{
    if e == usize::MAX {
        0
    } else {
        e + 1
    }
}

/// Whether a preview request must be the latest one (and so supersedes every
/// earlier request) or may be dropped for a newer one.
#[derive(Clone, Copy, Debug, PartialEq, Eq, Structural)]
pub enum PreviewFreshness {
    RequireLatest,
    AllowSuperseded,
}

/// What an `EditorState` holds.
pub struct EditorView {
    pub source: Seq<u8>,
    pub width: u32,
    pub height: u32,
    pub source_epoch: usize,
    pub preview_epoch: usize,
}

impl EditorView {
    /// A request issued at these epochs is still current.
    pub open spec fn is_current(self, source_epoch: usize, preview_epoch: usize) -> bool {
        source_epoch == self.source_epoch && preview_epoch == self.preview_epoch
    }
}

/// The source image of the editor and its epochs.
pub struct EditorState {
    source: Arc<Vec<u8>>,
    width: u32,
    height: u32,
    source_epoch: usize,
    preview_epoch: usize,
}

impl View for EditorState {
    type V = EditorView;

    closed spec fn view(&self) -> EditorView {
        EditorView {
            source: self.source@,
            width: self.width,
            height: self.height,
            source_epoch: self.source_epoch,
            preview_epoch: self.preview_epoch,
        }
    }
}

impl Default for EditorState {
    fn default() -> (r: Self)
        ensures
            r@.source.len() == 0,
            r@.width == 0,
            r@.height == 0,
            r@.source_epoch == 0,
            r@.preview_epoch == 0,
    {
        EditorState {
            source: Arc::new(Vec::new()),
            width: 0,
            height: 0,
            source_epoch: 0,
            preview_epoch: 0,
        }
    }
}

impl EditorState {
    /// The source image's RGBA8 bytes, shared.
    pub fn source(&self) -> (r: Arc<Vec<u8>>)
        ensures
            r@ == self@.source,
    {
        Arc::clone(&self.source)
    }

    pub fn width(&self) -> (r: u32)
        ensures
            r == self@.width,
    {
        self.width
    }

    pub fn height(&self) -> (r: u32)
        ensures
            r == self@.height,
    {
        self.height
    }

    /// An image is loaded.
    pub fn is_loaded(&self) -> (r: bool)
        ensures
            r == (self@.source.len() > 0),
    {
        self.source.len() != 0
    }

    /// Makes `decoded` the source image; every request issued before becomes stale.
    pub fn load(&mut self, decoded: DecodedImage)
        ensures
            final(self)@.source == decoded.rgba@,
            final(self)@.width == decoded.width,
            final(self)@.height == decoded.height,
            final(self)@.source_epoch == next_epoch(old(self)@.source_epoch),
            final(self)@.preview_epoch == old(self)@.preview_epoch,
    {
        self.width = decoded.width;
        self.height = decoded.height;
        self.source = Arc::new(decoded.rgba);
        self.bump_source_epoch();
    }

    /// Drops the source image; every request issued before becomes stale.
    pub fn clear(&mut self)
        ensures
            final(self)@.source.len() == 0,
            final(self)@.width == 0,
            final(self)@.height == 0,
            final(self)@.source_epoch == next_epoch(old(self)@.source_epoch),
            final(self)@.preview_epoch == old(self)@.preview_epoch,
    {
        self.source = Arc::new(Vec::new());
        self.width = 0;
        self.height = 0;
        self.bump_source_epoch();
    }

    pub fn source_epoch(&self) -> (r: usize)
        ensures
            r == self@.source_epoch,
    {
        self.source_epoch
    }

    /// The source changed since `source_epoch` was read.
    pub fn is_source_stale(&self, source_epoch: usize) -> (r: bool)
        ensures
            r == (source_epoch != self@.source_epoch),
    {
        self.source_epoch != source_epoch
    }

    pub fn preview_epoch(&self) -> (r: usize)
        ensures
            r == self@.preview_epoch,
    {
        self.preview_epoch
    }

    /// Moves the preview epoch and returns the new one.
    pub fn bump_preview_epoch(&mut self) -> (r: usize)
        ensures
            r == next_epoch(old(self)@.preview_epoch),
            final(self)@.preview_epoch == r,
            final(self)@.source_epoch == old(self)@.source_epoch,
            final(self)@.source == old(self)@.source,
            final(self)@.width == old(self)@.width,
            final(self)@.height == old(self)@.height,
    {
        self.preview_epoch = advance(self.preview_epoch);
        self.preview_epoch
    }

    /// A newer preview was requested since `preview_epoch` was read.
    pub fn is_preview_stale(&self, preview_epoch: usize) -> (r: bool)
        ensures
            r == (preview_epoch != self@.preview_epoch),
    {
        self.preview_epoch != preview_epoch
    }

    fn bump_source_epoch(&mut self) -> (r: usize)
        ensures
            r == next_epoch(old(self)@.source_epoch),
            final(self)@.source_epoch == r,
            final(self)@.preview_epoch == old(self)@.preview_epoch,
            final(self)@.source == old(self)@.source,
            final(self)@.width == old(self)@.width,
            final(self)@.height == old(self)@.height,
    {
        self.source_epoch = advance(self.source_epoch);
        self.source_epoch
    }

    /// Whether a render request issued at these epochs is still current.
    pub fn is_current(&self, source_epoch: usize, preview_epoch: usize) -> (r: bool)
        ensures
            r == self@.is_current(source_epoch, preview_epoch),
    {
        !self.is_source_stale(source_epoch) && !self.is_preview_stale(preview_epoch)
    }

    /// Whether the render worker does a piece of work now: nothing without an
    /// image; a preview, which carries the epochs it was issued at
    /// (`preview_ticket`), only while it is current; a sort (no ticket) always.
    pub fn admits_work(&self, ticket: Option<(usize, usize)>) -> (r: bool)
        ensures
            r == (self@.source.len() > 0 && match ticket {
                None => true,
                Some(t) => self@.is_current(t.0, t.1),
            }),
    {
        if !self.is_loaded() {
            return false;
        }
        match ticket {
            None => true,
            Some(t) => self.is_current(t.0, t.1),
        }
    }

    /// The epochs a new preview request carries: none without an image; a
    /// request that must be the latest moves the preview epoch first.
    pub fn preview_ticket(&mut self, freshness: PreviewFreshness) -> (r: Option<(usize, usize)>)
        ensures
            old(self)@.source.len() == 0 ==> r is None && final(self)@ == old(self)@,
            old(self)@.source.len() > 0 ==> {
                let p = match freshness {
                    PreviewFreshness::RequireLatest => next_epoch(old(self)@.preview_epoch),
                    PreviewFreshness::AllowSuperseded => old(self)@.preview_epoch,
                };
                &&& r == Some((old(self)@.source_epoch, p))
                &&& final(self)@.preview_epoch == p
                &&& final(self)@.source_epoch == old(self)@.source_epoch
                &&& final(self)@.source == old(self)@.source
                &&& final(self)@.width == old(self)@.width
                &&& final(self)@.height == old(self)@.height
            },
    {
        if !self.is_loaded() {
            return None;
        }
        let preview_epoch = match freshness {
            PreviewFreshness::RequireLatest => self.bump_preview_epoch(),
            PreviewFreshness::AllowSuperseded => self.preview_epoch(),
        };
        Some((self.source_epoch(), preview_epoch))
    }
}

/// Loading or clearing the source makes every request issued before it stale,
/// and a preview that must be the latest makes every earlier preview stale: a
/// moved epoch never equals the one it moved from.
pub proof fn lemma_moved_epoch_is_new(e: usize)
    ensures
        next_epoch(e) != e,
{
}

/// A request issued before a load or clear is no longer current after it.
pub proof fn lemma_load_invalidates_requests(before: EditorView, after: EditorView, preview_epoch: usize)
    requires
        after.source_epoch == next_epoch(before.source_epoch),
    ensures
        !after.is_current(before.source_epoch, preview_epoch),
{
}

/// A ticket that must be the latest is current right after it is issued, and
/// every ticket issued before it is not.
pub proof fn lemma_latest_ticket_supersedes(
    before: EditorView,
    after: EditorView,
    ticket: (usize, usize),
    earlier: (usize, usize),
)
    requires
        ticket == (before.source_epoch, next_epoch(before.preview_epoch)),
        after.preview_epoch == ticket.1,
        after.source_epoch == before.source_epoch,
        earlier.1 == before.preview_epoch,
    ensures
        after.is_current(ticket.0, ticket.1),
        !after.is_current(earlier.0, earlier.1),
{
}

/// The epoch after `k` moves from `e`.
pub open spec fn epoch_after(e: usize, k: nat) -> usize
    decreases k,
{
    if k == 0 {
        e
    } else {
        next_epoch(epoch_after(e, (k - 1) as nat))
    }
}

proof fn lemma_epoch_after_mod(e: usize, k: nat)
    ensures
        epoch_after(e, k) as int == (e + k) % (usize::MAX as int + 1),
    decreases k,
{
    let m = usize::MAX as int + 1;
    if k == 0 {
        assert((e as int) % m == e) by (nonlinear_arith)
            requires
                0 <= e < m,
        ;
    } else {
        lemma_epoch_after_mod(e, (k - 1) as nat);
        let a = e + k - 1;
        let x = a % m;
        assert(x == m - 1 ==> (a + 1) % m == 0) by (nonlinear_arith)
            requires
                x == a % m,
                m > 0,
                a >= 0,
        ;
        assert(x < m - 1 ==> (a + 1) % m == x + 1) by (nonlinear_arith)
            requires
                x == a % m,
                m > 0,
                a >= 0,
        ;
    }
}

/// A source epoch read before `k` loads or clears (each moves it, as `load`
/// and `clear` state) is stale after them exactly when `k > 0`, for up to
/// `usize::MAX` moves (the counter wraps only after one more).
pub proof fn lemma_stale_after_loads(states: Seq<EditorView>)
    requires
        states.len() >= 1,
        states.len() - 1 <= usize::MAX,
        forall|i: int|
            0 <= i < states.len() - 1 ==> #[trigger] states[i + 1].source_epoch == next_epoch(
                states[i].source_epoch,
            ),
    ensures
        (states.last().source_epoch != states[0].source_epoch) <==> states.len() > 1,
{
    let k = (states.len() - 1) as nat;
    assert forall|j: nat| j <= k implies #[trigger] epoch_after(states[0].source_epoch, j) == states[j as int].source_epoch by {
        lemma_epoch_steps(states, j);
    }
    let e = states[0].source_epoch;
    lemma_epoch_after_mod(e, k);
    let m = usize::MAX as int + 1;
    assert(k > 0 ==> (e + k) % m != e) by (nonlinear_arith)
        requires
            0 <= e < m,
            0 <= k < m,
    ;
    assert(epoch_after(e, k) == states.last().source_epoch);
}

proof fn lemma_epoch_steps(states: Seq<EditorView>, j: nat)
    requires
        j < states.len(),
        forall|i: int|
            0 <= i < states.len() - 1 ==> #[trigger] states[i + 1].source_epoch == next_epoch(
                states[i].source_epoch,
            ),
    ensures
        epoch_after(states[0].source_epoch, j) == states[j as int].source_epoch,
    decreases j,
{
    if j > 0 {
        lemma_epoch_steps(states, (j - 1) as nat);
        assert(states[(j - 1) + 1].source_epoch == next_epoch(states[j - 1].source_epoch));
    }
}

} // verus!
