//! What the render worker does next: the pending requests, and the size of the
//! document it renders into.

use vstd::prelude::*;

verus! {

/// A piece of work for the render worker.
pub enum WorkItem<P, S> {
    Preview(P),
    Sort(S),
}

/// The requests waiting for the render worker: at most one preview and one sort.
/// A newer request of a kind replaces the waiting one; a sort drops the
/// waiting preview, and is taken before any preview.
pub struct InboxState<P, S> {
    pub preview: Option<P>,
    pub sort: Option<S>,
}

/// The inbox after a preview was posted.
pub open spec fn with_preview<P, S>(s: InboxState<P, S>, req: P) -> InboxState<P, S> {
    InboxState { preview: Some(req), sort: s.sort }
}

/// The inbox after a sort was posted.
pub open spec fn with_sort<P, S>(s: InboxState<P, S>, req: S) -> InboxState<P, S> {
    InboxState { preview: None, sort: Some(req) }
}

/// The work the worker takes next from an inbox.
pub open spec fn next_work<P, S>(s: InboxState<P, S>) -> Option<WorkItem<P, S>> {
    match s.sort {
        Some(r) => Some(WorkItem::Sort(r)),
        None => match s.preview {
            Some(r) => Some(WorkItem::Preview(r)),
            None => None,
        },
    }
}

/// The inbox after the worker took its next work: a sort takes the waiting
/// preview with it, so nothing is left either way.
pub open spec fn after_take<P, S>(s: InboxState<P, S>) -> InboxState<P, S> {
    InboxState { preview: None, sort: None }
}

impl<P, S> InboxState<P, S> {
    /// An inbox with nothing waiting.
    pub fn new() -> (r: Self)
        ensures
            r.preview is None,
            r.sort is None,
    {
        InboxState { preview: None, sort: None }
    }

    /// Queues a preview in place of any waiting one.
    pub fn post_preview(&mut self, req: P)
        ensures
            *final(self) == with_preview(*old(self), req),
    {
        self.preview = Some(req);
    }

    /// Queues a sort in place of any waiting one and drops the waiting preview.
    pub fn post_sort(&mut self, req: S)
        ensures
            *final(self) == with_sort(*old(self), req),
    {
        self.sort = Some(req);
        self.preview = None;
    }

    /// Takes the next piece of work: the waiting sort (which also drops the
    /// waiting preview), else the waiting preview, else nothing.
    pub fn take_work(&mut self) -> (r: Option<WorkItem<P, S>>)
        ensures
            r == next_work(*old(self)),
            *final(self) == after_take(*old(self)),
    {
        if let Some(req) = self.sort.take() {
            self.preview = None;
            return Some(WorkItem::Sort(req));
        }
        if let Some(req) = self.preview.take() {
            return Some(WorkItem::Preview(req));
        }
        None
    }
}

/// A sort supersedes the previews posted before it: whatever waited, after a
/// sort is posted the worker's next work is that sort, and nothing waits after it.
pub proof fn lemma_sort_supersedes_preview<P, S>(s: InboxState<P, S>, req: S)
    ensures
        next_work(with_sort(s, req)) == Some(WorkItem::<P, S>::Sort(req)),
        next_work(after_take(with_sort(s, req))) is None,
{
}

/// A waiting sort is taken before any preview posted after it.
pub proof fn lemma_sort_taken_first<P, S>(s: InboxState<P, S>, req: S, later: P)
    ensures
        next_work(with_preview(with_sort(s, req), later)) == Some(WorkItem::<P, S>::Sort(req)),
{
}

/// Of two previews posted without a sort waiting, only the later one is
/// rendered: it is the next work, and nothing waits after it.
pub proof fn lemma_latest_preview_wins<P, S>(s: InboxState<P, S>, first: P, second: P)
    requires
        s.sort is None,
    ensures
        next_work(with_preview(with_preview(s, first), second)) == Some(WorkItem::<P, S>::Preview(second)),
        next_work(after_take(with_preview(with_preview(s, first), second))) is None,
{
}

/// The document size for a source of `src_w` by `src_h` in a document mode:
/// 1 turns it a quarter (width and height swap), 2 is the largest centred
/// square, anything else keeps the source size.
pub fn doc_dims(mode: i32, src_w: u32, src_h: u32) -> (r: (u32, u32))
    ensures
        r == (if mode == 1 {
            (src_h, src_w)
        } else if mode == 2 {
            if src_w <= src_h {
                (src_w, src_w)
            } else {
                (src_h, src_h)
            }
        } else {
            (src_w, src_h)
        }),
{
    if mode == 1 {
        (src_h, src_w)
    } else if mode == 2 {
        let side = if src_w <= src_h { src_w } else { src_h };
        (side, side)
    } else {
        (src_w, src_h)
    }
}

/// The byte length of an RGBA8 buffer of `w` by `h` pixels, when it fits in
/// `usize`.
pub fn rgba_len(w: u32, h: u32) -> (r: Option<usize>)
    ensures
        match r {
            Some(n) => n == 4 * (w as int) * (h as int),
            None => 4 * (w as int) * (h as int) > usize::MAX,
        },
{
    assert((w as int) * (h as int) <= u64::MAX) by (nonlinear_arith)
        requires
            w <= u32::MAX,
            h <= u32::MAX,
    ;
    let wide = (w as u64) * (h as u64);
    if wide > (usize::MAX as u64) / 4 {
        assert(4 * (w as int) * (h as int) > usize::MAX) by (nonlinear_arith)
            requires
                wide == (w as int) * (h as int),
                wide > usize::MAX / 4,
        ;
        return None;
    }
    let n = (wide as usize) * 4;
    assert(n == 4 * (w as int) * (h as int)) by (nonlinear_arith)
        requires
            n == wide * 4,
            wide == (w as int) * (h as int),
    ;
    Some(n)
}

} // verus!
