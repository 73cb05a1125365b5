use vstd::prelude::*;
use vstd::arithmetic::div_mod::{
    lemma_fundamental_div_mod,
    lemma_fundamental_div_mod_converse,
    lemma_mod_bound,
};

verus! {

/// The complete windows of `w` samples at the front of `s`, oldest first.
pub open spec fn windows_of<T>(s: Seq<T>, w: nat) -> Seq<Seq<T>> {
    Seq::new(s.len() / w, |i: int| s.subrange(i * w, i * w + w))
}

/// What is left of `s` after its complete windows of `w` samples are taken.
pub open spec fn leftover<T>(s: Seq<T>, w: nat) -> Seq<T> {
    s.subrange(((s.len() / w) * w) as int, s.len() as int)
}

/// The windows handed out, and the samples left pending, when the chunks are
/// fed one after another to an accumulator that already holds `pending` and
/// drains every complete window after each chunk.
pub open spec fn feed_all<T>(pending: Seq<T>, chunks: Seq<Seq<T>>, w: nat) -> (Seq<
    Seq<T>,
>, Seq<T>)
    decreases chunks.len(),
{
    if chunks.len() == 0 {
        (Seq::empty(), pending)
    } else {
        let all = pending + chunks[0];
        let rest = feed_all(leftover(all, w), chunks.drop_first(), w);
        (windows_of(all, w) + rest.0, rest.1)
    }
}

/// The contents of a list of sample buffers.
pub open spec fn views<T>(v: Seq<Vec<T>>) -> Seq<Seq<T>> {
    v.map_values(|b: Vec<T>| b@)
}

/// Collects variable-sized chunks of samples and hands them out again as
/// fixed-size windows, in arrival order, each sample exactly once.
pub struct FrameAccumulator<T> {
    pending: Vec<T>,
    window_size: usize,
}

impl<T> FrameAccumulator<T> {
    /// The samples received and not yet handed out in a window, oldest first.
    pub closed spec fn pending(&self) -> Seq<T> {
        self.pending@
    }

    /// The number of samples in each window.
    pub closed spec fn window(&self) -> nat {
        self.window_size as nat
    }

    /// Fewer than a window's worth of samples is ever left pending between
    /// chunks, but any amount may be pending while a chunk is drained; the
    /// one lasting requirement is a window of at least one sample.
    pub open spec fn wf(&self) -> bool {
        self.window() > 0
    }

    /// An empty accumulator that hands out windows of `window_size` samples.
    pub fn new(window_size: usize) -> (r: Self)
        requires
            window_size > 0,
        ensures
            r.wf(),
            r.pending() == Seq::<T>::empty(),
            r.window() == window_size,
    {
        FrameAccumulator { pending: Vec::new(), window_size }
    }

    /// The number of samples in each window.
    pub fn window_size(&self) -> (r: usize)
        ensures
            r == self.window(),
    {
        self.window_size
    }

    /// The number of samples waiting for their window to fill.
    pub fn pending_len(&self) -> (r: usize)
        ensures
            r == self.pending().len(),
    {
        self.pending.len()
    }

    /// Appends a chunk after the samples already pending.
    pub fn push(&mut self, chunk: Vec<T>)
        ensures
            final(self).pending() == old(self).pending() + chunk@,
            final(self).window() == old(self).window(),
    {
        let mut chunk = chunk;
        self.pending.append(&mut chunk);
    }

    /// Takes the oldest window of samples off the front, once a whole window
    /// is pending; a pending run of exactly one window is handed out at once.
    pub fn next_window(&mut self) -> (r: Option<Vec<T>>)
        ensures
            final(self).window() == old(self).window(),
            old(self).pending().len() >= old(self).window() <==> r is Some,
            r matches Some(w) ==> {
                &&& w@ == old(self).pending().subrange(0, old(self).window() as int)
                &&& final(self).pending() == old(self).pending().subrange(
                    old(self).window() as int,
                    old(self).pending().len() as int,
                )
            },
            r is None ==> final(self).pending() == old(self).pending(),
    {
        if self.pending.len() >= self.window_size {
            let mut window = self.pending.split_off(self.window_size);
            std::mem::swap(&mut self.pending, &mut window);
            Some(window)
        } else {
            None
        }
    }

    /// Appends a chunk, then takes off every complete window, oldest first.
    pub fn push_and_drain(&mut self, chunk: Vec<T>) -> (r: Vec<Vec<T>>)
        requires
            old(self).wf(),
        ensures
            final(self).wf(),
            final(self).window() == old(self).window(),
            views(r@) == windows_of(old(self).pending() + chunk@, old(self).window()),
            final(self).pending() == leftover(old(self).pending() + chunk@, old(self).window()),
    {
        let ghost all = self.pending@ + chunk@;
        let ghost w = self.window_size as nat;
        self.push(chunk);
        let mut out: Vec<Vec<T>> = Vec::new();
        proof {
            assert(0 * w == 0);
            assert(self.pending() =~= all.subrange(0, all.len() as int));
        }
        loop
            invariant
                self.wf(),
                self.window() == w,
                w > 0,
                out@.len() * w + self.pending().len() == all.len(),
                self.pending() == all.subrange((out@.len() * w) as int, all.len() as int),
                forall|i: int|
                    0 <= i < out@.len() ==> #[trigger] out@[i]@ == all.subrange(i * w, i * w + w),
            ensures
                self.wf(),
                self.window() == w,
                views(out@) == windows_of(all, w),
                self.pending() == leftover(all, w),
            decreases self.pending().len(),
        {
            let ghost n = out@.len() as int;
            match self.next_window() {
                Some(window) => {
                    proof {
                        assert(n * w + w == (n + 1) * w) by (nonlinear_arith);
                        assert(window@ == all.subrange(n * w, n * w + w));
                        assert(self.pending() == all.subrange((n + 1) * w, all.len() as int));
                    }
                    out.push(window);
                },
                None => {
                    proof {
                        let rem = self.pending().len() as int;
                        lemma_fundamental_div_mod_converse(all.len() as int, w as int, n as int, rem);
                        assert(views(out@) =~= windows_of(all, w));
                        assert(self.pending() =~= leftover(all, w));
                    }
                    break;
                },
            }
        }
        out
    }
}

/// Splitting a stream after any prefix `x` leaves its windows unchanged: the
/// windows of `x + r` are those of `x`, then those of what `x` left over
/// followed by `r`.
proof fn lemma_windows_split<T>(x: Seq<T>, r: Seq<T>, w: nat)
    requires
        w > 0,
    ensures
        windows_of(x + r, w) == windows_of(x, w) + windows_of(leftover(x, w) + r, w),
        leftover(x + r, w) == leftover(leftover(x, w) + r, w),
{
    let s = x + r;
    let k = (x.len() / w) as int;
    let y = leftover(x, w) + r;
    lemma_fundamental_div_mod(x.len() as int, w as int);
    lemma_mod_bound(x.len() as int, w as int);
    assert(k * w == w * k) by (nonlinear_arith);
    assert(y =~= s.subrange(k * w, s.len() as int));
    let q = (y.len() / w) as int;
    lemma_fundamental_div_mod(y.len() as int, w as int);
    lemma_mod_bound(y.len() as int, w as int);
    assert(s.len() == (k + q) * w + y.len() % w) by (nonlinear_arith)
        requires
            s.len() == k * w + y.len(),
            y.len() == w * q + y.len() % w,
    ;
    lemma_fundamental_div_mod_converse(s.len() as int, w as int, k + q, (y.len() % w) as int);
    let lhs = windows_of(s, w);
    let rhs = windows_of(x, w) + windows_of(y, w);
    assert(lhs.len() == rhs.len());
    assert forall|i: int| 0 <= i < lhs.len() implies lhs[i] == rhs[i] by {
        if i < k {
            assert(i * w + w <= k * w) by (nonlinear_arith)
                requires i < k, w > 0;
            assert(lhs[i] =~= rhs[i]);
        } else {
            let j = i - k;
            assert(i * w == k * w + j * w) by (nonlinear_arith)
                requires j == i - k;
            assert(j * w + w <= q * w) by (nonlinear_arith)
                requires j < q, w > 0;
            assert(lhs[i] =~= rhs[i]);
        }
    }
    assert(lhs =~= rhs);
    assert((k + q) * w == k * w + q * w) by (nonlinear_arith);
    assert(leftover(s, w) =~= leftover(y, w));
}

/// Feeding chunks one at a time, from a state with less than a window
/// pending, gives the same windows, and leaves the same samples pending, as
/// feeding all of them at once: however a stream is cut
/// into chunks, its samples come out in complete windows of `w`, in order,
/// none lost or repeated, and fewer than `w` of them stay pending.
pub proof fn lemma_chunking_invariant<T>(pending: Seq<T>, chunks: Seq<Seq<T>>, w: nat)
    requires
        w > 0,
        pending.len() < w,
    ensures
        feed_all(pending, chunks, w) == (
            windows_of(pending + chunks.flatten(), w),
            leftover(pending + chunks.flatten(), w),
        ),
        windows_of(pending + chunks.flatten(), w).len() == (pending + chunks.flatten()).len() / w,
        forall|i: int|
            0 <= i < windows_of(pending + chunks.flatten(), w).len() ==> (#[trigger] windows_of(
                pending + chunks.flatten(),
                w,
            )[i]).len() == w,
        leftover(pending + chunks.flatten(), w).len() < w,
    decreases chunks.len(),
{
    let total = pending + chunks.flatten();
    if chunks.len() == 0 {
        assert(total =~= pending);
        lemma_fundamental_div_mod_converse(pending.len() as int, w as int, 0, pending.len() as int);
        assert(windows_of(total, w) =~= Seq::empty());
        assert(leftover(total, w) =~= pending);
    } else {
        let all = pending + chunks[0];
        let tail = chunks.drop_first().flatten();
        lemma_fundamental_div_mod(all.len() as int, w as int);
        lemma_mod_bound(all.len() as int, w as int);
        let ka = (all.len() / w) as int;
        assert(ka * w == w * ka) by (nonlinear_arith);
        assert(leftover(all, w).len() < w);
        assert(chunks.flatten() == chunks[0] + tail);
        lemma_chunking_invariant(leftover(all, w), chunks.drop_first(), w);
        lemma_windows_split(all, tail, w);
        assert(total =~= all + tail);
        let rest = feed_all(leftover(all, w), chunks.drop_first(), w);
        assert(feed_all(pending, chunks, w) == (windows_of(all, w) + rest.0, rest.1));
    }
    let k = (total.len() / w) as int;
    lemma_fundamental_div_mod(total.len() as int, w as int);
    lemma_mod_bound(total.len() as int, w as int);
    assert forall|i: int| 0 <= i < k implies #[trigger] (i * w) + w <= total.len() by {
        assert(i * w + w <= k * w) by (nonlinear_arith)
            requires i < k, w > 0;
        assert(k * w == w * k) by (nonlinear_arith);
    }
    assert(k * w == w * k) by (nonlinear_arith);
}

} // verus!
