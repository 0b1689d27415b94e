//! The monotone deque shared by both queues: candidates for the minimum of
//! the current window, with keys that never decrease from front to back.
use crate::slots::SlotCounter;
use crate::window::{
    first_kept, keep_at_most, keys_of, lemma_first_min_unique, lemma_keep_sorted, lemma_min_index,
    lemma_slide_last, lemma_undominated_drop_first, lemma_undominated_len, min_index,
    nondecreasing, slide, undominated,
};
use std::collections::VecDeque;
use vstd::prelude::*;

verus! {

/// Index of the oldest item of the window, after `n` items with width `width`.
spec fn window_start(n: int, width: int) -> int {
    if n < width {
        0
    } else {
        n - width
    }
}

/// The slot that an item was given `age` insertions ago (1 for the latest
/// one), when the counter now stands at `pos`.
spec fn slot_back(pos: int, age: int, width: int) -> int {
    if age <= pos {
        pos - age
    } else {
        pos + width - age
    }
}

/// First index of the history that the candidate at `k` is the minimum for.
spec fn lower(ids: Seq<int>, start: int, k: int) -> int {
    if k == 0 {
        start
    } else {
        ids[k - 1] + 1
    }
}

/// The candidates stand for the items of `hist` at the increasing indices
/// `ids`, all at or after `start`: their keys never decrease, no later item
/// has a smaller key, every item skipped before a candidate has a strictly
/// larger key, and the latest item is always a candidate.
spec fn chain<E>(
    hist: Seq<(E, u64)>,
    ids: Seq<int>,
    cands: Seq<(E, u64, u16)>,
    start: int,
) -> bool {
    &&& ids.len() == cands.len()
    &&& 0 <= start <= hist.len()
    &&& forall|k: int| 0 <= k < ids.len() ==> start <= #[trigger] ids[k] < hist.len()
    &&& forall|k: int, l: int| 0 <= k < l < ids.len() ==> #[trigger] ids[k] < #[trigger] ids[l]
    &&& forall|k: int|
        0 <= k < ids.len() ==> (#[trigger] cands[k]).0 == hist[ids[k]].0 && cands[k].1
            == hist[ids[k]].1
    &&& forall|k: int, l: int|
        0 <= k < l < cands.len() ==> (#[trigger] cands[k]).1 <= (#[trigger] cands[l]).1
    &&& forall|k: int, j: int|
        0 <= k < ids.len() && ids[k] <= j < hist.len() ==> (#[trigger] hist[j]).1 >= (
        #[trigger] cands[k]).1
    &&& forall|k: int, j: int|
        0 <= k < ids.len() && lower(ids, start, k) <= j < ids[k] ==> (#[trigger] hist[j]).1 > (
        #[trigger] cands[k]).1
    &&& ids.len() == 0 ==> start == hist.len()
    &&& ids.len() > 0 ==> ids.last() == hist.len() - 1
}

/// Each candidate's slot is the one it was given, counted back from `pos`.
spec fn slots_match<E>(
    ids: Seq<int>,
    cands: Seq<(E, u64, u16)>,
    n: int,
    pos: int,
    width: int,
) -> bool {
    forall|k: int|
        0 <= k < ids.len() && k < cands.len() ==> (#[trigger] cands[k]).2 == slot_back(
            pos,
            n - ids[k],
            width,
        )
}

proof fn lemma_slot_shift(pos: int, age: int, width: int)
    requires
        0 <= pos < width,
        0 <= age < width,
    ensures
        slot_back((pos + 1) % width, age + 1, width) == slot_back(pos, age, width),
{
    if pos + 1 < width {
        vstd::arithmetic::div_mod::lemma_small_mod((pos + 1) as nat, width as nat);
    } else {
        vstd::arithmetic::div_mod::lemma_mod_self_0(width);
    }
}

/// Dropping the front candidate exactly when its slot comes round again
/// keeps a chain over the window that the next item will see.
proof fn lemma_expire<E>(hist: Seq<(E, u64)>, ids: Seq<int>, cands: Seq<(E, u64, u16)>, pos: int, width: int)
    requires
        0 <= pos < width,
        chain(hist, ids, cands, window_start(hist.len() as int, width)),
        slots_match(ids, cands, hist.len() as int, pos, width),
    ensures
        ({
            let popped = cands.len() > 0 && cands[0].2 == pos;
            let ids1 = if popped { ids.drop_first() } else { ids };
            let cands1 = if popped { cands.drop_first() } else { cands };
            &&& chain(hist, ids1, cands1, window_start(hist.len() + 1int, width))
            &&& slots_match(ids1, cands1, hist.len() as int, pos, width)
        }),
{
    let n = hist.len() as int;
    let s = window_start(n, width);
    let s1 = window_start(n + 1, width);
    let popped = cands.len() > 0 && cands[0].2 == pos;
    if popped {
        assert(ids[0] == s);
        let ids1 = ids.drop_first();
        let cands1 = cands.drop_first();
        assert forall|k: int| 0 <= k < ids1.len() implies lower(ids1, s1, k) == lower(ids, s, k + 1) by {}
        assert forall|k: int, j: int|
            0 <= k < ids1.len() && lower(ids1, s1, k) <= j < ids1[k] implies (#[trigger] hist[j]).1 > (
            #[trigger] cands1[k]).1 by {
            assert(cands1[k] == cands[k + 1]);
            assert(lower(ids, s, k + 1) <= j < ids[k + 1]);
        }
        assert forall|k: int, l: int| 0 <= k < l < ids1.len() implies #[trigger] ids1[k] < #[trigger] ids1[l] by {
            assert(ids[k + 1] < ids[l + 1]);
        }
        assert forall|k: int, l: int|
            0 <= k < l < cands1.len() implies (#[trigger] cands1[k]).1 <= (#[trigger] cands1[l]).1 by {
            assert(cands[k + 1].1 <= cands[l + 1].1);
        }
        assert forall|k: int, j: int|
            0 <= k < ids1.len() && ids1[k] <= j < hist.len() implies (#[trigger] hist[j]).1 >= (
            #[trigger] cands1[k]).1 by {
            assert(cands1[k] == cands[k + 1]);
        }
        assert forall|k: int| 0 <= k < ids1.len() implies s1 <= #[trigger] ids1[k] < hist.len() by {
            assert(ids[0] < ids[k + 1]);
        }
        assert(slots_match(ids1, cands1, n, pos, width));
    } else if cands.len() > 0 {
        assert(ids[0] != s || n < width);
        assert forall|k: int| 0 <= k < ids.len() implies s1 <= #[trigger] ids[k] < hist.len() by {
            if k > 0 {
                assert(ids[0] < ids[k]);
            }
        }
        assert forall|k: int, j: int|
            0 <= k < ids.len() && lower(ids, s1, k) <= j < ids[k] implies (#[trigger] hist[j]).1 > (
            #[trigger] cands[k]).1 by {
            assert(lower(ids, s, k) <= j);
        }
    }
}

/// Every item from the first one that candidate `i` stands for on has a key
/// larger than `h`, when every candidate from `i` on does.
proof fn lemma_cover<E>(hist: Seq<(E, u64)>, ids: Seq<int>, cands: Seq<(E, u64, u16)>, start: int, i: int, h: u64)
    requires
        chain(hist, ids, cands, start),
        0 <= i <= cands.len(),
        forall|k: int| i <= k < cands.len() ==> (#[trigger] cands[k]).1 > h,
    ensures
        forall|j: int| lower(ids, start, i) <= j < hist.len() ==> (#[trigger] hist[j]).1 > h,
    decreases cands.len() - i,
{
    if i < cands.len() {
        lemma_cover(hist, ids, cands, start, i + 1, h);
        assert forall|j: int| lower(ids, start, i) <= j < hist.len() implies (#[trigger] hist[j]).1 > h by {
            if j < ids[i] {
                assert(hist[j].1 > cands[i].1);
            } else if j == ids[i] {
            } else {
                assert(lower(ids, start, i + 1) <= j);
            }
        }
    }
}

/// Cutting the candidates at `i` and appending the new item keeps a chain.
proof fn lemma_extend<E>(
    hist: Seq<(E, u64)>,
    ids: Seq<int>,
    cands: Seq<(E, u64, u16)>,
    start: int,
    i: int,
    e: E,
    h: u64,
    slot: u16,
)
    requires
        chain(hist, ids, cands, start),
        0 <= i <= cands.len(),
        i > 0 ==> cands[i - 1].1 <= h,
        forall|j: int| lower(ids, start, i) <= j < hist.len() ==> (#[trigger] hist[j]).1 > h,
    ensures
        chain(
            hist.push((e, h)),
            ids.take(i).push(hist.len() as int),
            cands.take(i).push((e, h, slot)),
            start,
        ),
{
    let n = hist.len() as int;
    let hist2 = hist.push((e, h));
    let ids2 = ids.take(i).push(n);
    let cands2 = cands.take(i).push((e, h, slot));
    assert forall|k: int| 0 <= k < ids2.len() implies lower(ids2, start, k) == lower(ids, start, k) by {}
    assert forall|k: int| 0 <= k < ids2.len() implies start <= #[trigger] ids2[k] < hist2.len() by {
        if k < i {
            assert(ids2[k] == ids[k]);
        } else {
            if i > 0 {
                assert(ids[i - 1] >= start);
            }
        }
    }
    assert forall|k: int, l: int| 0 <= k < l < ids2.len() implies #[trigger] ids2[k] < #[trigger] ids2[l] by {
        if l < i {
            assert(ids[k] < ids[l]);
        }
    }
    assert forall|k: int|
        0 <= k < ids2.len() implies (#[trigger] cands2[k]).0 == hist2[ids2[k]].0 && cands2[k].1
            == hist2[ids2[k]].1 by {
        if k < i {
            assert(cands2[k] == cands[k]);
            assert(ids2[k] == ids[k]);
        }
    }
    assert forall|k: int, l: int|
        0 <= k < l < cands2.len() implies (#[trigger] cands2[k]).1 <= (#[trigger] cands2[l]).1 by {
        if l < i {
            assert(cands[k].1 <= cands[l].1);
        } else {
            if k < i - 1 {
                assert(cands[k].1 <= cands[i - 1].1);
            }
        }
    }
    assert forall|k: int, j: int|
        0 <= k < ids2.len() && ids2[k] <= j < hist2.len() implies (#[trigger] hist2[j]).1 >= (
        #[trigger] cands2[k]).1 by {
        if k < i {
            assert(cands2[k] == cands[k]);
            if j < n {
                assert(hist2[j] == hist[j]);
                assert(hist[j].1 >= cands[k].1);
            } else {
                if k < i - 1 {
                    assert(cands[k].1 <= cands[i - 1].1);
                }
            }
        }
    }
    assert forall|k: int, j: int|
        0 <= k < ids2.len() && lower(ids2, start, k) <= j < ids2[k] implies (#[trigger] hist2[j]).1 > (
        #[trigger] cands2[k]).1 by {
        assert(hist2[j] == hist[j]);
        if k < i {
            assert(cands2[k] == cands[k]);
            assert(ids2[k] == ids[k]);
            assert(hist[j].1 > cands[k].1);
        } else {
            assert(lower(ids, start, i) <= j);
        }
    }
}

proof fn lemma_slots_after<E>(
    hist: Seq<(E, u64)>,
    ids: Seq<int>,
    cands: Seq<(E, u64, u16)>,
    i: int,
    e: E,
    h: u64,
    pos: u16,
    w: int,
)
    requires
        0 <= pos < w,
        0 <= i <= cands.len(),
        chain(hist, ids, cands, window_start(hist.len() + 1int, w)),
        slots_match(ids, cands, hist.len() as int, pos as int, w),
    ensures
        slots_match(
            ids.take(i).push(hist.len() as int),
            cands.take(i).push((e, h, pos)),
            hist.len() + 1int,
            (pos + 1) % w,
            w,
        ),
{
    let n = hist.len() as int;
    let ids2 = ids.take(i).push(n);
    let cands2 = cands.take(i).push((e, h, pos));
    assert forall|k: int| 0 <= k < ids2.len() && k < cands2.len() implies (#[trigger] cands2[k]).2
        == slot_back((pos + 1) % w, n + 1 - ids2[k], w) by {
        if k < i {
            assert(cands2[k] == cands[k]);
            assert(ids2[k] == ids[k]);
            lemma_slot_shift(pos as int, n - ids[k], w);
        } else {
            lemma_slot_shift(pos as int, 0, w);
        }
    }
}

proof fn lemma_view_after<E>(hist: Seq<(E, u64)>, x: (E, u64), w: int)
    requires
        w > 0,
    ensures
        ({
            let n = hist.len() as int;
            hist.push(x).subrange(window_start(n + 1, w), n + 1) == slide(
                hist.subrange(window_start(n, w), n),
                x,
                w as nat,
            )
        }),
{
    let n = hist.len() as int;
    assert(hist.push(x).subrange(window_start(n + 1, w), n + 1) =~= slide(
        hist.subrange(window_start(n, w), n),
        x,
        w as nat,
    ));
}

/// The keys of a run of candidates.
spec fn keys_seq<E>(cands: Seq<(E, u64, u16)>) -> Seq<u64> {
    cands.map_values(|c: (E, u64, u16)| c.1)
}

/// Expiry drops the front candidate exactly when the window is full and its
/// oldest key is undominated, which keeps the candidates' keys equal to the
/// undominated keys of the window that the next item will see.
proof fn lemma_expire_keys<E>(hist: Seq<(E, u64)>, ids: Seq<int>, cands: Seq<(E, u64, u16)>, pos: int, width: int)
    requires
        0 <= pos < width,
        chain(hist, ids, cands, window_start(hist.len() as int, width)),
        slots_match(ids, cands, hist.len() as int, pos, width),
        keys_seq(cands) == undominated(
            keys_of(hist.subrange(window_start(hist.len() as int, width), hist.len() as int)),
        ),
    ensures
        ({
            let n = hist.len() as int;
            let win = keys_of(hist.subrange(window_start(n, width), n));
            let popped = cands.len() > 0 && cands[0].2 == pos;
            let cands1 = if popped { cands.drop_first() } else { cands };
            &&& popped == (win.len() == width && first_kept(win))
            &&& keys_seq(cands1) == undominated(keys_of(hist.subrange(window_start(n + 1, width), n)))
        }),
{
    let n = hist.len() as int;
    let s = window_start(n, width);
    let s1 = window_start(n + 1, width);
    let win = keys_of(hist.subrange(s, n));
    let popped = cands.len() > 0 && cands[0].2 == pos;
    if n >= width {
        assert(keys_of(hist.subrange(s1, n)) =~= win.drop_first());
        assert(cands.len() > 0);
        lemma_undominated_drop_first(win);
        if popped {
            assert(ids[0] == s);
            assert forall|u: int| 0 < u < win.len() implies #[trigger] win[u] >= win[0] by {
                assert(win[u] == hist[s + u].1);
                assert(hist[s + u].1 >= cands[0].1);
            }
            assert(keys_seq(cands.drop_first()) =~= keys_seq(cands).drop_first());
        } else {
            assert(ids[0] != s);
            assert(hist[s].1 > cands[0].1);
            assert(win[ids[0] - s] == hist[ids[0]].1);
            assert(!first_kept(win));
        }
    } else {
        assert(s1 == s);
        if cands.len() > 0 {
            assert(n - ids[0] <= n);
        }
    }
}

/// Cutting the candidates at the first key above `h` and appending `h`
/// keeps exactly the undominated keys of the grown window.
proof fn lemma_push_keys<E>(
    hist: Seq<(E, u64)>,
    ids: Seq<int>,
    cands: Seq<(E, u64, u16)>,
    start: int,
    i: int,
    e: E,
    h: u64,
    slot: u16,
)
    requires
        chain(hist, ids, cands, start),
        keys_seq(cands) == undominated(keys_of(hist.subrange(start, hist.len() as int))),
        0 <= i <= cands.len(),
        i > 0 ==> cands[i - 1].1 <= h,
        forall|k: int| i <= k < cands.len() ==> (#[trigger] cands[k]).1 > h,
    ensures
        keys_seq(cands.take(i).push((e, h, slot))) == keep_at_most(keys_seq(cands), h).push(h),
        keys_seq(cands.take(i).push((e, h, slot))) == undominated(
            keys_of(hist.push((e, h)).subrange(start, hist.len() + 1int)),
        ),
{
    let n = hist.len() as int;
    let ks = keys_seq(cands);
    assert forall|t: int| 0 <= t < i implies #[trigger] ks[t] <= h by {
        if t < i - 1 {
            assert(cands[t].1 <= cands[i - 1].1);
        }
    }
    assert forall|t: int| i <= t < ks.len() implies #[trigger] ks[t] > h by {
        assert(cands[t].1 > h);
    }
    lemma_keep_sorted(ks, h, i);
    assert(keys_seq(cands.take(i).push((e, h, slot))) =~= ks.take(i).push(h));
    let grown = keys_of(hist.push((e, h)).subrange(start, n + 1));
    assert(grown.drop_last() =~= keys_of(hist.subrange(start, n)));
    assert(grown.last() == h);
}

/// Candidates for the minimum of the last `width` keys, as (item, key, slot)
/// entries; the front one is the minimum.
pub struct MonotoneDeque<E> {
    deq: VecDeque<(E, u64, u16)>,
    slots: SlotCounter,
    /// Every item since creation or the last clearing, oldest first.
    hist: Ghost<Seq<(E, u64)>>,
    /// Where in `hist` each candidate comes from.
    ids: Ghost<Seq<int>>,
    inserted: Ghost<nat>,
    steps: Ghost<nat>,
}

impl<E> View for MonotoneDeque<E> {
    type V = Seq<(E, u64)>;

    /// The items of the current window, oldest first.
    closed spec fn view(&self) -> Seq<(E, u64)> {
        let n = self.hist@.len() as int;
        self.hist@.subrange(window_start(n, self.slots.modulus() as int), n)
    }
}

impl<E> MonotoneDeque<E> {
    /// The window width.
    pub closed spec fn width(&self) -> nat {
        self.slots.modulus()
    }

    /// The slot that the next item will be given.
    pub closed spec fn position(&self) -> nat {
        self.slots.position()
    }

    /// The keys of the retained candidates, front to back.
    pub closed spec fn retained_keys(&self) -> Seq<u64> {
        keys_seq(self.deq@)
    }

    /// How many items have been inserted since creation.
    pub closed spec fn inserted(&self) -> nat {
        self.inserted@
    }

    /// The elementary steps taken since creation: slot checks, key
    /// comparisons, and candidates pushed or dropped.
    pub closed spec fn steps(&self) -> nat {
        self.steps@
    }

    pub closed spec fn wf(&self) -> bool {
        let n = self.hist@.len() as int;
        let w = self.slots.modulus() as int;
        &&& self.slots.wf()
        &&& chain(self.hist@, self.ids@, self.deq@, window_start(n, w))
        &&& slots_match(self.ids@, self.deq@, n, self.slots.position() as int, w)
        &&& self.steps@ + 2 * self.deq@.len() <= 5 * self.inserted@
        &&& self.retained_keys() == undominated(keys_of(self@))
    }

    /// What a valid deque guarantees: a positive width, a window no longer
    /// than it, and the undominated keys of the window as candidates, in
    /// non-decreasing order.
    pub proof fn lemma_valid(&self)
        requires
            self.wf(),
        ensures
            0 < self.width(),
            self@.len() <= self.width(),
            self.retained_keys() == undominated(keys_of(self@)),
            self.retained_keys().len() <= self@.len(),
            self@.len() > 0 ==> self.retained_keys().len() > 0,
            nondecreasing(self.retained_keys()),
            self.steps() <= 5 * self.inserted(),
    {
        lemma_undominated_len(keys_of(self@));
        let keys = self.retained_keys();
        assert forall|a: int, b: int| 0 <= a < b < keys.len() implies keys[a] <= keys[b] by {
            assert(self.deq@[a].1 <= self.deq@[b].1);
        }
    }

    /// An empty deque for windows of `width` items.
    pub fn new(width: u16) -> (r: Self)
        requires
            width > 0,
        ensures
            r.wf(),
            r.width() == width,
            r@ == Seq::<(E, u64)>::empty(),
            r.position() == 0,
            r.inserted() == 0,
            r.steps() == 0,
    {
        let r = MonotoneDeque {
            deq: VecDeque::with_capacity(width as usize),
            slots: SlotCounter::new(width),
            hist: Ghost(Seq::empty()),
            ids: Ghost(Seq::empty()),
            inserted: Ghost(0),
            steps: Ghost(0),
        };
        assert(r@ =~= Seq::<(E, u64)>::empty());
        assert(keys_of(r@) =~= Seq::<u64>::empty());
        assert(keys_seq(r.deq@) =~= Seq::<u64>::empty());
        r
    }

    pub fn width_value(&self) -> (r: u16)
        ensures
            r == self.width(),
    {
        self.slots.width()
    }

    /// Adds the item `e` with key `h` as the newest of the window.
    #[verifier::rlimit(40)]
    pub fn push(&mut self, e: E, h: u64)
        requires
            old(self).wf(),
        ensures
            final(self).wf(),
            final(self).width() == old(self).width(),
            final(self)@ == slide(old(self)@, (e, h), old(self).width()),
            final(self)@.len() <= final(self).width(),
            final(self)@.len() > 0,
            final(self)@.last() == (e, h),
            final(self).position() == (old(self).position() + 1) % old(self).width(),
            final(self).inserted() == old(self).inserted() + 1,
            nondecreasing(final(self).retained_keys()),
            final(self).retained_keys() == undominated(keys_of(final(self)@)),
            final(self).retained_keys() == keep_at_most(
                if old(self)@.len() == old(self).width() && first_kept(keys_of(old(self)@)) {
                    old(self).retained_keys().drop_first()
                } else {
                    old(self).retained_keys()
                },
                h,
            ).push(h),
            1 <= final(self).retained_keys().len() <= final(self).width(),
            final(self).steps() <= 5 * final(self).inserted(),
    {
        let ghost hist = self.hist@;
        let ghost old_keys = keys_seq(self.deq@);
        let ghost n = hist.len() as int;
        let ghost w = self.slots.modulus() as int;
        let ghost old_view = self@;
        let pos = self.slots.current();
        proof {
            lemma_expire(hist, self.ids@, self.deq@, pos as int, w);
            lemma_expire_keys(hist, self.ids@, self.deq@, pos as int, w);
            if self.deq@.len() > 0 {
                assert(keys_seq(self.deq@.drop_first()) =~= old_keys.drop_first());
            }
        }
        let ghost mut popped = false;
        if self.deq.len() > 0 && self.deq[0].2 == pos {
            self.deq.pop_front();
            proof {
                popped = true;
            }
            self.ids = Ghost(self.ids@.drop_first());
        }
        let ghost s1 = window_start(n + 1, w);
        let ghost ids1 = self.ids@;
        let ghost cands1 = self.deq@;
        let mut i = self.deq.len();
        while i > 0 && h < self.deq[i - 1].1
            invariant
                i <= self.deq@.len(),
                self.deq@ == cands1,
                forall|k: int| i <= k < cands1.len() ==> (#[trigger] cands1[k]).1 > h,
            decreases i,
        {
            i -= 1;
        }
        proof {
            lemma_cover(hist, ids1, cands1, s1, i as int, h);
            lemma_extend(hist, ids1, cands1, s1, i as int, e, h, pos);
            lemma_push_keys(hist, ids1, cands1, s1, i as int, e, h, pos);
        }
        self.deq.truncate(i);
        self.deq.push_back((e, h, pos));
        self.slots.advance();
        let ghost removed = (cands1.len() - i) as nat;
        self.hist = Ghost(hist.push((e, h)));
        self.ids = Ghost(ids1.take(i as int).push(n));
        self.inserted = Ghost(self.inserted@ + 1);
        self.steps = Ghost(self.steps@ + 3 + (if popped { 1nat } else { 0nat }) + removed);
        proof {
            lemma_slots_after(hist, ids1, cands1, i as int, e, h, pos, w);
            assert(self.deq@ =~= cands1.take(i as int).push((e, h, pos)));
            lemma_view_after(hist, (e, h), w);
            lemma_slide_last(old_view, (e, h), w as nat);
            self.lemma_valid();
        }
    }

    /// Forgets every item; the width and the slot counter stay as they are.
    pub fn clear(&mut self)
        requires
            old(self).wf(),
        ensures
            final(self).wf(),
            final(self)@ == Seq::<(E, u64)>::empty(),
            final(self).width() == old(self).width(),
            final(self).position() == old(self).position(),
            final(self).inserted() == old(self).inserted(),
            final(self).steps() == old(self).steps(),
            final(self).retained_keys() == Seq::<u64>::empty(),
    {
        self.deq.clear();
        self.hist = Ghost(Seq::empty());
        self.ids = Ghost(Seq::empty());
        assert(self@ =~= Seq::<(E, u64)>::empty());
        assert(keys_of(self@) =~= Seq::<u64>::empty());
        assert(keys_seq(self.deq@) =~= Seq::<u64>::empty());
    }
}

impl<E: Copy> MonotoneDeque<E> {
    /// The minimum of the window (the earliest of the smallest keys), and its
    /// position `width - window length + index in the window`.
    pub fn front(&self) -> (r: (E, u16))
        requires
            self.wf(),
            self@.len() > 0,
        ensures
            r.0 == self@[min_index(keys_of(self@))].0,
            r.1 == self.width() - self@.len() + min_index(keys_of(self@)),
    {
        let ghost n = self.hist@.len() as int;
        let ghost w = self.slots.modulus() as int;
        let ghost s = window_start(n, w);
        let (x, _, slot) = self.deq[0];
        let r = self.slots.distance(slot);
        proof {
            let win = self@;
            let keys = keys_of(win);
            let m = self.ids@[0] - s;
            assert forall|i: int| 0 <= i < keys.len() implies keys[m] <= #[trigger] keys[i] by {
                assert(keys[i] == self.hist@[s + i].1);
                if s + i < self.ids@[0] {
                    assert(lower(self.ids@, s, 0) <= s + i);
                }
            }
            assert forall|i: int| 0 <= i < m implies #[trigger] keys[i] > keys[m] by {
                assert(keys[i] == self.hist@[s + i].1);
                assert(lower(self.ids@, s, 0) <= s + i);
            }
            lemma_min_index(keys);
            lemma_first_min_unique(keys, m, min_index(keys));
            let age = n - self.ids@[0];
            if age <= self.slots.position() {
                vstd::arithmetic::div_mod::lemma_small_mod((w - age) as nat, w as nat);
            } else {
                vstd::arithmetic::div_mod::lemma_mod_add_multiples_vanish(w - age, w);
                vstd::arithmetic::div_mod::lemma_small_mod((w - age) as nat, w as nat);
            }
        }
        (x, r)
    }
}

} // verus!
