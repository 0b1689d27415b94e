//! The mathematical model of a sliding window and of its minimum.
use vstd::prelude::*;

verus! {

/// The window after one more item: the item joins at the back, and the oldest
/// item leaves once more than `width` items would be held.
pub open spec fn slide<A>(win: Seq<A>, x: A, width: nat) -> Seq<A> {
    let grown = win.push(x);
    if grown.len() > width {
        grown.drop_first()
    } else {
        grown
    }
}

/// The window left by feeding a whole stream, in order, to an empty window.
pub open spec fn fill<A>(stream: Seq<A>, width: nat) -> Seq<A>
    decreases stream.len(),
{
    if stream.len() == 0 {
        Seq::empty()
    } else {
        slide(fill(stream.drop_last(), width), stream.last(), width)
    }
}

/// The order keys of a window of (item, key) pairs.
pub open spec fn keys_of<A>(win: Seq<(A, u64)>) -> Seq<u64> {
    win.map_values(|p: (A, u64)| p.1)
}

/// Index of the smallest key; among equal keys the earliest one.
pub open spec fn min_index(keys: Seq<u64>) -> int
    decreases keys.len(),
{
    if keys.len() <= 1 {
        0
    } else {
        let m = min_index(keys.drop_last());
        if keys.last() < keys[m] {
            keys.len() - 1
        } else {
            m
        }
    }
}

/// `m` holds a smallest key, and every earlier key is strictly larger.
pub open spec fn is_first_min(keys: Seq<u64>, m: int) -> bool {
    &&& 0 <= m < keys.len()
    &&& forall|i: int| 0 <= i < keys.len() ==> keys[m] <= #[trigger] keys[i]
    &&& forall|i: int| 0 <= i < m ==> #[trigger] keys[i] > keys[m]
}

/// Keys that never decrease from front to back.
pub open spec fn nondecreasing(keys: Seq<u64>) -> bool {
    forall|a: int, b: int| 0 <= a < b < keys.len() ==> keys[a] <= keys[b]
}

/// The earliest smallest key of a non-empty window is found by `min_index`.
pub proof fn lemma_min_index(keys: Seq<u64>)
    requires
        keys.len() > 0,
    ensures
        is_first_min(keys, min_index(keys)),
    decreases keys.len(),
{
    if keys.len() > 1 {
        let init = keys.drop_last();
        lemma_min_index(init);
        assert forall|i: int| 0 <= i < init.len() implies init[i] == keys[i] by {}
    }
}

/// At most one index holds the earliest smallest key.
pub proof fn lemma_first_min_unique(keys: Seq<u64>, a: int, b: int)
    requires
        is_first_min(keys, a),
        is_first_min(keys, b),
    ensures
        a == b,
{
    if a < b {
        assert(keys[a] > keys[b]);
        assert(keys[a] <= keys[b]);
    } else if b < a {
        assert(keys[b] > keys[a]);
        assert(keys[b] <= keys[a]);
    }
}

/// Feeding a stream leaves exactly its last `width` items (or all of them,
/// when fewer have come), oldest first.
pub proof fn lemma_fill<A>(stream: Seq<A>, width: nat)
    requires
        width > 0,
    ensures
        fill(stream, width) == stream.subrange(
            stream.len() - (if stream.len() < width { stream.len() } else { width }),
            stream.len() as int,
        ),
    decreases stream.len(),
{
    if stream.len() > 0 {
        let init = stream.drop_last();
        lemma_fill(init, width);
        let n = stream.len() as int;
        let prev = fill(init, width);
        let s0 = (n - 1) - (if n - 1 < width { n - 1 } else { width as int });
        let s1 = n - (if n < width { n } else { width as int });
        assert(prev == stream.subrange(s0, n - 1));
        assert(fill(stream, width) =~= stream.subrange(s1, n));
    }
}

/// Once at least `width` items have come, the window after the item at index
/// `i` is the stream's items `i - width + 1` to `i`, and the reported minimum
/// is the earliest of the smallest keys among them.
pub proof fn lemma_window_minimum<A>(stream: Seq<(A, u64)>, width: nat, i: int)
    requires
        width > 0,
        width - 1 <= i < stream.len(),
    ensures
        fill(stream.take(i + 1), width) == stream.subrange(i - width + 1, i + 1),
        ({
            let lo = i - width + 1;
            let arg = lo + min_index(keys_of(fill(stream.take(i + 1), width)));
            &&& lo <= arg <= i
            &&& forall|j: int| lo <= j <= i ==> stream[arg].1 <= #[trigger] stream[j].1
            &&& forall|j: int| lo <= j < arg ==> #[trigger] stream[j].1 > stream[arg].1
        }),
{
    let pre = stream.take(i + 1);
    lemma_fill(pre, width);
    let win = fill(pre, width);
    assert(win =~= stream.subrange(i - width + 1, i + 1));
    let keys = keys_of(win);
    lemma_min_index(keys);
    let lo = i - width + 1;
    let m = min_index(keys);
    assert forall|j: int| lo <= j <= i implies stream[lo + m].1 <= #[trigger] stream[j].1 by {
        assert(keys[j - lo] == stream[j].1);
    }
    assert forall|j: int| lo <= j < lo + m implies #[trigger] stream[j].1 > stream[lo + m].1 by {
        assert(keys[j - lo] == stream[j].1);
    }
}

/// Once at least `width` items have come, the relative position that the
/// queues report for the minimum (`width - window length + index in the
/// window`) is its distance from the window's oldest item, between 0 and
/// `width - 1`, which is `width - 1` less its age in insertions.
pub proof fn lemma_window_position<A>(stream: Seq<(A, u64)>, width: nat, i: int)
    requires
        width > 0,
        width - 1 <= i < stream.len(),
    ensures
        ({
            let win = fill(stream.take(i + 1), width);
            let rel = width - win.len() + min_index(keys_of(win));
            let arg = i - width + 1 + min_index(keys_of(win));
            &&& 0 <= rel <= width - 1
            &&& rel == (width - 1) - (i - arg)
        }),
{
    lemma_window_minimum(stream, width, i);
    let win = fill(stream.take(i + 1), width);
    assert(win.len() == width);
    lemma_min_index(keys_of(win));
}

/// A slid window ends with the new item and holds at most `width` items.
pub proof fn lemma_slide_last<A>(win: Seq<A>, x: A, width: nat)
    requires
        width > 0,
        win.len() <= width,
    ensures
        slide(win, x, width).len() > 0,
        slide(win, x, width).len() <= width,
        slide(win, x, width).last() == x,
{
}

/// The keys of a slid window are the slid keys.
pub proof fn lemma_keys_slide<A>(win: Seq<(A, u64)>, x: (A, u64), width: nat)
    ensures
        keys_of(slide(win, x, width)) == slide(keys_of(win), x.1, width),
{
    assert(keys_of(slide(win, x, width)) =~= slide(keys_of(win), x.1, width));
}

/// The keys of `ks` that are at most `k`, in order.
pub open spec fn keep_at_most(ks: Seq<u64>, k: u64) -> Seq<u64>
    decreases ks.len(),
{
    if ks.len() == 0 {
        Seq::empty()
    } else if ks.last() <= k {
        keep_at_most(ks.drop_last(), k).push(ks.last())
    } else {
        keep_at_most(ks.drop_last(), k)
    }
}

/// The keys of a window that no later key undercuts: `ks[t]` stays exactly
/// when no `ks[u]` with `u > t` is strictly smaller. Each new key drops the
/// strictly larger ones before it and comes last.
pub open spec fn undominated(ks: Seq<u64>) -> Seq<u64>
    decreases ks.len(),
{
    if ks.len() == 0 {
        Seq::empty()
    } else {
        keep_at_most(undominated(ks.drop_last()), ks.last()).push(ks.last())
    }
}

/// No later key of `ks` is smaller than its first one.
pub open spec fn first_kept(ks: Seq<u64>) -> bool {
    forall|u: int| 0 < u < ks.len() ==> #[trigger] ks[u] >= ks[0]
}

pub proof fn lemma_keep_len(ks: Seq<u64>, k: u64)
    ensures
        keep_at_most(ks, k).len() <= ks.len(),
    decreases ks.len(),
{
    if ks.len() > 0 {
        lemma_keep_len(ks.drop_last(), k);
    }
}

/// A window of `n` keys keeps between 1 and `n` of them (none when empty).
pub proof fn lemma_undominated_len(ks: Seq<u64>)
    ensures
        undominated(ks).len() <= ks.len(),
        ks.len() > 0 ==> undominated(ks).len() > 0,
    decreases ks.len(),
{
    if ks.len() > 0 {
        lemma_undominated_len(ks.drop_last());
        lemma_keep_len(undominated(ks.drop_last()), ks.last());
    }
}

/// On non-decreasing keys, keeping those at most `k` is cutting at the first
/// larger one.
pub proof fn lemma_keep_sorted(ks: Seq<u64>, k: u64, i: int)
    requires
        0 <= i <= ks.len(),
        forall|t: int| 0 <= t < i ==> #[trigger] ks[t] <= k,
        forall|t: int| i <= t < ks.len() ==> #[trigger] ks[t] > k,
    ensures
        keep_at_most(ks, k) == ks.take(i),
    decreases ks.len(),
{
    if ks.len() > 0 {
        let init = ks.drop_last();
        if i == ks.len() {
            lemma_keep_sorted(init, k, i - 1);
            assert(ks.take(i) =~= init.take(i - 1).push(ks.last()));
        } else {
            lemma_keep_sorted(init, k, i);
            assert(ks.take(i) =~= init.take(i));
        }
    }
}

proof fn lemma_keep_drop_first(ks: Seq<u64>, k: u64)
    requires
        ks.len() > 0,
    ensures
        ks[0] <= k ==> keep_at_most(ks, k).len() > 0 && keep_at_most(ks, k)[0] == ks[0]
            && keep_at_most(ks.drop_first(), k) == keep_at_most(ks, k).drop_first(),
        ks[0] > k ==> keep_at_most(ks.drop_first(), k) == keep_at_most(ks, k),
    decreases ks.len(),
{
    if ks.len() == 1 {
        assert(ks.drop_last() =~= Seq::<u64>::empty());
        assert(ks.drop_first() =~= Seq::<u64>::empty());
        assert(keep_at_most(Seq::<u64>::empty(), k) =~= Seq::<u64>::empty());
        if ks[0] <= k {
            assert(keep_at_most(ks, k) =~= seq![ks[0]]);
        }
    } else {
        let init = ks.drop_last();
        lemma_keep_drop_first(init, k);
        assert(ks.drop_first().drop_last() =~= init.drop_first());
        assert(ks.drop_first().last() == ks.last());
        let a = keep_at_most(init, k);
        if ks.last() <= k {
            if ks[0] <= k {
                assert(a.push(ks.last()).drop_first() =~= a.drop_first().push(ks.last()));
            }
        }
    }
}

/// Dropping the oldest key of a window drops it from the undominated keys
/// when it was one of them, and changes nothing otherwise.
pub proof fn lemma_undominated_drop_first(ks: Seq<u64>)
    requires
        ks.len() > 0,
    ensures
        first_kept(ks) ==> undominated(ks).len() > 0 && undominated(ks)[0] == ks[0]
            && undominated(ks.drop_first()) == undominated(ks).drop_first(),
        !first_kept(ks) ==> undominated(ks.drop_first()) == undominated(ks),
    decreases ks.len(),
{
    let init = ks.drop_last();
    let k = ks.last();
    if ks.len() == 1 {
        assert(init =~= Seq::<u64>::empty());
        assert(ks.drop_first() =~= Seq::<u64>::empty());
        assert(undominated(ks) =~= seq![k]);
    } else {
        lemma_undominated_drop_first(init);
        let u0 = undominated(init);
        let rest = ks.drop_first();
        assert(rest.drop_last() =~= init.drop_first());
        assert(rest.last() == k);
        assert(first_kept(ks) == (first_kept(init) && ks[0] <= k)) by {
            if first_kept(init) && ks[0] <= k {
                assert forall|u: int| 0 < u < ks.len() implies #[trigger] ks[u] >= ks[0] by {
                    if u < ks.len() - 1 {
                        assert(init[u] == ks[u]);
                    }
                }
            }
            if first_kept(ks) {
                assert forall|u: int| 0 < u < init.len() implies #[trigger] init[u] >= init[0] by {
                    assert(ks[u] >= ks[0]);
                }
                assert(ks[ks.len() - 1] >= ks[0]);
            }
        }
        if first_kept(init) {
            lemma_keep_drop_first(u0, k);
            if ks[0] <= k {
                let a = keep_at_most(u0, k);
                assert(a.push(k).drop_first() =~= a.drop_first().push(k));
            }
        }
    }
}

} // verus!
