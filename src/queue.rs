//! The two queues: one that keeps the items, and one that keeps only their
//! positions.
use crate::engine::MonotoneDeque;
use crate::window::{
    first_kept, keep_at_most, keys_of, lemma_keys_slide, min_index, nondecreasing, slide,
    undominated,
};
use ahash::RandomState;
use core::hash::{BuildHasher, Hash};
use vstd::prelude::*;

verus! {

#[verifier::external_type_specification]
#[verifier::external_body]
pub struct ExAHashRandomState(RandomState);

/// Relies on `ahash::RandomState::with_seed`: builds a hash builder keyed by
/// `key`; nothing is assumed of the hashes it gives.
pub assume_specification[ RandomState::with_seed ](key: usize) -> RandomState;

/// Relies on `BuildHasher::hash_one`: the 64-bit hash of `x` under a hasher
/// from `builder`; nothing is assumed of its value.
#[verifier::external_body]
fn hash_item<T: Hash, S: BuildHasher>(builder: &S, x: &T) -> u64 {
    builder.hash_one(x)
}

/// A monotone queue that computes consecutive minimizers in constant time:
/// after each insertion it reports, among the last `width` items, the one
/// with the smallest hash (the earliest one on equal hashes).
pub struct MinimizerQueue<T, S = RandomState> {
    engine: MonotoneDeque<T>,
    hash_builder: S,
}

impl<T, S> View for MinimizerQueue<T, S> {
    type V = Seq<(T, u64)>;

    /// The (item, hash) pairs of the current window, oldest first.
    closed spec fn view(&self) -> Seq<(T, u64)> {
        self.engine@
    }
}

impl<T, S> MinimizerQueue<T, S> {
    pub closed spec fn window_width(&self) -> nat {
        self.engine.width()
    }

    /// The slot that the next item will be given.
    pub closed spec fn position(&self) -> nat {
        self.engine.position()
    }

    /// How many items have been inserted since creation.
    pub closed spec fn inserted(&self) -> nat {
        self.engine.inserted()
    }

    /// The elementary steps taken since creation.
    pub closed spec fn steps(&self) -> nat {
        self.engine.steps()
    }

    /// The hashes of the candidates kept for the minimum, front to back.
    pub closed spec fn retained_keys(&self) -> Seq<u64> {
        self.engine.retained_keys()
    }

    pub closed spec fn wf(&self) -> bool {
        self.engine.wf()
    }

    /// What every valid queue guarantees: a positive width, a window no
    /// longer than it, and as candidates the undominated hashes of the
    /// window, in non-decreasing order.
    pub proof fn lemma_valid(&self)
        requires
            self.wf(),
        ensures
            0 < self.window_width(),
            self@.len() <= self.window_width(),
            self.retained_keys() == undominated(keys_of(self@)),
            self.retained_keys().len() <= self@.len(),
            self@.len() > 0 ==> self.retained_keys().len() > 0,
            nondecreasing(self.retained_keys()),
            self.steps() <= 5 * self.inserted(),
    {
        self.engine.lemma_valid();
    }
}

impl<T: Copy> MinimizerQueue<T, RandomState> {
    /// Creates an empty queue with the given width, hashing with a seed
    /// equal to the width.
    pub fn new(width: u16) -> (r: Self)
        requires
            width > 0,
        ensures
            r.wf(),
            r.window_width() == width,
            r@ == Seq::<(T, u64)>::empty(),
            r.position() == 0,
            r.inserted() == 0,
    {
        Self::with_seed(width, width as usize)
    }

    /// Creates an empty queue with the given width and seed; the seed
    /// changes the order of the items.
    pub fn with_seed(width: u16, seed: usize) -> (r: Self)
        requires
            width > 0,
        ensures
            r.wf(),
            r.window_width() == width,
            r@ == Seq::<(T, u64)>::empty(),
            r.position() == 0,
            r.inserted() == 0,
    {
        Self::with_hasher(width, RandomState::with_seed(seed))
    }
}

impl<T: Copy, S> MinimizerQueue<T, S> {
    /// Creates an empty queue with the given width and hash builder, whose
    /// hashes order the items.
    pub fn with_hasher(width: u16, hash_builder: S) -> (r: Self)
        requires
            width > 0,
        ensures
            r.wf(),
            r.window_width() == width,
            r@ == Seq::<(T, u64)>::empty(),
            r.position() == 0,
            r.inserted() == 0,
    {
        MinimizerQueue { engine: MonotoneDeque::new(width), hash_builder }
    }

    pub fn width(&self) -> (r: usize)
        ensures
            r == self.window_width(),
    {
        self.engine.width_value() as usize
    }

    /// The current minimizer: the item with the smallest hash in the window,
    /// the earliest one on equal hashes.
    pub fn get_min(&self) -> (r: T)
        requires
            self.wf(),
            self@.len() > 0,
        ensures
            r == self@[min_index(keys_of(self@))].0,
    {
        self.engine.front().0
    }

    /// The current minimizer and its position in the window: 0 for the
    /// oldest slot of a full window, `width - 1` for the newest.
    pub fn get_min_pos(&self) -> (r: (T, usize))
        requires
            self.wf(),
            self@.len() > 0,
        ensures
            r.0 == self@[min_index(keys_of(self@))].0,
            r.1 == self.window_width() - self@.len() + min_index(keys_of(self@)),
    {
        let (x, rel) = self.engine.front();
        (x, rel as usize)
    }

    /// Inserts `x` with the given hash as the newest item of the window.
    pub fn insert_with_hash(&mut self, x: T, hash: u64)
        requires
            old(self).wf(),
        ensures
            final(self).wf(),
            final(self).window_width() == old(self).window_width(),
            final(self)@ == slide(old(self)@, (x, hash), old(self).window_width()),
            final(self)@.len() > 0,
            final(self)@.last() == (x, hash),
            final(self).position() == (old(self).position() + 1) % old(self).window_width(),
            final(self).inserted() == old(self).inserted() + 1,
            nondecreasing(final(self).retained_keys()),
            final(self).retained_keys() == undominated(keys_of(final(self)@)),
            final(self).retained_keys() == keep_at_most(
                if old(self)@.len() == old(self).window_width() && first_kept(keys_of(old(self)@)) {
                    old(self).retained_keys().drop_first()
                } else {
                    old(self).retained_keys()
                },
                hash,
            ).push(hash),
            1 <= final(self).retained_keys().len() <= final(self).window_width(),
            final(self).steps() <= 5 * final(self).inserted(),
    {
        self.engine.push(x, hash);
    }

    /// Empties the queue; the width and the slot counter are kept.
    pub fn clear(&mut self)
        requires
            old(self).wf(),
        ensures
            final(self).wf(),
            final(self)@ == Seq::<(T, u64)>::empty(),
            final(self).window_width() == old(self).window_width(),
            final(self).position() == old(self).position(),
            final(self).inserted() == old(self).inserted(),
            final(self).retained_keys() == Seq::<u64>::empty(),
    {
        self.engine.clear();
    }
}

impl<T: Hash + Copy, S: BuildHasher> MinimizerQueue<T, S> {
    /// Inserts `x`, ordered by its hash under the queue's hash builder.
    pub fn insert(&mut self, x: T)
        requires
            old(self).wf(),
        ensures
            final(self).wf(),
            final(self).window_width() == old(self).window_width(),
            final(self)@.len() > 0,
            final(self)@ == slide(old(self)@, (x, final(self)@.last().1), old(self).window_width()),
            final(self).position() == (old(self).position() + 1) % old(self).window_width(),
            final(self).inserted() == old(self).inserted() + 1,
            nondecreasing(final(self).retained_keys()),
            final(self).retained_keys() == undominated(keys_of(final(self)@)),
            final(self).retained_keys() == keep_at_most(
                if old(self)@.len() == old(self).window_width() && first_kept(keys_of(old(self)@)) {
                    old(self).retained_keys().drop_first()
                } else {
                    old(self).retained_keys()
                },
                final(self)@.last().1,
            ).push(final(self)@.last().1),
            1 <= final(self).retained_keys().len() <= final(self).window_width(),
            final(self).steps() <= 5 * final(self).inserted(),
    {
        let h = hash_item(&self.hash_builder, &x);
        self.insert_with_hash(x, h);
    }
}

/// A monotone queue that computes the positions of consecutive minimizers in
/// constant time, keeping only hashes.
pub struct ImplicitMinimizerQueue<S = RandomState> {
    engine: MonotoneDeque<()>,
    hash_builder: S,
}

impl<S> View for ImplicitMinimizerQueue<S> {
    type V = Seq<u64>;

    /// The hashes of the current window, oldest first.
    closed spec fn view(&self) -> Seq<u64> {
        keys_of(self.engine@)
    }
}

impl<S> ImplicitMinimizerQueue<S> {
    pub closed spec fn window_width(&self) -> nat {
        self.engine.width()
    }

    /// The slot that the next item will be given.
    pub closed spec fn position(&self) -> nat {
        self.engine.position()
    }

    /// How many items have been inserted since creation.
    pub closed spec fn inserted(&self) -> nat {
        self.engine.inserted()
    }

    /// The elementary steps taken since creation.
    pub closed spec fn steps(&self) -> nat {
        self.engine.steps()
    }

    /// The hashes of the candidates kept for the minimum, front to back.
    pub closed spec fn retained_keys(&self) -> Seq<u64> {
        self.engine.retained_keys()
    }

    pub closed spec fn wf(&self) -> bool {
        self.engine.wf()
    }

    /// What every valid queue guarantees: a positive width, a window no
    /// longer than it, and as candidates the undominated hashes of the
    /// window, in non-decreasing order.
    pub proof fn lemma_valid(&self)
        requires
            self.wf(),
        ensures
            0 < self.window_width(),
            self@.len() <= self.window_width(),
            self.retained_keys() == undominated(self@),
            self.retained_keys().len() <= self@.len(),
            self@.len() > 0 ==> self.retained_keys().len() > 0,
            nondecreasing(self.retained_keys()),
            self.steps() <= 5 * self.inserted(),
    {
        self.engine.lemma_valid();
    }
}

impl ImplicitMinimizerQueue<RandomState> {
    /// Creates an empty queue with the given width, hashing with a seed
    /// equal to the width.
    pub fn new(width: u16) -> (r: Self)
        requires
            width > 0,
        ensures
            r.wf(),
            r.window_width() == width,
            r@ == Seq::<u64>::empty(),
            r.position() == 0,
            r.inserted() == 0,
    {
        Self::with_seed(width, width as usize)
    }

    /// Creates an empty queue with the given width and seed; the seed
    /// changes the order of the items.
    pub fn with_seed(width: u16, seed: usize) -> (r: Self)
        requires
            width > 0,
        ensures
            r.wf(),
            r.window_width() == width,
            r@ == Seq::<u64>::empty(),
            r.position() == 0,
            r.inserted() == 0,
    {
        Self::with_hasher(width, RandomState::with_seed(seed))
    }
}

impl<S> ImplicitMinimizerQueue<S> {
    /// Creates an empty queue with the given width and hash builder, whose
    /// hashes order the items.
    pub fn with_hasher(width: u16, hash_builder: S) -> (r: Self)
        requires
            width > 0,
        ensures
            r.wf(),
            r.window_width() == width,
            r@ == Seq::<u64>::empty(),
            r.position() == 0,
            r.inserted() == 0,
    {
        let r = ImplicitMinimizerQueue { engine: MonotoneDeque::new(width), hash_builder };
        assert(r@ =~= Seq::<u64>::empty());
        r
    }

    pub fn width(&self) -> (r: usize)
        ensures
            r == self.window_width(),
    {
        self.engine.width_value() as usize
    }

    /// The position of the current minimizer in the window: 0 for the
    /// oldest slot of a full window, `width - 1` for the newest.
    pub fn get_min_pos(&self) -> (r: usize)
        requires
            self.wf(),
            self@.len() > 0,
        ensures
            r == self.window_width() - self@.len() + min_index(self@),
    {
        let (_, rel) = self.engine.front();
        rel as usize
    }

    /// Inserts an item by its hash, as the newest item of the window.
    pub fn insert_hash(&mut self, hash: u64)
        requires
            old(self).wf(),
        ensures
            final(self).wf(),
            final(self).window_width() == old(self).window_width(),
            final(self)@ == slide(old(self)@, hash, old(self).window_width()),
            final(self)@.len() > 0,
            final(self)@.last() == hash,
            final(self).position() == (old(self).position() + 1) % old(self).window_width(),
            final(self).inserted() == old(self).inserted() + 1,
            nondecreasing(final(self).retained_keys()),
            final(self).retained_keys() == undominated(final(self)@),
            final(self).retained_keys() == keep_at_most(
                if old(self)@.len() == old(self).window_width() && first_kept(old(self)@) {
                    old(self).retained_keys().drop_first()
                } else {
                    old(self).retained_keys()
                },
                hash,
            ).push(hash),
            1 <= final(self).retained_keys().len() <= final(self).window_width(),
            final(self).steps() <= 5 * final(self).inserted(),
    {
        proof {
            lemma_keys_slide(self.engine@, ((), hash), self.engine.width());
        }
        self.engine.push((), hash);
    }

    /// Empties the queue; the width and the slot counter are kept.
    pub fn clear(&mut self)
        requires
            old(self).wf(),
        ensures
            final(self).wf(),
            final(self)@ == Seq::<u64>::empty(),
            final(self).window_width() == old(self).window_width(),
            final(self).position() == old(self).position(),
            final(self).inserted() == old(self).inserted(),
            final(self).retained_keys() == Seq::<u64>::empty(),
    {
        self.engine.clear();
        assert(self@ =~= Seq::<u64>::empty());
    }
}

impl<S: BuildHasher> ImplicitMinimizerQueue<S> {
    /// Inserts `x`, ordered by its hash under the queue's hash builder.
    pub fn insert<T: Hash>(&mut self, x: &T)
        requires
            old(self).wf(),
        ensures
            final(self).wf(),
            final(self).window_width() == old(self).window_width(),
            final(self)@.len() > 0,
            final(self)@ == slide(old(self)@, final(self)@.last(), old(self).window_width()),
            final(self).position() == (old(self).position() + 1) % old(self).window_width(),
            final(self).inserted() == old(self).inserted() + 1,
            nondecreasing(final(self).retained_keys()),
            final(self).retained_keys() == undominated(final(self)@),
            final(self).retained_keys() == keep_at_most(
                if old(self)@.len() == old(self).window_width() && first_kept(old(self)@) {
                    old(self).retained_keys().drop_first()
                } else {
                    old(self).retained_keys()
                },
                final(self)@.last(),
            ).push(final(self)@.last()),
            1 <= final(self).retained_keys().len() <= final(self).window_width(),
            final(self).steps() <= 5 * final(self).inserted(),
    {
        let h = hash_item(&self.hash_builder, x);
        self.insert_hash(h);
    }
}

} // verus!
