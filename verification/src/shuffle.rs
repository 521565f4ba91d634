//! Permutations by the Fisher-Yates shuffle: the whole cycle shuffled at
//! once, in a vector or in an array, or one swap with each draw.

use crate::random::RandomSource;
use vstd::prelude::*;
use crate::mask::{fastmap, fastmap32, lemma_fastmap_range};
use crate::permutation::{
    advance, indices, is_permutation, lemma_draw, lemma_indices, lemma_rearranged, lemma_swapped,
    SmallIndexPermutations,
};
use crate::MAX_PERIOD;

verus! {

/// The indices `0, .., n - 1` in their order.
pub open spec fn identity(n: nat) -> Seq<u8> {
    Seq::new(n, |i: int| i as u8)
}

/// The indices in their order are a permutation.
pub proof fn lemma_identity(n: nat)
    requires
        n <= 256,
    ensures
        is_permutation(identity(n), n),
{
    let s = identity(n);
    assert(s.to_set() =~= indices(n)) by {
        assert forall|x: u8| s.to_set().contains(x) <==> indices(n).contains(x) by {
            if (x as nat) < n {
                assert(s[x as int] == x);
            }
        }
    }
}

/// What a cycle has drawn when its draws are the items before `cursor`.
/// With all of them drawn the cycle is over, and the next one has drawn
/// nothing.
pub open spec fn drawn_before(items: Seq<u8>, cursor: nat) -> Set<u8> {
    if cursor >= items.len() {
        Set::empty()
    } else {
        items.take(cursor as int).to_set()
    }
}

/// Drawing the item at `cursor` from a permutation: it is an index that
/// the cycle has not drawn, and then the items before `cursor + 1` are
/// drawn.
pub proof fn lemma_draw_at(items: Seq<u8>, cursor: nat, n: nat)
    requires
        1 <= n <= 64,
        is_permutation(items, n),
        cursor < n,
    ensures
        items[cursor as int] < n,
        !items.take(cursor as int).to_set().contains(items[cursor as int]),
        drawn_before(items, cursor + 1) == advance(
            items.take(cursor as int).to_set(),
            items[cursor as int],
            n,
        ),
        items.take(cursor as int).to_set().subset_of(indices(n)),
        items.take(cursor as int).to_set() != indices(n),
{
    let c = cursor as int;
    let sofar = items.take(c);
    let i = items[c];
    assert(items.to_set().contains(i));
    assert(sofar.to_set().subset_of(indices(n))) by {
        assert forall|x: u8| sofar.to_set().contains(x) implies indices(n).contains(x) by {
            let j = choose|j: int| 0 <= j < sofar.len() && sofar[j] == x;
            assert(items[j] == x);
            assert(items.to_set().contains(x));
        }
    }
    if sofar.to_set().contains(i) {
        let j = choose|j: int| 0 <= j < sofar.len() && sofar[j] == i;
        assert(items[j] == items[c]);
    }
    lemma_draw(n, sofar, i);
    assert(sofar.push(i) =~= items.take(c + 1));
    lemma_indices(n);
    sofar.unique_seq_to_set();
    if cursor + 1 == n {
        assert(items.take(c + 1) =~= items);
    }
}

/// Permutations by a full shuffle of a vector of indices at the start of
/// each cycle.
pub struct Shuffle<R> {
    rng: R,
    idxs: Vec<u8>,
    idx: u8,
}

impl<R> Shuffle<R> {
    /// The indices in the order in which this cycle gives them.
    pub closed spec fn items(&self) -> Seq<u8> {
        self.idxs@
    }

    /// How many items of the cycle have been given.
    pub closed spec fn cursor(&self) -> nat {
        self.idx as nat
    }

    /// The source of randomness, in the state it is in.
    pub closed spec fn source(&self) -> R {
        self.rng
    }

    /// `next` and `i` are the state and the draw that follow when `order`
    /// is the order of the items that the draw is taken from: the items as
    /// they are while a cycle is under way, and as the shuffle leaves them
    /// where a cycle starts.
    pub open spec fn steps_to(&self, order: Seq<u8>, next: &Self, i: u8) -> bool {
        let c: int = if self.cursor() < self.items().len() {
            self.cursor() as int
        } else {
            0
        };
        &&& next.items() == order
        &&& next.cursor() == c + 1
        &&& i == order[c]
    }

    /// The cursor and the order decide the draw: two generators of one
    /// period at one cursor that draw from one order give one draw and
    /// are in one state again.
    pub proof fn lemma_order_decides(
        &self,
        other: &Self,
        order: Seq<u8>,
        a: (&Self, u8),
        b: (&Self, u8),
    )
        requires
            self.items().len() == other.items().len(),
            self.cursor() == other.cursor(),
            self.steps_to(order, a.0, a.1),
            other.steps_to(order, b.0, b.1),
        ensures
            a.1 == b.1,
            a.0.items() == b.0.items(),
            a.0.cursor() == b.0.cursor(),
    {
    }
}

impl<R: RandomSource> Shuffle<R> {
    /// A generator of period `n` that draws its randomness from `rng`.
    pub fn new(rng: R, n: u8) -> (s: Self)
        requires
            0 < n <= MAX_PERIOD,
        ensures
            s.wf(),
            s.span() == n,
            s.drawn() == Set::<u8>::empty(),
            s.items() == identity(n as nat),
            s.cursor() == n,
            s.source() == rng,
    {
        let mut idxs: Vec<u8> = Vec::new();
        let mut i: u8 = 0;
        while i < n
            invariant
                i <= n,
                idxs@ == identity(i as nat),
            decreases n - i,
        {
            idxs.push(i);
            i += 1;
            assert(idxs@ =~= identity(i as nat));
        }
        proof {
            lemma_identity(n as nat);
        }
        Self { rng, idxs, idx: n }
    }
}

impl<R: RandomSource> SmallIndexPermutations for Shuffle<R> {
    open spec fn wf(&self) -> bool {
        &&& 1 <= self.items().len() <= 64
        &&& is_permutation(self.items(), self.items().len())
        &&& self.cursor() <= self.items().len()
    }

    open spec fn span(&self) -> nat {
        self.items().len()
    }

    open spec fn drawn(&self) -> Set<u8> {
        drawn_before(self.items(), self.cursor())
    }

    proof fn lemma_drawn(&self) {
        let n = self.span();
        lemma_indices(n);
        if self.cursor() < n {
            lemma_draw_at(self.items(), self.cursor(), n);
        } else {
            assert(indices(n).contains(0u8));
        }
    }

    fn period(&self) -> (n: u8) {
        self.idxs.len() as u8
    }

    fn next_index(&mut self) -> (i: u8)
        ensures
            old(self).cursor() < old(self).items().len() ==> {
                &&& final(self).items() == old(self).items()
                &&& final(self).cursor() == old(self).cursor() + 1
                &&& final(self).source() == old(self).source()
                &&& i == old(self).items()[old(self).cursor() as int]
            },
            old(self).cursor() == old(self).items().len() ==> {
                &&& final(self).items().to_multiset() == old(self).items().to_multiset()
                &&& final(self).cursor() == 1
                &&& i == final(self).items()[0]
            },
            old(self).steps_to(final(self).items(), &*final(self), i),
    {
        if self.idx == (*self).period() {
            self.reset();
        }
        proof {
            lemma_draw_at(self.items(), self.cursor(), (*self).span());
            assert(self.items().take(0).to_set() =~= Set::<u8>::empty());
        }
        let r: u8 = self.idxs[self.idx as usize];
        self.idx += 1;
        r
    }

    fn reset(&mut self)
        ensures
            final(self).cursor() == 0,
            final(self).items().to_multiset() == old(self).items().to_multiset(),
    {
        self.idx = 0;
        self.rng.shuffle(self.idxs.as_mut_slice());
        proof {
            lemma_rearranged(old(self).items(), self.items(), old(self).items().len());
            assert(self.items().take(0).to_set() =~= Set::<u8>::empty());
        }
    }
}

/// The table of the indices `0, .., 63` in their order.
pub fn make_indexes() -> (indexes: [u8; 64])
    ensures
        indexes@ == identity(64),
{
    let mut i: u8 = 0;
    let mut indexes: [u8; 64] = [0u8; 64];
    loop
        invariant_except_break
            i < MAX_PERIOD,
            forall|j: int| 0 <= j < i ==> indexes@[j] == j as u8,
        ensures
            forall|j: int| 0 <= j < 64 ==> indexes@[j] == j as u8,
        decreases MAX_PERIOD - i,
    {
        indexes[i as usize] = i;
        i += 1;
        if i == MAX_PERIOD {
            break ;
        }
    }
    assert(indexes@ =~= identity(64));
    indexes
}

/// The first `n` of the indices in their order are the first `n` indices.
proof fn lemma_identity_take(n: nat)
    requires
        n <= 64,
    ensures
        identity(64).take(n as int) == identity(n),
        is_permutation(identity(n), n),
{
    assert(identity(64).take(n as int) =~= identity(n));
    lemma_identity(n);
}

/// Permutations by a full shuffle at the start of each cycle, of the first
/// `n` slots of an array of 64.
pub struct ShuffleArray<R> {
    rng: R,
    idxs: [u8; 64],
    n: u8,
    idx: u8,
}

impl<R> ShuffleArray<R> {
    /// The period.
    pub closed spec fn len(&self) -> nat {
        self.n as nat
    }

    /// The 64 slots of the array.
    pub closed spec fn slots(&self) -> Seq<u8> {
        self.idxs@
    }

    /// The indices in the order in which this cycle gives them: the slots
    /// of the array that are in use, which are the first `n`.
    pub open spec fn items(&self) -> Seq<u8> {
        self.slots().take(self.len() as int)
    }

    /// How many items of the cycle have been given.
    pub closed spec fn cursor(&self) -> nat {
        self.idx as nat
    }

    /// The source of randomness, in the state it is in.
    pub closed spec fn source(&self) -> R {
        self.rng
    }

    /// `next` and `i` are the state and the draw that follow when `order`
    /// is the order of the slots that the draw is taken from: the slots as
    /// they are while a cycle is under way, and as the shuffle leaves them
    /// where a cycle starts.
    pub open spec fn steps_to(&self, order: Seq<u8>, next: &Self, i: u8) -> bool {
        let c: int = if self.cursor() < self.len() {
            self.cursor() as int
        } else {
            0
        };
        &&& next.len() == self.len()
        &&& next.slots() == order
        &&& next.cursor() == c + 1
        &&& i == order[c]
    }

    /// The cursor and the order decide the draw: two generators of one
    /// period at one cursor that draw from one order give one draw and
    /// are in one state again.
    pub proof fn lemma_order_decides(
        &self,
        other: &Self,
        order: Seq<u8>,
        a: (&Self, u8),
        b: (&Self, u8),
    )
        requires
            self.len() == other.len(),
            self.cursor() == other.cursor(),
            self.steps_to(order, a.0, a.1),
            other.steps_to(order, b.0, b.1),
        ensures
            a.1 == b.1,
            a.0.len() == b.0.len(),
            a.0.slots() == b.0.slots(),
            a.0.cursor() == b.0.cursor(),
    {
    }
}

impl<R: RandomSource> ShuffleArray<R> {
    /// A generator of period `n` that draws its randomness from `rng`.
    pub fn new(rng: R, n: u8) -> (s: Self)
        requires
            0 < n <= MAX_PERIOD,
        ensures
            s.wf(),
            s.span() == n,
            s.drawn() == Set::<u8>::empty(),
            s.slots() == identity(64),
            s.items() == identity(n as nat),
            s.cursor() == n,
            s.source() == rng,
    {
        proof {
            lemma_identity_take(n as nat);
        }
        Self { rng, idxs: make_indexes(), n, idx: n }
    }
}

impl<R: RandomSource> SmallIndexPermutations for ShuffleArray<R> {
    open spec fn wf(&self) -> bool {
        &&& 1 <= self.len() <= 64
        &&& self.slots().len() == 64
        &&& is_permutation(self.items(), self.len())
        &&& self.cursor() <= self.len()
    }

    open spec fn span(&self) -> nat {
        self.len()
    }

    open spec fn drawn(&self) -> Set<u8> {
        drawn_before(self.items(), self.cursor())
    }

    proof fn lemma_drawn(&self) {
        let n = self.span();
        lemma_indices(n);
        if self.cursor() < n {
            lemma_draw_at(self.items(), self.cursor(), n);
        } else {
            assert(indices(n).contains(0u8));
        }
    }

    fn period(&self) -> (n: u8) {
        self.n
    }

    fn reset(&mut self)
        ensures
            final(self).cursor() == 0,
            final(self).items().to_multiset() == old(self).items().to_multiset(),
            final(self).slots().skip(old(self).len() as int) == old(self).slots().skip(
                old(self).len() as int,
            ),
    {
        self.idx = 0;
        let n: usize = self.n as usize;
        let (head, _tail) = self.idxs.split_at_mut(n);
        let ghost before = head@;
        let ghost rest = _tail@;
        self.rng.shuffle(head);
        proof {
            assert(before =~= old(self).items());
            assert(self.idxs@ =~= head@ + rest);
            assert(head@.len() == n) by {
                vstd::seq_lib::to_multiset_len(head@);
                vstd::seq_lib::to_multiset_len(before);
            }
            assert(self.items() =~= head@);
            lemma_rearranged(old(self).items(), self.items(), old(self).len());
            assert(self.items().take(0).to_set() =~= Set::<u8>::empty());
        }
    }

    fn next_index(&mut self) -> (i: u8)
        ensures
            old(self).cursor() < old(self).len() ==> {
                &&& final(self).slots() == old(self).slots()
                &&& final(self).cursor() == old(self).cursor() + 1
                &&& final(self).source() == old(self).source()
                &&& i == old(self).items()[old(self).cursor() as int]
            },
            old(self).cursor() == old(self).len() ==> {
                &&& final(self).items().to_multiset() == old(self).items().to_multiset()
                &&& final(self).cursor() == 1
                &&& i == final(self).items()[0]
            },
            final(self).slots().skip(old(self).len() as int) == old(self).slots().skip(
                old(self).len() as int,
            ),
            old(self).steps_to(final(self).slots(), &*final(self), i),
    {
        if self.idx == (*self).period() {
            self.reset();
        }
        proof {
            lemma_draw_at(self.items(), self.cursor(), self.len());
            assert(self.items().take(0).to_set() =~= Set::<u8>::empty());
        }
        let r: u8 = self.idxs[self.idx as usize];
        self.idx += 1;
        r
    }
}

/// Permutations by one swap with each draw: the shuffle of a cycle is
/// spread over its draws, in the first `n` slots of an array of 64.
pub struct ShuffleArrayIncremental<R> {
    rng: R,
    idxs: [u8; 64],
    n: u8,
    idx: u8,
}

impl<R> ShuffleArrayIncremental<R> {
    /// The period.
    pub closed spec fn len(&self) -> nat {
        self.n as nat
    }

    /// The 64 slots of the array.
    pub closed spec fn slots(&self) -> Seq<u8> {
        self.idxs@
    }

    /// The slots of the array that are in use, which are the first `n`:
    /// the draws of this cycle so far, then the indices that it has yet to
    /// give.
    pub open spec fn items(&self) -> Seq<u8> {
        self.slots().take(self.len() as int)
    }

    /// How many items of the cycle have been given.
    pub closed spec fn cursor(&self) -> nat {
        self.idx as nat
    }

    /// The source of randomness, in the state it is in.
    pub closed spec fn source(&self) -> R {
        self.rng
    }

    /// The slot whose item the word `word` draws: one of those from the
    /// cursor on.
    pub open spec fn target(&self, word: u32) -> int {
        self.cursor() + fastmap(word, (self.len() - self.cursor()) as u32)
    }

    /// `next` and `i` are the state and the draw that the word `word` leads
    /// to: the item at the slot that the word picks changes places with
    /// the one at the cursor and is drawn, and the cursor moves on, back to
    /// the start after the last slot.
    pub open spec fn steps_to(&self, word: u32, next: &Self, i: u8) -> bool {
        let c = self.cursor() as int;
        let t = self.target(word);
        &&& next.len() == self.len()
        &&& next.slots() == self.slots().update(c, self.slots()[t]).update(t, self.slots()[c])
        &&& next.cursor() == if c + 1 == self.len() { 0 } else { c + 1 }
        &&& i == self.slots()[t]
    }

    /// The state and the word decide the draw: two generators in one
    /// state that step by one word give one draw and are in one state
    /// again.
    pub proof fn lemma_word_decides(&self, other: &Self, word: u32, a: (&Self, u8), b: (&Self, u8))
        requires
            self.len() == other.len(),
            self.slots() == other.slots(),
            self.cursor() == other.cursor(),
            self.steps_to(word, a.0, a.1),
            other.steps_to(word, b.0, b.1),
        ensures
            a.1 == b.1,
            a.0.len() == b.0.len(),
            a.0.slots() == b.0.slots(),
            a.0.cursor() == b.0.cursor(),
    {
    }
}

impl<R: RandomSource> ShuffleArrayIncremental<R> {
    /// A generator of period `n` that draws its randomness from `rng`.
    pub fn new(rng: R, n: u8) -> (s: Self)
        requires
            0 < n <= MAX_PERIOD,
        ensures
            s.wf(),
            s.span() == n,
            s.drawn() == Set::<u8>::empty(),
            s.slots() == identity(64),
            s.items() == identity(n as nat),
            s.cursor() == 0,
            s.source() == rng,
    {
        proof {
            lemma_identity_take(n as nat);
            assert(identity(n as nat).take(0).to_set() =~= Set::<u8>::empty());
        }
        Self { rng, idxs: make_indexes(), n, idx: 0 }
    }

    /// The draw that the random word `word` decides.
    pub fn next_index_with(&mut self, word: u32) -> (i: u8)
        requires
            (*old(self)).wf(),
        ensures
            (*final(self)).wf(),
            old(self).steps_to(word, &*final(self), i),
            final(self).source() == old(self).source(),
            final(self).slots().skip(old(self).len() as int) == old(self).slots().skip(
                old(self).len() as int,
            ),
            final(self).items() == old(self).items().update(
                old(self).cursor() as int,
                old(self).items()[old(self).target(word)],
            ).update(old(self).target(word), old(self).items()[old(self).cursor() as int]),
            i < old(self).len(),
            !(*old(self)).drawn().contains(i),
            (*final(self)).drawn() == advance((*old(self)).drawn(), i, old(self).len()),
    {
        let ghost n = self.len();
        let ghost c = self.cursor() as int;
        let ghost t = self.target(word);
        proof {
            lemma_fastmap_range(word, (self.n - self.idx) as u32);
            lemma_swapped(self.items(), c, t, n);
        }
        // the bias of the reduction is of no weight for so small a range
        let idx_swap: u32 = fastmap32(word, (self.n - self.idx) as u32) + self.idx as u32;
        let here: usize = self.idx as usize;
        let there: usize = idx_swap as usize;
        let a: u8 = self.idxs[here];
        let b: u8 = self.idxs[there];
        self.idxs[here] = b;
        self.idxs[there] = a;
        proof {
            assert(self.items() =~= old(self).items().update(c, old(self).items()[t]).update(
                t,
                old(self).items()[c],
            ));
            lemma_draw_at(self.items(), c as nat, n);
            assert(self.items().take(c) =~= old(self).items().take(c));
            assert(self.items().take(0).to_set() =~= Set::<u8>::empty());
        }
        let r: u8 = self.idxs[here];
        self.idx = if self.idx + 1 == self.n {
            0
        } else {
            self.idx + 1
        };
        r
    }
}

impl<R: RandomSource> SmallIndexPermutations for ShuffleArrayIncremental<R> {
    open spec fn wf(&self) -> bool {
        &&& 1 <= self.len() <= 64
        &&& self.slots().len() == 64
        &&& is_permutation(self.items(), self.len())
        &&& self.cursor() < self.len()
    }

    open spec fn span(&self) -> nat {
        self.len()
    }

    open spec fn drawn(&self) -> Set<u8> {
        drawn_before(self.items(), self.cursor())
    }

    proof fn lemma_drawn(&self) {
        lemma_draw_at(self.items(), self.cursor(), self.span());
    }

    fn period(&self) -> (n: u8) {
        self.n
    }

    fn reset(&mut self)
        ensures
            final(self).cursor() == 0,
            final(self).slots() == old(self).slots(),
            final(self).source() == old(self).source(),
    {
        self.idx = 0;
        proof {
            assert(self.items().take(0).to_set() =~= Set::<u8>::empty());
        }
    }

    fn next_index(&mut self) -> (i: u8)
        ensures
            exists|word: u32| old(self).steps_to(word, &*final(self), i),
            final(self).slots().skip(old(self).len() as int) == old(self).slots().skip(
                old(self).len() as int,
            ),
    {
        let word: u32 = self.rng.next_word();
        let ghost before = self.slots();
        let i: u8 = self.next_index_with(word);
        proof {
            assert(self.slots().skip(old(self).len() as int) == before.skip(
                old(self).len() as int,
            ));
            assert(old(self).steps_to(word, &*final(self), i));
        }
        i
    }
}

} // verus!
