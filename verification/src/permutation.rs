//! Generators of permutations of a small index set: what they share, and
//! why a cycle of draws is a permutation.

use vstd::prelude::*;

verus! {

/// The index set `{0, .., n - 1}`.
pub open spec fn indices(n: nat) -> Set<u8> {
    Set::new(|i: u8| (i as nat) < n)
}

/// `draws` is a permutation of the index set `{0, .., n - 1}`: it holds
/// each index once and nothing else.
pub open spec fn is_permutation(draws: Seq<u8>, n: nat) -> bool {
    &&& draws.len() == n
    &&& draws.no_duplicates()
    &&& draws.to_set() == indices(n)
}

/// The indices drawn in a cycle once `i` is drawn after `drawn`: with the
/// last index of the cycle the next cycle starts, with nothing drawn.
pub open spec fn advance(drawn: Set<u8>, i: u8, n: nat) -> Set<u8> {
    if drawn.insert(i) == indices(n) {
        Set::empty()
    } else {
        drawn.insert(i)
    }
}

/// `draws` is a run that a generator of period `n` can give when `start`
/// is what its cycle has drawn already: each draw is an index below `n`
/// that the cycle has not given yet.
pub open spec fn is_run(n: nat, start: Set<u8>, draws: Seq<u8>) -> bool
    decreases draws.len(),
{
    draws.len() == 0 || {
        &&& draws[0] < n
        &&& !start.contains(draws[0])
        &&& is_run(n, advance(start, draws[0], n), draws.drop_first())
    }
}

/// What the cycle has drawn after the run `draws` that began at `start`.
pub open spec fn after_run(n: nat, start: Set<u8>, draws: Seq<u8>) -> Set<u8>
    decreases draws.len(),
{
    if draws.len() == 0 {
        start
    } else {
        after_run(n, advance(start, draws[0], n), draws.drop_first())
    }
}

/// The index set `{0, .., n - 1}` is finite and has `n` members.
pub proof fn lemma_indices(n: nat)
    requires
        n <= 256,
    ensures
        indices(n).finite(),
        indices(n).len() == n,
    decreases n,
{
    if n == 0 {
        assert(indices(n) =~= Set::<u8>::empty());
    } else {
        lemma_indices((n - 1) as nat);
        assert(indices(n) =~= indices((n - 1) as nat).insert((n - 1) as u8));
    }
}

/// One more draw: where `i` is an index that the draws so far do not hold,
/// the draws with `i` are still without repetition, and they are the whole
/// index set exactly when there are `n` of them.
pub proof fn lemma_draw(n: nat, sofar: Seq<u8>, i: u8)
    requires
        n <= 256,
        sofar.no_duplicates(),
        sofar.to_set().subset_of(indices(n)),
        i < n,
        !sofar.to_set().contains(i),
    ensures
        sofar.len() < n,
        sofar.push(i).no_duplicates(),
        sofar.push(i).to_set() == sofar.to_set().insert(i),
        sofar.push(i).to_set().subset_of(indices(n)),
        sofar.len() + 1 == n <==> sofar.to_set().insert(i) == indices(n),
{
    broadcast use vstd::seq_lib::group_seq_properties;

    let next = sofar.push(i);
    lemma_indices(n);
    assert(next.to_set() =~= sofar.to_set().insert(i));
    assert(next.no_duplicates()) by {
        assert forall|a: int, b: int| 0 <= a < next.len() && 0 <= b < next.len() && a != b implies next[a] != next[b] by {
            if a == sofar.len() {
                assert(sofar.to_set().contains(sofar[b]));
            } else if b == sofar.len() {
                assert(sofar.to_set().contains(sofar[a]));
            }
        }
    }
    sofar.unique_seq_to_set();
    next.unique_seq_to_set();
    vstd::set_lib::lemma_len_subset(next.to_set(), indices(n));
    if sofar.len() + 1 == n {
        vstd::set_lib::lemma_subset_equality(next.to_set(), indices(n));
    }
}

/// A permutation stays one however its items are rearranged.
pub proof fn lemma_rearranged(a: Seq<u8>, b: Seq<u8>, n: nat)
    requires
        is_permutation(a, n),
        a.to_multiset() == b.to_multiset(),
    ensures
        is_permutation(b, n),
{
    broadcast use vstd::seq_lib::group_to_multiset_ensures;

    a.lemma_multiset_has_no_duplicates();
    b.lemma_multiset_has_no_duplicates_conv();
    assert(b.len() == a.len()) by {
        vstd::seq_lib::to_multiset_len(a);
        vstd::seq_lib::to_multiset_len(b);
    }
    assert(b.to_set() =~= a.to_set()) by {
        assert forall|x: u8| b.to_set().contains(x) <==> a.to_set().contains(x) by {
            assert(b.contains(x) <==> b.to_multiset().count(x) > 0);
            assert(a.contains(x) <==> a.to_multiset().count(x) > 0);
        }
    }
}

/// A permutation stays one when two of its items change places.
pub proof fn lemma_swapped(s: Seq<u8>, a: int, b: int, n: nat)
    requires
        is_permutation(s, n),
        0 <= a < n,
        0 <= b < n,
    ensures
        is_permutation(s.update(a, s[b]).update(b, s[a]), n),
{
    let t = s.update(a, s[b]).update(b, s[a]);
    assert(t.to_set() =~= s.to_set()) by {
        assert forall|x: u8| t.to_set().contains(x) <==> s.to_set().contains(x) by {
            if s.contains(x) {
                let j = choose|j: int| 0 <= j < s.len() && s[j] == x;
                let k = if j == a { b } else if j == b { a } else { j };
                assert(t[k] == x);
            }
            if t.contains(x) {
                let j = choose|j: int| 0 <= j < t.len() && t[j] == x;
                let k = if j == a { b } else if j == b { a } else { j };
                assert(s[k] == x);
            }
        }
    }
    assert(t.no_duplicates()) by {
        assert forall|i: int, j: int| 0 <= i < t.len() && 0 <= j < t.len() && i != j implies t[i] != t[j] by {
            let ki = if i == a { b } else if i == b { a } else { i };
            let kj = if j == a { b } else if j == b { a } else { j };
            assert(t[i] == s[ki] && t[j] == s[kj]);
        }
    }
}

proof fn lemma_run(n: nat, sofar: Seq<u8>, draws: Seq<u8>)
    requires
        1 <= n <= 256,
        sofar.no_duplicates(),
        sofar.to_set().subset_of(indices(n)),
        sofar.len() + draws.len() == n,
        draws.len() > 0,
        is_run(n, sofar.to_set(), draws),
    ensures
        is_permutation(sofar + draws, n),
        after_run(n, sofar.to_set(), draws) == Set::<u8>::empty(),
    decreases draws.len(),
{
    let i = draws[0];
    let rest = draws.drop_first();
    lemma_draw(n, sofar, i);
    assert(sofar + draws =~= sofar.push(i) + rest);
    let then = advance(sofar.to_set(), i, n);
    assert(after_run(n, sofar.to_set(), draws) == after_run(n, then, rest));
    if rest.len() == 0 {
        assert(sofar.push(i) + rest =~= sofar.push(i));
        assert(after_run(n, then, rest) == then);
    } else {
        assert(then == sofar.push(i).to_set());
        lemma_run(n, sofar.push(i), rest);
    }
}

/// The draws of one cycle are a permutation: a run of `n` draws that
/// begins where nothing is drawn, as after a reset or a full cycle, holds
/// each index below `n` once, and nothing is drawn where it ends.
pub proof fn lemma_cycle_is_permutation(n: nat, draws: Seq<u8>)
    requires
        1 <= n <= 64,
        draws.len() == n,
        is_run(n, Set::<u8>::empty(), draws),
    ensures
        is_permutation(draws, n),
        after_run(n, Set::<u8>::empty(), draws) == Set::<u8>::empty(),
{
    let none = Seq::<u8>::empty();
    assert(none.to_set() =~= Set::<u8>::empty());
    assert(none + draws =~= draws);
    lemma_run(n, none, draws);
}

/// A generator of permutations of a small index set `{0, .., n - 1}`.
///
/// It gives one index at a time. The draws of a cycle, `n` of them, are a
/// permutation of the index set; after the last one the next cycle starts
/// by itself.
pub trait SmallIndexPermutations {
    /// The invariant of the generator's state.
    spec fn wf(&self) -> bool;

    /// The period `n`: the size of the index set.
    spec fn span(&self) -> nat;

    /// The indices drawn so far in the current cycle. It is never the whole
    /// index set: a full cycle counts as a fresh one.
    spec fn drawn(&self) -> Set<u8>;

    /// The period is between 1 and 64, and the drawn indices are some, not
    /// all, of the index set.
    proof fn lemma_drawn(&self)
        requires
            self.wf(),
        ensures
            1 <= self.span() <= 64,
            self.drawn().subset_of(indices(self.span())),
            self.drawn() != indices(self.span()),
    ;

    /// The period `n`.
    fn period(&self) -> (n: u8)
        requires
            self.wf(),
        ensures
            n == self.span(),
    ;

    /// The next index of the current cycle: an index below the period that
    /// the cycle has not given yet. After the last index of a cycle the
    /// next draw belongs to a fresh cycle.
    fn next_index(&mut self) -> (i: u8)
        requires
            (*old(self)).wf(),
        ensures
            (*final(self)).wf(),
            (*final(self)).span() == (*old(self)).span(),
            i < (*old(self)).span(),
            !(*old(self)).drawn().contains(i),
            (*final(self)).drawn() == advance((*old(self)).drawn(), i, (*old(self)).span()),
    ;

    /// Drops the cycle in progress and starts a fresh one.
    fn reset(&mut self)
        requires
            (*old(self)).wf(),
        ensures
            (*final(self)).wf(),
            (*final(self)).span() == (*old(self)).span(),
            (*final(self)).drawn() == Set::<u8>::empty(),
    ;

    /// Draws without end, on loan: starts a fresh cycle and hands out an
    /// iteration that draws from this generator.
    fn iter(&mut self) -> (it: Iter<&mut Self>)
        requires
            (*old(self)).wf(),
        ensures
            (*it.generator()).wf(),
            (*it.generator()).span() == (*old(self)).span(),
            (*it.generator()).drawn() == Set::<u8>::empty(),
            (*final(self)).wf() == (*final(it.generator())).wf(),
            (*final(self)).span() == (*final(it.generator())).span(),
            (*final(self)).drawn() == (*final(it.generator())).drawn(),
    {
        self.reset();
        Iter { inner: self }
    }

    /// One full cycle from a fresh start: the `n` draws that follow a
    /// reset, which are a permutation of the index set.
    fn iter_period(&mut self) -> (draws: Vec<u8>)
        requires
            (*old(self)).wf(),
        ensures
            (*final(self)).wf(),
            (*final(self)).span() == (*old(self)).span(),
            (*final(self)).drawn() == Set::<u8>::empty(),
            is_permutation(draws@, (*old(self)).span()),
    {
        let n: u8 = (*self).period();
        self.reset();
        let mut draws: Vec<u8> = Vec::new();
        let mut k: u8 = 0;
        proof {
            (*self).lemma_drawn();
            assert(draws@.to_set() =~= Set::<u8>::empty());
        }
        while k < n
            invariant
                (*self).wf(),
                (*self).span() == n,
                1 <= n <= 64,
                k <= n,
                draws@.len() == k,
                draws@.no_duplicates(),
                draws@.to_set().subset_of(indices(n as nat)),
                k < n ==> (*self).drawn() == draws@.to_set(),
                k == n ==> (*self).drawn() == Set::<u8>::empty() && draws@.to_set() == indices(
                    n as nat,
                ),
            decreases n - k,
        {
            let i: u8 = self.next_index();
            proof {
                lemma_draw(n as nat, draws@, i);
            }
            draws.push(i);
            k += 1;
        }
        draws
    }

    /// Draws without end: starts a fresh cycle and hands the generator over
    /// to an iteration.
    fn into_iter(self) -> (it: Iter<Self>) where Self: Sized
        requires
            self.wf(),
        ensures
            it.generator().wf(),
            it.generator().span() == self.span(),
            it.generator().drawn() == Set::<u8>::empty(),
    {
        let mut inner = self;
        inner.reset();
        Iter { inner }
    }

    /// One full cycle from a fresh start, by value: the `n` draws that
    /// follow a reset, which are a permutation of the index set.
    fn into_iter_period(self) -> (draws: Vec<u8>) where Self: Sized
        requires
            self.wf(),
        ensures
            is_permutation(draws@, self.span()),
    {
        let mut inner = self;
        inner.iter_period()
    }
}

impl<T: SmallIndexPermutations + ?Sized> SmallIndexPermutations for &mut T {
    open spec fn wf(&self) -> bool {
        (**self).wf()
    }

    open spec fn span(&self) -> nat {
        (**self).span()
    }

    open spec fn drawn(&self) -> Set<u8> {
        (**self).drawn()
    }

    proof fn lemma_drawn(&self) {
        (**self).lemma_drawn();
    }

    fn period(&self) -> (n: u8) {
        (**self).period()
    }

    fn next_index(&mut self) -> (i: u8) {
        let i = (**self).next_index();
        proof {
            assert((*old(self)).span() == (**old(self)).span());
            assert((*old(self)).drawn() == (**old(self)).drawn());
            assert((*final(self)).wf() == (**final(self)).wf());
            assert((*final(self)).span() == (**final(self)).span());
            assert((*final(self)).drawn() == (**final(self)).drawn());
        }
        i
    }

    fn reset(&mut self) {
        (**self).reset();
        proof {
            assert((*old(self)).span() == (**old(self)).span());
            assert((*final(self)).wf() == (**final(self)).wf());
            assert((*final(self)).span() == (**final(self)).span());
            assert((*final(self)).drawn() == (**final(self)).drawn());
        }
    }
}

/// An iteration over the draws of a generator. It has no end: each cycle
/// is followed by the next.
pub struct Iter<T> {
    inner: T,
}

impl<T> Iter<T> {
    /// The generator that the iteration draws from.
    pub closed spec fn generator(&self) -> T {
        self.inner
    }
}

impl<T: SmallIndexPermutations> Iter<T> {
    /// An iteration over the draws of `inner`, from a fresh cycle on.
    pub fn new(inner: T) -> (it: Self)
        requires
            inner.wf(),
        ensures
            it.generator().wf(),
            it.generator().span() == inner.span(),
            it.generator().drawn() == Set::<u8>::empty(),
    {
        let mut inner = inner;
        inner.reset();
        Self { inner }
    }

    /// The next draw. There always is one.
    pub fn next(&mut self) -> (item: Option<u8>)
        requires
            old(self).generator().wf(),
        ensures
            final(self).generator().wf(),
            final(self).generator().span() == old(self).generator().span(),
            item matches Some(i) && i < old(self).generator().span() && !old(
                self,
            ).generator().drawn().contains(i) && final(self).generator().drawn() == advance(
                old(self).generator().drawn(),
                i,
                old(self).generator().span(),
            ),
    {
        Some(self.inner.next_index())
    }
}

} // verus!
