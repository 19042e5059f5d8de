//! Sets of pairwise incomparable elements of a partial order.
use vstd::prelude::*;
use crate::order::{PartialOrder, Value};

verus! {

/// Some element of `f` is less than or equal to `e`.
pub open spec fn dominated<S: PartialOrder>(f: Seq<S>, e: S) -> bool {
    exists|i: int| 0 <= i < f.len() && (#[trigger] f[i]).leq(e)
}

/// The test that `e` is not less than or equal to an element.
pub open spec fn not_above<S: PartialOrder>(e: S) -> spec_fn(S) -> bool {
    |x: S| !e.leq(x)
}

/// What `f` becomes when `e` is offered to it: unchanged where `e` is
/// dominated, and otherwise `e` behind the elements that `e` does not dominate.
pub open spec fn inserted<S: PartialOrder>(f: Seq<S>, e: S) -> Seq<S> {
    if dominated(f, e) {
        f
    } else {
        f.filter(not_above(e)).push(e)
    }
}

/// No element of `f` is less than or equal to another.
pub open spec fn incomparable<S: PartialOrder>(f: Seq<S>) -> bool {
    forall|i: int, j: int|
        0 <= i < f.len() && 0 <= j < f.len() && i != j ==> !(#[trigger] f[i]).leq(#[trigger] f[j])
}

/// How a filter treats the last element.
pub proof fn lemma_filter_push<A>(s: Seq<A>, a: A, p: spec_fn(A) -> bool)
    ensures
        s.push(a).filter(p) == if p(a) {
            s.filter(p).push(a)
        } else {
            s.filter(p)
        },
{
    reveal(Seq::filter);
    assert(s.push(a).drop_last() == s);
}

/// What a filter keeps of pairwise incomparable elements is pairwise
/// incomparable.
pub proof fn lemma_filter_incomparable<S: PartialOrder>(f: Seq<S>, p: spec_fn(S) -> bool)
    requires
        incomparable(f),
    ensures
        incomparable(f.filter(p)),
        forall|i: int| 0 <= i < f.filter(p).len() ==> f.contains(#[trigger] f.filter(p)[i]) && p(f.filter(p)[i]),
    decreases f.len(),
{
    reveal(Seq::filter);
    if f.len() > 0 {
        let g = f.drop_last();
        let a = f.last();
        assert(incomparable(g)) by {
            assert forall|i: int, j: int| 0 <= i < g.len() && 0 <= j < g.len() && i != j implies !(
            #[trigger] g[i]).leq(#[trigger] g[j]) by {
                assert(g[i] == f[i] && g[j] == f[j]);
            }
        }
        lemma_filter_incomparable(g, p);
        let kept = g.filter(p);
        let all = f.filter(p);
        assert forall|i: int| 0 <= i < all.len() implies f.contains(#[trigger] all[i]) && p(all[i]) by {
            if i < kept.len() {
                assert(all[i] == kept[i]);
                let k = g.index_of(kept[i]);
                assert(f[k] == kept[i]);
            } else {
                assert(all[i] == a);
                assert(f[f.len() - 1] == a);
            }
        }
        assert forall|i: int, j: int| 0 <= i < all.len() && 0 <= j < all.len() && i != j implies !(
        #[trigger] all[i]).leq(#[trigger] all[j]) by {
            if i < kept.len() && j < kept.len() {
                assert(all[i] == kept[i] && all[j] == kept[j]);
            } else if i < kept.len() {
                assert(all[i] == kept[i]);
                let k = g.index_of(kept[i]);
                assert(f[k] == kept[i]);
                assert(all[j] == f[f.len() - 1]);
            } else {
                assert(all[j] == kept[j]);
                let k = g.index_of(kept[j]);
                assert(f[k] == kept[j]);
                assert(all[i] == f[f.len() - 1]);
            }
        }
    }
}

/// Offering an element to pairwise incomparable elements leaves pairwise
/// incomparable elements.
pub proof fn lemma_inserted_incomparable<S: PartialOrder>(f: Seq<S>, e: S)
    requires
        incomparable(f),
    ensures
        incomparable(inserted(f, e)),
{
    if !dominated(f, e) {
        let kept = f.filter(not_above(e));
        lemma_filter_incomparable(f, not_above(e));
        let all = kept.push(e);
        assert forall|i: int, j: int| 0 <= i < all.len() && 0 <= j < all.len() && i != j implies !(
        #[trigger] all[i]).leq(#[trigger] all[j]) by {
            if i < kept.len() && j < kept.len() {
                assert(all[i] == kept[i] && all[j] == kept[j]);
            } else if i < kept.len() {
                assert(all[i] == kept[i]);
                let k = f.index_of(kept[i]);
                assert(f[k] == kept[i]);
                assert(!f[k].leq(e));
            } else {
                assert(all[j] == kept[j]);
                assert(not_above(e)(kept[j]));
            }
        }
    }
}

/// A set of pairwise incomparable elements, in the order in which they came.
pub struct Antichain<S: PartialOrder + Value> {
    elements: Vec<S>,
}

impl<S: PartialOrder + Value> View for Antichain<S> {
    type V = Seq<S>;

    /// The elements, in the order in which they came.
    closed spec fn view(&self) -> Seq<S> {
        self.elements@
    }
}

impl<S: PartialOrder + Value> Antichain<S> {
    /// The elements are pairwise incomparable.
    pub open spec fn wf(self) -> bool {
        incomparable(self@)
    }

    /// The empty antichain.
    pub fn new() -> (r: Self)
        ensures
            r@ == Seq::<S>::empty(),
            r.wf(),
    {
        Antichain { elements: Vec::new() }
    }

    /// The antichain of one element.
    pub fn from_elem(element: S) -> (r: Self)
        ensures
            r@ == seq![element],
            r.wf(),
    {
        let mut elements: Vec<S> = Vec::new();
        elements.push(element);
        Antichain { elements }
    }

    /// Offers `element` to the antichain. It is refused where an element of the
    /// antichain is less than or equal to it; otherwise it enters, and the
    /// elements that it is less than or equal to leave. Returns whether it
    /// entered.
    pub fn insert(&mut self, element: S) -> (r: bool)
        ensures
            r == !dominated(old(self)@, element),
            final(self)@ == inserted(old(self)@, element),
            old(self).wf() ==> final(self).wf(),
    {
        let ghost s0 = self@;
        let mut i: usize = 0;
        while i < self.elements.len()
            invariant
                0 <= i <= self.elements.len(),
                self@ == s0,
                forall|j: int| 0 <= j < i ==> !(#[trigger] s0[j]).leq(element),
            decreases self.elements.len() - i,
        {
            if self.elements[i].less_equal(&element) {
                return false;
            }
            i += 1;
        }
        let ghost k: int = 0;
        let ghost p = not_above(element);
        i = 0;
        assert(s0.take(0).filter(p) == Seq::<S>::empty()) by {
            reveal(Seq::filter);
        }
        while i < self.elements.len()
            invariant
                0 <= i <= self.elements.len(),
                0 <= k <= s0.len(),
                p == not_above(element),
                self.elements.len() - i == s0.len() - k,
                self@.take(i as int) == s0.take(k).filter(p),
                self@.skip(i as int) == s0.skip(k),
                forall|j: int| 0 <= j < self@.len() ==> !(#[trigger] self@[j]).leq(element),
                forall|j: int| 0 <= j < i ==> !element.leq(#[trigger] self@[j]),
                incomparable(s0) ==> incomparable(self@),
            decreases self.elements.len() - i,
        {
            let ghost before = self@;
            assert(before[i as int] == before.skip(i as int)[0]);
            assert(s0[k] == s0.skip(k)[0]);
            proof {
                lemma_filter_push(s0.take(k), s0[k], p);
                assert(s0.take(k + 1) == s0.take(k).push(s0[k]));
            }
            if element.less_equal(&self.elements[i]) {
                self.elements.remove(i);
                proof {
                    before.remove_ensures(i as int);
                    assert(self@.take(i as int) == before.take(i as int));
                    assert(self@.skip(i as int) == before.skip(i as int).skip(1));
                    assert(s0.skip(k + 1) == s0.skip(k).skip(1));
                    assert forall|j: int| 0 <= j < self@.len() implies !(#[trigger] self@[j]).leq(
                        element,
                    ) by {
                        let a = if j < i { j } else { j + 1 };
                        assert(self@[j] == before[a]);
                    }
                    assert forall|j: int| 0 <= j < i implies !element.leq(#[trigger] self@[j]) by {
                        assert(self@[j] == before[j]);
                    }
                    if incomparable(s0) {
                        assert forall|a: int, b: int|
                            0 <= a < self@.len() && 0 <= b < self@.len() && a != b implies !(
                        #[trigger] self@[a]).leq(#[trigger] self@[b]) by {
                            let a2 = if a < i { a } else { a + 1 };
                            let b2 = if b < i { b } else { b + 1 };
                            assert(self@[a] == before[a2]);
                            assert(self@[b] == before[b2]);
                        }
                    }
                    k = k + 1;
                }
            } else {
                proof {
                    assert(self@.take(i + 1) == self@.take(i as int).push(self@[i as int]));
                    assert(self@.skip(i + 1) == self@.skip(i as int).skip(1));
                    assert(s0.skip(k + 1) == s0.skip(k).skip(1));
                    k = k + 1;
                }
                i += 1;
            }
        }
        proof {
            assert(self@.take(i as int) == self@);
            assert(s0.take(k) == s0);
        }
        self.elements.push(element);
        true
    }

    /// The elements.
    pub fn elements(&self) -> (r: &Vec<S>)
        ensures
            r@ == self@,
    {
        &self.elements
    }

    /// The number of elements.
    pub fn len(&self) -> (r: usize)
        ensures
            r == self@.len(),
    {
        self.elements.len()
    }

    /// The element at `index`.
    pub fn get(&self, index: usize) -> (r: &S)
        requires
            index < self@.len(),
        ensures
            *r == self@[index as int],
    {
        &self.elements[index]
    }

    /// A copy of the antichain.
    pub fn duplicate(&self) -> (r: Self)
        ensures
            r@ == self@,
    {
        let mut elements: Vec<S> = Vec::new();
        let mut i: usize = 0;
        while i < self.elements.len()
            invariant
                0 <= i <= self.elements.len(),
                elements@ == self.elements@.take(i as int),
            decreases self.elements.len() - i,
        {
            elements.push(self.elements[i].duplicate());
            assert(self.elements@.take(i + 1) == self.elements@.take(i as int).push(
                self.elements@[i as int],
            ));
            i += 1;
        }
        assert(self.elements@.take(i as int) == self.elements@);
        Antichain { elements }
    }
}

} // verus!
