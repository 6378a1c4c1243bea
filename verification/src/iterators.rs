//! A flattening adapter over a sequence of sequences.
//!
//! `Flatten` owns an outer list of inner lists and hands the inner elements
//! out one at a time, from the front with `next` and from the back with
//! `next_back`.  The two ends may be drawn from in any interleaving; every
//! element is yielded exactly once.

use vstd::prelude::*;

verus! {

/// The inner sequences of a list of vectors, as mathematical sequences.
pub open spec fn seqs_of<T>(vs: Seq<Vec<T>>) -> Seq<Seq<T>> {
    vs.map_values(|v: Vec<T>| v@)
}

/// What an optional open cursor still holds: its elements, or nothing.
pub open spec fn cursor_elems<T>(c: Option<Vec<T>>) -> Seq<T> {
    match c {
        Some(v) => v@,
        None => Seq::empty(),
    }
}

/// A double-ended flattening adapter.
///
/// `outer` holds the inner sequences not yet opened; `front_iter` and
/// `back_iter` are the cursors currently open at the two ends.
pub struct Flatten<T> {
    pub outer: Vec<Vec<T>>,
    pub front_iter: Option<Vec<T>>,
    pub back_iter: Option<Vec<T>>,
}

impl<T> Flatten<T> {
    /// The elements not yet yielded, in forward flattened order.
    pub open spec fn remaining(self) -> Seq<T> {
        cursor_elems(self.front_iter) + seqs_of(self.outer@).flatten() + cursor_elems(
            self.back_iter,
        )
    }

    /// Wraps an outer sequence; nothing is consumed and no cursor is opened.
    pub fn new(outer: Vec<Vec<T>>) -> (r: Self)
        ensures
            r.remaining() == seqs_of(outer@).flatten(),
            r.outer == outer,
            r.front_iter is None,
            r.back_iter is None,
    {
        let r = Flatten { outer, front_iter: None, back_iter: None };
        proof {
            assert(r.remaining() =~= seqs_of(r.outer@).flatten());
        }
        r
    }

    /// Yields the next element in forward flattened order, or `None` once the
    /// adapter is exhausted.  Exhaustion is idempotent: once everything has
    /// been yielded, every further call returns `None` and leaves the
    /// remaining elements (none) unchanged.
    pub fn next(&mut self) -> (r: Option<T>)
        ensures
            old(self).remaining().len() == 0 ==> r is None && final(self).remaining() == old(self).remaining(),
            old(self).remaining().len() > 0 ==> r == Some(old(self).remaining().first())
                && final(self).remaining() == old(self).remaining().drop_first(),
    {
        loop
            invariant
                self.remaining() == old(self).remaining(),
            decreases 2 * self.outer@.len() + (if self.front_iter is Some {
                1int
            } else {
                0int
            }),
        {
            let ghost r0 = self.remaining();
            match &mut self.front_iter {
                Some(fr) => {
                    let ghost f0 = fr@;
                    if fr.len() > 0 {
                        let v = fr.remove(0);
                        proof {
                            assert(f0.remove(0) =~= f0.drop_first());
                            assert(v == r0.first());
                            assert(self.remaining() =~= r0.drop_first());
                        }
                        return Some(v);
                    } else {
                        self.front_iter = None;
                        proof {
                            assert(self.remaining() =~= r0);
                        }
                    }
                },
                None => {},
            }
            let ghost r1 = self.remaining();
            if self.outer.len() > 0 {
                let ghost o0 = self.outer@;
                let nxt = self.outer.remove(0);
                self.front_iter = Some(nxt);
                proof {
                    assert(o0.remove(0) =~= o0.drop_first());
                    assert(seqs_of(o0).drop_first() =~= seqs_of(o0.drop_first()));
                    assert(seqs_of(o0).flatten() == seqs_of(o0).first() + seqs_of(
                        o0,
                    ).drop_first().flatten());
                    assert(self.remaining() =~= r1);
                }
            } else {
                proof {
                    assert(seqs_of(self.outer@) =~= Seq::<Seq<T>>::empty());
                }
                match &mut self.back_iter {
                    Some(bk) => {
                        let ghost b0 = bk@;
                        if bk.len() > 0 {
                            let v = bk.remove(0);
                            proof {
                                assert(b0.remove(0) =~= b0.drop_first());
                                assert(v == r1.first());
                                assert(self.remaining() =~= r1.drop_first());
                            }
                            return Some(v);
                        } else {
                            proof {
                                assert(r1.len() == 0);
                            }
                            return None;
                        }
                    },
                    None => {
                        proof {
                            assert(r1.len() == 0);
                        }
                        return None;
                    },
                }
            }
        }
    }

    /// Yields the next element in backward flattened order, or `None` once
    /// the adapter is exhausted from the back.  Exhaustion is idempotent here
    /// too.  Calls to `next` and `next_back` may be interleaved freely: each
    /// call removes exactly one element from the corresponding end of the
    /// remaining sequence.
    pub fn next_back(&mut self) -> (r: Option<T>)
        ensures
            old(self).remaining().len() == 0 ==> r is None && final(self).remaining() == old(self).remaining(),
            old(self).remaining().len() > 0 ==> r == Some(old(self).remaining().last())
                && final(self).remaining() == old(self).remaining().drop_last(),
    {
        loop
            invariant
                self.remaining() == old(self).remaining(),
            decreases 2 * self.outer@.len() + (if self.back_iter is Some {
                1int
            } else {
                0int
            }),
        {
            let ghost r0 = self.remaining();
            match &mut self.back_iter {
                Some(bk) => {
                    if bk.len() > 0 {
                        let v = bk.pop().unwrap();
                        proof {
                            assert(v == r0.last());
                            assert(self.remaining() =~= r0.drop_last());
                        }
                        return Some(v);
                    } else {
                        self.back_iter = None;
                        proof {
                            assert(self.remaining() =~= r0);
                        }
                    }
                },
                None => {},
            }
            let ghost r1 = self.remaining();
            if self.outer.len() > 0 {
                let ghost o0 = self.outer@;
                let nxt = self.outer.pop().unwrap();
                self.back_iter = Some(nxt);
                proof {
                    assert(seqs_of(o0).drop_last() =~= seqs_of(o0.drop_last()));
                    seqs_of(o0).lemma_flatten_and_flatten_alt_are_equivalent();
                    seqs_of(o0).drop_last().lemma_flatten_and_flatten_alt_are_equivalent();
                    assert(seqs_of(o0).flatten_alt() == seqs_of(o0).drop_last().flatten_alt()
                        + seqs_of(o0).last());
                    assert(self.remaining() =~= r1);
                }
            } else {
                proof {
                    assert(seqs_of(self.outer@) =~= Seq::<Seq<T>>::empty());
                }
                match &mut self.front_iter {
                    Some(fr) => {
                        if fr.len() > 0 {
                            let v = fr.pop().unwrap();
                            proof {
                                assert(v == r1.last());
                                assert(self.remaining() =~= r1.drop_last());
                            }
                            return Some(v);
                        } else {
                            proof {
                                assert(r1.len() == 0);
                            }
                            return None;
                        }
                    },
                    None => {
                        proof {
                            assert(r1.len() == 0);
                        }
                        return None;
                    },
                }
            }
        }
    }

    /// Draws from the front until exhaustion.  The result is exactly the
    /// remaining sequence: forward traversal to completion yields the
    /// concatenation of the inner sequences in their original order.
    pub fn collect_forward(self) -> (r: Vec<T>)
        ensures
            r@ == self.remaining(),
    {
        let mut it = self;
        let ghost total = it.remaining();
        let mut r: Vec<T> = Vec::new();
        proof {
            assert(r@ + it.remaining() =~= total);
        }
        loop
            invariant
                total == self.remaining(),
                r@ + it.remaining() == total,
            decreases it.remaining().len(),
        {
            match it.next() {
                Some(v) => {
                    r.push(v);
                    proof {
                        assert(r@ + it.remaining() =~= total);
                    }
                },
                None => {
                    proof {
                        assert(r@ =~= total);
                    }
                    return r;
                },
            }
        }
    }

    /// Draws from the back until exhaustion.  The result is exactly the
    /// remaining sequence in reverse: backward traversal to completion
    /// yields the flattened elements in exact reverse order.
    pub fn collect_backward(self) -> (r: Vec<T>)
        ensures
            r@ == self.remaining().reverse(),
    {
        let mut it = self;
        let ghost total = it.remaining();
        let mut r: Vec<T> = Vec::new();
        proof {
            assert(it.remaining() + r@.reverse() =~= total);
        }
        loop
            invariant
                total == self.remaining(),
                it.remaining() + r@.reverse() == total,
                r@.len() + it.remaining().len() == total.len(),
            decreases it.remaining().len(),
        {
            let ghost racc = r@;
            match it.next_back() {
                Some(v) => {
                    r.push(v);
                    proof {
                        assert(r@.reverse() =~= seq![v] + racc.reverse());
                        assert(it.remaining() + r@.reverse() =~= total);
                    }
                },
                None => {
                    proof {
                        assert(r@.reverse() =~= total);
                        assert(r@ =~= total.reverse());
                    }
                    return r;
                },
            }
        }
    }

    /// Counts the elements left, consuming the adapter.
    pub fn count(self) -> (n: usize)
        requires
            self.remaining().len() <= usize::MAX,
        ensures
            n == self.remaining().len(),
    {
        let mut it = self;
        let ghost total = it.remaining();
        let mut n: usize = 0;
        loop
            invariant
                total == self.remaining(),
                n + it.remaining().len() == total.len(),
                total.len() <= usize::MAX,
            decreases it.remaining().len(),
        {
            match it.next() {
                Some(_) => {
                    n = n + 1;
                },
                None => {
                    return n;
                },
            }
        }
    }
}

/// The total element count of a sequence of sequences.
pub open spec fn total_len<T>(ss: Seq<Seq<T>>) -> nat
    decreases ss.len(),
{
    if ss.len() == 0 {
        0
    } else {
        ss.first().len() + total_len(ss.drop_first())
    }
}

/// The flattened sequence has exactly as many elements as the inner
/// sequences hold together: together with `new` and `collect_forward`,
/// forward traversal to completion of any outer sequence yields all of its
/// inner elements, and its count is the total element count.
pub proof fn lemma_flatten_count<T>(ss: Seq<Seq<T>>)
    ensures
        ss.flatten().len() == total_len(ss),
    decreases ss.len(),
{
    if ss.len() > 0 {
        lemma_flatten_count(ss.drop_first());
    }
}

/// Flattening an empty outer sequence yields zero elements.
pub proof fn lemma_flatten_empty<T>()
    ensures
        Seq::<Seq<T>>::empty().flatten() == Seq::<T>::empty(),
{
}

/// Flattening a single inner sequence with a single element yields exactly
/// that element.
pub proof fn lemma_flatten_single_element<T>(x: T)
    ensures
        seq![seq![x]].flatten() == seq![x],
{
    let ss = seq![seq![x]];
    assert(ss.drop_first() =~= Seq::<Seq<T>>::empty());
    assert(Seq::<Seq<T>>::empty().flatten() == Seq::<T>::empty());
    assert(ss.flatten() == ss.first() + ss.drop_first().flatten());
    assert(ss.first() + Seq::<T>::empty() =~= seq![x]);
}

} // verus!
