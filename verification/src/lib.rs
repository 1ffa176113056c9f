//! A lazily evaluated flattening adapter.
//!
//! [`Flatten`] wraps an outer vector whose elements are themselves vectors
//! and yields the elements of the inner vectors one at a time, from the
//! front ([`Flatten::next`]) or from the back ([`Flatten::next_back`]),
//! in any interleaving, without buffering the whole input. Each element of
//! the input is yielded exactly once; absence of a value is the only
//! exhaustion signal.

use vstd::prelude::*;

verus! {

/// The views of the inner vectors of `v`, as a sequence of sequences.
pub open spec fn seq_views<T>(v: Seq<Vec<T>>) -> Seq<Seq<T>> {
    v.map_values(|inner: Vec<T>| inner@)
}

/// What one forward pull on a flat sequence `s` yields: its first element,
/// or nothing when `s` is exhausted.
pub open spec fn front_pull_value<T>(s: Seq<T>) -> Option<T> {
    if s.len() == 0 {
        None
    } else {
        Some(s.first())
    }
}

/// What remains of a flat sequence `s` after one forward pull.
pub open spec fn front_pull_rest<T>(s: Seq<T>) -> Seq<T> {
    if s.len() == 0 {
        s
    } else {
        s.drop_first()
    }
}

/// What one backward pull on a flat sequence `s` yields: its last element,
/// or nothing when `s` is exhausted.
pub open spec fn back_pull_value<T>(s: Seq<T>) -> Option<T> {
    if s.len() == 0 {
        None
    } else {
        Some(s.last())
    }
}

/// What remains of a flat sequence `s` after one backward pull.
pub open spec fn back_pull_rest<T>(s: Seq<T>) -> Seq<T> {
    if s.len() == 0 {
        s
    } else {
        s.drop_last()
    }
}

/// A double-ended adapter that flattens a vector of vectors.
///
/// At most one inner producer is active per end; an active producer is
/// drained before the next outer item is pulled. When the outer source is
/// exhausted, a pull from one end falls back to draining the producer
/// active on the other end, so that front and back traversal meet in the
/// middle without skipping or repeating an element.
pub struct Flatten<T> {
    outer: Vec<Vec<T>>,
    front_iter: Option<Vec<T>>,
    back_iter: Option<Vec<T>>,
}

impl<T> Flatten<T> {
    /// Elements buffered in the active front inner producer, if any.
    pub closed spec fn front_rem(self) -> Seq<T> {
        match self.front_iter {
            Some(v) => v@,
            None => Seq::empty(),
        }
    }

    /// Inner sequences not yet pulled from the outer source.
    pub closed spec fn outer_rem(self) -> Seq<Seq<T>> {
        seq_views(self.outer@)
    }

    /// Elements buffered in the active back inner producer, if any.
    pub closed spec fn back_rem(self) -> Seq<T> {
        match self.back_iter {
            Some(v) => v@,
            None => Seq::empty(),
        }
    }

    /// The flat sequence of elements not yet yielded, in forward order.
    pub open spec fn remaining(self) -> Seq<T> {
        self.front_rem() + self.outer_rem().flatten() + self.back_rem()
    }

    /// Decreases with every loop step of `next` that yields nothing.
    spec fn front_measure(self) -> int {
        2 * (self.outer@.len() as int) + if self.front_iter is Some {
            1int
        } else {
            0int
        }
    }

    /// Decreases with every loop step of `next_back` that yields nothing.
    spec fn back_measure(self) -> int {
        2 * (self.outer@.len() as int) + if self.back_iter is Some {
            1int
        } else {
            0int
        }
    }

    /// Wraps `outer` without pulling anything from it: no inner producer is
    /// created and no outer item is consumed until the first pull.
    pub fn new(outer: Vec<Vec<T>>) -> (r: Self)
        ensures
            r.remaining() == seq_views(outer@).flatten(),
            r.outer_rem() == seq_views(outer@),
            r.front_rem() == Seq::<T>::empty(),
            r.back_rem() == Seq::<T>::empty(),
    {
        let r = Flatten { outer, front_iter: None, back_iter: None };
        proof {
            assert(r.remaining() =~= r.outer_rem().flatten());
        }
        r
    }

    /// Pulls the next element from the front of the remaining flat
    /// sequence. Returns `None` exactly when the adapter is exhausted, and
    /// an exhausted adapter stays exhausted.
    pub fn next(&mut self) -> (r: Option<T>)
        ensures
            r == front_pull_value(old(self).remaining()),
            final(self).remaining() == front_pull_rest(old(self).remaining()),
    {
        loop
            invariant
                self.remaining() == old(self).remaining(),
            decreases self.front_measure(),
        {
            let ghost entry = *self;
            match self.front_iter.take() {
                Some(mut fi) => {
                    if fi.len() > 0 {
                        let x = fi.remove(0);
                        proof {
                            let s = entry.remaining();
                            assert(s[0] == entry.front_rem()[0]);
                            assert(fi@ =~= entry.front_rem().drop_first());
                        }
                        self.front_iter = Some(fi);
                        proof {
                            assert(self.remaining() =~= entry.remaining().drop_first());
                        }
                        return Some(x);
                    }
                    proof {
                        assert(self.remaining() =~= entry.remaining());
                    }
                },
                None => {},
            }
            if self.outer.len() > 0 {
                let ghost before = *self;
                let inner = self.outer.remove(0);
                proof {
                    let sv = before.outer_rem();
                    assert(before.outer@.remove(0) =~= before.outer@.drop_first());
                    assert(self.outer_rem() =~= sv.drop_first());
                    assert(inner@ == sv[0]);
                }
                self.front_iter = Some(inner);
                proof {
                    let sv = before.outer_rem();
                    assert(sv.flatten() == sv.first() + sv.drop_first().flatten());
                    assert(self.remaining() =~= before.remaining());
                }
            } else {
                proof {
                    assert(self.outer_rem().flatten() =~= Seq::<T>::empty());
                    assert(self.remaining() =~= self.back_rem());
                    assert(self.remaining() == old(self).remaining());
                }
                match self.back_iter.take() {
                    Some(mut bi) => {
                        if bi.len() > 0 {
                            let ghost bk = bi@;
                            let x = bi.remove(0);
                            self.back_iter = Some(bi);
                            proof {
                                assert(old(self).remaining()[0] == bk[0]);
                                assert(self.remaining() =~= old(self).remaining().drop_first());
                            }
                            return Some(x);
                        }
                        self.back_iter = Some(bi);
                        proof {
                            assert(self.remaining() =~= old(self).remaining());
                        }
                        return None;
                    },
                    None => {
                        proof {
                            assert(self.remaining() =~= old(self).remaining());
                        }
                        return None;
                    },
                }
            }
        }
    }

    /// Pulls the next element from the back of the remaining flat
    /// sequence. Returns `None` exactly when the adapter is exhausted, and
    /// an exhausted adapter stays exhausted.
    pub fn next_back(&mut self) -> (r: Option<T>)
        ensures
            r == back_pull_value(old(self).remaining()),
            final(self).remaining() == back_pull_rest(old(self).remaining()),
    {
        loop
            invariant
                self.remaining() == old(self).remaining(),
            decreases self.back_measure(),
        {
            let ghost entry = *self;
            match self.back_iter.take() {
                Some(mut bi) => {
                    if bi.len() > 0 {
                        let x = bi.pop().unwrap();
                        proof {
                            let s = entry.remaining();
                            assert(s.last() == entry.back_rem().last());
                            assert(bi@ =~= entry.back_rem().drop_last());
                        }
                        self.back_iter = Some(bi);
                        proof {
                            assert(self.remaining() =~= entry.remaining().drop_last());
                        }
                        return Some(x);
                    }
                    proof {
                        assert(self.remaining() =~= entry.remaining());
                    }
                },
                None => {},
            }
            if self.outer.len() > 0 {
                let ghost before = *self;
                let inner = self.outer.pop().unwrap();
                proof {
                    let sv = before.outer_rem();
                    assert(before.outer@.subrange(0, before.outer@.len() - 1) =~= before.outer@.drop_last());
                    assert(self.outer_rem() =~= sv.drop_last());
                    assert(inner@ == sv.last());
                }
                self.back_iter = Some(inner);
                proof {
                    let sv = before.outer_rem();
                    assert(sv.drop_last().push(sv.last()) =~= sv);
                    sv.drop_last().lemma_flatten_push(sv.last());
                    assert(self.remaining() =~= before.remaining());
                }
            } else {
                proof {
                    assert(self.outer_rem().flatten() =~= Seq::<T>::empty());
                    assert(self.remaining() =~= self.front_rem());
                    assert(self.remaining() == old(self).remaining());
                }
                match self.front_iter.take() {
                    Some(mut fi) => {
                        if fi.len() > 0 {
                            let ghost fr = fi@;
                            let x = fi.pop().unwrap();
                            self.front_iter = Some(fi);
                            proof {
                                assert(old(self).remaining().last() == fr.last());
                                assert(self.remaining() =~= old(self).remaining().drop_last());
                            }
                            return Some(x);
                        }
                        self.front_iter = Some(fi);
                        proof {
                            assert(self.remaining() =~= old(self).remaining());
                        }
                        return None;
                    },
                    None => {
                        proof {
                            assert(self.remaining() =~= old(self).remaining());
                        }
                        return None;
                    },
                }
            }
        }
    }

    /// Drains the adapter front to back: all remaining elements, in
    /// forward order.
    #[verifier::loop_isolation(false)]
    pub fn collect_front(self) -> (r: Vec<T>)
        ensures
            r@ == self.remaining(),
    {
        let ghost orig = self.remaining();
        let mut it = self;
        let mut out: Vec<T> = Vec::new();
        loop
            invariant
                out@ + it.remaining() == orig,
            decreases it.remaining().len(),
        {
            match it.next() {
                Some(x) => {
                    out.push(x);
                    proof {
                        assert(out@ + it.remaining() =~= orig);
                    }
                },
                None => {
                    proof {
                        assert(out@ =~= orig);
                    }
                    return out;
                },
            }
        }
    }

    /// Drains the adapter back to front: all remaining elements, in
    /// reverse order.
    #[verifier::loop_isolation(false)]
    pub fn collect_back(self) -> (r: Vec<T>)
        ensures
            r@ == self.remaining().reverse(),
    {
        let ghost orig = self.remaining();
        let mut it = self;
        let mut out: Vec<T> = Vec::new();
        loop
            invariant
                it.remaining() + out@.reverse() == orig,
            decreases it.remaining().len(),
        {
            match it.next_back() {
                Some(x) => {
                    out.push(x);
                    proof {
                        assert(it.remaining() + out@.reverse() =~= orig);
                    }
                },
                None => {
                    proof {
                        assert(out@.reverse() =~= orig);
                        assert(out@ =~= orig.reverse());
                    }
                    return out;
                },
            }
        }
    }
}

/// Law: emptiness. An outer source with no items, or one whose items are
/// all themselves empty, flattens to no elements at all.
pub proof fn lemma_flatten_all_empty<T>(outer: Seq<Seq<T>>)
    requires
        forall|i: int| 0 <= i < outer.len() ==> outer[i].len() == 0,
    ensures
        outer.flatten() == Seq::<T>::empty(),
    decreases outer.len(),
{
    if outer.len() == 0 {
        assert(outer.flatten() =~= Seq::<T>::empty());
    } else {
        lemma_flatten_all_empty(outer.drop_first());
        assert(outer.flatten() =~= Seq::<T>::empty());
    }
}

/// Law: no duplication, no loss. By the contract of [`Flatten::next`],
/// exhausting an adapter forward yields its remaining flat sequence in
/// order; by the contract of [`Flatten::next_back`], exhausting it backward
/// yields the reverse of that sequence. The two traversals therefore carry
/// the same multiset of elements: every element of the original flat
/// sequence, each exactly as often as it occurs there.
pub proof fn lemma_no_duplication_no_loss<T>(outer: Seq<Seq<T>>)
    ensures
        outer.flatten().reverse().to_multiset() == outer.flatten().to_multiset(),
{
    outer.flatten().lemma_reverse_to_multiset();
}

/// Law: idempotent exhaustion. Once a pull from either end reports no
/// value, the remaining flat sequence is empty and unchanged, so by the
/// contracts of [`Flatten::next`] and [`Flatten::next_back`] every later
/// pull from either end reports no value as well.
pub proof fn lemma_exhaustion_idempotent<T>(s: Seq<T>)
    requires
        front_pull_value(s) is None || back_pull_value(s) is None,
    ensures
        front_pull_rest(s) == s,
        back_pull_rest(s) == s,
        front_pull_value(s) is None,
        back_pull_value(s) is None,
        front_pull_value(front_pull_rest(s)) is None,
        back_pull_value(back_pull_rest(s)) is None,
{
}

/// Wraps `outer` in a [`Flatten`] adapter; nothing is consumed from it
/// until the first pull.
pub fn flatten<T>(outer: Vec<Vec<T>>) -> (r: Flatten<T>)
    ensures
        r.remaining() == seq_views(outer@).flatten(),
        r.outer_rem() == seq_views(outer@),
        r.front_rem() == Seq::<T>::empty(),
        r.back_rem() == Seq::<T>::empty(),
{
    Flatten::new(outer)
}

} // verus!
