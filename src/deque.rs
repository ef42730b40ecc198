//! A double-ended queue, standalone from the trie.
//!
//! The items sit in a vector with the front of the queue at the end of the
//! vector: pushing and popping at the front are constant time, and popping
//! at the back shifts the remaining items down.
use vstd::prelude::*;

verus! {

/// A double-ended queue.
pub struct Deque<T> {
    items: Vec<T>,
}

/// The items of a queue from front to back, by shared reference.
pub struct Iter<'a, T> {
    items: &'a Vec<T>,
    len: usize,
}

/// The items of a queue from front to back, by mutable reference.
pub struct IterMut<'a, T> {
    items: &'a mut Vec<T>,
    len: usize,
}

/// `v` read from its end to its start.
pub open spec fn reversed<T>(v: Seq<T>) -> Seq<T> {
    Seq::new(v.len(), |i: int| v[v.len() - 1 - i])
}

impl<T> View for Deque<T> {
    type V = Seq<T>;

    /// The items from front to back.
    closed spec fn view(&self) -> Seq<T> {
        reversed(self.items@)
    }
}

impl<T> Deque<T> {
    /// An empty queue.
    pub fn new() -> (r: Self)
        ensures
            r@ == Seq::<T>::empty(),
    {
        let r = Deque { items: Vec::new() };
        proof {
            assert(r@ =~= Seq::<T>::empty());
        }
        r
    }

    /// Puts `data` at the front.
    pub fn push_front(&mut self, data: T)
        ensures
            final(self)@ == seq![data] + old(self)@,
    {
        self.items.push(data);
        proof {
            assert(self@ =~= seq![data] + old(self)@);
        }
    }

    /// Takes the item at the back, if any.
    pub fn pop_back(&mut self) -> (r: Option<T>)
        ensures
            old(self)@.len() == 0 ==> r is None && final(self)@ == old(self)@,
            old(self)@.len() > 0 ==> r == Some(old(self)@.last()) && final(self)@ == old(self)@.drop_last(),
    {
        if self.items.len() == 0 {
            None
        } else {
            let data = self.items.remove(0);
            proof {
                assert(self@ =~= old(self)@.drop_last());
            }
            Some(data)
        }
    }

    /// Takes the item at the front, if any.
    pub fn pop_front(&mut self) -> (r: Option<T>)
        ensures
            old(self)@.len() == 0 ==> r is None && final(self)@ == old(self)@,
            old(self)@.len() > 0 ==> r == Some(old(self)@[0]) && final(self)@ == old(self)@.drop_first(),
    {
        let r = self.items.pop();
        proof {
            if old(self)@.len() > 0 {
                assert(self@ =~= old(self)@.drop_first());
            }
        }
        r
    }

    /// The items from front to back, by shared reference.
    pub fn iter(&self) -> (r: Iter<'_, T>)
        ensures
            r.wf(),
            r.remaining() == self@,
    {
        let r = Iter { items: &self.items, len: self.items.len() };
        proof {
            assert(r.remaining() =~= self@);
        }
        r
    }

    /// The items from front to back, by mutable reference.
    pub fn iter_mut(&mut self) -> (r: IterMut<'_, T>)
        ensures
            r.wf(),
            r.remaining() == old(self)@,
    {
        let len = self.items.len();
        let r = IterMut { items: &mut self.items, len };
        proof {
            assert(r.remaining() =~= old(self)@);
        }
        r
    }
}

impl<'a, T> Iter<'a, T> {
    /// The items not handed out yet, from front to back.
    pub closed spec fn remaining(&self) -> Seq<T> {
        reversed(self.items@.subrange(0, self.len as int))
    }

    pub closed spec fn wf(&self) -> bool {
        self.len <= self.items@.len()
    }

    /// The next item.
    pub fn next(&mut self) -> (r: Option<&'a T>)
        requires
            old(self).wf(),
        ensures
            final(self).wf(),
            old(self).remaining().len() == 0 ==> r is None && final(self).remaining() == old(self).remaining(),
            old(self).remaining().len() > 0 ==> r == Some(&old(self).remaining()[0]) && final(self).remaining() == old(self).remaining().drop_first(),
    {
        if self.len == 0 {
            None
        } else {
            self.len = self.len - 1;
            let items: &'a Vec<T> = self.items;
            proof {
                assert(self.remaining() =~= old(self).remaining().drop_first());
            }
            Some(&items[self.len])
        }
    }
}

impl<'a, T> IterMut<'a, T> {
    /// The items not handed out yet, from front to back.
    pub closed spec fn remaining(&self) -> Seq<T> {
        reversed(self.items@.subrange(0, self.len as int))
    }

    pub closed spec fn wf(&self) -> bool {
        self.len <= self.items@.len()
    }

    /// The next item.
    pub fn next(&mut self) -> (r: Option<&mut T>)
        requires
            old(self).wf(),
        ensures
            final(self).wf(),
            old(self).remaining().len() == 0 ==> r is None && final(self).remaining() == old(self).remaining(),
            old(self).remaining().len() > 0 ==> (r matches Some(e) && *e == old(self).remaining()[0]),
            old(self).remaining().len() > 0 ==> final(self).remaining() == old(self).remaining().drop_first(),
    {
        if self.len == 0 {
            None
        } else {
            self.len = self.len - 1;
            let i = self.len;
            proof {
                assert(self.remaining() =~= old(self).remaining().drop_first());
                assert(forall|v: T| #[trigger] self.items@.update(i as int, v).subrange(0, i as int) =~= self.items@.subrange(0, i as int));
            }
            Some(&mut self.items[i])
        }
    }
}

} // verus!
