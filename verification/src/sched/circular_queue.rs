//! Fixed-capacity FIFO circular queue (ring buffer).
use vstd::prelude::*;

verus! {

/// Error returned when a push operation fails.
#[derive(Debug, PartialEq, Eq, Structural)]
pub enum QueueError {
    /// The queue is full.
    Full,
}

/// `x` wrapped once around a ring of `cap` slots.
pub open spec fn wrap(x: int, cap: int) -> int {
    if x < cap {
        x
    } else {
        x - cap
    }
}

/// `x % cap` for `0 <= x < 2 * cap` is `x` wrapped once.
proof fn lemma_mod_wrap(x: int, cap: int)
    requires
        0 < cap,
        0 <= x < 2 * cap,
    ensures
        x % cap == wrap(x, cap),
{
    if x < cap {
        vstd::arithmetic::div_mod::lemma_small_mod(x as nat, cap as nat);
    } else {
        vstd::arithmetic::div_mod::lemma_fundamental_div_mod_converse(x, cap, 1, x - cap);
    }
}

/// Fixed-capacity FIFO circular queue (ring buffer).
///
/// The storage is a fixed array of `CAP` slots, so `new()` never fails. The
/// queue is not thread-safe by itself; the caller must guarantee exclusive
/// access.
pub struct CircularQueue<T, const CAP: usize> {
    data: Vec<Option<T>>,
    head: usize,
    tail: usize,
    len: usize,
}

impl<T, const CAP: usize> CircularQueue<T, CAP> {
    /// The slot that holds the item at position `i` from the front.
    pub closed spec fn slot(&self, i: int) -> int {
        wrap(self.head + i, CAP as int)
    }

    /// The items, front first.
    pub closed spec fn view(&self) -> Seq<T> {
        Seq::new(self.len as nat, |i: int| self.data@[self.slot(i)].unwrap())
    }

    /// The ring's internal invariant.
    pub closed spec fn wf(&self) -> bool {
        &&& self.data@.len() == CAP
        &&& self.len <= CAP
        &&& CAP > 0 ==> self.head < CAP && self.tail == wrap(self.head + self.len, CAP as int)
        &&& CAP == 0 ==> self.head == 0 && self.tail == 0
        &&& forall|i: int|
            0 <= i < self.len ==> (#[trigger] self.data@[wrap(self.head + i, CAP as int)]) is Some
    }

    /// A well-formed queue holds at most `CAP` items.
    pub proof fn lemma_len_bound(&self)
        requires
            self.wf(),
        ensures
            self@.len() <= CAP,
    {
    }

    /// Maximum number of items the queue can hold.
    pub fn capacity() -> (r: usize)
        ensures
            r == CAP,
    {
        CAP
    }

    /// Creates an empty queue.
    pub fn new() -> (r: Self)
        ensures
            r.wf(),
            r@ == Seq::<T>::empty(),
    {
        let mut data: Vec<Option<T>> = Vec::new();
        let mut i: usize = 0;
        while i < CAP
            invariant
                i <= CAP,
                data@.len() == i,
            decreases CAP - i,
        {
            data.push(None);
            i += 1;
        }
        let r = Self { data, head: 0, tail: 0, len: 0 };
        assert(r@ =~= Seq::<T>::empty());
        r
    }

    pub fn is_empty(&self) -> (r: bool)
        requires
            self.wf(),
        ensures
            r == (self@.len() == 0),
    {
        self.len == 0
    }

    pub fn is_full(&self) -> (r: bool)
        requires
            self.wf(),
        ensures
            r == (self@.len() == CAP),
    {
        self.len == CAP
    }

    pub fn len(&self) -> (r: usize)
        requires
            self.wf(),
        ensures
            r == self@.len(),
    {
        self.len
    }

    /// The item at position `i` from the front.
    pub fn get(&self, i: usize) -> (r: &T)
        requires
            self.wf(),
            i < self@.len(),
        ensures
            *r == self@[i as int],
    {
        let idx = if i < CAP - self.head {
            self.head + i
        } else {
            i - (CAP - self.head)
        };
        assert(self.data@[wrap(self.head + i, CAP as int)] is Some);
        self.data[idx].as_ref().unwrap()
    }

    /// Pushes `item` to the back of the queue; fails with `Full`, leaving the
    /// queue unchanged, when it holds `CAP` items.
    pub fn push_back(&mut self, item: T) -> (r: Result<(), QueueError>)
        requires
            old(self).wf(),
        ensures
            final(self).wf(),
            old(self)@.len() == CAP ==> r == Err::<(), QueueError>(QueueError::Full)
                && final(self)@ == old(self)@,
            old(self)@.len() < CAP ==> r is Ok && final(self)@ == old(self)@.push(item),
    {
        if self.is_full() {
            return Err(QueueError::Full);
        }
        let ghost old_self = *self;
        self.data.set(self.tail, Some(item));
        proof {
            lemma_mod_wrap(self.tail + 1, CAP as int);
        }
        self.tail = (self.tail + 1) % CAP;
        self.len += 1;
        proof {
            assert forall|i: int| 0 <= i < self.len implies (#[trigger] self.data@[wrap(
                self.head + i,
                CAP as int,
            )]) is Some by {
                if i < old_self.len {
                    assert(old_self.data@[wrap(old_self.head + i, CAP as int)] is Some);
                }
            }
            assert(self@ =~= old_self@.push(item));
        }
        Ok(())
    }

    /// Returns a mutable reference to the item at the back of the queue, or
    /// `None` if the queue is empty.
    pub fn back_mut(&mut self) -> (r: Option<&mut T>)
        requires
            old(self).wf(),
            CAP <= usize::MAX / 2,
        ensures
            old(self)@.len() == 0 ==> r is None && final(self)@ == old(self)@,
            old(self)@.len() > 0 ==> r is Some && *r->0 == old(self)@.last() && final(self)@
                == old(self)@.update(old(self)@.len() - 1, *final(r->0)),
            final(self).wf(),
    {
        if self.is_empty() {
            return None;
        }
        proof {
            lemma_mod_wrap(self.tail + CAP - 1, CAP as int);
        }
        let idx = (self.tail + CAP - 1) % CAP;
        assert(idx == self.slot(self.len - 1));
        let ghost old_self = *self;
        assert(old_self.data@[idx as int] is Some);
        let slot = self.data[idx].as_mut();
        match slot {
            Some(item) => {
                Some(item)
            },
            None => {
                proof {
                    assert(false);
                }
                None
            },
        }
    }

    /// Removes and returns the first item that matches `pred`, keeping the
    /// relative order of the remaining items. Returns `None`, leaving the
    /// queue unchanged, if no item matches. `pred` is asked about the items
    /// front to back until one matches, and about no item after that.
    pub fn remove_if(&mut self, pred: impl Fn(&T) -> bool) -> (r: Option<T>)
        requires
            old(self).wf(),
            forall|t: &T| #[trigger] call_requires(pred, (t,)),
        ensures
            final(self).wf(),
            match r {
                None => {
                    &&& final(self)@ == old(self)@
                    &&& forall|j: int|
                        0 <= j < old(self)@.len() ==> call_ensures(pred, (&old(self)@[j],), false)
                },
                Some(x) => exists|k: int|
                    {
                        &&& 0 <= k < old(self)@.len()
                        &&& x == old(self)@[k]
                        &&& call_ensures(pred, (&old(self)@[k],), true)
                        &&& forall|j: int|
                            0 <= j < k ==> call_ensures(pred, (&old(self)@[j],), false)
                        &&& final(self)@ == old(self)@.remove(k)
                    },
            },
    {
        let ghost s = self@;
        let n = self.len;
        let mut found: Option<T> = None;
        let ghost mut fk: int = -1;
        let mut c: usize = 0;
        while c < n
            invariant
                self.wf(),
                s.len() == n,
                n <= CAP,
                c <= n,
                forall|t: &T| #[trigger] call_requires(pred, (t,)),
                found is None <==> fk < 0,
                fk >= 0 ==> {
                    &&& fk < c
                    &&& found == Some(s[fk])
                    &&& call_ensures(pred, (&s[fk],), true)
                },
                forall|j: int|
                    0 <= j < c && (fk < 0 || j < fk) ==> call_ensures(pred, (&s[j],), false),
                fk < 0 ==> self@ == s.subrange(c as int, n as int) + s.subrange(0, c as int),
                fk >= 0 ==> self@ == s.subrange(c as int, n as int) + s.subrange(
                    0,
                    c as int,
                ).remove(fk),
            decreases n - c,
        {
            assert(self@.len() > 0);
            let item = self.pop_front()?;
            if found.is_none() && pred(&item) {
                proof {
                    fk = c as int;
                    assert(self@ =~= s.subrange(c + 1, n as int) + s.subrange(0, c + 1).remove(fk));
                }
                found = Some(item);
            } else {
                proof {
                    assert(self@.len() < CAP);
                }
                let pushed = self.push_back(item);
                proof {
                    if fk < 0 {
                        assert(self@ =~= s.subrange(c + 1, n as int) + s.subrange(0, c + 1));
                    } else {
                        assert(self@ =~= s.subrange(c + 1, n as int) + s.subrange(0, c + 1).remove(
                            fk,
                        ));
                    }
                }
                pushed.unwrap();
            }
            c += 1;
        }
        proof {
            assert(s.subrange(n as int, n as int) + s.subrange(0, n as int) =~= s);
            assert(s.subrange(0, n as int) =~= s);
        }
        found
    }

    /// Pops and returns the front item, or `None` if the queue is empty.
    pub fn pop_front(&mut self) -> (r: Option<T>)
        requires
            old(self).wf(),
        ensures
            final(self).wf(),
            old(self)@.len() == 0 ==> r is None && final(self)@ == old(self)@,
            old(self)@.len() > 0 ==> r == Some(old(self)@[0])
                && final(self)@ == old(self)@.drop_first(),
    {
        if self.is_empty() {
            return None;
        }
        let ghost old_self = *self;
        assert(old_self.data@[old_self.slot(0)] is Some);
        let mut taken: Option<T> = None;
        self.data.set_and_swap(self.head, &mut taken);
        proof {
            lemma_mod_wrap(self.head + 1, CAP as int);
        }
        self.head = (self.head + 1) % CAP;
        self.len -= 1;
        proof {
            assert forall|i: int| 0 <= i < self.len implies (#[trigger] self.data@[wrap(
                self.head + i,
                CAP as int,
            )]) is Some by {
                assert(old_self.data@[wrap(old_self.head + (i + 1), CAP as int)] is Some);
            }
            assert forall|i: int| 0 <= i < self.len implies self@[i] == old_self@.drop_first()[i] by {
                assert(self.slot(i) == old_self.slot(i + 1));
            }
            assert(self@ =~= old_self@.drop_first());
        }
        taken
    }
}

} // verus!
