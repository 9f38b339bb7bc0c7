//! A fixed-capacity circular buffer.
//!
//! The buffer owns a fixed number of slots and a logical head index. Logical
//! position `i` always resolves to physical slot `(head + i) mod len`, so
//! rotating or shifting the ring moves the head in constant time and never
//! touches the elements themselves.

use vstd::prelude::*;

verus! {

use vstd::arithmetic::div_mod::{
    lemma_add_mod_noop_right,
    lemma_mod_sub_multiples_vanish,
    lemma_small_mod,
};

/// `rotated(s, k)[i]` is the element that stood at `(i + k) mod len` in `s`:
/// the whole sequence turned `k` steps, with positive `k` turning elements
/// toward lower logical positions.
pub open spec fn rotated<T>(s: Seq<T>, k: int) -> Seq<T>
    recommends
        s.len() > 0,
{
    Seq::new(s.len(), |i: int| s[(i + k) % (s.len() as int)])
}

/// A remainder taken from a value below twice the divisor needs at most one
/// subtraction.
proof fn lemma_mod_window(a: int, n: int)
    requires
        0 < n,
        0 <= a < 2 * n,
    ensures
        a % n == if a < n {
            a
        } else {
            a - n
        },
{
    if a < n {
        lemma_small_mod(a as nat, n as nat);
    } else {
        lemma_mod_sub_multiples_vanish(a, n);
        lemma_small_mod((a - n) as nat, n as nat);
    }
}

/// Rotating by `k` is the same as rotating by `k mod len`.
pub proof fn lemma_rotated_mod<T>(s: Seq<T>, k: int)
    requires
        s.len() > 0,
    ensures
        rotated(s, k % (s.len() as int)) == rotated(s, k),
{
    let n = s.len() as int;
    assert forall|i: int| 0 <= i < n implies rotated(s, k % n)[i] == rotated(s, k)[i] by {
        lemma_add_mod_noop_right(i, k, n);
    }
    assert(rotated(s, k % n) =~= rotated(s, k));
}

/// Rotating by zero changes nothing.
pub proof fn lemma_rotated_zero<T>(s: Seq<T>)
    requires
        s.len() > 0,
    ensures
        rotated(s, 0) == s,
{
    let n = s.len() as int;
    assert forall|i: int| 0 <= i < n implies rotated(s, 0)[i] == s[i] by {
        lemma_small_mod(i as nat, n as nat);
    }
    assert(rotated(s, 0) =~= s);
}

/// Two rotations compose into the rotation by the sum of their steps. For any
/// sequence of single-step rotations this gives, by induction, that logical
/// index `i` ends up reading the element that stood at `(i + net) mod len`
/// before the whole sequence, where `net` counts forward rotations minus
/// backward ones.
pub proof fn lemma_rotated_compose<T>(s: Seq<T>, a: int, b: int)
    requires
        s.len() > 0,
    ensures
        rotated(rotated(s, a), b) == rotated(s, a + b),
{
    let n = s.len() as int;
    assert forall|i: int| 0 <= i < n implies rotated(rotated(s, a), b)[i] == rotated(
        s,
        a + b,
    )[i] by {
        lemma_add_mod_noop_right(a, i + b, n);
        assert(rotated(rotated(s, a), b)[i] == rotated(s, a)[(i + b) % n]);
        assert(rotated(s, a)[(i + b) % n] == s[((i + b) % n + a) % n]);
        assert(((i + b) % n + a) % n == (a + (i + b)) % n);
    }
    assert(rotated(rotated(s, a), b) =~= rotated(s, a + b));
}

/// The net turn of a run of single rotation steps: `true` counts a forward
/// step, `false` a backward one.
pub open spec fn net_rotation(dirs: Seq<bool>) -> int
    decreases dirs.len(),
{
    if dirs.len() == 0 {
        0
    } else {
        net_rotation(dirs.drop_last()) + if dirs.last() {
            1int
        } else {
            -1
        }
    }
}

/// A sequence's contents after the rotation steps in `dirs`, applied in
/// order.
pub open spec fn rotated_by_all<T>(s: Seq<T>, dirs: Seq<bool>) -> Seq<T>
    decreases dirs.len(),
{
    if dirs.len() == 0 {
        s
    } else {
        rotated(rotated_by_all(s, dirs.drop_last()), if dirs.last() {
            1int
        } else {
            -1
        })
    }
}

/// The ring rotation law: any run of single-step rotations amounts to one
/// rotation by its net count, so afterwards logical index `i` reads the
/// element that stood at `(i + net) mod len` before the run.
pub proof fn law_rotation_net<T>(s: Seq<T>, dirs: Seq<bool>)
    requires
        s.len() > 0,
    ensures
        rotated_by_all(s, dirs) == rotated(s, net_rotation(dirs)),
    decreases dirs.len(),
{
    if dirs.len() == 0 {
        lemma_rotated_zero(s);
    } else {
        law_rotation_net(s, dirs.drop_last());
        lemma_rotated_compose(s, net_rotation(dirs.drop_last()), if dirs.last() {
            1int
        } else {
            -1
        });
    }
}

/// A well-formed ring always has at least one slot.
pub broadcast proof fn lemma_wf_nonempty<T>(r: &Ring<T>)
    requires
        #[trigger] r.wf(),
    ensures
        r@.len() > 0,
{
}

/// A fixed-capacity circular buffer over `buf.len()` slots. Created with a
/// fixed set of slots and never resized; every operation keeps the same
/// number of elements.
#[derive(Clone)]
pub struct Ring<T> {
    buf: Vec<T>,
    head: usize,
}

impl<T> View for Ring<T> {
    type V = Seq<T>;

    closed spec fn view(&self) -> Seq<T> {
        rotated(self.buf@, self.head as int)
    }
}

impl<T> Ring<T> {
    /// The head always addresses a physical slot, so the ring is never empty.
    pub closed spec fn wf(&self) -> bool {
        self.head < self.buf.len()
    }

    /// Builds a ring whose logical order is the order of `buf`. A ring over
    /// zero slots cannot be constructed.
    pub fn from_vec(buf: Vec<T>) -> (r: Ring<T>)
        requires
            buf@.len() > 0,
        ensures
            r.wf(),
            r@ == buf@,
    {
        let r = Ring { buf, head: 0 };
        proof {
            lemma_rotated_zero(r.buf@);
        }
        r
    }

    /// The fixed number of slots.
    pub fn len(&self) -> (n: usize)
        ensures
            n == self@.len(),
    {
        self.buf.len()
    }

    /// Turns the ring one step so that logical index `i` now reads what
    /// logical index `i + 1` read before; only the head moves.
    pub fn rotate_left(&mut self)
        requires
            old(self).wf(),
        ensures
            final(self).wf(),
            final(self)@ == rotated(old(self)@, 1),
    {
        let n = self.buf.len();
        proof {
            let ni = n as int;
            let h = self.head as int;
            lemma_rotated_compose(self.buf@, h, 1);
            lemma_rotated_mod(self.buf@, h + 1);
            lemma_mod_window(h + 1, ni);
        }
        self.head = if self.head + 1 == n {
            0
        } else {
            self.head + 1
        };
    }

    /// Turns the ring one step the other way: logical index `i` now reads
    /// what logical index `i - 1` read before, and index `0` reads what the
    /// last index read.
    pub fn rotate_right(&mut self)
        requires
            old(self).wf(),
        ensures
            final(self).wf(),
            final(self)@ == rotated(old(self)@, -1),
    {
        let n = self.buf.len();
        proof {
            let ni = n as int;
            let h = self.head as int;
            lemma_rotated_compose(self.buf@, h, -1);
            lemma_rotated_mod(self.buf@, h - 1);
            if h == 0 {
                lemma_mod_sub_multiples_vanish(ni - 1, ni);
                lemma_small_mod((ni - 1) as nat, ni as nat);
            } else {
                lemma_small_mod((h - 1) as nat, ni as nat);
            }
        }
        self.head = if self.head == 0 {
            n - 1
        } else {
            self.head - 1
        };
    }

    /// Borrows the element at logical position `i` for writing.
    pub fn get_mut(&mut self, i: usize) -> (r: &mut T)
        requires
            old(self).wf(),
            i < old(self)@.len(),
        ensures
            final(self).wf(),
            *r == old(self)@[i as int],
            final(self)@.len() == old(self)@.len(),
            final(self)@[i as int] == *final(r),
            forall|l: int|
                0 <= l < old(self)@.len() && l != i ==> final(self)@[l] == old(self)@[l],
    {
        let n = self.buf.len();
        let j = if i < n - self.head {
            self.head + i
        } else {
            i - (n - self.head)
        };
        proof {
            let ni = n as int;
            let h = self.head as int;
            lemma_mod_window(i + h, ni);
            assert(j == (i + h) % ni);
            assert forall|l: int| 0 <= l < ni && l != i implies #[trigger] ((l + h) % ni) != j by {
                lemma_mod_window(l + h, ni);
            }
        }
        &mut self.buf[j]
    }

    /// Moves the head one slot back and installs `filler` in the slot now at
    /// logical position `0`, returning the element that slot held, which
    /// stood at the last logical position. Every other element keeps its
    /// order, moved one logical position toward the back.
    pub fn shift_right_with(&mut self, filler: T) -> (r: T)
        requires
            old(self).wf(),
        ensures
            final(self).wf(),
            final(self)@.len() == old(self)@.len(),
            r == old(self)@[old(self)@.len() - 1],
            final(self)@[0] == filler,
            forall|i: int|
                1 <= i < old(self)@.len() ==> final(self)@[i] == old(self)@[i - 1],
    {
        let n = self.buf.len();
        self.head = if self.head == 0 {
            n - 1
        } else {
            self.head - 1
        };
        proof {
            let ni = n as int;
            let h = old(self).head as int;
            let h2 = self.head as int;
            lemma_mod_window((ni - 1) + h, ni);
            lemma_small_mod(h2 as nat, ni as nat);
            assert(h2 == ((ni - 1) + h) % ni);
            assert(0int % ni == 0) by {
                lemma_small_mod(0, ni as nat);
            }
            assert forall|i: int| 1 <= i < ni implies #[trigger] ((i + h2) % ni) == ((i - 1) + h)
                % ni && (i + h2) % ni != h2 by {
                lemma_mod_window(i + h2, ni);
                lemma_mod_window((i - 1) + h, ni);
            }
        }
        let mut v = filler;
        core::mem::swap(&mut v, &mut self.buf[self.head]);
        v
    }

    /// Installs `filler` in the slot at logical position `0`, returns the
    /// element that slot held, and moves the head one slot forward, so that
    /// every other element moves one logical position toward the front and
    /// `filler` ends up at the last logical position.
    pub fn shift_left_with(&mut self, filler: T) -> (r: T)
        requires
            old(self).wf(),
        ensures
            final(self).wf(),
            final(self)@.len() == old(self)@.len(),
            r == old(self)@[0],
            final(self)@[old(self)@.len() - 1] == filler,
            forall|i: int|
                0 <= i < old(self)@.len() - 1 ==> final(self)@[i] == old(self)@[i + 1],
    {
        let n = self.buf.len();
        let mut v = filler;
        core::mem::swap(&mut v, &mut self.buf[self.head]);
        proof {
            let ni = n as int;
            let h = self.head as int;
            let h2 = if h + 1 == ni {
                0
            } else {
                h + 1
            };
            lemma_small_mod(h as nat, ni as nat);
            assert(0int % ni == 0) by {
                lemma_small_mod(0, ni as nat);
            }
            assert forall|i: int| 0 <= i < ni - 1 implies #[trigger] ((i + h2) % ni) == ((i + 1)
                + h) % ni && (i + h2) % ni != h by {
                lemma_mod_window(i + h2, ni);
                lemma_mod_window((i + 1) + h, ni);
            }
            assert(((ni - 1) + h2) % ni == h) by {
                lemma_mod_window((ni - 1) + h2, ni);
            }
        }
        self.head = if self.head + 1 == n {
            0
        } else {
            self.head + 1
        };
        v
    }

    /// Consumes the ring, returning its elements in logical order.
    pub fn to_array(self) -> (r: Vec<T>)
        requires
            self.wf(),
        ensures
            r@ == self@,
    {
        let ghost g = self;
        let Ring { mut buf, head } = self;
        let mut front = buf.split_off(head);
        front.append(&mut buf);
        proof {
            let n = g.buf@.len() as int;
            assert forall|i: int| 0 <= i < n implies front@[i] == g@[i] by {
                lemma_mod_window(i + g.head, n);
            }
            assert(front@ =~= g@);
        }
        front
    }

    /// Borrows the elements as two physically contiguous runs; the first is
    /// never empty and the two concatenated give the logical order.
    pub fn as_slices(&self) -> (r: (&[T], &[T]))
        requires
            self.wf(),
        ensures
            r.0@ + r.1@ == self@,
            r.0@.len() > 0,
    {
        let (left, right) = self.buf.as_slice().split_at(self.head);
        proof {
            let n = self.buf@.len() as int;
            assert forall|i: int| 0 <= i < n implies (right@ + left@)[i] == self@[i] by {
                lemma_mod_window(i + self.head, n);
            }
            assert(right@ + left@ =~= self@);
        }
        (right, left)
    }

    /// Reads the element at logical position `i`.
    pub fn get(&self, i: usize) -> (r: &T)
        requires
            self.wf(),
            i < self@.len(),
        ensures
            *r == self@[i as int],
    {
        let n = self.buf.len();
        let j = if i < n - self.head {
            self.head + i
        } else {
            i - (n - self.head)
        };
        proof {
            lemma_mod_window(i + self.head, n as int);
        }
        &self.buf[j]
    }
}


impl<T: Default> Ring<T> {
    /// Moves the head one slot back, leaves the type's default value in the
    /// slot now at logical position `0`, and returns the element that slot
    /// held, which stood at the last logical position.
    pub fn shift_right(&mut self) -> (r: T)
        requires
            old(self).wf(),
        ensures
            final(self).wf(),
            final(self)@.len() == old(self)@.len(),
            r == old(self)@[old(self)@.len() - 1],
            call_ensures(T::default, (), final(self)@[0]),
            forall|i: int|
                1 <= i < old(self)@.len() ==> final(self)@[i] == old(self)@[i - 1],
    {
        let d = T::default();
        self.shift_right_with(d)
    }

    /// Returns the element at logical position `0`, leaves the type's
    /// default value in its slot, and moves the head one slot forward, so
    /// that the vacated slot ends up at the last logical position.
    pub fn shift_left(&mut self) -> (r: T)
        requires
            old(self).wf(),
        ensures
            final(self).wf(),
            final(self)@.len() == old(self)@.len(),
            r == old(self)@[0],
            call_ensures(T::default, (), final(self)@[old(self)@.len() - 1]),
            forall|i: int|
                0 <= i < old(self)@.len() - 1 ==> final(self)@[i] == old(self)@[i + 1],
    {
        let d = T::default();
        self.shift_left_with(d)
    }
}


/// A consuming iterator over a ring's elements in logical order.
pub struct IntoIter<T> {
    items: Vec<T>,
}

impl<T> IntoIter<T> {
    /// The elements not yet handed out, in the order they will come.
    pub closed spec fn remaining(&self) -> Seq<T> {
        self.items@
    }

    /// Hands out the next element, front first, or `None` when the ring is
    /// exhausted.
    pub fn next(&mut self) -> (r: Option<T>)
        ensures
            old(self).remaining().len() == 0 ==> r is None && final(self).remaining()
                == old(self).remaining(),
            old(self).remaining().len() > 0 ==> r == Some(old(self).remaining()[0])
                && final(self).remaining() == old(self).remaining().subrange(
                1,
                old(self).remaining().len() as int,
            ),
    {
        if self.items.len() > 0 {
            let x = self.items.remove(0);
            proof {
                assert(final(self).remaining() =~= old(self).remaining().subrange(
                    1,
                    old(self).remaining().len() as int,
                ));
            }
            Some(x)
        } else {
            None
        }
    }
}

impl<T> Ring<T> {
    /// Consumes the ring into an iterator over its elements in logical
    /// order.
    pub fn into_iter(self) -> (it: IntoIter<T>)
        requires
            self.wf(),
        ensures
            it.remaining() == self@,
    {
        IntoIter { items: self.to_array() }
    }
}

} // verus!
