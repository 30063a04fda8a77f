use std::rc::Rc;
use vstd::prelude::*;

verus! {

/// Relies on `Rc::clone`: the new pointer shares the allocation, so it
/// denotes the same value.
#[verifier::external_body]
fn rc_share<T>(rc: &Rc<T>) -> (r: Rc<T>)
    ensures
        r == *rc,
{
    Rc::clone(rc)
}

/// Relies on `Rc::strong_count`: the number of owning pointers, at least
/// the one that is passed.
#[verifier::external_body]
fn rc_strong_count<T>(rc: &Rc<T>) -> (r: usize)
    ensures
        r >= 1,
{
    Rc::strong_count(rc)
}

/// Relies on `Rc::weak_count`: the number of non-owning pointers.
#[verifier::external_body]
fn rc_weak_count<T>(rc: &Rc<T>) -> (r: usize) {
    Rc::weak_count(rc)
}

/// Holder of every allocation of one object graph. The arena is the owner
/// of each allocation; callers downgrade what `allocate` hands back into
/// non-owning handles. `clean` frees the allocations that neither a
/// non-owning handle nor another owner refers to any longer.
pub struct Arena<T> {
    data: Vec<Rc<T>>,
}

impl<T> Arena<T> {
    /// The values allocated so far and still held, in allocation order.
    pub closed spec fn view(&self) -> Seq<T> {
        self.data@.map_values(|rc: Rc<T>| *rc)
    }

    /// The number of allocations held.
    pub fn len(&self) -> (r: usize)
        ensures
            r == self.view().len(),
    {
        self.data.len()
    }

    pub fn new() -> (r: Self)
        ensures
            r.view() == Seq::<T>::empty(),
    {
        Arena { data: Vec::new() }
    }

    /// Takes ownership of `value` and returns a handle to it.
    pub fn allocate(&mut self, value: T) -> (r: Rc<T>)
        ensures
            final(self).view() == old(self).view().push(value),
            *r == value,
    {
        let obj = Rc::new(value);
        let held = rc_share(&obj);
        self.data.push(held);
        assert(self.view() =~= old(self).view().push(value));
        obj
    }

    /// Frees the allocations that no handle refers to any longer: those
    /// with no non-owning pointer and no owner besides the arena. What is
    /// left keeps its order.
    pub fn clean(&mut self)
        ensures
            exists|dead: Seq<bool>|
                dead.len() == old(self).view().len() && final(self).view() == kept(old(self).view(), dead),
    {
        let mut dead: Vec<bool> = Vec::new();
        let mut i: usize = 0;
        while i < self.data.len()
            invariant
                i <= self.data@.len(),
                dead@.len() == i,
            decreases self.data@.len() - i,
        {
            let obj = &self.data[i];
            dead.push(rc_weak_count(obj) == 0 && rc_strong_count(obj) == 1);
            i += 1;
        }
        self.retain_live(&dead);
    }

    /// Takes out the allocation at each position that `dead` flags, keeping
    /// the others in their order.
    pub fn retain_live(&mut self, dead: &Vec<bool>)
        requires
            dead@.len() == old(self).view().len(),
        ensures
            final(self).view() == kept(old(self).view(), dead@),
    {
        let ghost all = self.view();
        let n = dead.len();
        let mut k: usize = 0;
        let mut j: usize = 0;
        while k < n
            invariant
                n == dead@.len(),
                n == all.len(),
                j <= k <= n,
                self.view().len() == j + (n - k),
                self.view().subrange(0, j as int) == kept(all.subrange(0, k as int), dead@.subrange(0, k as int)),
                self.view().subrange(j as int, self.view().len() as int) == all.subrange(k as int, n as int),
            decreases n - k,
        {
            let ghost before = self.view();
            proof {
                assert(all.subrange(0, k + 1).drop_last() =~= all.subrange(0, k as int));
                assert(dead@.subrange(0, k + 1).drop_last() =~= dead@.subrange(0, k as int));
                assert(before[j as int] == before.subrange(j as int, before.len() as int)[0]);
            }
            if dead[k] {
                self.data.remove(j);
                proof {
                    assert(self.view() =~= before.remove(j as int));
                    assert(self.view().subrange(0, j as int) =~= before.subrange(0, j as int));
                    assert forall|x: int| 0 <= x < n - k - 1 implies #[trigger] self.view().subrange(j as int, self.view().len() as int)[x] == all.subrange(k + 1, n as int)[x] by {
                        assert(before.subrange(j as int, before.len() as int)[x + 1] == all.subrange(k as int, n as int)[x + 1]);
                    }
                    assert(self.view().subrange(j as int, self.view().len() as int) =~= all.subrange(k + 1, n as int));
                    assert(kept(all.subrange(0, k + 1), dead@.subrange(0, k + 1)) =~= kept(all.subrange(0, k as int), dead@.subrange(0, k as int)));
                }
            } else {
                proof {
                    assert(self.view().subrange(0, j + 1) =~= before.subrange(0, j as int).push(before[j as int]));
                    assert forall|x: int| 0 <= x < n - k - 1 implies #[trigger] self.view().subrange(j + 1, self.view().len() as int)[x] == all.subrange(k + 1, n as int)[x] by {
                        assert(before.subrange(j as int, before.len() as int)[x + 1] == all.subrange(k as int, n as int)[x + 1]);
                    }
                    assert(self.view().subrange(j + 1, self.view().len() as int) =~= all.subrange(k + 1, n as int));
                    assert(kept(all.subrange(0, k + 1), dead@.subrange(0, k + 1)) =~= kept(all.subrange(0, k as int), dead@.subrange(0, k as int)).push(all[k as int]));
                }
                j += 1;
            }
            k += 1;
        }
        proof {
            assert(all.subrange(0, n as int) =~= all);
            assert(dead@.subrange(0, n as int) =~= dead@);
            assert(self.view().subrange(0, j as int) =~= self.view());
        }
    }
}

/// `s` without the items at the positions that `dead` flags.
pub open spec fn kept<T>(s: Seq<T>, dead: Seq<bool>) -> Seq<T>
    decreases s.len(),
{
    if s.len() == 0 || dead.len() == 0 {
        Seq::empty()
    } else {
        kept(s.drop_last(), dead.drop_last()) + if dead.last() {
            Seq::empty()
        } else {
            seq![s.last()]
        }
    }
}

} // verus!
