use vstd::prelude::*;

verus! {

/// One column of an archetype: the values of one component for every row.
/// Elements can only be appended and removed by swapping in the last one,
/// so that rows of different columns stay aligned.
pub struct LayoutVec<T> {
    elements: Vec<T>,
}

impl<T> View for LayoutVec<T> {
    type V = Seq<T>;

    closed spec fn view(&self) -> Seq<T> {
        self.elements@
    }
}

/// What `swap_remove` leaves behind: the last element moves into the hole at `index`.
pub open spec fn swap_removed<T>(s: Seq<T>, index: int) -> Seq<T> {
    s.update(index, s.last()).drop_last()
}

impl<T> LayoutVec<T> {
    pub fn new() -> (r: Self)
        ensures
            r@ == Seq::<T>::empty(),
    {
        LayoutVec { elements: Vec::new() }
    }

    pub fn len(&self) -> (r: usize)
        ensures
            r == self@.len(),
    {
        self.elements.len()
    }

    /// Grows the column by one element.
    pub fn push(&mut self, value: T)
        ensures
            final(self)@ == old(self)@.push(value),
    {
        self.elements.push(value);
    }

    /// Removes the last element and returns it.
    pub fn remove_last(&mut self) -> (r: T)
        requires
            old(self)@.len() > 0,
        ensures
            r == old(self)@.last(),
            final(self)@ == old(self)@.drop_last(),
    {
        self.elements.pop().unwrap()
    }

    /// Deletes the element at `index` (dropping it) and moves the last element into the hole.
    /// Returns the index of the last element before it was moved, which is the new length.
    pub fn remove_swap(&mut self, index: u32) -> (r: u32)
        requires
            index < old(self)@.len(),
        ensures
            final(self)@ == swap_removed(old(self)@, index as int),
            r == final(self)@.len() as u32,
    {
        let _removed = self.elements.swap_remove(index as usize);
        #[verifier::truncate]
        (self.elements.len() as u32)
    }

    /// Like `remove_swap`, but hands the removed element back.
    pub fn take_swap(&mut self, index: u32) -> (r: T)
        requires
            index < old(self)@.len(),
        ensures
            r == old(self)@[index as int],
            final(self)@ == swap_removed(old(self)@, index as int),
    {
        self.elements.swap_remove(index as usize)
    }

    /// The element at `index`.
    pub fn get(&self, index: u32) -> (r: &T)
        requires
            index < self@.len(),
        ensures
            *r == self@[index as int],
    {
        &self.elements[index as usize]
    }

    /// The element at `index`, for mutation.
    pub fn get_mut(&mut self, index: u32) -> (r: &mut T)
        requires
            index < old(self)@.len(),
        ensures
            *r == old(self)@[index as int],
            final(self)@ == old(self)@.update(index as int, *final(r)),
    {
        &mut self.elements[index as usize]
    }

    /// Puts `value` at `index` and hands back the element that was there.
    pub fn replace(&mut self, index: u32, value: T) -> (r: T)
        requires
            index < old(self)@.len(),
        ensures
            r == old(self)@[index as int],
            final(self)@ == old(self)@.update(index as int, value),
    {
        let mut v = value;
        std::mem::swap(&mut self.elements[index as usize], &mut v);
        v
    }

    /// Moves the element at `index` of `from` to the end of `to`; the last element of
    /// `from` fills the hole.
    pub fn move_entry(from: &mut Self, to: &mut Self, index: u32)
        requires
            index < old(from)@.len(),
        ensures
            final(from)@ == swap_removed(old(from)@, index as int),
            final(to)@ == old(to)@.push(old(from)@[index as int]),
    {
        let v = from.elements.swap_remove(index as usize);
        to.elements.push(v);
    }
}

} // verus!
