use vstd::prelude::*;

verus! {

/// The list of numbers recorded under one sum of two squares: each number
/// `n` in it has `n * n` as one of the two squares.
///
/// This type holds the list itself, owned by one table entry. It is not a
/// shared handle: it has no `Clone`, and `push` takes it mutably. Sharing a
/// list between threads is left to the program around the library.
pub struct SharedVec(Vec<u32>);

impl View for SharedVec {
    type V = Seq<u32>;

    closed spec fn view(&self) -> Seq<u32> {
        self.0@
    }
}

impl Default for SharedVec {
    fn default() -> (list: Self)
        ensures
            list@ == Seq::<u32>::empty(),
    {
        SharedVec(Vec::new())
    }
}

impl SharedVec {
    /// The numbers of the list, in order, without taking it apart.
    pub fn as_slice(&self) -> (numbers: &[u32])
        ensures
            numbers@ == self@,
    {
        self.0.as_slice()
    }

    /// A list holding the given numbers, in order.
    pub fn from_vec(numbers: Vec<u32>) -> (list: Self)
        ensures
            list@ == numbers@,
    {
        SharedVec(numbers)
    }

    /// The numbers of the list, in the order they were pushed.
    pub fn into_inner(self) -> (numbers: Vec<u32>)
        ensures
            numbers@ == self@,
    {
        self.0
    }

    /// Appends a number at the end of the list.
    pub fn push(&mut self, number: u32)
        ensures
            final(self)@ == old(self)@.push(number),
    {
        self.0.push(number);
    }

    /// The number of numbers in the list.
    pub fn len(&self) -> (n: usize)
        ensures
            n == self@.len(),
    {
        self.0.len()
    }
}

} // verus!
