//! The text arena: owner of every document text loaded during one build pass.

use vstd::prelude::*;

verus! {

/// An append-only sequence of owned text buffers.
///
/// A buffer is never changed or removed once allocated; the only way to
/// release storage is to clear the whole arena. References handed out by
/// [`Arena::allocate`] and [`Arena::get`] borrow the arena, so none can survive
/// a call of [`Arena::clear`].
pub struct Arena {
    data: Vec<String>,
}

impl View for Arena {
    type V = Seq<Seq<char>>;

    /// The buffers in allocation order, each as its characters.
    closed spec fn view(&self) -> Seq<Seq<char>> {
        Seq::new(self.data@.len(), |i: int| self.data@[i]@)
    }
}

impl Arena {
    /// An arena that holds no buffer.
    pub fn new() -> (arena: Self)
        ensures
            arena@ == Seq::<Seq<char>>::empty(),
    {
        let arena = Arena { data: Vec::new() };
        assert(arena@ =~= Seq::<Seq<char>>::empty());
        arena
    }

    /// Takes ownership of `s`, stores it behind every earlier buffer and
    /// returns a reference to the stored text.
    pub fn allocate(&mut self, s: String) -> (text: &str)
        ensures
            final(self)@ == old(self)@.push(s@),
            text@ == s@,
    {
        let ghost chars = s@;
        self.data.push(s);
        assert(self@ =~= old(self)@.push(chars));
        let last: usize = self.data.len() - 1;
        self.data[last].as_str()
    }

    /// The number of buffers allocated since the arena was created or last
    /// cleared.
    pub fn len(&self) -> (n: usize)
        ensures
            n == self@.len(),
    {
        self.data.len()
    }

    /// The text of the `i`-th buffer.
    pub fn get(&self, i: usize) -> (text: &str)
        requires
            i < self@.len(),
        ensures
            text@ == self@[i as int],
    {
        self.data[i].as_str()
    }

    /// Releases every buffer.
    pub fn clear(&mut self)
        ensures
            final(self)@ == Seq::<Seq<char>>::empty(),
    {
        self.data.clear();
        assert(self@ =~= Seq::<Seq<char>>::empty());
    }
}

} // verus!
