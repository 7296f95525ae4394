use vstd::prelude::*;

verus! {

/// One allocation bit per tree node: `true` is used, `false` is free.
pub struct TreeMap {
    bits: Vec<bool>,
}

impl View for TreeMap {
    type V = Seq<bool>;

    closed spec fn view(&self) -> Seq<bool> {
        self.bits@
    }
}

impl TreeMap {
    /// A bitmap of `len` free bits.
    pub fn new(len: usize) -> (r: TreeMap)
        ensures
            r@ == Seq::new(len as nat, |i: int| false),
    {
        let mut bits: Vec<bool> = Vec::new();
        while bits.len() < len
            invariant
                bits.len() <= len,
                forall|i: int| 0 <= i < bits.len() ==> !bits@[i],
            decreases len - bits.len(),
        {
            bits.push(false);
        }
        let r = TreeMap { bits };
        assert(r@ =~= Seq::new(len as nat, |i: int| false));
        r
    }

    /// Marks every bit used.
    pub fn set_bit_all(&mut self)
        ensures
            final(self)@ == Seq::new(old(self)@.len(), |i: int| true),
    {
        let n = self.bits.len();
        let mut i: usize = 0;
        while i < n
            invariant
                n == self.bits.len(),
                n == old(self)@.len(),
                i <= n,
                forall|j: int| 0 <= j < i ==> self.bits@[j],
            decreases n - i,
        {
            self.bits.set(i, true);
            i += 1;
        }
        assert(self@ =~= Seq::new(old(self)@.len(), |i: int| true));
    }

    /// Marks bit `i` used.
    pub fn set_bit(&mut self, i: usize)
        requires
            i < old(self)@.len(),
        ensures
            final(self)@ == old(self)@.update(i as int, true),
    {
        self.bits.set(i, true);
    }

    /// Marks bit `i` free.
    pub fn unset_bit(&mut self, i: usize)
        requires
            i < old(self)@.len(),
        ensures
            final(self)@ == old(self)@.update(i as int, false),
    {
        self.bits.set(i, false);
    }

    /// Whether bit `i` is free.
    pub fn is_empty(&self, i: usize) -> (r: bool)
        requires
            i < self@.len(),
        ensures
            r == !self@[i as int],
    {
        !self.bits[i]
    }
}

} // verus!
