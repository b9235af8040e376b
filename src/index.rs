use vstd::prelude::*;
use vstd::std_specs::iter::IteratorSpec;

verus! {

/// An address of a node below a tree root: the child offset taken at each depth,
/// outermost first. It is never empty; the root itself has no address.
///
/// Addresses are plain values: one may outlive the tree it was computed on and
/// then point at nothing, which the queries report as absence.
#[derive(Debug, Hash, Ord)]
pub struct TreeIndex {
    indices: Vec<usize>,
}

impl View for TreeIndex {
    type V = Seq<usize>;

    closed spec fn view(&self) -> Seq<usize> {
        self.indices@
    }
}

impl Clone for TreeIndex {
    fn clone(&self) -> (r: TreeIndex)
        ensures
            r@ == self@,
    {
        proof {
            use_type_invariant(self);
        }
        let indices = self.indices.clone();
        assert(indices@ =~= self.indices@);
        TreeIndex { indices }
    }
}

impl PartialEq for TreeIndex {
    fn eq(&self, other: &TreeIndex) -> (r: bool) {
        index_eq(self.indices.as_slice(), other.indices.as_slice())
    }
}

impl vstd::std_specs::cmp::PartialEqSpecImpl for TreeIndex {
    open spec fn obeys_eq_spec() -> bool {
        true
    }

    open spec fn eq_spec(&self, other: &TreeIndex) -> bool {
        self@ == other@
    }
}

impl Eq for TreeIndex {
}

impl PartialOrd for TreeIndex {
    fn partial_cmp(&self, other: &TreeIndex) -> (r: Option<std::cmp::Ordering>) {
        Some(crate::view::compare_indices(self.indices.as_slice(), other.indices.as_slice()))
    }
}

impl vstd::std_specs::cmp::PartialOrdSpecImpl for TreeIndex {
    open spec fn obeys_partial_cmp_spec() -> bool {
        true
    }

    /// Lexicographic order, which is pre-order.
    open spec fn partial_cmp_spec(&self, other: &TreeIndex) -> Option<std::cmp::Ordering> {
        Some(
            if crate::tree::precedes(self@, other@) {
                std::cmp::Ordering::Less
            } else if self@ == other@ {
                std::cmp::Ordering::Equal
            } else {
                std::cmp::Ordering::Greater
            },
        )
    }
}

impl Default for TreeIndex {
    fn default() -> (r: TreeIndex)
        ensures
            r@ == seq![0usize],
    {
        TreeIndex { indices: vec![0] }
    }
}

/// Element-wise equality of two offset sequences.
fn index_eq(a: &[usize], b: &[usize]) -> (r: bool)
    ensures
        r == (a@ == b@),
{
    if a.len() != b.len() {
        return false;
    }
    let mut k: usize = 0;
    while k < a.len()
        invariant
            a@.len() == b@.len(),
            k <= a@.len(),
            a@.subrange(0, k as int) == b@.subrange(0, k as int),
        decreases a@.len() - k,
    {
        if a[k] != b[k] {
            return false;
        }
        assert(a@.subrange(0, k + 1) =~= a@.subrange(0, k as int).push(a@[k as int]));
        assert(b@.subrange(0, k + 1) =~= b@.subrange(0, k as int).push(b@[k as int]));
        k = k + 1;
    }
    assert(a@ =~= a@.subrange(0, k as int));
    assert(b@ =~= b@.subrange(0, k as int));
    true
}

/// `addr` with everything from depth `place` on replaced by `index`, padded with zeros
/// where `addr` was shorter than `place`.
pub open spec fn spliced_seq(addr: Seq<usize>, place: int, index: usize) -> Seq<usize> {
    resized(addr, place).push(index)
}

/// `addr` cut or padded with zeros to `len` offsets.
pub open spec fn resized(addr: Seq<usize>, len: int) -> Seq<usize> {
    if len <= addr.len() {
        addr.subrange(0, len)
    } else {
        addr + Seq::new((len - addr.len()) as nat, |i: int| 0usize)
    }
}

impl TreeIndex {
    #[verifier::type_invariant]
    spec fn inv(self) -> bool {
        self.indices@.len() > 0
    }

    /// The address of the root's first child.
    pub fn zero() -> (r: TreeIndex)
        ensures
            r@ == seq![0usize],
    {
        TreeIndex::default()
    }

    /// The address with the given offsets, if there is at least one.
    pub fn new(indices: &[usize]) -> (r: Option<TreeIndex>)
        ensures
            indices@.len() == 0 <==> r is None,
            r matches Some(i) ==> i@ == indices@,
    {
        if indices.len() == 0 {
            None
        } else {
            let mut v: Vec<usize> = Vec::new();
            let mut k: usize = 0;
            while k < indices.len()
                invariant
                    k <= indices@.len(),
                    v@ == indices@.subrange(0, k as int),
                decreases indices@.len() - k,
            {
                v.push(indices[k]);
                assert(indices@.subrange(0, k + 1) =~= indices@.subrange(0, k as int).push(
                    indices@[k as int],
                ));
                k = k + 1;
            }
            assert(v@ =~= indices@);
            Some(TreeIndex { indices: v })
        }
    }

    /// The address of the root's child at `index`.
    pub fn new_at(index: usize) -> (r: TreeIndex)
        ensures
            r@ == seq![index],
    {
        TreeIndex { indices: vec![index] }
    }

    /// The address with the given offsets; there must be at least one.
    pub fn new_unchecked(indices: Vec<usize>) -> (r: TreeIndex)
        requires
            indices@.len() > 0,
        ensures
            r@ == indices@,
    {
        TreeIndex { indices }
    }

    /// The offset among the root's children.
    pub fn first(&self) -> (r: usize)
        ensures
            r == self@[0],
    {
        *self.first_ref()
    }

    pub fn first_ref(&self) -> (r: &usize)
        ensures
            *r == self@[0],
    {
        proof {
            use_type_invariant(self);
        }
        &self.indices[0]
    }

    /// The offset at the deepest level.
    pub fn last(&self) -> (r: usize)
        ensures
            r == self@.last(),
    {
        *self.last_ref()
    }

    pub fn last_ref(&self) -> (r: &usize)
        ensures
            *r == self@.last(),
    {
        proof {
            use_type_invariant(self);
        }
        &self.indices[self.indices.len() - 1]
    }

    /// All offsets, outermost first.
    pub fn as_slice(&self) -> (r: &[usize])
        ensures
            r@ == self@,
    {
        self.indices.as_slice()
    }

    /// All offsets, outermost first.
    pub fn iter(&self) -> (r: std::slice::Iter<'_, usize>)
        ensures
            r.remaining() == self@.as_ref(),
    {
        let s = self.indices.as_slice();
        let r = s.iter();
        proof {
            vstd::std_specs::slice::axiom_spec_slice_iter(s);
        }
        r
    }

    /// All offsets but the first, outermost first.
    pub fn iter_rest(&self) -> (r: std::slice::Iter<'_, usize>)
        ensures
            r.remaining() == self@.drop_first().as_ref(),
    {
        proof {
            use_type_invariant(self);
        }
        let s = self.indices.as_slice();
        let rest = vstd::slice::slice_subrange(s, 1, s.len());
        let r = rest.iter();
        proof {
            vstd::std_specs::slice::axiom_spec_slice_iter(rest);
            assert(rest@ =~= self@.drop_first());
        }
        r
    }

    /// The offset among the root's children, for changing in place.
    pub fn first_mut(&mut self) -> (r: &mut usize)
        ensures
            *r == old(self)@[0],
            final(self)@ == old(self)@.update(0, *final(r)),
        no_unwind
    {
        proof {
            use_type_invariant(&*self);
        }
        &mut self.indices[0]
    }

    /// The offset at the deepest level, for changing in place.
    pub fn last_mut(&mut self) -> (r: &mut usize)
        ensures
            *r == old(self)@.last(),
            final(self)@ == old(self)@.update(old(self)@.len() - 1, *final(r)),
        no_unwind
    {
        proof {
            use_type_invariant(&*self);
        }
        let last = self.indices.len() - 1;
        &mut self.indices[last]
    }

    /// The number of offsets: one more than the depth of the node below the root.
    pub fn len(&self) -> (r: usize)
        ensures
            r == self@.len(),
            r > 0,
    {
        proof {
            use_type_invariant(self);
        }
        self.indices.len()
    }

    /// Always false: an address has at least one offset.
    pub fn is_empty(&self) -> (r: bool)
        ensures
            r == (self@.len() == 0),
            !r,
    {
        proof {
            use_type_invariant(self);
        }
        self.indices.len() == 0
    }

    /// Whether the address names a child of the root itself.
    pub fn is_root(&self) -> (r: bool)
        ensures
            r == (self@.len() == 1),
    {
        self.indices.len() == 1
    }

    /// Appends a child offset.
    pub fn push(&mut self, index: usize)
        ensures
            final(self)@ == old(self)@.push(index),
    {
        proof {
            use_type_invariant(&*self);
        }
        let mut indices = self.indices.clone();
        assert(indices@ =~= self.indices@);
        indices.push(index);
        self.indices = indices;
    }

    /// This address with a child offset appended.
    pub fn pushed(&self, index: usize) -> (r: TreeIndex)
        ensures
            r@ == self@.push(index),
    {
        let mut result = self.clone();
        result.push(index);
        result
    }

    /// Removes and returns the deepest offset, unless it is the only one.
    pub fn pop(&mut self) -> (r: Option<usize>)
        ensures
            old(self)@.len() > 1 ==> r == Some(old(self)@.last()) && final(self)@ == old(
                self,
            )@.drop_last(),
            old(self)@.len() <= 1 ==> r is None && final(self)@ == old(self)@,
    {
        proof {
            use_type_invariant(&*self);
        }
        if self.indices.len() > 1 {
            let mut indices = self.indices.clone();
            assert(indices@ =~= self.indices@);
            let r = indices.pop();
            self.indices = indices;
            r
        } else {
            None
        }
    }

    /// This address without its deepest offset, or unchanged if it has only one.
    pub fn popped(&self) -> (r: TreeIndex)
        ensures
            self@.len() > 1 ==> r@ == self@.drop_last(),
            self@.len() <= 1 ==> r@ == self@,
    {
        let mut result = self.clone();
        result.pop();
        result
    }

    /// Keeps the first `place` offsets (padding with zeros if there are fewer) and
    /// appends `index`.
    pub fn splice(&mut self, place: usize, index: usize)
        ensures
            final(self)@ == spliced_seq(old(self)@, place as int, index),
    {
        proof {
            use_type_invariant(&*self);
        }
        let ghost before = self.indices@;
        let mut indices = self.indices.clone();
        assert(indices@ =~= self.indices@);
        indices.resize(place, 0);
        indices.push(index);
        assert(indices@ =~= spliced_seq(before, place as int, index));
        self.indices = indices;
    }

    /// This address with everything from depth `place` on replaced by `index`.
    pub fn spliced(&self, place: usize, index: usize) -> (r: TreeIndex)
        ensures
            r@ == spliced_seq(self@, place as int, index),
    {
        let mut result = self.clone();
        result.splice(place, index);
        result
    }

    /// Cuts or pads (with zeros) the address to `place + 1` offsets.
    pub fn floor(&mut self, place: usize)
        requires
            place < usize::MAX,
        ensures
            final(self)@ == resized(old(self)@, place + 1),
    {
        proof {
            use_type_invariant(&*self);
        }
        let ghost before = self.indices@;
        let len = place + 1;
        let mut indices = self.indices.clone();
        assert(indices@ =~= self.indices@);
        indices.resize(len, 0);
        assert(indices@ =~= resized(before, place + 1));
        self.indices = indices;
    }

    /// This address cut or padded (with zeros) to `place + 1` offsets.
    pub fn floored(&self, place: usize) -> (r: TreeIndex)
        requires
            place < usize::MAX,
        ensures
            r@ == resized(self@, place + 1),
    {
        let mut result = self.clone();
        result.floor(place);
        result
    }

    /// The address of the parent node, or `None` for a child of the root.
    pub fn parent(&self) -> (r: Option<TreeIndex>)
        ensures
            self@.len() > 1 <==> r is Some,
            r matches Some(p) ==> p@ == self@.drop_last(),
    {
        if self.indices.len() > 1 {
            Some(self.popped())
        } else {
            None
        }
    }

    /// The address with its first offset removed, if more than one remains.
    pub fn rest(&self) -> (r: Option<TreeIndex>)
        ensures
            self@.len() > 1 <==> r is Some,
            r matches Some(p) ==> p@ == self@.drop_first(),
    {
        if self.indices.len() > 1 {
            let mut v: Vec<usize> = Vec::new();
            let mut k: usize = 1;
            while k < self.indices.len()
                invariant
                    1 <= k <= self@.len(),
                    v@ == self@.subrange(1, k as int),
                decreases self@.len() - k,
            {
                v.push(self.indices[k]);
                assert(self@.subrange(1, k + 1) =~= self@.subrange(1, k as int).push(
                    self@[k as int],
                ));
                k = k + 1;
            }
            assert(v@ =~= self@.drop_first());
            Some(TreeIndex { indices: v })
        } else {
            None
        }
    }
}

} // verus!
