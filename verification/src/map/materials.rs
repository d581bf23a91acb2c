//! The material table of a map's meshes: each material name once, in the
//! order faces first use it, so a mesh names its material by index.
use vstd::prelude::*;

verus! {

/// Material names by index, none twice.
#[derive(Debug, Clone, PartialEq, Eq)]
pub struct MaterialTable {
    names: Vec<String>,
}

impl View for MaterialTable {
    type V = Seq<Seq<char>>;

    closed spec fn view(&self) -> Seq<Seq<char>> {
        Seq::new(self.names@.len(), |i: int| self.names@[i]@)
    }
}

impl MaterialTable {
    /// No name is listed twice.
    pub open spec fn wf(&self) -> bool {
        forall|i: int, j: int| 0 <= i < j < self@.len() ==> self@[i] != self@[j]
    }

    /// An empty table.
    pub fn new() -> (r: Self)
        ensures
            r.wf(),
            r@ == Seq::<Seq<char>>::empty(),
    {
        let r = MaterialTable { names: Vec::new() };
        assert(r@ =~= Seq::<Seq<char>>::empty());
        r
    }

    /// The index of `name`, added at the end when the table does not
    /// hold it yet.
    pub fn intern(&mut self, name: String) -> (r: usize)
        requires
            old(self).wf(),
        ensures
            final(self).wf(),
            r < final(self)@.len(),
            final(self)@[r as int] == name@,
            old(self)@.contains(name@) ==> final(self)@ == old(self)@,
            !old(self)@.contains(name@) ==> final(self)@ == old(self)@.push(name@) && r == old(self)@.len(),
    {
        let mut i: usize = 0;
        while i < self.names.len()
            invariant
                i <= self.names@.len(),
                self@ == old(self)@,
                self.wf(),
                forall|j: int| 0 <= j < i ==> self@[j] != name@,
            decreases self.names.len() - i,
        {
            if self.names[i] == name {
                assert(self@[i as int] == name@);
                return i;
            }
            i = i + 1;
        }
        let ghost before = self@;
        assert(!before.contains(name@)) by {
            if before.contains(name@) {
                let k = choose|k: int| 0 <= k < before.len() && before[k] == name@;
                assert(self@[k] != name@);
            }
        }
        self.names.push(name);
        assert(self@ =~= before.push(name@));
        i
    }

    /// The names, by index.
    pub fn names(&self) -> (r: &Vec<String>)
        ensures
            r@.len() == self@.len(),
            forall|i: int| 0 <= i < r@.len() ==> r@[i]@ == self@[i],
    {
        &self.names
    }

    /// The names, by index, taken out of the table.
    pub fn into_names(self) -> (r: Vec<String>)
        ensures
            r@.len() == self@.len(),
            forall|i: int| 0 <= i < r@.len() ==> r@[i]@ == self@[i],
    {
        self.names
    }
}

} // verus!
