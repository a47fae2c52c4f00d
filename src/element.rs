use vstd::prelude::*;
use vstd::string::StringSliceAdditionalSpecFns;

verus! {

/// What the structure needs of the values it orders: a stable identity,
/// a way to test two values for it, and a cheap duplicate.
pub trait Element: Sized {
    /// The identity of the value, as bytes.
    spec fn key(&self) -> Seq<u8>;

    fn same(&self, other: &Self) -> (r: bool)
        ensures
            r == (self.key() == other.key()),
    ;

    fn duplicate(&self) -> (r: Self)
        ensures
            r.key() == self.key(),
    ;
}

impl<'a> Element for &'a str {
    open spec fn key(&self) -> Seq<u8> {
        (**self).spec_bytes()
    }

    fn same(&self, other: &Self) -> (r: bool) {
        let a = self.as_bytes();
        let b = other.as_bytes();
        if a.len() != b.len() {
            return false;
        }
        let mut i: usize = 0;
        while i < a.len()
            invariant
                a@ == self.key(),
                b@ == other.key(),
                a@.len() == b@.len(),
                i <= a@.len(),
                forall|j: int| 0 <= j < i ==> a@[j] == b@[j],
            decreases a@.len() - i,
        {
            if a[i] != b[i] {
                assert(a@[i as int] != b@[i as int]);
                return false;
            }
            i += 1;
        }
        assert(a@ =~= b@);
        true
    }

    fn duplicate(&self) -> (r: Self) {
        *self
    }
}

} // verus!
