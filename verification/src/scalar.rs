//! Elements of the BN254 scalar field, held as canonical integers.

use crate::limbs::{fr_modulus, fr_modulus_limbs, lemma_limbs_value_injective, limbs_lt, limbs_value};
use vstd::std_specs::cmp::PartialEqSpecImpl;
use vstd::prelude::*;

verus! {

/// An element of the BN254 scalar field: its canonical integer (below the
/// field order `r`) in four little-endian limbs.
#[derive(Clone, Copy, Debug)]
pub struct Fr {
    pub(crate) limbs: [u64; 4],
}

impl Fr {
    #[verifier::type_invariant]
    spec fn canonical(self) -> bool {
        limbs_value(self.limbs) < fr_modulus()
    }

    /// The canonical integer of the element.
    pub closed spec fn value(self) -> nat {
        limbs_value(self.limbs)
    }

    /// The element whose canonical integer the limbs hold, or `None` when
    /// they hold `r` or more.
    pub fn from_limbs(limbs: [u64; 4]) -> (res: Option<Fr>)
        ensures
            res is Some <==> limbs_value(limbs) < fr_modulus(),
            res matches Some(f) ==> f.value() == limbs_value(limbs),
    {
        let m = fr_modulus_limbs();
        if limbs_lt(&limbs, &m) {
            Some(Fr { limbs })
        } else {
            None
        }
    }

    /// The limbs of the canonical integer of the element.
    pub fn limbs(&self) -> (res: [u64; 4])
        ensures
            limbs_value(res) == self.value(),
            self.value() < fr_modulus(),
    {
        proof {
            use_type_invariant(self);
        }
        self.limbs
    }

    /// The zero element.
    pub fn zero() -> (res: Fr)
        ensures
            res.value() == 0,
    {
        Fr { limbs: [0, 0, 0, 0] }
    }
}

impl PartialEq for Fr {
    fn eq(&self, other: &Self) -> (res: bool) {
        let same = self.limbs[0] == other.limbs[0] && self.limbs[1] == other.limbs[1]
            && self.limbs[2] == other.limbs[2] && self.limbs[3] == other.limbs[3];
        proof {
            if self.value() == other.value() {
                lemma_limbs_value_injective(self.limbs, other.limbs);
            }
        }
        same
    }
}

impl PartialEqSpecImpl for Fr {
    open spec fn obeys_eq_spec() -> bool {
        true
    }

    open spec fn eq_spec(&self, other: &Self) -> bool {
        self.value() == other.value()
    }
}

impl Eq for Fr {}

impl View for Fr {
    type V = nat;

    open spec fn view(&self) -> nat {
        self.value()
    }
}

} // verus!
