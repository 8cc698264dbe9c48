//! Conversions from the native integer widths: each integer becomes the
//! exact value `n * 10^0`, normalized.  Every width goes through the one
//! shared body and the one spec function [`sf_from_int`].

use crate::arith::{lemma_pow10_increases, lemma_pow10_unfold};
use crate::num::sf_from_int;
use crate::sf::{Mantissa, StandardForm};
use vstd::prelude::*;

verus! {

impl StandardForm {
    /// The shared body of the width conversions.
    fn from_int_exec(n: i64) -> (r: StandardForm)
        ensures
            r == sf_from_int(n as int),
            r.wf(),
    {
        let v = StandardForm::new(Mantissa::from_int(n), 0);
        proof {
            crate::ops::lemma_pack_parts(v);
        }
        v
    }
}

impl From<u8> for StandardForm {
    fn from(v: u8) -> (r: StandardForm) {
        StandardForm::from_int_exec(v as i64)
    }
}

impl vstd::std_specs::convert::FromSpecImpl<u8> for StandardForm {
    open spec fn obeys_from_spec() -> bool {
        true
    }

    open spec fn from_spec(v: u8) -> StandardForm {
        sf_from_int(v as int)
    }
}

impl From<u16> for StandardForm {
    fn from(v: u16) -> (r: StandardForm) {
        StandardForm::from_int_exec(v as i64)
    }
}

impl vstd::std_specs::convert::FromSpecImpl<u16> for StandardForm {
    open spec fn obeys_from_spec() -> bool {
        true
    }

    open spec fn from_spec(v: u16) -> StandardForm {
        sf_from_int(v as int)
    }
}

impl From<u32> for StandardForm {
    fn from(v: u32) -> (r: StandardForm) {
        StandardForm::from_int_exec(v as i64)
    }
}

impl vstd::std_specs::convert::FromSpecImpl<u32> for StandardForm {
    open spec fn obeys_from_spec() -> bool {
        true
    }

    open spec fn from_spec(v: u32) -> StandardForm {
        sf_from_int(v as int)
    }
}

impl From<u64> for StandardForm {
    fn from(v: u64) -> (r: StandardForm) {
        proof {
            crate::arith::lemma_pow10_19();
            lemma_pow10_unfold(20);
            lemma_pow10_increases(20, 37);
        }
        let r = StandardForm::normalize_parts(v as i128, 0, 0);
        proof {
            crate::ops::lemma_pack_parts(r);
        }
        r
    }
}

impl vstd::std_specs::convert::FromSpecImpl<u64> for StandardForm {
    open spec fn obeys_from_spec() -> bool {
        true
    }

    open spec fn from_spec(v: u64) -> StandardForm {
        sf_from_int(v as int)
    }
}

impl From<i8> for StandardForm {
    fn from(v: i8) -> (r: StandardForm) {
        StandardForm::from_int_exec(v as i64)
    }
}

impl vstd::std_specs::convert::FromSpecImpl<i8> for StandardForm {
    open spec fn obeys_from_spec() -> bool {
        true
    }

    open spec fn from_spec(v: i8) -> StandardForm {
        sf_from_int(v as int)
    }
}

impl From<i16> for StandardForm {
    fn from(v: i16) -> (r: StandardForm) {
        StandardForm::from_int_exec(v as i64)
    }
}

impl vstd::std_specs::convert::FromSpecImpl<i16> for StandardForm {
    open spec fn obeys_from_spec() -> bool {
        true
    }

    open spec fn from_spec(v: i16) -> StandardForm {
        sf_from_int(v as int)
    }
}

impl From<i32> for StandardForm {
    fn from(v: i32) -> (r: StandardForm) {
        StandardForm::from_int_exec(v as i64)
    }
}

impl vstd::std_specs::convert::FromSpecImpl<i32> for StandardForm {
    open spec fn obeys_from_spec() -> bool {
        true
    }

    open spec fn from_spec(v: i32) -> StandardForm {
        sf_from_int(v as int)
    }
}

impl From<i64> for StandardForm {
    fn from(v: i64) -> (r: StandardForm) {
        StandardForm::from_int_exec(v)
    }
}

impl vstd::std_specs::convert::FromSpecImpl<i64> for StandardForm {
    open spec fn obeys_from_spec() -> bool {
        true
    }

    open spec fn from_spec(v: i64) -> StandardForm {
        sf_from_int(v as int)
    }
}

} // verus!
