use vstd::prelude::*;

verus! {

/// The whole square root of an unsigned integer.
pub open spec fn is_floor_root(x: int, r: int) -> bool {
    0 <= r && r * r <= x < (r + 1) * (r + 1)
}

/// Taking a square root in the number's own type.
pub trait Rootable<T> {
    /// `r` is the square root of `self` as this type takes it.
    spec fn is_root_of(&self, r: T) -> bool;

    fn sqrt(&self) -> (r: T)
        ensures
            self.is_root_of(r),
    ;
}

/// The largest `r` with `r * r <= x`.
pub fn floor_sqrt(x: u64) -> (r: u64)
    ensures
        is_floor_root(x as int, r as int),
        r < 0x1_0000_0000,
{
    let mut lo: u64 = 0;
    let mut hi: u64 = 0x1_0000_0000;
    proof {
        assert(0x1_0000_0000 * 0x1_0000_0000 > 0xffff_ffff_ffff_ffffint) by (nonlinear_arith);
    }
    while hi - lo > 1
        invariant
            lo < hi <= 0x1_0000_0000,
            (lo as int) * (lo as int) <= x as int,
            (x as int) < (hi as int) * (hi as int),
        decreases hi - lo,
    {
        let mid: u64 = lo + (hi - lo) / 2;
        proof {
            assert((mid as int) * (mid as int) < 0x1_0000_0000 * 0x1_0000_0000) by (nonlinear_arith)
                requires
                    mid < 0x1_0000_0000,
            ;
        }
        let sq: u128 = (mid as u128) * (mid as u128);
        if sq <= x as u128 {
            lo = mid;
        } else {
            hi = mid;
        }
    }
    proof {
        assert(hi == lo + 1);
    }
    lo
}

impl Rootable<u64> for u64 {
    open spec fn is_root_of(&self, r: u64) -> bool {
        is_floor_root(*self as int, r as int)
    }

    fn sqrt(&self) -> (r: u64) {
        floor_sqrt(*self)
    }
}

impl Rootable<u32> for u32 {
    open spec fn is_root_of(&self, r: u32) -> bool {
        is_floor_root(*self as int, r as int)
    }

    fn sqrt(&self) -> (r: u32) {
        let r = floor_sqrt(*self as u64);
        proof {
            if r >= 0x1_0000 {
                assert((r as int) * (r as int) >= 0x1_0000 * 0x1_0000) by (nonlinear_arith)
                    requires
                        r >= 0x1_0000,
                ;
            }
        }
        r as u32
    }
}

/// Negative numbers have no square root; theirs is taken as 0.
impl Rootable<i64> for i64 {
    open spec fn is_root_of(&self, r: i64) -> bool {
        if *self < 0 {
            r == 0
        } else {
            is_floor_root(*self as int, r as int)
        }
    }

    fn sqrt(&self) -> (r: i64) {
        if *self < 0 {
            0
        } else {
            floor_sqrt(*self as u64) as i64
        }
    }
}

/// Negative numbers have no square root; theirs is taken as 0.
impl Rootable<i32> for i32 {
    open spec fn is_root_of(&self, r: i32) -> bool {
        if *self < 0 {
            r == 0
        } else {
            is_floor_root(*self as int, r as int)
        }
    }

    fn sqrt(&self) -> (r: i32) {
        if *self < 0 {
            0
        } else {
            let r = floor_sqrt(*self as u64);
            proof {
                if r >= 0x1_0000 {
                    assert((r as int) * (r as int) >= 0x1_0000 * 0x1_0000) by (nonlinear_arith)
                        requires
                            r >= 0x1_0000,
                    ;
                }
            }
            r as i32
        }
    }
}

} // verus!
