use vstd::prelude::*;

verus! {

/// Replaces a value by a smaller or larger one, reporting whether it did.
pub trait SetMinMax: Sized {
    /// The strict order the two methods compare by.
    spec fn less(a: Self, b: Self) -> bool;

    /// Sets `self` to `v` when `v` is smaller; returns whether it did.
    fn setmin(&mut self, v: Self) -> (r: bool)
        ensures
            r == Self::less(v, *old(self)),
            *final(self) == (if r { v } else { *old(self) }),
    ;

    /// Sets `self` to `v` when `v` is larger; returns whether it did.
    fn setmax(&mut self, v: Self) -> (r: bool)
        ensures
            r == Self::less(*old(self), v),
            *final(self) == (if r { v } else { *old(self) }),
    ;
}

impl SetMinMax for i64 {
    open spec fn less(a: i64, b: i64) -> bool {
        a < b
    }

    fn setmin(&mut self, v: i64) -> (r: bool) {
        if *self > v {
            *self = v;
            true
        } else {
            false
        }
    }

    fn setmax(&mut self, v: i64) -> (r: bool) {
        if *self < v {
            *self = v;
            true
        } else {
            false
        }
    }
}

impl SetMinMax for u64 {
    open spec fn less(a: u64, b: u64) -> bool {
        a < b
    }

    fn setmin(&mut self, v: u64) -> (r: bool) {
        if *self > v {
            *self = v;
            true
        } else {
            false
        }
    }

    fn setmax(&mut self, v: u64) -> (r: bool) {
        if *self < v {
            *self = v;
            true
        } else {
            false
        }
    }
}

impl SetMinMax for usize {
    open spec fn less(a: usize, b: usize) -> bool {
        a < b
    }

    fn setmin(&mut self, v: usize) -> (r: bool) {
        if *self > v {
            *self = v;
            true
        } else {
            false
        }
    }

    fn setmax(&mut self, v: usize) -> (r: bool) {
        if *self < v {
            *self = v;
            true
        } else {
            false
        }
    }
}

} // verus!
