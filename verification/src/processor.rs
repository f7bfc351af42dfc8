//! A number that processors change in place: one adds to it, another
//! multiplies it.

use vstd::prelude::*;

verus! {

/// The number that the processors work on.
#[derive(Debug)]
pub struct Data {
    pub value: i32,
}

impl Data {
    /// A `Data` that holds `value`.
    pub fn new(value: i32) -> (data: Self)
        ensures
            data.value == value,
    {
        Data { value }
    }

    /// Adds `delta` to the value. The sum has to fit.
    pub fn update(&mut self, delta: i32)
        requires
            i32::MIN <= old(self).value + delta <= i32::MAX,
        ensures
            final(self).value == old(self).value + delta,
    {
        self.value = self.value + delta;
    }
}

/// A step that changes a `Data` in place.
pub trait Processor {
    /// Whether every number that `process` computes on `data` fits.
    spec fn applies(&self, data: Data) -> bool;

    /// The value that `process` leaves in `data`.
    spec fn outcome(&self, data: Data) -> int;

    /// Tells whether `process` can be called on `data`.
    fn accepts(&self, data: &Data) -> (ok: bool)
        ensures
            ok == self.applies(*data),
    ;

    /// Changes `data` in place.
    fn process(&self, data: &mut Data)
        requires
            self.applies(*old(data)),
        ensures
            final(data).value == self.outcome(*old(data)),
    ;
}

/// Adds a fixed amount.
pub struct Adder {
    pub amount: i32,
}

impl Processor for Adder {
    open spec fn applies(&self, data: Data) -> bool {
        i32::MIN <= data.value + self.amount <= i32::MAX
    }

    open spec fn outcome(&self, data: Data) -> int {
        data.value + self.amount
    }

    fn accepts(&self, data: &Data) -> (ok: bool) {
        data.value.checked_add(self.amount).is_some()
    }

    fn process(&self, data: &mut Data) {
        data.update(self.amount);
    }
}

/// Multiplies by a fixed factor, by adding the value `factor - 1` times
/// over: `factor - 1`, the product that is added and the result all have to
/// fit.
pub struct Multiplier {
    pub factor: i32,
}

impl Processor for Multiplier {
    open spec fn applies(&self, data: Data) -> bool {
        &&& i32::MIN <= self.factor - 1
        &&& i32::MIN <= data.value * (self.factor - 1) <= i32::MAX
        &&& i32::MIN <= data.value * self.factor <= i32::MAX
    }

    open spec fn outcome(&self, data: Data) -> int {
        data.value * self.factor
    }

    fn accepts(&self, data: &Data) -> (ok: bool) {
        proof {
            lemma_times_one_less(data.value as int, self.factor as int);
        }
        match self.factor.checked_sub(1) {
            Some(less) => match data.value.checked_mul(less) {
                Some(delta) => data.value.checked_add(delta).is_some(),
                None => false,
            },
            None => false,
        }
    }

    fn process(&self, data: &mut Data) {
        proof {
            lemma_times_one_less(data.value as int, self.factor as int);
        }
        data.update(data.value * (self.factor - 1));
    }
}

/// Adding `v` to `f - 1` times `v` gives `f` times `v`.
proof fn lemma_times_one_less(v: int, f: int)
    ensures
        v + v * (f - 1) == v * f,
{
    assert(v + v * (f - 1) == v * f) by (nonlinear_arith);
}

} // verus!
