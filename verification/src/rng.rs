//! A small linear-congruential pseudo random number generator, used
//! where an exercise wants cheap, reproducible randomness.

use vstd::prelude::*;

verus! {

/// The multiplier of the congruential step.
pub open spec fn rand_mul() -> int {
    56394237
}

/// The increment of the congruential step.
pub open spec fn rand_inc() -> int {
    346423491
}

/// The modulus of the congruential step.
pub open spec fn rand_modulo() -> int {
    2325454456
}

/// One step of the generator.
pub open spec fn rand_step(curr: int) -> int {
    (curr * rand_mul() + rand_inc()) % rand_modulo()
}

/// A pseudo random number generator with fixed multiplier, increment
/// and modulus.
#[derive(Debug)]
pub struct RandGen {
    curr: usize,
    mul: usize,
    inc: usize,
    modulo: usize,
}

impl RandGen {
    /// The generator's constants are in place and its state is reduced.
    pub closed spec fn wf(&self) -> bool {
        self.mul == rand_mul() && self.inc == rand_inc() && self.modulo == rand_modulo()
            && self.curr < rand_modulo()
    }

    /// The current state of the generator.
    pub closed spec fn state(&self) -> int {
        self.curr as int
    }

    /// A generator seeded with `curr` (reduced by the modulus, which
    /// leaves the output sequence unchanged).
    pub fn new(curr: usize) -> (r: RandGen)
        ensures
            r.wf(),
            r.state() == curr as int % rand_modulo(),
    {
        RandGen { curr: curr % 2325454456, mul: 56394237, inc: 346423491, modulo: 2325454456 }
    }

    /// Advances the generator and returns a value below `max`.
    pub fn next(&mut self, max: usize) -> (r: usize)
        requires
            old(self).wf(),
            max > 0,
        ensures
            final(self).wf(),
            final(self).state() == rand_step(old(self).state()),
            r == final(self).state() % (max as int),
            r < max,
    {
        proof {
            let c = self.curr;
            assert(c as int * 56394237 <= 2325454456 * 56394237)
                by (nonlinear_arith)
                requires
                    c < 2325454456,
            ;
        }
        let step: u64 = ((self.curr as u64) * (self.mul as u64) + (self.inc as u64))
            % (self.modulo as u64);
        let newc: usize = (step as usize) % self.modulo;
        proof {
            assert(step as int == rand_step(old(self).state()));
            assert(step < 2325454456);
            assert(newc as int == step as int);
        }
        self.curr = newc;
        self.curr % max
    }
}

} // verus!
