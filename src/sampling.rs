use crate::canvas::Color;
use vstd::prelude::*;

verus! {

/// The channel sums of the samples taken for one pixel, and how many
/// there were.
pub struct SampleSum {
    count: u32,
    r: u64,
    g: u64,
    b: u64,
}

impl SampleSum {
    #[verifier::type_invariant]
    spec fn inv(&self) -> bool {
        &&& self.r <= 255 * self.count
        &&& self.g <= 255 * self.count
        &&& self.b <= 255 * self.count
    }

    pub closed spec fn count_spec(&self) -> nat {
        self.count as nat
    }

    /// The sums of the red, green and blue channels.
    pub closed spec fn sums(&self) -> (nat, nat, nat) {
        (self.r as nat, self.g as nat, self.b as nat)
    }

    pub fn new() -> (s: SampleSum)
        ensures
            s.count_spec() == 0,
            s.sums() == (0nat, 0nat, 0nat),
    {
        SampleSum { count: 0, r: 0, g: 0, b: 0 }
    }

    pub fn count(&self) -> (n: u32)
        ensures
            n == self.count_spec(),
    {
        self.count
    }

    /// Adds one sample.
    pub fn add(&mut self, c: Color)
        requires
            old(self).count_spec() < u32::MAX,
        ensures
            final(self).count_spec() == old(self).count_spec() + 1,
            final(self).sums().0 == old(self).sums().0 + c.r,
            final(self).sums().1 == old(self).sums().1 + c.g,
            final(self).sums().2 == old(self).sums().2 + c.b,
    {
        proof {
            use_type_invariant(&*self);
        }
        self.count = self.count + 1;
        self.r = self.r + c.r as u64;
        self.g = self.g + c.g as u64;
        self.b = self.b + c.b as u64;
    }

    /// The mean color of the samples, each channel rounded down.
    pub fn average(&self) -> (c: Color)
        requires
            self.count_spec() > 0,
        ensures
            c.r == self.sums().0 / self.count_spec(),
            c.g == self.sums().1 / self.count_spec(),
            c.b == self.sums().2 / self.count_spec(),
    {
        proof {
            use_type_invariant(self);
            lemma_mean_fits(self.r as nat, self.count as nat);
            lemma_mean_fits(self.g as nat, self.count as nat);
            lemma_mean_fits(self.b as nat, self.count as nat);
        }
        let n = self.count as u64;
        Color { r: (self.r / n) as u8, g: (self.g / n) as u8, b: (self.b / n) as u8 }
    }
}

/// The mean of `n` channel values is itself a channel value.
proof fn lemma_mean_fits(sum: nat, n: nat)
    requires
        n > 0,
        sum <= 255 * n,
    ensures
        sum / n <= 255,
{
    assert(sum / n <= 255) by (nonlinear_arith)
        requires
            n > 0,
            sum <= 255 * n,
    ;
}

} // verus!
