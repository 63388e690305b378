use rand::RngExt;
use vstd::arithmetic::div_mod::lemma_mod_self_0;
use vstd::arithmetic::div_mod::lemma_small_mod;
use vstd::prelude::*;

verus! {

/// Mathematical state of an injected deterministic random source: a
/// non-empty sequence of raw values consumed cyclically, and a cursor.
pub ghost struct RndModel {
    pub values: Seq<u64>,
    pub pos: int,
}

/// One draw below `n` from a deterministic source: the value under the
/// cursor reduced modulo `n`, with the cursor advanced cyclically.
pub open spec fn draw_model(r: RndModel, n: int) -> (int, RndModel) {
    if r.values.len() == 0 || n <= 0 || !(0 <= r.pos < r.values.len()) {
        (0, r)
    } else {
        (
            (r.values[r.pos] as int) % n,
            RndModel { values: r.values, pos: (r.pos + 1) % (r.values.len() as int) },
        )
    }
}

/// Source of the random indices that drive carving: either the process
/// random generator, or an injected fixed sequence of values that is
/// consumed deterministically, cyclically, each value reduced modulo the
/// requested bound.
pub struct RandomSource {
    system: bool,
    values: Vec<u64>,
    next: usize,
}

impl RandomSource {
    pub closed spec fn wf(&self) -> bool {
        self.system || (self.values@.len() > 0 && self.next < self.values@.len())
    }

    /// Whether this source is an injected fixed sequence, so that its draws
    /// are a function of [`RandomSource::model`] alone.
    pub closed spec fn is_fixed(&self) -> bool {
        !self.system
    }

    /// The mathematical state of a fixed source.
    pub closed spec fn model(&self) -> RndModel {
        RndModel { values: self.values@, pos: self.next as int }
    }

    /// A source backed by the process random generator.
    pub fn system() -> (r: RandomSource)
        ensures
            r.wf(),
            !r.is_fixed(),
    {
        RandomSource { system: true, values: Vec::new(), next: 0 }
    }

    /// A deterministic source that cycles through the given values.
    pub fn fixed(values: Vec<u64>) -> (r: RandomSource)
        requires
            values@.len() > 0,
        ensures
            r.wf(),
            r.is_fixed(),
            r.model() == (RndModel { values: values@, pos: 0 }),
    {
        RandomSource { system: false, values, next: 0 }
    }

    /// An index below `n`: uniformly random for the system source, and for a
    /// fixed source exactly the draw that [`draw_model`] describes.
    pub fn draw(&mut self, n: usize) -> (r: usize)
        requires
            old(self).wf(),
            1 <= n,
        ensures
            final(self).wf(),
            r < n,
            final(self).is_fixed() == old(self).is_fixed(),
            old(self).is_fixed() ==> r as int == draw_model(old(self).model(), n as int).0
                && final(self).model() == draw_model(old(self).model(), n as int).1,
    {
        if self.system {
            sys_below(n)
        } else {
            let v = self.values[self.next];
            let r = (v % (n as u64)) as usize;
            let len = self.values.len();
            proof {
                if self.next + 1 == len {
                    lemma_mod_self_0(len as int);
                } else {
                    lemma_small_mod((self.next + 1) as nat, len as nat);
                }
            }
            if self.next + 1 == len {
                self.next = 0;
            } else {
                self.next = self.next + 1;
            }
            r
        }
    }
}

/// Relies on `rand::rng()` and `RngExt::random_range` over `0..n`: a
/// uniformly random value in that range. `random_range` panics only when
/// the range is empty, which the precondition rules out; `rand::rng()`
/// itself documents a panic if the operating system's random source fails
/// when the thread's generator is first seeded — an environmental failure,
/// like allocation failure, that no precondition can exclude.
#[verifier::external_body]
fn sys_below(n: usize) -> (r: usize)
    requires
        1 <= n,
    ensures
        r < n,
{
    rand::rng().random_range(0..n)
}

} // verus!
