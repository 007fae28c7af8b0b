//! A random number generator shared by the games, built on `rand`'s `StdRng`.
use rand::rngs::StdRng;
use rand::Rng;
use rand::SeedableRng;
use vstd::prelude::*;

verus! {

/// `rand::rngs::StdRng`, the generator that every `RandomNumberGenerator` owns.
#[verifier::external_type_specification]
#[verifier::external_body]
pub struct ExStdRng(StdRng);

/// Calls `StdRng::from_rng` on `rand::rng()`, the thread-local generator that
/// the operating system seeds. Nothing is claimed of the state it returns.
#[verifier::external_body]
fn entropy_rng() -> StdRng {
    StdRng::from_rng(&mut rand::rng())
}

/// The state that `SeedableRng::seed_from_u64` gives a `StdRng` for `seed`.
pub uninterp spec fn seeded_state(seed: u64) -> StdRng;

/// Calls `SeedableRng::seed_from_u64`, whose state depends on `seed` alone:
/// it is `seeded_state(seed)`.
#[verifier::external_body]
fn rng_from_seed(seed: u64) -> (r: StdRng)
    ensures
        r == seeded_state(seed),
{
    StdRng::seed_from_u64(seed)
}

/// The `i32` that `Rng::random_range` draws from `low..high` on a `StdRng` in
/// state `rng`, and the state that it leaves.
pub uninterp spec fn range_i32_draw(rng: StdRng, low: i32, high: i32) -> (i32, StdRng);

/// Calls `Rng::random_range` with `low..high` on `i32`. rand documents that it
/// panics on an empty range and otherwise returns a value of the range.
#[verifier::external_body]
fn random_range_i32(rng: &mut StdRng, low: i32, high: i32) -> (r: i32)
    requires
        low < high,
    ensures
        low <= r < high,
        r == range_i32_draw(*old(rng), low, high).0,
        *final(rng) == range_i32_draw(*old(rng), low, high).1,
{
    rng.random_range(low..high)
}

/// The `u32` that `Rng::random_range` draws from `low..high` on a `StdRng` in
/// state `rng`, and the state that it leaves.
pub uninterp spec fn range_u32_draw(rng: StdRng, low: u32, high: u32) -> (u32, StdRng);

/// Calls `Rng::random_range` with `low..high` on `u32`; as for `i32`.
#[verifier::external_body]
fn random_range_u32(rng: &mut StdRng, low: u32, high: u32) -> (r: u32)
    requires
        low < high,
    ensures
        low <= r < high,
        r == range_u32_draw(*old(rng), low, high).0,
        *final(rng) == range_u32_draw(*old(rng), low, high).1,
{
    rng.random_range(low..high)
}

/// The `u64` that `Rng::random_range` draws from `low..high` on a `StdRng` in
/// state `rng`, and the state that it leaves.
pub uninterp spec fn range_u64_draw(rng: StdRng, low: u64, high: u64) -> (u64, StdRng);

/// Calls `Rng::random_range` with `low..high` on `u64`; as for `i32`.
#[verifier::external_body]
fn random_range_u64(rng: &mut StdRng, low: u64, high: u64) -> (r: u64)
    requires
        low < high,
    ensures
        low <= r < high,
        r == range_u64_draw(*old(rng), low, high).0,
        *final(rng) == range_u64_draw(*old(rng), low, high).1,
{
    rng.random_range(low..high)
}

/// The `usize` that `Rng::random_range` draws from `low..high` on a `StdRng` in
/// state `rng`, and the state that it leaves.
pub uninterp spec fn range_usize_draw(rng: StdRng, low: usize, high: usize) -> (usize, StdRng);

/// Calls `Rng::random_range` with `low..high` on `usize`; as for `i32`.
#[verifier::external_body]
fn random_range_usize(rng: &mut StdRng, low: usize, high: usize) -> (r: usize)
    requires
        low < high,
    ensures
        low <= r < high,
        r == range_usize_draw(*old(rng), low, high).0,
        *final(rng) == range_usize_draw(*old(rng), low, high).1,
{
    rng.random_range(low..high)
}

/// The `i32` that `Rng::random::<i32>()` draws on a `StdRng` in state `rng`,
/// and the state that it leaves.
pub uninterp spec fn any_i32_draw(rng: StdRng) -> (i32, StdRng);

/// Calls `Rng::random::<i32>()`: any `i32` may come back, as a function of
/// the state alone (`any_i32_draw`).
#[verifier::external_body]
fn random_i32(rng: &mut StdRng) -> (r: i32)
    ensures
        r == any_i32_draw(*old(rng)).0,
        *final(rng) == any_i32_draw(*old(rng)).1,
{
    rng.random::<i32>()
}

/// The `u32` that `Rng::random::<u32>()` draws on a `StdRng` in state `rng`,
/// and the state that it leaves.
pub uninterp spec fn any_u32_draw(rng: StdRng) -> (u32, StdRng);

/// Calls `Rng::random::<u32>()`: any `u32` may come back, as a function of
/// the state alone (`any_u32_draw`).
#[verifier::external_body]
fn random_u32(rng: &mut StdRng) -> (r: u32)
    ensures
        r == any_u32_draw(*old(rng)).0,
        *final(rng) == any_u32_draw(*old(rng)).1,
{
    rng.random::<u32>()
}

/// The `u64` that `Rng::random::<u64>()` draws on a `StdRng` in state `rng`,
/// and the state that it leaves.
pub uninterp spec fn any_u64_draw(rng: StdRng) -> (u64, StdRng);

/// Calls `Rng::random::<u64>()`: any `u64` may come back, as a function of
/// the state alone (`any_u64_draw`).
#[verifier::external_body]
fn random_u64(rng: &mut StdRng) -> (r: u64)
    ensures
        r == any_u64_draw(*old(rng)).0,
        *final(rng) == any_u64_draw(*old(rng)).1,
{
    rng.random::<u64>()
}

/// Integer types that `RandomNumberGenerator` can draw.
pub trait UniformInt: Sized {
    /// The value as a mathematical integer.
    spec fn as_int(&self) -> int;

    /// What `sample_range` draws from `low..high` in `state`, and the state
    /// that it leaves.
    spec fn range_draw(state: StdRng, low: Self, high: Self) -> (Self, StdRng);

    /// Draws a value of `low..high`.
    fn sample_range(rng: &mut StdRng, low: Self, high: Self) -> (r: Self)
        requires
            low.as_int() < high.as_int(),
        ensures
            low.as_int() <= r.as_int() < high.as_int(),
            r == Self::range_draw(*old(rng), low, high).0,
            *final(rng) == Self::range_draw(*old(rng), low, high).1,
    ;
}

/// Integer types that `RandomNumberGenerator::next` can draw over their whole range.
pub trait UniformAny: Sized {
    /// What `sample_any` draws in `state`, and the state that it leaves.
    spec fn any_draw(state: StdRng) -> (Self, StdRng);

    /// Draws any value of the type.
    fn sample_any(rng: &mut StdRng) -> (r: Self)
        ensures
            r == Self::any_draw(*old(rng)).0,
            *final(rng) == Self::any_draw(*old(rng)).1,
    ;
}

impl UniformInt for i32 {
    open spec fn as_int(&self) -> int {
        *self as int
    }

    open spec fn range_draw(state: StdRng, low: i32, high: i32) -> (i32, StdRng) {
        range_i32_draw(state, low, high)
    }

    fn sample_range(rng: &mut StdRng, low: i32, high: i32) -> (r: i32) {
        random_range_i32(rng, low, high)
    }
}

impl UniformInt for u32 {
    open spec fn as_int(&self) -> int {
        *self as int
    }

    open spec fn range_draw(state: StdRng, low: u32, high: u32) -> (u32, StdRng) {
        range_u32_draw(state, low, high)
    }

    fn sample_range(rng: &mut StdRng, low: u32, high: u32) -> (r: u32) {
        random_range_u32(rng, low, high)
    }
}

impl UniformInt for u64 {
    open spec fn as_int(&self) -> int {
        *self as int
    }

    open spec fn range_draw(state: StdRng, low: u64, high: u64) -> (u64, StdRng) {
        range_u64_draw(state, low, high)
    }

    fn sample_range(rng: &mut StdRng, low: u64, high: u64) -> (r: u64) {
        random_range_u64(rng, low, high)
    }
}

impl UniformInt for usize {
    open spec fn as_int(&self) -> int {
        *self as int
    }

    open spec fn range_draw(state: StdRng, low: usize, high: usize) -> (usize, StdRng) {
        range_usize_draw(state, low, high)
    }

    fn sample_range(rng: &mut StdRng, low: usize, high: usize) -> (r: usize) {
        random_range_usize(rng, low, high)
    }
}

impl UniformAny for i32 {
    open spec fn any_draw(state: StdRng) -> (i32, StdRng) {
        any_i32_draw(state)
    }

    fn sample_any(rng: &mut StdRng) -> i32 {
        random_i32(rng)
    }
}

impl UniformAny for u32 {
    open spec fn any_draw(state: StdRng) -> (u32, StdRng) {
        any_u32_draw(state)
    }

    fn sample_any(rng: &mut StdRng) -> u32 {
        random_u32(rng)
    }
}

impl UniformAny for u64 {
    open spec fn any_draw(state: StdRng) -> (u64, StdRng) {
        any_u64_draw(state)
    }

    fn sample_any(rng: &mut StdRng) -> u64 {
        random_u64(rng)
    }
}

/// A source of random numbers: either seeded from the operating system's
/// entropy, or from a fixed seed for reproducible sequences.
pub struct RandomNumberGenerator {
    rng: StdRng,
}

impl RandomNumberGenerator {
    /// The state of the generator.
    pub closed spec fn state(&self) -> StdRng {
        self.rng
    }

    /// A generator seeded from the operating system's entropy.
    pub fn new() -> Self {
        RandomNumberGenerator { rng: entropy_rng() }
    }

    /// A generator seeded with `seed`: its state depends on `seed` alone, so
    /// that two generators seeded alike draw the same values for the same
    /// sequence of calls (see `same_state_same_draws`).
    pub fn seeded(seed: u64) -> (r: Self)
        ensures
            r.state() == seeded_state(seed),
    {
        RandomNumberGenerator { rng: rng_from_seed(seed) }
    }

    /// Draws a value of the half-open range `range`, which must not be empty.
    pub fn range<T: UniformInt>(&mut self, range: std::ops::Range<T>) -> (r: T)
        requires
            range.start.as_int() < range.end.as_int(),
        ensures
            range.start.as_int() <= r.as_int() < range.end.as_int(),
            r == T::range_draw(old(self).state(), range.start, range.end).0,
            final(self).state() == T::range_draw(old(self).state(), range.start, range.end).1,
    {
        let std::ops::Range { start, end } = range;
        T::sample_range(&mut self.rng, start, end)
    }

    /// Draws any value of the type `T`.
    pub fn next<T: UniformAny>(&mut self) -> (r: T)
        ensures
            r == T::any_draw(old(self).state()).0,
            final(self).state() == T::any_draw(old(self).state()).1,
    {
        T::sample_any(&mut self.rng)
    }
}

/// Reproducibility: generators in the same state (such as two seeded alike,
/// see `seeded`) draw the same value from the same range and are left in the
/// same state, so the same sequence of calls gives the same values.
pub proof fn same_state_same_draws<T: UniformInt>(
    a: RandomNumberGenerator,
    b: RandomNumberGenerator,
    low: T,
    high: T,
)
    requires
        a.state() == b.state(),
    ensures
        T::range_draw(a.state(), low, high) == T::range_draw(b.state(), low, high),
{
}

impl Default for RandomNumberGenerator {
    fn default() -> Self {
        Self::new()
    }
}

} // verus!
