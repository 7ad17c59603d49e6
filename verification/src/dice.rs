use vstd::prelude::*;

verus! {

/// The random number generator of `rltk`, carried through as an opaque value.
#[verifier::external_type_specification]
#[verifier::external_body]
pub struct ExRandomNumberGenerator(rltk::RandomNumberGenerator);

/// `RandomNumberGenerator::new` seeds a generator from the system's entropy;
/// nothing is claimed of the generator it returns.
pub assume_specification[ rltk::RandomNumberGenerator::new ]() -> (rng: rltk::RandomNumberGenerator)
;

/// `RandomNumberGenerator::seeded` makes a generator from the given seed;
/// nothing is claimed of the generator it returns.
pub assume_specification[ rltk::RandomNumberGenerator::seeded ](seed: u64) -> (rng:
    rltk::RandomNumberGenerator)
;

/// `RandomNumberGenerator::roll_dice` sums `n` draws, each between one and
/// `die_type`: the sum of no dice is zero, and the sum of `n` dice lies
/// between `n` and `n * die_type`. A die without faces and a sum that does
/// not fit are left out.
pub assume_specification[ rltk::RandomNumberGenerator::roll_dice ](
    rng: &mut rltk::RandomNumberGenerator,
    n: i32,
    die_type: i32,
) -> (r: i32)
    requires
        n > 0 ==> 1 <= die_type < i32::MAX && n * die_type <= i32::MAX,
    ensures
        n <= 0 ==> r == 0,
        n > 0 ==> n <= r <= n * die_type,
;

/// `RandomNumberGenerator::range` at `i32`: draws a number that is at least
/// `min` and less than `max`. An empty range is left out.
#[verifier::external_body]
fn draw_in_range(rng: &mut rltk::RandomNumberGenerator, min: i32, max: i32) -> (r: i32)
    requires
        min < max,
    ensures
        min <= r < max,
{
    rng.range(min, max)
}

/// Whether the stream `f` starts with the stream `log`.
pub open spec fn extends(f: Seq<int>, log: Seq<int>) -> bool {
    log.len() <= f.len() && f.take(log.len() as int) == log
}

/// A stream that starts with a stream that starts with a third starts with
/// the third.
pub proof fn lemma_extends_trans(f: Seq<int>, mid: Seq<int>, log: Seq<int>)
    requires
        extends(f, mid),
        extends(mid, log),
    ensures
        extends(f, log),
        forall|i: int| 0 <= i < mid.len() ==> f[i] == mid[i],
{
    assert(f.take(log.len() as int) =~= mid.take(log.len() as int));
    assert forall|i: int| 0 <= i < mid.len() implies f[i] == mid[i] by {
        assert(f.take(mid.len() as int)[i] == f[i]);
    }
}

/// A source of dice rolls that remembers, for the proofs, every number it
/// has handed out.
pub struct Dice {
    rng: rltk::RandomNumberGenerator,
    drawn: Ghost<Seq<int>>,
}

impl Dice {
    /// The numbers handed out so far, oldest first.
    pub closed spec fn drawn(&self) -> Seq<int> {
        self.drawn@
    }

    /// Dice seeded from the system's entropy.
    pub fn new() -> (dice: Dice)
        ensures
            dice.drawn() == Seq::<int>::empty(),
    {
        Dice { rng: rltk::RandomNumberGenerator::new(), drawn: Ghost(Seq::empty()) }
    }

    /// Dice that replay the stream that belongs to `seed`.
    pub fn seeded(seed: u64) -> (dice: Dice)
        ensures
            dice.drawn() == Seq::<int>::empty(),
    {
        Dice { rng: rltk::RandomNumberGenerator::seeded(seed), drawn: Ghost(Seq::empty()) }
    }

    /// Rolls one die with `die_type` faces, numbered from one.
    pub fn roll(&mut self, die_type: i32) -> (r: i32)
        requires
            1 <= die_type < i32::MAX,
        ensures
            1 <= r <= die_type,
            final(self).drawn() == old(self).drawn().push(r as int),
    {
        let r = self.rng.roll_dice(1, die_type);
        proof {
            self.drawn@ = self.drawn@.push(r as int);
        }
        r
    }

    /// Draws a number that is at least `min` and less than `max`.
    pub fn range(&mut self, min: i32, max: i32) -> (r: i32)
        requires
            min < max,
        ensures
            min <= r < max,
            final(self).drawn() == old(self).drawn().push(r as int),
    {
        let r = draw_in_range(&mut self.rng, min, max);
        proof {
            self.drawn@ = self.drawn@.push(r as int);
        }
        r
    }
}

} // verus!
