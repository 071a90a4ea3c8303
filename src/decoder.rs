//! The decoder: pin levels packed into a code, the code looked up in the
//! position table, and the decisions taken while the eight pins are sampled.
use vstd::arithmetic::power2::*;
use vstd::prelude::*;

use crate::table::{lookup, position_of};

verus! {

/// The code of a pin snapshot: the levels read as a binary number, first
/// level most significant (`acc = acc * 2 + bit`, left to right).
pub open spec fn pack(levels: Seq<bool>) -> nat
    decreases levels.len(),
{
    if levels.len() == 0 {
        0
    } else {
        2 * pack(levels.drop_last()) + if levels.last() {
            1nat
        } else {
            0nat
        }
    }
}

/// A snapshot of `n` levels packs into a number below `2^n`.
pub proof fn lemma_pack_bound(levels: Seq<bool>)
    ensures
        pack(levels) < pow2(levels.len() as nat),
    decreases levels.len(),
{
    if levels.len() > 0 {
        lemma_pack_bound(levels.drop_last());
        lemma_pow2_unfold(levels.len() as nat);
    } else {
        lemma2_to64();
    }
}

/// Packs an 8-level snapshot into its code, `states[0]` being the most
/// significant bit and `states[7]` the least.
pub fn convert_pin_states(states: [bool; 8]) -> (r: u8)
    ensures
        r as nat == pack(states@),
{
    let mut acc: u8 = 0;
    let mut i: usize = 0;
    while i < 8
        invariant
            i <= 8,
            acc as nat == pack(states@.take(i as int)),
        decreases 8 - i,
    {
        proof {
            assert(states@.take(i + 1).drop_last() =~= states@.take(i as int));
            lemma_pack_bound(states@.take(i + 1));
            if i + 1 < 8 {
                lemma_pow2_strictly_increases((i + 1) as nat, 8);
            }
            lemma2_to64();
        }
        let bit: u8 = if states[i] {
            1
        } else {
            0
        };
        acc = acc * 2 + bit;
        i = i + 1;
    }
    assert(states@.take(8) =~= states@);
    acc
}

/// The position that a snapshot stands for, or `None` for a code that the
/// encoder cannot produce (a reading taken between two detents).
pub fn decode(states: [bool; 8]) -> (r: Option<u8>)
    ensures
        pack(states@) < 256,
        r == position_of(pack(states@) as u8),
{
    let code = convert_pin_states(states);
    lookup(code)
}

/// Number of the pin that gives the level at `index` of a snapshot: pin 8
/// is the most significant, pin 1 the least.
pub open spec fn pin_of_level(index: int) -> int {
    8 - index
}

/// An encoder wired to eight input pins, numbered 1 to 8 as on the device.
pub struct Ace128<GPIO> {
    p1: GPIO,
    p2: GPIO,
    p3: GPIO,
    p4: GPIO,
    p5: GPIO,
    p6: GPIO,
    p7: GPIO,
    p8: GPIO,
}

impl<GPIO> Ace128<GPIO> {
    /// The pins, pin 1 first.
    pub closed spec fn pins(&self) -> Seq<GPIO> {
        seq![self.p1, self.p2, self.p3, self.p4, self.p5, self.p6, self.p7, self.p8]
    }

    /// Takes ownership of the eight pins, pin 1 first.
    pub fn new(p1: GPIO, p2: GPIO, p3: GPIO, p4: GPIO, p5: GPIO, p6: GPIO, p7: GPIO, p8: GPIO) -> (r:
        Self)
        ensures
            r.pins() == seq![p1, p2, p3, p4, p5, p6, p7, p8],
    {
        Ace128 { p1, p2, p3, p4, p5, p6, p7, p8 }
    }

    /// Pin number `n`, for `n` in 1..=8.
    pub fn pin(&self, n: u8) -> (r: &GPIO)
        requires
            1 <= n <= 8,
        ensures
            *r == self.pins()[n - 1],
    {
        if n == 1 {
            &self.p1
        } else if n == 2 {
            &self.p2
        } else if n == 3 {
            &self.p3
        } else if n == 4 {
            &self.p4
        } else if n == 5 {
            &self.p5
        } else if n == 6 {
            &self.p6
        } else if n == 7 {
            &self.p7
        } else {
            &self.p8
        }
    }
}

/// What a read does next.
#[derive(Debug, PartialEq, Eq)]
pub enum Step<E> {
    /// Read the level of the pin with this number and record the outcome.
    Sample(u8),
    /// All eight levels are in: the position, or `None` for an unreachable code.
    Decoded(Option<u8>),
    /// A pin read failed with this error: the read ends here.
    Failed(E),
}

/// The step that follows once `levels` (most significant first) are in.
pub open spec fn step_after<E>(levels: Seq<bool>) -> Step<E> {
    if levels.len() < 8 {
        Step::Sample(pin_of_level(levels.len() as int) as u8)
    } else {
        Step::Decoded(position_of(pack(levels) as u8))
    }
}

/// The levels and the step after the outcome of one pin read: a level is
/// appended; an error ends the read with that error, unchanged.
pub open spec fn next_step<E>(levels: Seq<bool>, reading: Result<bool, E>) -> (Seq<bool>, Step<E>) {
    match reading {
        Ok(level) => (levels.push(level), step_after(levels.push(level))),
        Err(e) => (levels, Step::Failed(e)),
    }
}

/// How a read that starts from `levels` ends when its pin reads have the
/// outcomes `readings`, in order: the number of pins read, and the last step.
pub open spec fn run<E>(levels: Seq<bool>, readings: Seq<Result<bool, E>>) -> (nat, Step<E>)
    decreases readings.len(),
{
    if levels.len() >= 8 || readings.len() == 0 {
        (0, step_after(levels))
    } else {
        let (next_levels, step) = next_step(levels, readings[0]);
        if step is Failed {
            (1, step)
        } else {
            let (n, last) = run(next_levels, readings.drop_first());
            (n + 1, last)
        }
    }
}

/// The levels read so far during one read of the encoder.
pub struct PinSampler {
    levels: Vec<bool>,
}

impl View for PinSampler {
    type V = Seq<bool>;

    closed spec fn view(&self) -> Seq<bool> {
        self.levels@
    }
}

impl PinSampler {
    #[verifier::type_invariant]
    spec fn holds_at_most_eight(&self) -> bool {
        self.levels.len() <= 8
    }

    /// A sampler with no level read yet.
    pub fn new() -> (r: Self)
        ensures
            r@ == Seq::<bool>::empty(),
    {
        PinSampler { levels: Vec::new() }
    }

    /// The step to take now: the next pin to read, or the decoded position
    /// once all eight levels are in.
    pub fn next<E>(&self) -> (r: Step<E>)
        ensures
            r == step_after::<E>(self@),
    {
        proof {
            use_type_invariant(self);
        }
        if self.levels.len() < 8 {
            Step::Sample((8 - self.levels.len()) as u8)
        } else {
            let l = &self.levels;
            let states: [bool; 8] = [l[0], l[1], l[2], l[3], l[4], l[5], l[6], l[7]];
            assert(states@ =~= self@);
            Step::Decoded(decode(states))
        }
    }

    /// Records the outcome of reading the pin that the last step named. An
    /// error ends the read at once: no further pin is named and no lookup is
    /// made. Once all eight levels are in, an outcome changes nothing.
    pub fn record<E>(&mut self, reading: Result<bool, E>) -> (r: Step<E>)
        ensures
            old(self)@.len() < 8 ==> (final(self)@, r) == next_step(old(self)@, reading),
            old(self)@.len() >= 8 ==> final(self)@ == old(self)@ && r == step_after::<E>(
                old(self)@,
            ),
    {
        proof {
            use_type_invariant(&*self);
        }
        if self.levels.len() >= 8 {
            return self.next();
        }
        match reading {
            Ok(level) => {
                let mut levels = Vec::new();
                std::mem::swap(&mut self.levels, &mut levels);
                levels.push(level);
                self.levels = levels;
                self.next()
            },
            Err(e) => Step::Failed(e),
        }
    }
}

/// A pin read that fails ends the read with its error: when the reads before
/// it succeeded, exactly the pins up to the failing one are read, the rest
/// are not, and the read returns that error without any lookup.
pub proof fn lemma_failed_read_stops<E>(readings: Seq<Result<bool, E>>, k: int)
    requires
        0 <= k < 8,
        k < readings.len(),
        readings[k] is Err,
        forall|i: int| 0 <= i < k ==> #[trigger] readings[i] is Ok,
    ensures
        run(Seq::empty(), readings) == ((k + 1) as nat, Step::<E>::Failed(readings[k]->Err_0)),
{
    lemma_failed_read_stops_from(Seq::empty(), readings, k);
}

proof fn lemma_failed_read_stops_from<E>(
    levels: Seq<bool>,
    readings: Seq<Result<bool, E>>,
    k: int,
)
    requires
        0 <= k,
        levels.len() + k < 8,
        k < readings.len(),
        readings[k] is Err,
        forall|i: int| 0 <= i < k ==> #[trigger] readings[i] is Ok,
    ensures
        run(levels, readings) == ((k + 1) as nat, Step::<E>::Failed(readings[k]->Err_0)),
    decreases k,
{
    if k > 0 {
        let rest = readings.drop_first();
        assert forall|i: int| 0 <= i < k - 1 implies #[trigger] rest[i] is Ok by {
            assert(rest[i] == readings[i + 1]);
        }
        assert(readings[0] is Ok);
        lemma_failed_read_stops_from(levels.push(readings[0]->Ok_0), rest, k - 1);
    }
}

/// A read whose eight pin reads all succeed reads each pin once and returns
/// the table's position for the levels read, and nothing else: two reads of
/// unchanged pins give the same result.
pub proof fn lemma_read_depends_on_levels_only<E>(states: Seq<bool>, readings: Seq<Result<bool, E>>)
    requires
        states.len() == 8,
        readings.len() >= 8,
        forall|i: int| 0 <= i < 8 ==> #[trigger] readings[i] == Ok::<bool, E>(states[i]),
    ensures
        run(Seq::empty(), readings) == (8nat, Step::<E>::Decoded(position_of(pack(states) as u8))),
{
    lemma_read_depends_on_levels_from(states, readings, 0);
    assert(states.take(0) =~= Seq::empty());
}

proof fn lemma_read_depends_on_levels_from<E>(
    states: Seq<bool>,
    readings: Seq<Result<bool, E>>,
    i: int,
)
    requires
        states.len() == 8,
        0 <= i <= 8,
        readings.len() >= 8 - i,
        forall|j: int| 0 <= j < 8 - i ==> #[trigger] readings[j] == Ok::<bool, E>(states[i + j]),
    ensures
        run(states.take(i), readings) == ((8 - i) as nat, Step::<E>::Decoded(
            position_of(pack(states) as u8),
        )),
    decreases 8 - i,
{
    if i == 8 {
        assert(states.take(8) =~= states);
    } else {
        let rest = readings.drop_first();
        assert forall|j: int| 0 <= j < 8 - (i + 1) implies #[trigger] rest[j] == Ok::<bool, E>(
            states[i + 1 + j],
        ) by {
            assert(rest[j] == readings[j + 1]);
        }
        assert(readings[0] == Ok::<bool, E>(states[i]));
        assert(states.take(i).push(states[i]) =~= states.take(i + 1));
        lemma_read_depends_on_levels_from(states, rest, i + 1);
    }
}

} // verus!
