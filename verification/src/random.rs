//! The random source that decides which unchanged files are verified in full.

use rand::rngs::ThreadRng;
use rand::Rng;
use vstd::prelude::*;

verus! {

/// Verification level at which every pair of equal size is compared in full.
pub const CHECK_ALWAYS: u32 = 16777216;

/// Verification level used unless another is set: about three in a hundred.
pub const CHECK_DEFAULT: u32 = 503317;

/// The thread-local generator of the `rand` crate. Nothing is known of its
/// state.
#[verifier::external_type_specification]
#[verifier::external_body]
pub struct ExThreadRng(rand::rngs::ThreadRng);

/// `rand::thread_rng` hands out the calling thread's generator, which it
/// seeds from the system when the thread first asks for it; it panics if the
/// system cannot give a seed. Nothing is claimed of the generator.
pub assume_specification[ rand::thread_rng ]() -> (rng: ThreadRng)
;

/// Draws the next 32 bits from the generator, by `Rng::gen::<u32>`. Nothing
/// is claimed of the value: the callers are verified for every outcome.
#[verifier::external_body]
pub(crate) fn next_draw(rng: &mut ThreadRng) -> (draw: u32) {
    rng.gen::<u32>()
}

/// Whether a draw selects a file for full verification at level `check`.
///
/// The upper 24 bits of the draw are a uniform number below `CHECK_ALWAYS`;
/// the file is selected when that number is below `check`. So `check` counts
/// the chances in `CHECK_ALWAYS`: zero never selects, `CHECK_ALWAYS` or more
/// always does. For a probability `p` the level is `p * CHECK_ALWAYS`,
/// rounded up: the chances that a uniform fraction of 24 bits is below `p`.
pub open spec fn selects(draw: u32, check: u32) -> bool {
    draw / 256 < check
}

/// Decides by [`selects`].
pub fn selected(draw: u32, check: u32) -> (r: bool)
    ensures
        r == selects(draw, check),
        check == 0 ==> !r,
        check >= CHECK_ALWAYS ==> r,
{
    draw / 256 < check
}

/// The two kinds of source.
enum Generator {
    /// The calling thread's generator.
    Thread(ThreadRng),
    /// Draws given in advance, with the number of those handed out.
    Scripted(Vec<u32>, usize),
}

/// Where a run takes its draws from: the calling thread's generator, or a
/// script of draws given in advance, which makes the run repeatable.
pub struct RandomSource {
    generator: Generator,
}

/// The draw at position `k` of a script. Beyond its end a script hands out
/// the largest number, which selects a file only if every draw does.
pub open spec fn scripted_draw(script: Seq<u32>, k: int) -> u32 {
    if 0 <= k < script.len() {
        script[k]
    } else {
        u32::MAX
    }
}

/// What is left of a script once `n` draws are handed out.
pub open spec fn script_after(script: Seq<u32>, n: int) -> Seq<u32> {
    if 0 <= n <= script.len() {
        script.skip(n)
    } else {
        Seq::empty()
    }
}

/// `draws` are what a source hands out one after the other, from the state
/// `before` on, and `after` is the state in which that leaves it. The state
/// of a source is what is left of its script; the thread's generator has
/// none, and may hand out anything.
pub open spec fn drawn(before: Option<Seq<u32>>, draws: Seq<u32>, after: Option<Seq<u32>>) -> bool {
    match before {
        None => after is None,
        Some(script) => {
            &&& forall|k: int| 0 <= k < draws.len() ==> #[trigger] draws[k] == scripted_draw(script, k)
            &&& after == Some(script_after(script, draws.len() as int))
        },
    }
}

/// A source that hands out nothing stays as it is.
pub proof fn lemma_drawn_nothing(state: Option<Seq<u32>>)
    ensures
        drawn(state, Seq::empty(), state),
{
    if let Some(script) = state {
        assert(script_after(script, 0) =~= script);
    }
}

/// One more draw extends what was drawn.
pub proof fn lemma_drawn_more(
    before: Option<Seq<u32>>,
    draws: Seq<u32>,
    between: Option<Seq<u32>>,
    d: u32,
    after: Option<Seq<u32>>,
)
    requires
        drawn(before, draws, between),
        drawn(between, seq![d], after),
    ensures
        drawn(before, draws.push(d), after),
{
    if let Some(script) = before {
        let n = draws.len() as int;
        let rest = script_after(script, n);
        assert(seq![d][0] == scripted_draw(rest, 0));
        assert(draws.push(d)[n] == scripted_draw(script, n));
        assert(script_after(rest, 1) =~= script_after(script, n + 1));
    }
}

impl RandomSource {
    /// What is left of the script, if the draws are scripted.
    pub closed spec fn script(&self) -> Option<Seq<u32>> {
        match self.generator {
            Generator::Thread(_) => None,
            Generator::Scripted(draws, next) => Some(script_after(draws@, next as int)),
        }
    }

    /// The calling thread's generator as a source.
    pub fn thread() -> (r: Self)
        ensures
            r.script() is None,
    {
        RandomSource { generator: Generator::Thread(rand::thread_rng()) }
    }

    /// A source that hands out `draws` in their order.
    pub fn scripted(draws: Vec<u32>) -> (r: Self)
        ensures
            r.script() == Some(draws@),
    {
        assert(script_after(draws@, 0) =~= draws@);
        RandomSource { generator: Generator::Scripted(draws, 0) }
    }

    /// Hands out the next draw.
    pub fn draw(&mut self) -> (d: u32)
        ensures
            drawn(old(self).script(), seq![d], final(self).script()),
    {
        match &mut self.generator {
            Generator::Thread(rng) => next_draw(rng),
            Generator::Scripted(draws, next) => {
                if *next < draws.len() {
                    let d = draws[*next];
                    assert(script_after(draws@, *next + 1) =~= script_after(
                        script_after(draws@, *next as int),
                        1,
                    ));
                    *next = *next + 1;
                    d
                } else {
                    assert(script_after(draws@, *next as int) =~= Seq::<u32>::empty());
                    u32::MAX
                }
            },
        }
    }
}

} // verus!
