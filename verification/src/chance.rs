//! Random decisions.
use rand::rngs::StdRng;
use rand::{Rng, SeedableRng};
use vstd::prelude::*;

verus! {

/// The generator that random decisions are drawn from.
#[verifier::external_type_specification]
#[verifier::external_body]
pub struct ExStdRng(StdRng);

/// How likely something is: `numerator` times out of `denominator`.
#[derive(Clone, Copy, PartialEq, Eq, Debug)]
pub struct Chance {
    pub numerator: u32,
    pub denominator: u32,
}

impl Chance {
    /// The chance is a probability.
    pub open spec fn valid(self) -> bool {
        0 < self.denominator && self.numerator <= self.denominator
    }

    pub open spec fn is_never(self) -> bool {
        self.numerator == 0
    }

    pub open spec fn is_always(self) -> bool {
        self.numerator == self.denominator
    }
}

/// The words that a generator will give out, by their order. They are a
/// function of its state: `rand::rngs::StdRng` is a stream cipher.
pub uninterp spec fn words_of(rng: StdRng) -> Map<int, u64>;

/// Whether a word makes a chance come true that is neither none nor all.
pub uninterp spec fn is_hit(word: u64, numerator: u32, denominator: u32) -> bool;

/// How the chance turns out on the `i`-th of the words. A chance of none in
/// any never comes true and a chance of all always does.
pub open spec fn roll_at(words: Map<int, u64>, i: int, chance: Chance) -> bool {
    if chance.is_always() {
        true
    } else if chance.is_never() {
        false
    } else {
        is_hit(words[i], chance.numerator, chance.denominator)
    }
}

/// The `n` rolls on the words that start at `from`.
pub open spec fn rolls_of(words: Map<int, u64>, from: int, n: int, chance: Chance) -> Seq<bool> {
    Seq::new(n as nat, |i: int| roll_at(words, from + i, chance))
}

/// How many words `n` rolls use up: none where the outcome is certain to be
/// true.
pub open spec fn words_used(n: int, chance: Chance) -> int {
    if chance.is_always() {
        0
    } else {
        n
    }
}

/// `rest` is what is left of the words without the first `n`.
pub open spec fn is_rest(rest: Map<int, u64>, words: Map<int, u64>, n: int) -> bool {
    forall|i: int| 0 <= i ==> #[trigger] rest[i] == words[i + n]
}

/// What is left of what is left.
pub proof fn lemma_rest_of_rest(
    words: Map<int, u64>,
    rest: Map<int, u64>,
    last: Map<int, u64>,
    m: int,
    n: int,
)
    requires
        is_rest(rest, words, m),
        is_rest(last, rest, n),
        0 <= n,
    ensures
        is_rest(last, words, m + n),
{
    assert forall|i: int| 0 <= i implies #[trigger] last[i] == words[i + (m + n)] by {
        assert(rest[i + n] == words[(i + n) + m]);
    }
}

/// The rolls on what is left are the later rolls on the words.
pub proof fn lemma_rolls_of_rest(
    words: Map<int, u64>,
    rest: Map<int, u64>,
    used: int,
    from: int,
    n: int,
    chance: Chance,
)
    requires
        is_rest(rest, words, used),
        0 <= from,
    ensures
        rolls_of(rest, from, n, chance) == rolls_of(words, used + from, n, chance),
{
    let (a, b) = (rolls_of(rest, from, n, chance), rolls_of(words, used + from, n, chance));
    assert forall|i: int| 0 <= i < n implies #[trigger] a[i] == b[i] by {
        assert(rest[from + i] == words[from + i + used]);
    }
    assert(a =~= b);
}

/// Draws from `rng` with `rand::Rng::random_ratio`. The generator is a
/// deterministic stream of words: unless the chance is all, the call takes the
/// next word and compares it with a threshold that depends on the chance
/// alone. The call panics for a denominator of zero or less than the
/// numerator.
#[verifier::external_body]
pub(crate) fn roll(rng: &mut StdRng, chance: Chance) -> (r: bool)
    requires
        chance.valid(),
    ensures
        chance.is_always() ==> r,
        chance.is_never() ==> !r,
        !chance.is_always() && !chance.is_never() ==> r == is_hit(
            words_of(*old(rng))[0],
            chance.numerator,
            chance.denominator,
        ),
        is_rest(words_of(*final(rng)), words_of(*old(rng)), words_used(1, chance)),
{
    rng.random_ratio(chance.numerator, chance.denominator)
}

/// Rolls `n` times, one after the other.
pub fn draw(rng: &mut StdRng, chance: Chance, n: usize) -> (r: Vec<bool>)
    requires
        chance.valid(),
    ensures
        r@ == rolls_of(words_of(*old(rng)), 0, n as int, chance),
        is_rest(words_of(*final(rng)), words_of(*old(rng)), words_used(n as int, chance)),
{
    let ghost words = words_of(*rng);
    let mut rolls: Vec<bool> = Vec::new();
    let mut i: usize = 0;
    while i < n
        invariant
            chance.valid(),
            words == words_of(*old(rng)),
            i <= n,
            rolls@ == rolls_of(words, 0, i as int, chance),
            is_rest(words_of(*rng), words, words_used(i as int, chance)),
        decreases n - i,
    {
        let ghost now = words_of(*rng);
        let r = roll(rng, chance);
        assert(now[0] == words[words_used(i as int, chance)]);
        assert forall|j: int| 0 <= j implies #[trigger] words_of(*rng)[j] == words[j + words_used(
            i + 1,
            chance,
        )] by {
            assert(words_of(*rng)[j] == now[j + words_used(1, chance)]);
        }
        rolls.push(r);
        assert(rolls@ =~= rolls_of(words, 0, i + 1, chance));
        i = i + 1;
    }
    rolls
}

/// Makes a generator with `rand::SeedableRng::from_rng`, seeded by the thread's
/// own generator `rand::rng`. Nothing is claimed of it, as its seed is random.
#[verifier::external_body]
pub(crate) fn fresh_rng() -> (r: StdRng) {
    StdRng::from_rng(&mut rand::rng())
}

/// The `i`-th of the rolls is decided by the `i`-th word, at the chance as it
/// was given: never where it is none, always where it is all.
pub proof fn law_rolls(words: Map<int, u64>, from: int, n: int, chance: Chance, i: int)
    requires
        0 <= i < n,
        0 < chance.denominator,
    ensures
        rolls_of(words, from, n, chance).len() == n,
        rolls_of(words, from, n, chance)[i] == roll_at(words, from + i, chance),
        chance.numerator == 0 ==> !roll_at(words, from + i, chance),
        chance.numerator == chance.denominator ==> roll_at(words, from + i, chance),
        0 < chance.numerator < chance.denominator ==> roll_at(words, from + i, chance) == is_hit(
            words[from + i],
            chance.numerator,
            chance.denominator,
        ),
{
}

/// Each roll takes one word, except where it is certain to come true, and the
/// words that are left follow those that were taken.
pub proof fn law_words_are_used_up(
    words: Map<int, u64>,
    rest: Map<int, u64>,
    n: int,
    chance: Chance,
    i: int,
)
    requires
        is_rest(rest, words, words_used(n, chance)),
        0 <= i,
    ensures
        chance.numerator != chance.denominator ==> rest[i] == words[n + i],
        chance.numerator == chance.denominator ==> rest[i] == words[i],
{
}

/// A chance is one where it is so many times out of at least as many, and not
/// out of none.
pub proof fn law_valid_chances(chance: Chance)
    ensures
        chance.valid() <==> 1 <= chance.denominator && chance.numerator <= chance.denominator,
{
}

} // verus!
