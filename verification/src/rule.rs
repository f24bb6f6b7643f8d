//! Life-like rules in B/S notation.
use vstd::prelude::*;

use vstd::string::StringExecFns;

use crate::text::{chars_of, trim_range};

verus! {

/// What a Life-like rule says: the neighbor counts on which a dead cell is
/// born and those on which a live cell survives.
#[verifier::ext_equal]
pub struct RuleView {
    pub birth: Set<int>,
    pub survival: Set<int>,
}

impl RuleView {
    /// Next state of a cell with the given number of live neighbors.
    pub open spec fn next(self, alive: bool, neighbors: int) -> bool {
        if alive {
            self.survival.contains(neighbors)
        } else {
            self.birth.contains(neighbors)
        }
    }

    /// The counts of the rule are numbers of neighbors that a cell can have.
    pub open spec fn valid(self) -> bool {
        &&& forall|n: int| #[trigger] self.birth.contains(n) ==> 0 <= n <= 8
        &&& forall|n: int| #[trigger] self.survival.contains(n) ==> 0 <= n <= 8
    }
}

/// A Life-like rule in B/S notation, stored as neighbor-count bitmasks.
///
/// Bit `n` of `birth` set means a dead cell with `n` live neighbors is born;
/// bit `n` of `survival` set means a live cell with `n` live neighbors
/// survives. Lookup is two shifts in the hot loop: no dispatch, no branching
/// on rule identity.
#[derive(Clone, Copy, PartialEq, Eq, Debug)]
pub struct BsRule {
    birth: u16,
    survival: u16,
}

/// The text that is not a rule.
#[derive(Debug, PartialEq, Eq)]
pub struct ParseRuleError(String);

/// Whether bit `n` of `mask` is set.
spec fn bit(mask: u16, n: u16) -> bool {
    (mask >> n) & 1 == 1
}

/// The neighbor counts whose bits are set in `mask`.
spec fn counts_in(mask: u16) -> Set<int> {
    Set::new(|n: int| 0 <= n <= 8 && bit(mask, n as u16))
}

impl View for BsRule {
    type V = RuleView;

    closed spec fn view(&self) -> RuleView {
        RuleView { birth: counts_in(self.birth), survival: counts_in(self.survival) }
    }
}

impl View for ParseRuleError {
    type V = Seq<char>;

    closed spec fn view(&self) -> Seq<char> {
        self.0@
    }
}

/// A digit that can stand in rule notation.
pub open spec fn is_count(c: char) -> bool {
    '0' <= c <= '8'
}

/// Digits that list neighbor counts.
pub open spec fn all_counts(digits: Seq<char>) -> bool {
    forall|i: int| 0 <= i < digits.len() ==> is_count(#[trigger] digits[i])
}

/// The neighbor counts that the digits list.
pub open spec fn counts(digits: Seq<char>) -> Set<int> {
    Set::new(|n: int| exists|i: int| 0 <= i < digits.len() && #[trigger] digits[i] as int - '0' as int == n)
}

/// `part` starts with the letter of a section, in either case.
pub open spec fn tagged(part: Seq<char>, upper: char, lower: char) -> bool {
    part.len() > 0 && (part[0] == upper || part[0] == lower)
}

/// The birth digits and the survival digits of the two sections of a
/// notation: `B../S..` and `S../B..` name them, and the bare form reads
/// survival first.
pub open spec fn sections(a: Seq<char>, b: Seq<char>) -> Option<(Seq<char>, Seq<char>)> {
    if tagged(a, 'B', 'b') {
        if tagged(b, 'S', 's') {
            Some((a.skip(1), b.skip(1)))
        } else {
            None
        }
    } else if tagged(a, 'S', 's') {
        if tagged(b, 'B', 'b') {
            Some((b.skip(1), a.skip(1)))
        } else {
            None
        }
    } else {
        Some((b, a))
    }
}

/// The rule that a notation denotes, where it denotes one.
pub open spec fn rule_of(notation: Seq<char>) -> Option<RuleView> {
    let text = crate::text::trim(notation);
    match text.index_of_first('/') {
        None => None,
        Some(slash) => {
            let a = crate::text::trim(text.subrange(0, slash));
            let b = crate::text::trim(text.subrange(slash + 1, text.len() as int));
            match sections(a, b) {
                Some((birth, survival)) if all_counts(birth) && all_counts(survival) => Some(
                    RuleView { birth: counts(birth), survival: counts(survival) },
                ),
                _ => None,
            }
        },
    }
}

proof fn lemma_set_bit(mask: u16, n: u16)
    requires
        n <= 8,
    ensures
        forall|k: u16| k <= 8 ==> (#[trigger] bit(mask | (1u16 << n), k) <==> bit(mask, k) || k == n),
{
    assert forall|k: u16| k <= 8 implies (#[trigger] bit(mask | (1u16 << n), k) <==> bit(mask, k) || k
        == n) by {
        assert(((mask | (1u16 << n)) >> k) & 1 == 1 <==> ((mask >> k) & 1 == 1 || k == n))
            by (bit_vector)
            requires
                n <= 8,
                k <= 8,
        ;
    }
}

/// The bitmask of the digits in `lo..hi`, or `None` where one of them is no
/// neighbor count.
fn parse_counts(chars: &Vec<char>, lo: usize, hi: usize) -> (r: Option<u16>)
    requires
        lo <= hi <= chars@.len(),
    ensures
        r is Some <==> all_counts(chars@.subrange(lo as int, hi as int)),
        r is Some ==> counts_in(r->0) == counts(chars@.subrange(lo as int, hi as int)),
        r is Some ==> r->0 < 512,
{
    let ghost digits = chars@.subrange(lo as int, hi as int);
    let mut mask: u16 = 0;
    let mut i: usize = lo;
    proof {
        assert forall|k: u16| k <= 8 implies !bit(0, k) by {
            assert((0u16 >> k) & 1 == 0) by (bit_vector);
        }
    }
    while i < hi
        invariant
            lo <= i <= hi <= chars@.len(),
            mask < 512,
            digits == chars@.subrange(lo as int, hi as int),
            forall|j: int| 0 <= j < i - lo ==> is_count(#[trigger] digits[j]),
            forall|k: u16|
                k <= 8 ==> (#[trigger] bit(mask, k) <==> exists|j: int|
                    0 <= j < i - lo && #[trigger] digits[j] as int - '0' as int == k),
        decreases hi - i,
    {
        let ch = chars[i];
        assert(ch == digits[i - lo]);
        if !('0' <= ch && ch <= '8') {
            return None;
        }
        let n: u16 = (ch as u32 - '0' as u32) as u16;
        proof {
            lemma_set_bit(mask, n);
            assert(mask < 512 && n <= 8 ==> mask | (1u16 << n) < 512) by (bit_vector);
        }
        mask = mask | (1u16 << n);
        i = i + 1;
    }
    proof {
        assert forall|n: int| counts_in(mask).contains(n) <==> counts(digits).contains(n) by {
            if counts(digits).contains(n) {
                assert(bit(mask, n as u16));
            }
        }
        assert(counts_in(mask) =~= counts(digits));
    }
    Some(mask)
}

/// The digit of a neighbor count.
pub open spec fn digit(n: int) -> char {
    (n + '0' as int) as char
}

/// The digits of the counts below `n` that `set` holds, in rising order.
pub open spec fn digits_below(set: Set<int>, n: nat) -> Seq<char>
    decreases n,
{
    if n == 0 {
        Seq::empty()
    } else if set.contains(n - 1) {
        digits_below(set, (n - 1) as nat).push(digit(n - 1))
    } else {
        digits_below(set, (n - 1) as nat)
    }
}

/// The digits of all neighbor counts in `set`, in rising order.
pub open spec fn digits_of(set: Set<int>) -> Seq<char> {
    digits_below(set, 9)
}

/// The canonical notation of a rule: `B`, its birth counts, `/S`, its
/// survival counts.
pub open spec fn canonical(rule: RuleView) -> Seq<char> {
    seq!['B'] + digits_of(rule.birth) + seq!['/', 'S'] + digits_of(rule.survival)
}

proof fn lemma_digits_below(set: Set<int>, n: nat)
    requires
        n <= 9,
    ensures
        all_counts(digits_below(set, n)),
        forall|k: int|
            #![trigger counts(digits_below(set, n)).contains(k)]
            counts(digits_below(set, n)).contains(k) <==> 0 <= k < n && set.contains(k),
    decreases n,
{
    if n > 0 {
        let m = (n - 1) as nat;
        lemma_digits_below(set, m);
        let d = digits_below(set, m);
        let e = digits_below(set, n);
        assert forall|k: int| #[trigger] counts(e).contains(k) implies 0 <= k < n && set.contains(
            k,
        ) by {
            let i = choose|i: int| 0 <= i < e.len() && #[trigger] e[i] as int - '0' as int == k;
            if i < d.len() {
                assert(d[i] == e[i]);
                assert(counts(d).contains(k));
            }
        }
        assert forall|k: int| 0 <= k < n && set.contains(k) implies #[trigger] counts(e).contains(
            k,
        ) by {
            if k == m {
                assert(e[e.len() - 1] as int - '0' as int == k);
            } else {
                assert(counts(d).contains(k));
                let i = choose|i: int| 0 <= i < d.len() && #[trigger] d[i] as int - '0' as int == k;
                assert(e[i] as int - '0' as int == k);
            }
        }
    }
}

proof fn lemma_trim_id(s: Seq<char>)
    requires
        s.len() > 0,
        !crate::text::is_white_space(s[0]),
        !crate::text::is_white_space(s.last()),
    ensures
        crate::text::trim(s) == s,
{
}

/// Reading the canonical notation of a rule gives the rule back.
pub proof fn law_canonical_round_trip(rule: RuleView)
    requires
        rule.valid(),
    ensures
        rule_of(canonical(rule)) == Some(rule),
{
    let bd = digits_of(rule.birth);
    let sd = digits_of(rule.survival);
    let text = canonical(rule);
    lemma_digits_below(rule.birth, 9);
    lemma_digits_below(rule.survival, 9);
    assert(counts(bd) =~= rule.birth);
    assert(counts(sd) =~= rule.survival);
    assert(text.last() == 'S' || is_count(text.last())) by {
        if sd.len() > 0 {
            assert(text.last() == sd[sd.len() - 1]);
        }
    }
    lemma_trim_id(text);
    let slash: int = 1 + bd.len() as int;
    assert(text[slash] == '/');
    text.index_of_first_ensures('/');
    assert forall|j: int| 0 <= j < slash implies text[j] != '/' by {
        if j > 0 {
            assert(text[j] == bd[j - 1]);
        }
    }
    let a = text.subrange(0, slash);
    let b = text.subrange(slash + 1, text.len() as int);
    assert(a =~= seq!['B'] + bd);
    assert(b =~= seq!['S'] + sd);
    assert(a.last() == 'B' || is_count(a.last())) by {
        if bd.len() > 0 {
            assert(a.last() == bd[bd.len() - 1]);
        }
    }
    assert(b.last() == 'S' || is_count(b.last())) by {
        if sd.len() > 0 {
            assert(b.last() == sd[sd.len() - 1]);
        }
    }
    lemma_trim_id(a);
    lemma_trim_id(b);
    assert(a.skip(1) =~= bd);
    assert(b.skip(1) =~= sd);
}

/// Every rule that a notation denotes has counts that cells can have.
pub proof fn law_parsed_rules_are_valid(notation: Seq<char>)
    ensures
        rule_of(notation) is Some ==> (rule_of(notation)->0).valid(),
{
}

/// `part` is `chars` from `lo` to `hi`; the range of what follows its section
/// letter, where it starts with that letter.
fn prefixed(chars: &Vec<char>, lo: usize, hi: usize, upper: char, lower: char) -> (r: Option<usize>)
    requires
        lo <= hi <= chars@.len(),
    ensures
        r is Some <==> tagged(chars@.subrange(lo as int, hi as int), upper, lower),
        r is Some ==> r->0 == lo + 1 && r->0 <= hi && chars@.subrange(r->0 as int, hi as int)
            == chars@.subrange(lo as int, hi as int).skip(1),
{
    if lo < hi && (chars[lo] == upper || chars[lo] == lower) {
        assert(chars@.subrange(lo + 1, hi as int) =~= chars@.subrange(lo as int, hi as int).skip(1));
        Some(lo + 1)
    } else {
        None
    }
}

/// The first `/` in `lo..hi`.
fn find_slash(chars: &Vec<char>, lo: usize, hi: usize) -> (r: Option<usize>)
    requires
        lo <= hi <= chars@.len(),
    ensures
        match r {
            Some(i) => lo <= i < hi && chars@.subrange(lo as int, hi as int).index_of_first('/')
                == Some(i - lo),
            None => chars@.subrange(lo as int, hi as int).index_of_first('/') is None,
        },
{
    let ghost text = chars@.subrange(lo as int, hi as int);
    proof {
        text.index_of_first_ensures('/');
    }
    let mut i: usize = lo;
    while i < hi
        invariant
            lo <= i <= hi <= chars@.len(),
            text == chars@.subrange(lo as int, hi as int),
            forall|j: int| 0 <= j < i - lo ==> text[j] != '/',
        decreases hi - i,
    {
        assert(text[i - lo] == chars@[i as int]);
        if chars[i] == '/' {
            proof {
                text.index_of_first_ensures('/');
            }
            return Some(i);
        }
        i = i + 1;
    }
    None
}

impl BsRule {
    #[verifier::type_invariant]
    spec fn masks_fit(self) -> bool {
        self.birth < 512 && self.survival < 512
    }

    /// Parse B/S notation. Accepts `B3/S23` (case-insensitive, either order)
    /// and the bare Golly-style `23/3` form, which reads survival/birth.
    pub fn parse(notation: &str) -> (r: Result<Self, ParseRuleError>)
        ensures
            match r {
                Ok(rule) => rule_of(notation@) == Some(rule@),
                Err(error) => rule_of(notation@) is None && error@ == notation@,
            },
    {
        match Self::read(notation) {
            Some(rule) => Ok(rule),
            None => Err(ParseRuleError(notation.to_owned())),
        }
    }

    /// The rule that the notation denotes, where it denotes one.
    fn read(notation: &str) -> (r: Option<Self>)
        ensures
            match r {
                Some(rule) => rule_of(notation@) == Some(rule@),
                None => rule_of(notation@) is None,
            },
    {
        let chars = chars_of(notation);
        let n: usize = chars.len();
        assert(chars@.subrange(0, n as int) =~= notation@);
        let (lo, hi) = trim_range(&chars, 0, n);
        let ghost text = chars@.subrange(lo as int, hi as int);
        let slash = match find_slash(&chars, lo, hi) {
            Some(slash) => slash,
            None => {
                return None;
            },
        };
        assert(text.subrange(0, slash - lo) =~= chars@.subrange(lo as int, slash as int));
        assert(text.subrange(slash - lo + 1, text.len() as int) =~= chars@.subrange(
            slash + 1,
            hi as int,
        ));
        let (a_lo, a_hi) = trim_range(&chars, lo, slash);
        let (b_lo, b_hi) = trim_range(&chars, slash + 1, hi);
        let (birth_lo, birth_hi, survival_lo, survival_hi) = match prefixed(
            &chars,
            a_lo,
            a_hi,
            'B',
            'b',
        ) {
            Some(birth) => match prefixed(&chars, b_lo, b_hi, 'S', 's') {
                Some(survival) => (birth, a_hi, survival, b_hi),
                None => {
                    return None;
                },
            },
            None => match prefixed(&chars, a_lo, a_hi, 'S', 's') {
                Some(survival) => match prefixed(&chars, b_lo, b_hi, 'B', 'b') {
                    Some(birth) => (birth, b_hi, survival, a_hi),
                    None => {
                        return None;
                    },
                },
                // Bare `survival/birth`, e.g. `23/3` for Conway's Life.
                None => (b_lo, b_hi, a_lo, a_hi),
            },
        };
        let birth = match parse_counts(&chars, birth_lo, birth_hi) {
            Some(mask) => mask,
            None => {
                return None;
            },
        };
        let survival = match parse_counts(&chars, survival_lo, survival_hi) {
            Some(mask) => mask,
            None => {
                return None;
            },
        };
        Some(BsRule { birth, survival })
    }

    /// Next state for a cell with the given number of live neighbors.
    pub fn next_state(&self, alive: bool, neighbors: u8) -> (r: bool)
        requires
            neighbors < 16,
        ensures
            r == self@.next(alive, neighbors as int),
            alive ==> r == self@.survival.contains(neighbors as int),
            !alive ==> r == self@.birth.contains(neighbors as int),
    {
        proof {
            use_type_invariant(self);
        }
        let mask = if alive {
            self.survival
        } else {
            self.birth
        };
        assert(neighbors > 8 && mask < 512 ==> (mask >> (neighbors as u16)) & 1 == 0) by (bit_vector)
            requires
                neighbors < 16,
        ;
        (mask >> (neighbors as u16)) & 1 == 1
    }

    /// Canonical `B../S..` notation for this rule.
    pub fn notation(&self) -> (r: String)
        ensures
            r@ == canonical(self@),
            rule_of(r@) == Some(self@),
    {
        let mut out = String::new();
        out.push('B');
        push_digits(&mut out, self.birth);
        out.push('/');
        out.push('S');
        push_digits(&mut out, self.survival);
        assert(out@ =~= canonical(self@));
        proof {
            law_canonical_round_trip(self@);
        }
        out
    }
}

/// Append the digits of the neighbor counts in `mask`.
fn push_digits(out: &mut String, mask: u16)
    ensures
        final(out)@ == old(out)@ + digits_of(counts_in(mask)),
{
    let mut n: u16 = 0;
    assert(out@ =~= old(out)@ + digits_below(counts_in(mask), 0));
    while n <= 8
        invariant
            n <= 9,
            out@ == old(out)@ + digits_below(counts_in(mask), n as nat),
        decreases 9 - n,
    {
        if (mask >> n) & 1 == 1 {
            let c = (48u8 + n as u8) as char;
            assert(c == digit(n as int));
            out.push(c);
        }
        n = n + 1;
        assert(out@ =~= old(out)@ + digits_below(counts_in(mask), n as nat));
    }
}

impl ParseRuleError {
    /// What to tell the user.
    pub fn message(&self) -> (r: String)
        ensures
            r@ == "invalid rule notation: "@ + self@,
    {
        String::from_str("invalid rule notation: ").concat(self.0.as_str())
    }
}

impl TryFrom<String> for BsRule {
    type Error = ParseRuleError;

    fn try_from(text: String) -> (r: Result<Self, ParseRuleError>)
        ensures
            match r {
                Ok(rule) => rule_of(text@) == Some(rule@),
                Err(error) => rule_of(text@) is None && error@ == text@,
            },
    {
        Self::parse(text.as_str())
    }
}

impl vstd::std_specs::convert::TryFromSpecImpl<String> for BsRule {
    open spec fn obeys_try_from_spec() -> bool {
        false
    }

    open spec fn try_from_spec(v: String) -> Result<Self, ParseRuleError> {
        arbitrary()
    }
}

impl From<BsRule> for String {
    fn from(rule: BsRule) -> (r: String)
        ensures
            r@ == canonical(rule@),
            rule_of(r@) == Some(rule@),
    {
        rule.notation()
    }
}

impl vstd::std_specs::convert::FromSpecImpl<BsRule> for String {
    open spec fn obeys_from_spec() -> bool {
        false
    }

    open spec fn from_spec(v: BsRule) -> String {
        arbitrary()
    }
}

/// A rule of the library, with the name that it is shown under.
pub struct NamedRule {
    pub name: &'static str,
    pub rule: BsRule,
}

/// The names and canonical notations of the built-in rules, in order.
pub open spec fn builtin_library() -> Seq<(&'static str, &'static str)> {
    seq![
        ("Life", "B3/S23"),
        ("HighLife", "B36/S23"),
        ("Seeds", "B2/S"),
        ("Life w/o Death", "B3/S012345678"),
        ("Day & Night", "B3678/S34678"),
        ("Maze", "B3/S12345"),
        ("Mazectric", "B3/S1234"),
        ("Replicator", "B1357/S1357"),
        ("2x2", "B36/S125"),
        ("Diamoeba", "B35678/S5678"),
        ("Anneal", "B4678/S35678"),
    ]
}

/// The rules of the built-in library.
pub open spec fn is_builtin_library(rules: Seq<NamedRule>) -> bool {
    &&& rules.len() == builtin_library().len()
    &&& forall|i: int|
        #![trigger rules[i]]
        0 <= i < rules.len() ==> rules[i].name@ == builtin_library()[i].0@ && canonical(
            rules[i].rule@,
        ) == builtin_library()[i].1@
}

/// A rule of the library, from its canonical notation.
fn named(name: &'static str, notation: &'static str, Ghost(rule): Ghost<RuleView>) -> (r: NamedRule)
    requires
        rule.valid(),
        notation@ == canonical(rule),
    ensures
        r.name == name,
        r.rule@ == rule,
{
    proof {
        law_canonical_round_trip(rule);
    }
    match BsRule::parse(notation) {
        Ok(rule) => NamedRule { name, rule },
        Err(_) => {
            assert(false);
            vstd::pervasive::unreached()
        },
    }
}

/// Built-in library of well-known Life-like rules.
pub fn builtin_rules() -> (r: Vec<NamedRule>)
    ensures
        is_builtin_library(r@),
{
    proof {
        reveal_with_fuel(digits_below, 10);
        reveal_strlit("B3/S23");
        reveal_strlit("B36/S23");
        reveal_strlit("B2/S");
        reveal_strlit("B3/S012345678");
        reveal_strlit("B3678/S34678");
        reveal_strlit("B3/S12345");
        reveal_strlit("B3/S1234");
        reveal_strlit("B1357/S1357");
        reveal_strlit("B36/S125");
        reveal_strlit("B35678/S5678");
        reveal_strlit("B4678/S35678");
    }
    let mut rules: Vec<NamedRule> = Vec::new();
    let ghost rule = RuleView { birth: set![3int], survival: set![2int, 3int] };
    assert("B3/S23"@ =~= canonical(rule));
    rules.push(named("Life", "B3/S23", Ghost(rule)));
    let ghost rule = RuleView { birth: set![3int, 6int], survival: set![2int, 3int] };
    assert("B36/S23"@ =~= canonical(rule));
    rules.push(named("HighLife", "B36/S23", Ghost(rule)));
    let ghost rule = RuleView { birth: set![2int], survival: Set::<int>::empty() };
    assert("B2/S"@ =~= canonical(rule));
    rules.push(named("Seeds", "B2/S", Ghost(rule)));
    let ghost rule = RuleView { birth: set![3int], survival: set![0int, 1int, 2int, 3int, 4int, 5int, 6int, 7int, 8int] };
    assert("B3/S012345678"@ =~= canonical(rule));
    rules.push(named("Life w/o Death", "B3/S012345678", Ghost(rule)));
    let ghost rule = RuleView { birth: set![3int, 6int, 7int, 8int], survival: set![3int, 4int, 6int, 7int, 8int] };
    assert("B3678/S34678"@ =~= canonical(rule));
    rules.push(named("Day & Night", "B3678/S34678", Ghost(rule)));
    let ghost rule = RuleView { birth: set![3int], survival: set![1int, 2int, 3int, 4int, 5int] };
    assert("B3/S12345"@ =~= canonical(rule));
    rules.push(named("Maze", "B3/S12345", Ghost(rule)));
    let ghost rule = RuleView { birth: set![3int], survival: set![1int, 2int, 3int, 4int] };
    assert("B3/S1234"@ =~= canonical(rule));
    rules.push(named("Mazectric", "B3/S1234", Ghost(rule)));
    let ghost rule = RuleView { birth: set![1int, 3int, 5int, 7int], survival: set![1int, 3int, 5int, 7int] };
    assert("B1357/S1357"@ =~= canonical(rule));
    rules.push(named("Replicator", "B1357/S1357", Ghost(rule)));
    let ghost rule = RuleView { birth: set![3int, 6int], survival: set![1int, 2int, 5int] };
    assert("B36/S125"@ =~= canonical(rule));
    rules.push(named("2x2", "B36/S125", Ghost(rule)));
    let ghost rule = RuleView { birth: set![3int, 5int, 6int, 7int, 8int], survival: set![5int, 6int, 7int, 8int] };
    assert("B35678/S5678"@ =~= canonical(rule));
    rules.push(named("Diamoeba", "B35678/S5678", Ghost(rule)));
    let ghost rule = RuleView { birth: set![4int, 6int, 7int, 8int], survival: set![3int, 5int, 6int, 7int, 8int] };
    assert("B4678/S35678"@ =~= canonical(rule));
    rules.push(named("Anneal", "B4678/S35678", Ghost(rule)));
    rules
}

/// What the two sections of a notation can be, given the digits of the birth
/// counts and those of the survival counts: both with their letter, in either
/// case and either order, or both without, survival first.
pub open spec fn is_written(
    first: Seq<char>,
    second: Seq<char>,
    birth: Seq<char>,
    survival: Seq<char>,
) -> bool {
    ||| first == survival && second == birth
    ||| (first == seq!['B'] + birth || first == seq!['b'] + birth) && (second == seq!['S']
        + survival || second == seq!['s'] + survival)
    ||| (first == seq!['S'] + survival || first == seq!['s'] + survival) && (second == seq!['B']
        + birth || second == seq!['b'] + birth)
}

/// The characters are digits from 0 to 8.
pub open spec fn are_digits(digits: Seq<char>) -> bool {
    forall|i: int| 0 <= i < digits.len() ==> 48 <= #[trigger] digits[i] as int <= 56
}

/// The numbers that the digits name.
pub open spec fn named_by(digits: Seq<char>) -> Set<int> {
    Set::new(|n: int| 0 <= n <= 8 && digits.contains((48 + n) as char))
}

proof fn lemma_named_by(digits: Seq<char>)
    requires
        are_digits(digits),
    ensures
        all_counts(digits),
        counts(digits) == named_by(digits),
{
    assert forall|n: int| counts(digits).contains(n) <==> named_by(digits).contains(n) by {
        if counts(digits).contains(n) {
            let i = choose|i: int|
                0 <= i < digits.len() && #[trigger] digits[i] as int - '0' as int == n;
            assert(digits[i] == (48 + n) as char);
        }
        if named_by(digits).contains(n) {
            let i = choose|i: int| 0 <= i < digits.len() && digits[i] == (48 + n) as char;
            assert(digits[i] as int - '0' as int == n);
        }
    }
    assert(counts(digits) =~= named_by(digits));
}

/// Every notation is read as it is written, whatever its digits and however
/// many: the digits of the birth section name the birth counts and those of the
/// survival section the survival counts. The bare form reads survival first,
/// and white space around the sections does not count.
pub proof fn law_notation_is_read(
    spaces: (Seq<char>, Seq<char>, Seq<char>, Seq<char>),
    first: Seq<char>,
    second: Seq<char>,
    birth: Seq<char>,
    survival: Seq<char>,
)
    requires
        crate::text::is_space(spaces.0),
        crate::text::is_space(spaces.1),
        crate::text::is_space(spaces.2),
        crate::text::is_space(spaces.3),
        are_digits(birth),
        are_digits(survival),
        is_written(first, second, birth, survival),
    ensures
        rule_of(spaces.0 + first + spaces.1 + seq!['/'] + (spaces.2 + second + spaces.3)) == Some(
            RuleView { birth: named_by(birth), survival: named_by(survival) },
        ),
{
    let (p, q) = (spaces.0 + first + spaces.1, spaces.2 + second + spaces.3);
    let notation = p + seq!['/'] + q;
    lemma_named_by(birth);
    lemma_named_by(survival);
    lemma_written(first, second, birth, survival);
    crate::text::law_trim_strips(spaces.0, first, spaces.1);
    crate::text::law_trim_strips(spaces.2, second, spaces.3);
    crate::text::lemma_trim_around(p, '/', q);
    crate::text::lemma_trim_again(p);
    crate::text::lemma_trim_again(q);
    let (a, b) = (crate::text::trim_start(p), crate::text::trim_end(q));
    let text = a + seq!['/'] + b;
    assert(text == crate::text::trim(notation));
    let slash = a.len() as int;
    assert forall|i: int| 0 <= i < p.len() implies p[i] != '/' by {
        if i < spaces.0.len() {
            assert(p[i] == spaces.0[i]);
        } else if i < spaces.0.len() + first.len() {
            assert(p[i] == first[i - spaces.0.len()]);
        } else {
            assert(p[i] == spaces.1[i - spaces.0.len() - first.len()]);
        }
    }
    crate::text::lemma_trim_start_within(p);
    assert forall|j: int| 0 <= j < slash implies text[j] != '/' by {
        assert(text[j] == a[j]);
        assert(p.contains(a[j]));
    }
    assert(text[slash] == '/');
    text.index_of_first_ensures('/');
    assert(text.subrange(0, slash) =~= a);
    assert(text.subrange(slash + 1, text.len() as int) =~= b);
}

/// Written sections hold no slash and no white space, and are taken apart
/// again.
proof fn lemma_written(first: Seq<char>, second: Seq<char>, birth: Seq<char>, survival: Seq<char>)
    requires
        are_digits(birth),
        are_digits(survival),
        is_written(first, second, birth, survival),
    ensures
        forall|i: int| 0 <= i < first.len() ==> #[trigger] first[i] != '/',
        crate::text::is_tight(first),
        crate::text::is_tight(second),
        sections(first, second) == Some((birth, survival)),
{
    assert((seq!['B'] + birth).skip(1) =~= birth);
    assert((seq!['b'] + birth).skip(1) =~= birth);
    assert((seq!['S'] + survival).skip(1) =~= survival);
    assert((seq!['s'] + survival).skip(1) =~= survival);
    assert forall|i: int| 0 <= i < first.len() implies #[trigger] first[i] != '/'
        && !crate::text::is_white_space(first[i]) by {
        if first.len() == survival.len() {
            if first == survival {
                assert(first[i] == survival[i]);
            } else if i > 0 {
                assert(first[i] == birth[i - 1]);
            }
        } else if i > 0 {
            if first.len() == birth.len() + 1 && first.skip(1) == birth {
                assert(first[i] == birth[i - 1]);
            } else {
                assert(first[i] == survival[i - 1]);
            }
        }
    }
    assert forall|i: int| 0 <= i < second.len() implies !crate::text::is_white_space(
        #[trigger] second[i],
    ) by {
        if second == birth {
            assert(second[i] == birth[i]);
        } else if i > 0 {
            if second.skip(1) == survival {
                assert(second[i] == survival[i - 1]);
            } else {
                assert(second[i] == birth[i - 1]);
            }
        }
    }
    if first.len() > 0 {
        assert(!crate::text::is_white_space(first[0]) && !crate::text::is_white_space(
            first[first.len() - 1],
        ));
    }
    if second.len() > 0 {
        assert(!crate::text::is_white_space(second[0]) && !crate::text::is_white_space(
            second[second.len() - 1],
        ));
    }
}

/// Nothing else is a rule: what is read as one is a first and a second section
/// around a slash, with white space around each at most.
pub proof fn law_only_notation_is_read(notation: Seq<char>) -> (r: (
    (Seq<char>, Seq<char>, Seq<char>, Seq<char>),
    (Seq<char>, Seq<char>),
    (Seq<char>, Seq<char>),
))
    requires
        rule_of(notation) is Some,
    ensures
        ({
            let (spaces, written, digits) = r;
            &&& crate::text::is_space(spaces.0)
            &&& crate::text::is_space(spaces.1)
            &&& crate::text::is_space(spaces.2)
            &&& crate::text::is_space(spaces.3)
            &&& are_digits(digits.0)
            &&& are_digits(digits.1)
            &&& is_written(written.0, written.1, digits.0, digits.1)
            &&& notation == spaces.0 + written.0 + spaces.1 + seq!['/'] + (spaces.2 + written.1
                + spaces.3)
        }),
{
    let text = crate::text::trim(notation);
    text.index_of_first_ensures('/');
    let slash = text.index_of_first('/')->0;
    let (p, q) = (text.subrange(0, slash), text.subrange(slash + 1, text.len() as int));
    let (a, b) = (crate::text::trim(p), crate::text::trim(q));
    let (w0, w3) = crate::text::law_trim_parts(notation);
    let (u0, u1) = crate::text::law_trim_parts(p);
    let (v0, v1) = crate::text::law_trim_parts(q);
    let (birth, survival) = sections(a, b)->0;
    assert(text =~= p + seq!['/'] + q);
    assert forall|i: int| 0 <= i < (w0 + u0).len() implies crate::text::is_white_space(
        #[trigger] (w0 + u0)[i],
    ) by {
        if i < w0.len() {
            assert((w0 + u0)[i] == w0[i]);
        } else {
            assert((w0 + u0)[i] == u0[i - w0.len()]);
        }
    }
    assert forall|i: int| 0 <= i < (v1 + w3).len() implies crate::text::is_white_space(
        #[trigger] (v1 + w3)[i],
    ) by {
        if i < v1.len() {
            assert((v1 + w3)[i] == v1[i]);
        } else {
            assert((v1 + w3)[i] == w3[i - v1.len()]);
        }
    }
    assert forall|i: int| 0 <= i < birth.len() implies 48 <= #[trigger] birth[i] as int <= 56 by {
        assert(is_count(birth[i]));
    }
    assert forall|i: int| 0 <= i < survival.len() implies 48 <= #[trigger] survival[i] as int
        <= 56 by {
        assert(is_count(survival[i]));
    }
    if a.len() > 0 {
        assert(a =~= seq![a[0]] + a.skip(1));
    }
    if b.len() > 0 {
        assert(b =~= seq![b[0]] + b.skip(1));
    }
    let spaces = (w0 + u0, u1, v0, v1 + w3);
    assert(notation =~= spaces.0 + a + spaces.1 + seq!['/'] + (spaces.2 + b + spaces.3));
    (spaces, (a, b), (birth, survival))
}

/// The bare form names survival first: it is the same rule as the one that
/// names its sections, whatever the lengths.
pub proof fn law_bare_form_reads_survival_first(survival: Seq<char>, birth: Seq<char>)
    requires
        are_digits(survival),
        are_digits(birth),
    ensures
        rule_of(survival + seq!['/'] + birth) == Some(
            RuleView { birth: named_by(birth), survival: named_by(survival) },
        ),
        rule_of(survival + seq!['/'] + birth) == rule_of(
            seq!['B'] + birth + seq!['/', 'S'] + survival,
        ),
        rule_of(survival + seq!['/'] + birth) == rule_of(
            seq!['S'] + survival + seq!['/', 'B'] + birth,
        ),
{
    let none = Seq::<char>::empty();
    let spaces = (none, none, none, none);
    law_notation_is_read(spaces, survival, birth, birth, survival);
    law_notation_is_read(spaces, seq!['B'] + birth, seq!['S'] + survival, birth, survival);
    law_notation_is_read(spaces, seq!['S'] + survival, seq!['B'] + birth, birth, survival);
    assert(none + survival + none + seq!['/'] + (none + birth + none) =~= survival + seq!['/']
        + birth);
    assert(none + (seq!['B'] + birth) + none + seq!['/'] + (none + (seq!['S'] + survival) + none)
        =~= seq!['B'] + birth + seq!['/', 'S'] + survival);
    assert(none + (seq!['S'] + survival) + none + seq!['/'] + (none + (seq!['B'] + birth) + none)
        =~= seq!['S'] + survival + seq!['/', 'B'] + birth);
}

proof fn lemma_digits_rise(set: Set<int>, n: nat)
    requires
        n <= 9,
    ensures
        forall|i: int, j: int|
            0 <= i < j < digits_below(set, n).len() ==> #[trigger] digits_below(set, n)[i]
                < #[trigger] digits_below(set, n)[j],
        forall|i: int|
            0 <= i < digits_below(set, n).len() ==> 48 <= (#[trigger] digits_below(set, n)[i]) as int
                && digits_below(set, n)[i] as int - 48 <= n - 1,
    decreases n,
{
    if n > 0 {
        lemma_digits_rise(set, (n - 1) as nat);
        let (d, e) = (digits_below(set, (n - 1) as nat), digits_below(set, n));
        assert(digit(n - 1) as int == n + 47);
        assert forall|i: int| 0 <= i < e.len() implies 48 <= (#[trigger] e[i]) as int && e[i] as int
            - 48 <= n - 1 by {
            if i < d.len() {
                assert(e[i] == d[i]);
            }
        }
        assert forall|i: int, j: int| 0 <= i < j < e.len() implies #[trigger] e[i] < #[trigger] e[j] by {
            assert(e[i] == d[i]);
            if j < d.len() {
                assert(e[j] == d[j]);
            }
        }
    }
}

/// The canonical notation names each count of the rule once, in rising order,
/// and no other.
pub proof fn law_canonical_form(rule: RuleView) -> (r: (Seq<char>, Seq<char>))
    ensures
        canonical(rule) == seq!['B'] + r.0 + seq!['/', 'S'] + r.1,
        forall|i: int, j: int| 0 <= i < j < r.0.len() ==> #[trigger] r.0[i] < #[trigger] r.0[j],
        forall|i: int, j: int| 0 <= i < j < r.1.len() ==> #[trigger] r.1[i] < #[trigger] r.1[j],
        are_digits(r.0),
        are_digits(r.1),
        forall|n: int|
            0 <= n <= 8 ==> (#[trigger] rule.birth.contains(n) <==> r.0.contains((48 + n) as char)),
        forall|n: int|
            0 <= n <= 8 ==> (#[trigger] rule.survival.contains(n) <==> r.1.contains(
                (48 + n) as char,
            )),
{
    let (b, s) = (digits_of(rule.birth), digits_of(rule.survival));
    lemma_digits_below(rule.birth, 9);
    lemma_digits_below(rule.survival, 9);
    lemma_digits_rise(rule.birth, 9);
    lemma_digits_rise(rule.survival, 9);
    lemma_named_by(b);
    lemma_named_by(s);
    assert forall|n: int| 0 <= n <= 8 implies (#[trigger] rule.birth.contains(n) <==> b.contains(
        (48 + n) as char,
    )) by {
        assert(named_by(b).contains(n) <==> counts(b).contains(n));
    }
    assert forall|n: int| 0 <= n <= 8 implies (#[trigger] rule.survival.contains(n) <==> s.contains(
        (48 + n) as char,
    )) by {
        assert(named_by(s).contains(n) <==> counts(s).contains(n));
    }
    (b, s)
}

/// Each rule has one canonical notation, and no two rules share one.
pub proof fn law_canonical_is_unique(a: RuleView, b: RuleView)
    requires
        forall|n: int| #[trigger] a.birth.contains(n) ==> 0 <= n <= 8,
        forall|n: int| #[trigger] a.survival.contains(n) ==> 0 <= n <= 8,
        forall|n: int| #[trigger] b.birth.contains(n) ==> 0 <= n <= 8,
        forall|n: int| #[trigger] b.survival.contains(n) ==> 0 <= n <= 8,
        canonical(a) == canonical(b),
    ensures
        a == b,
{
    law_canonical_round_trip(a);
    law_canonical_round_trip(b);
}

} // verus!
