//! Sequences of characters: white space, comparison and numbers.
use vstd::prelude::*;

verus! {

/// The characters with the Unicode property `White_Space`.
pub open spec fn is_white_space(c: char) -> bool {
    ||| '\u{9}' <= c <= '\u{d}'
    ||| c == ' '
    ||| c == '\u{85}'
    ||| c == '\u{a0}'
    ||| c == '\u{1680}'
    ||| '\u{2000}' <= c <= '\u{200a}'
    ||| c == '\u{2028}'
    ||| c == '\u{2029}'
    ||| c == '\u{202f}'
    ||| c == '\u{205f}'
    ||| c == '\u{3000}'
}

/// `s` without the white space that it starts with.
pub open spec fn trim_start(s: Seq<char>) -> Seq<char>
    decreases s.len(),
{
    if s.len() > 0 && is_white_space(s[0]) {
        trim_start(s.skip(1))
    } else {
        s
    }
}

/// `s` without the white space that it ends with.
pub open spec fn trim_end(s: Seq<char>) -> Seq<char>
    decreases s.len(),
{
    if s.len() > 0 && is_white_space(s.last()) {
        trim_end(s.drop_last())
    } else {
        s
    }
}

/// `s` without white space at either end.
pub open spec fn trim(s: Seq<char>) -> Seq<char> {
    trim_end(trim_start(s))
}

/// Whether `c` has the Unicode property `White_Space`.
pub fn white_space(c: char) -> (r: bool)
    ensures
        r == is_white_space(c),
{
    ('\u{9}' <= c && c <= '\u{d}') || c == ' ' || c == '\u{85}' || c == '\u{a0}' || c == '\u{1680}'
        || ('\u{2000}' <= c && c <= '\u{200a}') || c == '\u{2028}' || c == '\u{2029}' || c
        == '\u{202f}' || c == '\u{205f}' || c == '\u{3000}'
}

/// The characters of `text`, in order.
pub fn chars_of(text: &str) -> (r: Vec<char>)
    ensures
        r@ == text@,
{
    let mut out: Vec<char> = Vec::new();
    for c in it: text.chars()
        invariant
            it.seq() == text@,
            out@ == it.seq().take(it.index()),
    {
        out.push(c);
        assert(it.seq().take(it.index() + 1) =~= it.seq().take(it.index()).push(c));
    }
    assert(text@.take(text@.len() as int) =~= text@);
    out
}

/// Narrow the half-open range `lo..hi` of `chars` until neither end is white
/// space.
pub fn trim_range(chars: &Vec<char>, lo: usize, hi: usize) -> (r: (usize, usize))
    requires
        lo <= hi <= chars@.len(),
    ensures
        lo <= r.0 <= r.1 <= hi,
        chars@.subrange(r.0 as int, r.1 as int) == trim(chars@.subrange(lo as int, hi as int)),
{
    let mut a: usize = lo;
    while a < hi && white_space(chars[a])
        invariant
            lo <= a <= hi <= chars@.len(),
            trim_start(chars@.subrange(lo as int, hi as int)) == trim_start(
                chars@.subrange(a as int, hi as int),
            ),
        decreases hi - a,
    {
        assert(chars@.subrange(a as int, hi as int).skip(1) =~= chars@.subrange(
            a + 1,
            hi as int,
        ));
        a = a + 1;
    }
    let mut b: usize = hi;
    while a < b && white_space(chars[b - 1])
        invariant
            lo <= a <= b <= hi <= chars@.len(),
            trim(chars@.subrange(lo as int, hi as int)) == trim_end(
                chars@.subrange(a as int, b as int),
            ),
        decreases b - a,
    {
        assert(chars@.subrange(a as int, b as int).drop_last() =~= chars@.subrange(
            a as int,
            b - 1,
        ));
        b = b - 1;
    }
    (a, b)
}

/// Whether the two texts are the same.
pub fn same_text(a: &str, b: &str) -> (r: bool)
    ensures
        r == (a@ == b@),
{
    let (x, y) = (chars_of(a), chars_of(b));
    if x.len() != y.len() {
        return false;
    }
    let mut i: usize = 0;
    while i < x.len()
        invariant
            x@ == a@,
            y@ == b@,
            x@.len() == y@.len(),
            i <= x@.len(),
            forall|j: int| 0 <= j < i ==> #[trigger] a@[j] == b@[j],
        decreases x@.len() - i,
    {
        if x[i] != y[i] {
            return false;
        }
        i = i + 1;
    }
    assert(a@ =~= b@);
    true
}

/// The decimal digits of a number.
pub open spec fn decimal(n: int) -> Seq<char>
    decreases n,
{
    if n < 10 {
        seq![(48 + n) as char]
    } else {
        decimal(n / 10).push((48 + n % 10) as char)
    }
}

/// A number with its sign, which is `+` for zero.
pub open spec fn signed_decimal(n: int) -> Seq<char> {
    if n >= 0 {
        seq!['+'] + decimal(n)
    } else {
        seq!['-'] + decimal(-n)
    }
}

/// Append the decimal digits of a number.
pub fn push_decimal(out: &mut String, n: u64)
    ensures
        final(out)@ == old(out)@ + decimal(n as int),
    decreases n,
{
    if n >= 10 {
        push_decimal(out, n / 10);
    }
    out.push((48u8 + (n % 10) as u8) as char);
    assert(out@ =~= old(out)@ + decimal(n as int));
}

/// Append a number with its sign, which is `+` for zero.
pub fn push_signed(out: &mut String, n: i64)
    ensures
        final(out)@ == old(out)@ + signed_decimal(n as int),
{
    if n >= 0 {
        out.push('+');
        push_decimal(out, n as u64);
    } else {
        out.push('-');
        push_decimal(out, (-(n as i128)) as u64);
    }
    assert(out@ =~= old(out)@ + signed_decimal(n as int));
}

/// `String::push`: the character is appended at the end of the string.
pub assume_specification[ String::push ](s: &mut String, c: char)
    ensures
        final(s)@ == old(s)@.push(c),
;

/// Which characters are white space, by their code points.
pub proof fn law_white_space(c: char)
    ensures
        is_white_space(c) <==> {
            let n = c as int;
            9 <= n <= 13 || n == 32 || n == 133 || n == 160 || n == 5760 || 8192 <= n <= 8202 || n
                == 8232 || n == 8233 || n == 8239 || n == 8287 || n == 12288
        },
{
}

/// All of the characters are white space.
pub open spec fn is_space(s: Seq<char>) -> bool {
    forall|i: int| 0 <= i < s.len() ==> is_white_space(#[trigger] s[i])
}

/// Neither end is white space.
pub open spec fn is_tight(s: Seq<char>) -> bool {
    s.len() > 0 ==> !is_white_space(s[0]) && !is_white_space(s.last())
}

/// White space in front is passed over.
proof fn lemma_trim_start_space(space: Seq<char>, s: Seq<char>)
    requires
        is_space(space),
    ensures
        trim_start(space + s) == trim_start(s),
    decreases space.len(),
{
    if space.len() == 0 {
        assert(space + s =~= s);
    } else {
        assert((space + s)[0] == space[0]);
        assert((space + s).skip(1) =~= space.skip(1) + s);
        lemma_trim_start_space(space.skip(1), s);
    }
}

/// White space at the end is passed over.
proof fn lemma_trim_end_space(s: Seq<char>, space: Seq<char>)
    requires
        is_space(space),
    ensures
        trim_end(s + space) == trim_end(s),
    decreases space.len(),
{
    if space.len() == 0 {
        assert(s + space =~= s);
    } else {
        assert((s + space).last() == space.last());
        assert((s + space).drop_last() =~= s + space.drop_last());
        assert(is_space(space.drop_last()));
        lemma_trim_end_space(s, space.drop_last());
    }
}

/// Trimming takes away the white space around a text and nothing of the text.
pub proof fn law_trim_strips(before: Seq<char>, s: Seq<char>, after: Seq<char>)
    requires
        is_space(before),
        is_space(after),
        is_tight(s),
    ensures
        trim(before + s + after) == s,
{
    assert(before + s + after =~= before + (s + after));
    lemma_trim_start_space(before, s + after);
    if s.len() == 0 {
        assert(s + after =~= after + Seq::<char>::empty());
        lemma_trim_start_space(after, Seq::empty());
        assert(trim_start(Seq::<char>::empty()) =~= s);
    } else {
        assert((s + after)[0] == s[0]);
        lemma_trim_end_space(s, after);
    }
}

proof fn lemma_trim_start_parts(s: Seq<char>) -> (before: Seq<char>)
    ensures
        is_space(before),
        s == before + trim_start(s),
        trim_start(s).len() > 0 ==> !is_white_space(trim_start(s)[0]),
    decreases s.len(),
{
    if s.len() > 0 && is_white_space(s[0]) {
        let before = lemma_trim_start_parts(s.skip(1));
        let all = seq![s[0]] + before;
        assert forall|i: int| 0 <= i < all.len() implies is_white_space(#[trigger] all[i]) by {
            if i > 0 {
                assert(all[i] == before[i - 1]);
            }
        }
        let rest = trim_start(s.skip(1));
        assert(all + rest =~= seq![s[0]] + (before + rest));
        assert(s =~= seq![s[0]] + s.skip(1));
        all
    } else {
        assert(s =~= Seq::<char>::empty() + s);
        Seq::empty()
    }
}

proof fn lemma_trim_end_parts(s: Seq<char>) -> (after: Seq<char>)
    ensures
        is_space(after),
        s == trim_end(s) + after,
        trim_end(s).len() > 0 ==> !is_white_space(trim_end(s).last()),
    decreases s.len(),
{
    if s.len() > 0 && is_white_space(s.last()) {
        let after = lemma_trim_end_parts(s.drop_last());
        let all = after.push(s.last());
        let rest = trim_end(s.drop_last());
        assert(rest + all =~= (rest + after).push(s.last()));
        assert(s =~= s.drop_last().push(s.last()));
        all
    } else {
        assert(s =~= s + Seq::<char>::empty());
        Seq::empty()
    }
}

/// What trimming takes away is white space, and what it leaves neither starts
/// nor ends with any.
pub proof fn law_trim_parts(s: Seq<char>) -> (r: (Seq<char>, Seq<char>))
    ensures
        is_space(r.0),
        is_space(r.1),
        is_tight(trim(s)),
        s == r.0 + trim(s) + r.1,
{
    let before = lemma_trim_start_parts(s);
    let after = lemma_trim_end_parts(trim_start(s));
    assert(s =~= before + trim(s) + after);
    if trim(s).len() > 0 {
        assert(trim(s)[0] == trim_start(s)[0]);
    }
    (before, after)
}

/// Around a character that is no white space, trimming works on each side for
/// itself.
pub proof fn lemma_trim_around(a: Seq<char>, c: char, b: Seq<char>)
    requires
        !is_white_space(c),
    ensures
        trim(a + seq![c] + b) == trim_start(a) + seq![c] + trim_end(b),
{
    let before = lemma_trim_start_parts(a);
    let after = lemma_trim_end_parts(b);
    let core = trim_start(a) + seq![c] + trim_end(b);
    assert(core.len() > 0);
    assert(core[0] == if trim_start(a).len() > 0 {
        trim_start(a)[0]
    } else {
        c
    });
    assert(core.last() == if trim_end(b).len() > 0 {
        trim_end(b).last()
    } else {
        c
    });
    assert(a + seq![c] + b =~= before + core + after);
    law_trim_strips(before, core, after);
}

/// Trimming one end first makes no difference.
pub proof fn lemma_trim_again(s: Seq<char>)
    ensures
        trim(trim_start(s)) == trim(s),
        trim(trim_end(s)) == trim(s),
{
    let (before, after) = law_trim_parts(s);
    let core = trim(s);
    let none = Seq::<char>::empty();
    assert(before + core + after =~= before + (core + after));
    lemma_trim_start_space(before, core + after);
    lemma_trim_end_space(before + core, after);
    if core.len() > 0 {
        assert((core + after)[0] == core[0]);
        assert((before + core).last() == core.last());
        assert(core + after =~= none + core + after);
        law_trim_strips(none, core, after);
        assert(before + core =~= before + core + none);
        law_trim_strips(before, core, none);
    } else {
        assert(core + after =~= after + none);
        lemma_trim_start_space(after, none);
        assert(before + core =~= none + before);
        lemma_trim_end_space(none, before);
    }
}

/// The number that decimal digits stand for.
pub open spec fn numeral(digits: Seq<char>) -> int
    decreases digits.len(),
{
    if digits.len() == 0 {
        0
    } else {
        numeral(digits.drop_last()) * 10 + (digits.last() as int - 48)
    }
}

/// The decimal digits of a number are digits, stand for the number, and do not
/// start with a zero unless it is the only one.
pub proof fn law_decimal(n: int)
    requires
        0 <= n,
    ensures
        decimal(n).len() > 0,
        forall|i: int| 0 <= i < decimal(n).len() ==> '0' <= #[trigger] decimal(n)[i] <= '9',
        numeral(decimal(n)) == n,
        decimal(n)[0] == '0' ==> n == 0,
        n == 0 ==> decimal(n).len() == 1,
    decreases n,
{
    reveal_with_fuel(numeral, 2);
    if n >= 10 {
        law_decimal(n / 10);
        let less = decimal(n / 10);
        assert(decimal(n).drop_last() =~= less);
        assert(decimal(n)[0] == less[0]);
    } else {
        assert(decimal(n).drop_last().len() == 0);
    }
}

/// A number with its sign is a plus or a minus and the digits of how far the
/// number is from zero.
pub proof fn law_signed_decimal(n: int)
    ensures
        signed_decimal(n).len() > 1,
        signed_decimal(n)[0] == (if n < 0 {
            '-'
        } else {
            '+'
        }),
        numeral(signed_decimal(n).skip(1)) == (if n < 0 {
            -n
        } else {
            n
        }),
        forall|i: int|
            1 <= i < signed_decimal(n).len() ==> '0' <= #[trigger] signed_decimal(n)[i] <= '9',
        signed_decimal(n)[1] == '0' ==> n == 0,
{
    let size = if n < 0 {
        -n
    } else {
        n
    };
    law_decimal(size);
    assert(signed_decimal(n).skip(1) =~= decimal(size));
    assert forall|i: int| 1 <= i < signed_decimal(n).len() implies '0' <= #[trigger] signed_decimal(
        n,
    )[i] <= '9' by {
        assert(signed_decimal(n)[i] == decimal(size)[i - 1]);
    }
}

/// What is left when white space in front is taken away was there before.
pub proof fn lemma_trim_start_within(s: Seq<char>)
    ensures
        forall|i: int|
            0 <= i < trim_start(s).len() ==> s.contains(#[trigger] trim_start(s)[i]),
{
    let before = lemma_trim_start_parts(s);
    assert forall|i: int| 0 <= i < trim_start(s).len() implies s.contains(
        #[trigger] trim_start(s)[i],
    ) by {
        assert(s[before.len() + i] == trim_start(s)[i]);
    }
}

} // verus!
