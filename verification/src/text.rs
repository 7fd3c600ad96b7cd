//! Decimal numbers and strings of characters.

use vstd::arithmetic::power2::{lemma2_to64, lemma_pow2_unfold, pow2};
use vstd::prelude::*;

verus! {

/// `String::push` of the standard library: appends one character.
pub assume_specification[ String::push ](s: &mut String, c: char)
    ensures
        final(s)@ == old(s)@.push(c),
;

pub open spec fn digit(d: nat) -> char {
    (48 + d % 10) as char
}

/// `n` in decimal, without leading zeros.
pub open spec fn decimal(n: nat) -> Seq<char>
    decreases n,
{
    if n < 10 {
        seq![digit(n)]
    } else {
        decimal(n / 10).push(digit(n % 10))
    }
}

/// `n` in decimal, with a leading minus sign when negative.
pub open spec fn signed_decimal(n: int) -> Seq<char> {
    if n < 0 {
        seq!['-'] + decimal((-n) as nat)
    } else {
        decimal(n as nat)
    }
}

/// The last two decimal digits of `n`.
pub open spec fn two_digits(n: nat) -> Seq<char> {
    seq![digit(n / 10), digit(n)]
}

pub fn digit_char(d: u8) -> (r: char)
    requires
        d < 10,
    ensures
        r == digit(d as nat),
{
    (48 + d) as char
}

/// Appends `n` in decimal.
pub fn push_decimal(out: &mut String, n: u64)
    ensures
        final(out)@ == old(out)@ + decimal(n as nat),
    decreases n,
{
    if n >= 10 {
        push_decimal(out, n / 10);
    }
    out.push(digit_char((n % 10) as u8));
}

/// Appends `n` in decimal, with its sign when negative.
pub fn push_signed(out: &mut String, n: i64)
    ensures
        final(out)@ == old(out)@ + signed_decimal(n as int),
{
    if n < 0 {
        out.push('-');
        let m: u64 = if n == i64::MIN {
            0x8000_0000_0000_0000
        } else {
            (-n) as u64
        };
        push_decimal(out, m);
    } else {
        push_decimal(out, n as u64);
    }
}

/// The characters of `s`.
pub fn to_chars(s: &str) -> (r: Vec<char>)
    ensures
        r@ == s@,
{
    let mut out: Vec<char> = Vec::new();
    for c in it: s.chars()
        invariant
            it.seq() == s@,
            out@ == s@.take(it.index()),
    {
        out.push(c);
    }
    out
}

/// The string of the characters `from..to`.
pub fn from_chars(chars: &Vec<char>, from: usize, to: usize) -> (r: String)
    requires
        from <= to <= chars.len(),
    ensures
        r@ == chars@.subrange(from as int, to as int),
{
    let mut out = String::new();
    let mut i: usize = from;
    while i < to
        invariant
            from <= i <= to <= chars.len(),
            out@ == chars@.subrange(from as int, i as int),
        decreases to - i,
    {
        out.push(chars[i]);
        i = i + 1;
    }
    out
}

/// The number whose decimal digits are `s`, least significant first.
spec fn little_endian(s: Seq<u8>) -> nat
    decreases s.len(),
{
    if s.len() == 0 {
        0
    } else {
        s[0] as nat + 10 * little_endian(s.drop_first())
    }
}

spec fn all_digits(s: Seq<u8>) -> bool {
    forall|i: int| 0 <= i < s.len() ==> #[trigger] s[i] < 10
}

/// Doubles the digits from place `i` on and adds `carry` there.
fn double_from(d: &mut Vec<u8>, i: usize, carry: u8)
    requires
        i <= old(d).len(),
        carry <= 1,
        all_digits(old(d)@),
        old(d).len() > 0 && (carry == 0 || i < old(d).len()) ==> old(d)@.last() != 0,
    ensures
        all_digits(final(d)@),
        final(d).len() >= old(d).len(),
        final(d)@.take(i as int) == old(d)@.take(i as int),
        little_endian(final(d)@.skip(i as int)) == 2 * little_endian(old(d)@.skip(i as int)) + carry,
        final(d).len() > 0 ==> final(d)@.last() != 0,
    decreases old(d).len() - i,
{
    if i == d.len() {
        assert(d@.skip(i as int) =~= Seq::<u8>::empty());
        assert(little_endian(Seq::<u8>::empty()) == 0);
        if carry > 0 {
            d.push(carry);
            assert(d@.skip(i as int) =~= seq![carry]);
            assert(d@.skip(i as int).drop_first() =~= Seq::<u8>::empty());
        }
    } else {
        let ghost before = d@;
        let t: u8 = 2 * d[i] + carry;
        d.set(i, t % 10);
        let ghost mid = d@;
        double_from(d, i + 1, t / 10);
        proof {
            assert(before.skip(i as int).drop_first() =~= before.skip(i + 1));
            assert(mid.skip(i + 1) =~= before.skip(i + 1));
            assert(d@.skip(i as int).drop_first() =~= d@.skip(i + 1));
            assert(d@.take(i + 1)[i as int] == mid.take(i + 1)[i as int]);
            assert(d@.take(i as int) =~= d@.take(i + 1).take(i as int));
            assert(before.take(i as int) =~= mid.take(i + 1).take(i as int));
        }
    }
}

/// The decimal digits of `m`, least significant first.
fn digits_of(m: u64) -> (d: Vec<u8>)
    ensures
        all_digits(d@),
        little_endian(d@) == m,
        d.len() > 0 ==> d@.last() != 0,
    decreases m,
{
    if m == 0 {
        Vec::new()
    } else {
        let mut d = digits_of(m / 2);
        let ghost before = d@;
        double_from(&mut d, 0, (m % 2) as u8);
        assert(before.skip(0) =~= before);
        assert(d@.skip(0) =~= d@);
        d
    }
}

proof fn lemma_decimal(s: Seq<u8>)
    requires
        s.len() > 0,
        all_digits(s),
        s.last() != 0,
    ensures
        little_endian(s) > 0,
        decimal(little_endian(s)) == if s.len() == 1 {
            seq![digit(s[0] as nat)]
        } else {
            decimal(little_endian(s.drop_first())).push(digit(s[0] as nat))
        },
    decreases s.len(),
{
    let r = s.drop_first();
    if s.len() > 1 {
        assert(r.last() == s.last());
        assert(all_digits(r)) by {
            assert forall|i: int| 0 <= i < r.len() implies #[trigger] r[i] < 10 by {
                assert(r[i] == s[i + 1]);
            }
        }
        lemma_decimal(r);
        assert(little_endian(s) / 10 == little_endian(r) && little_endian(s) % 10 == s[0]);
    } else {
        assert(r =~= Seq::<u8>::empty());
        assert(little_endian(r) == 0);
    }
}

/// Appends `m * 2^d` in decimal.
pub fn push_shifted(out: &mut String, m: u64, d: u32)
    ensures
        final(out)@ == old(out)@ + decimal(m as nat * pow2(d as nat)),
{
    let mut v = digits_of(m);
    let mut i: u32 = 0;
    proof {
        lemma2_to64();
        assert(m as nat * pow2(0) == m) by (nonlinear_arith)
            requires
                pow2(0) == 1,
        ;
    }
    while i < d
        invariant
            i <= d,
            all_digits(v@),
            little_endian(v@) == m as nat * pow2(i as nat),
            v.len() > 0 ==> v@.last() != 0,
        decreases d - i,
    {
        let ghost before = v@;
        double_from(&mut v, 0, 0);
        proof {
            assert(before.skip(0) =~= before);
            assert(v@.skip(0) =~= v@);
            lemma_pow2_unfold((i + 1) as nat);
            let p = pow2(i as nat);
            assert(m as nat * (2 * p) == 2 * (m as nat * p)) by (nonlinear_arith);
        }
        i = i + 1;
    }
    if v.len() == 0 {
        out.push('0');
        return;
    }
    let ghost start = out@;
    let mut j: usize = v.len();
    while j > 0
        invariant
            j <= v.len(),
            v.len() > 0,
            all_digits(v@),
            v@.last() != 0,
            out@ == if j == v.len() {
                start
            } else {
                start + decimal(little_endian(v@.skip(j as int)))
            },
        decreases j,
    {
        j = j - 1;
        proof {
            let s = v@.skip(j as int);
            assert(s.last() == v@.last());
            lemma_decimal(s);
            assert(s.drop_first() =~= v@.skip(j + 1));
        }
        out.push(digit_char(v[j]));
    }
    assert(v@.skip(0) =~= v@);
}

/// Whether two strings hold the same characters.
pub fn same(a: &str, b: &str) -> (r: bool)
    ensures
        r == (a@ == b@),
{
    a.to_owned() == b.to_owned()
}

/// The characters with the Unicode property `White_Space`.
pub open spec fn is_space(c: char) -> bool {
    let n = c as int;
    ||| 0x9 <= n <= 0xD
    ||| n == 0x20 || n == 0x85 || n == 0xA0 || n == 0x1680
    ||| 0x2000 <= n <= 0x200A
    ||| n == 0x2028 || n == 0x2029 || n == 0x202F || n == 0x205F || n == 0x3000
}

fn space(c: char) -> (r: bool)
    ensures
        r == is_space(c),
{
    let n: u32 = c as u32;
    (0x9 <= n && n <= 0xD) || n == 0x20 || n == 0x85 || n == 0xA0 || n == 0x1680 || (0x2000 <= n
        && n <= 0x200A) || n == 0x2028 || n == 0x2029 || n == 0x202F || n == 0x205F || n == 0x3000
}

/// The words of `s` with one space between them.
pub open spec fn collapsed(s: Seq<char>) -> Seq<char>
    decreases s.len(),
{
    if s.len() == 0 {
        seq![]
    } else {
        let rest = s.drop_last();
        let c = s.last();
        let done = collapsed(rest);
        if is_space(c) {
            done
        } else if done.len() == 0 || !is_space(rest.last()) {
            done.push(c)
        } else {
            done.push(' ').push(c)
        }
    }
}

/// The words of `s` with one space between them.
pub fn collapse(s: &str) -> (r: String)
    ensures
        r@ == collapsed(s@),
{
    let chars = to_chars(s);
    let mut out = String::new();
    let mut empty = true;
    let mut i: usize = 0;
    while i < chars.len()
        invariant
            i <= chars.len(),
            out@ == collapsed(chars@.take(i as int)),
            empty == (out@.len() == 0),
        decreases chars.len() - i,
    {
        proof {
            assert(chars@.take(i + 1).drop_last() =~= chars@.take(i as int));
        }
        let c = chars[i];
        if !space(c) {
            if !empty && space(chars[i - 1]) {
                out.push(' ');
            }
            out.push(c);
            empty = false;
        }
        i = i + 1;
    }
    assert(chars@.take(i as int) =~= s@);
    out
}

/// At most `max` characters of `s`, the last an ellipsis where it was cut.
pub open spec fn truncated(s: Seq<char>, max: nat) -> Seq<char> {
    if s.len() <= max {
        s
    } else if max == 0 {
        seq![]
    } else {
        s.take(max - 1).push('…')
    }
}

/// Truncates to at most `max` characters, the last an ellipsis where it was
/// cut.
pub fn truncate_chars(s: &str, max: usize) -> (r: String)
    ensures
        r@ == truncated(s@, max as nat),
        r@.len() <= max,
{
    let chars = to_chars(s);
    if chars.len() <= max {
        let r = from_chars(&chars, 0, chars.len());
        assert(r@ =~= s@);
        return r;
    }
    if max == 0 {
        return String::new();
    }
    let mut out = from_chars(&chars, 0, max - 1);
    out.push('…');
    assert(out@ =~= truncated(s@, max as nat));
    out
}

/// The items of `parts` with `sep` between them.
pub open spec fn joined(parts: Seq<Seq<char>>, sep: Seq<char>) -> Seq<char>
    decreases parts.len(),
{
    if parts.len() == 0 {
        seq![]
    } else if parts.len() == 1 {
        parts[0]
    } else {
        joined(parts.drop_last(), sep) + sep + parts.last()
    }
}

pub open spec fn is_digit(c: char) -> bool {
    48 <= c as int <= 57
}

pub open spec fn is_numeral(s: Seq<char>) -> bool {
    forall|i: int| 0 <= i < s.len() ==> is_digit(#[trigger] s[i])
}

/// The number that a sequence of digits stands for.
pub open spec fn number(s: Seq<char>) -> nat
    decreases s.len(),
{
    if s.len() == 0 {
        0
    } else {
        (10 * number(s.drop_last()) + (s.last() as int - 48)) as nat
    }
}

/// The digits of a number, without the plus sign it may begin with.
pub open spec fn unsigned_part(s: Seq<char>) -> Seq<char> {
    if s.len() > 0 && s[0] == '+' {
        s.skip(1)
    } else {
        s
    }
}

/// The number of 64 bits that `s` stands for, in decimal, if it does.
pub open spec fn parsed_u64(s: Seq<char>) -> Option<nat> {
    let d = unsigned_part(s);
    if d.len() > 0 && is_numeral(d) && number(d) <= u64::MAX {
        Some(number(d))
    } else {
        None
    }
}

/// The number of 64 bits that `s` stands for, as `str::parse` reads it.
pub fn parse_u64(s: &str) -> (r: Option<u64>)
    ensures
        match r {
            Some(n) => parsed_u64(s@) == Some(n as nat),
            None => parsed_u64(s@) is None,
        },
{
    let chars = to_chars(s);
    let from: usize = if chars.len() > 0 && chars[0] == '+' {
        1
    } else {
        0
    };
    let ghost d = unsigned_part(s@);
    assert(d =~= chars@.skip(from as int));
    if chars.len() == from {
        return None;
    }
    let mut n: u64 = 0;
    let mut big = false;
    let mut i: usize = from;
    while i < chars.len()
        invariant
            from <= i <= chars.len(),
            d == chars@.skip(from as int),
            d == unsigned_part(s@),
            d.len() > 0,
            forall|k: int| 0 <= k < i - from ==> is_digit(#[trigger] d[k]),
            !big ==> n == number(d.take(i - from)),
            big ==> number(d.take(i - from)) > u64::MAX,
        decreases chars.len() - i,
    {
        let c = chars[i];
        assert(d[i - from] == c);
        if c < '0' || c > '9' {
            assert(!is_numeral(d)) by {
                assert(!is_digit(d[i - from]));
            }
            return None;
        }
        let v: u64 = (c as u32 - 48) as u64;
        proof {
            assert(d.take(i - from + 1).drop_last() =~= d.take(i - from));
        }
        if !big {
            if n > (u64::MAX - v) / 10 {
                big = true;
            } else {
                n = 10 * n + v;
            }
        }
        i = i + 1;
    }
    assert(d.take(i - from) =~= d);
    if big {
        None
    } else {
        Some(n)
    }
}

/// A text is cut to the limit. One within the limit is left as it is; of one
/// beyond it the beginning stays, and an ellipsis where there is room for one.
pub proof fn truncation_keeps_to_the_limit(s: Seq<char>, max: nat)
    ensures
        truncated(s, max).len() <= max,
        s.len() <= max ==> truncated(s, max) == s,
        s.len() > max ==> truncated(s, max).len() == max,
        s.len() > max > 0 ==> truncated(s, max).last() == '…' && truncated(s, max).drop_last()
            == s.take(max - 1),
{
    if s.len() > max > 0 {
        assert(truncated(s, max).drop_last() =~= s.take(max - 1));
    }
}

/// Words with single spaces between them: no space at either end, none beside
/// another, and none but the plain one.
pub open spec fn is_tidy(s: Seq<char>) -> bool {
    &&& s.len() > 0 ==> !is_space(s[0]) && !is_space(s.last())
    &&& forall|i: int| 0 <= i < s.len() && is_space(#[trigger] s[i]) ==> s[i] == ' '
    &&& forall|i: int|
        0 <= i < s.len() - 1 && is_space(#[trigger] s[i]) ==> !is_space(s[i + 1])
}

/// Collapsing leaves single spaces between the words and nothing around them.
pub proof fn collapsing_tidies(s: Seq<char>)
    ensures
        is_tidy(collapsed(s)),
    decreases s.len(),
{
    if s.len() > 0 {
        let rest = s.drop_last();
        let c = s.last();
        collapsing_tidies(rest);
        let done = collapsed(rest);
        let r = collapsed(s);
        if !is_space(c) {
            assert(r.last() == c);
            if done.len() == 0 {
                assert(r =~= seq![c]);
            } else {
                assert(r[0] == done[0]);
                assert forall|i: int| 0 <= i < r.len() && is_space(#[trigger] r[i]) implies r[i]
                    == ' ' && (i < r.len() - 1 ==> !is_space(r[i + 1])) by {
                    if i < done.len() {
                        assert(r[i] == done[i]);
                        if i < done.len() - 1 {
                            assert(r[i + 1] == done[i + 1]);
                        }
                    }
                }
            }
        }
    }
}

/// A tidy text is left as it is.
pub proof fn tidy_texts_stay(s: Seq<char>)
    requires
        is_tidy(s),
    ensures
        collapsed(s) == s,
{
    lemma_tidy_prefix(s, s.len() as int);
    assert(s.take(s.len() as int) =~= s);
}

proof fn lemma_tidy_prefix(s: Seq<char>, n: int)
    requires
        is_tidy(s),
        0 <= n <= s.len(),
    ensures
        collapsed(s.take(n)) == if n > 0 && is_space(s[n - 1]) {
            s.take(n - 1)
        } else {
            s.take(n)
        },
    decreases n,
{
    let t = s.take(n);
    if n > 0 {
        assert(t.drop_last() =~= s.take(n - 1));
        lemma_tidy_prefix(s, n - 1);
        if n > 1 {
            assert(is_space(s[n - 2]) ==> !is_space(s[n - 1]));
            assert(t.drop_last().last() == s[n - 2]);
            if is_space(s[n - 2]) {
                assert(n - 2 > 0);
                assert(s.take(n - 2).push(' ').push(s[n - 1]) =~= t);
            } else {
                assert(s.take(n - 1).push(s[n - 1]) =~= t);
            }
        } else {
            assert(seq![].push(s[0]) =~= t);
        }
    } else {
        assert(t =~= seq![]);
    }
}

/// The digits of a number stand for it, and the first is no zero unless it is the
/// only one.
pub proof fn decimals_stand_for_their_number(n: nat)
    ensures
        number(decimal(n)) == n,
        is_numeral(decimal(n)),
        decimal(n).len() > 0,
        n > 0 ==> decimal(n)[0] != '0',
        n <= u64::MAX ==> parsed_u64(decimal(n)) == Some(n),
    decreases n,
{
    let s = decimal(n);
    if n >= 10 {
        decimals_stand_for_their_number(n / 10);
        assert(s.drop_last() =~= decimal(n / 10));
        assert(s[0] == decimal(n / 10)[0]);
        assert forall|i: int| 0 <= i < s.len() implies is_digit(#[trigger] s[i]) by {
            if i < s.len() - 1 {
                assert(s[i] == decimal(n / 10)[i]);
            }
        }
    } else {
        assert(s.drop_last() =~= seq![]);
        assert(number(s.drop_last()) == 0);
    }
    assert(is_digit(s[0]));
}

/// A negative number is written as a minus sign and its magnitude.
pub proof fn signs_stand_in_front(n: nat)
    ensures
        signed_decimal(n as int) == decimal(n),
        n > 0 ==> signed_decimal(-n) == seq!['-'] + decimal(n),
{
}

/// Two digits stand for a number below a hundred.
pub proof fn two_digits_stand_for_their_number(n: nat)
    requires
        n < 100,
    ensures
        two_digits(n).len() == 2,
        is_numeral(two_digits(n)),
        number(two_digits(n)) == n,
{
    let s = two_digits(n);
    assert(s.drop_last() =~= seq![digit(n / 10)]);
    assert(seq![digit(n / 10)].drop_last() =~= seq![]);
    assert(number(seq![]) == 0);
    assert(number(seq![digit(n / 10)]) == n / 10);
    assert(is_digit(s[0]) && is_digit(s[1]));
}

/// What is not white space in a text.
pub open spec fn letters(s: Seq<char>) -> Seq<char>
    decreases s.len(),
{
    if s.len() == 0 {
        seq![]
    } else if is_space(s.last()) {
        letters(s.drop_last())
    } else {
        letters(s.drop_last()).push(s.last())
    }
}

/// Collapsing loses nothing but white space.
pub proof fn collapsing_keeps_the_letters(s: Seq<char>)
    ensures
        letters(collapsed(s)) == letters(s),
        collapsed(s).len() == 0 <==> letters(s).len() == 0,
    decreases s.len(),
{
    if s.len() > 0 {
        let rest = s.drop_last();
        let c = s.last();
        let done = collapsed(rest);
        collapsing_keeps_the_letters(rest);
        if !is_space(c) {
            if done.len() == 0 || !is_space(rest.last()) {
                assert(done.push(c).drop_last() =~= done);
            } else {
                assert(done.push(' ').push(c).drop_last() =~= done.push(' '));
                assert(done.push(' ').drop_last() =~= done);
                assert(is_space(' '));
                assert(letters(done.push(' ')) == letters(done));
                assert(letters(done.push(' ').push(c)) == letters(done.push(' ')).push(c));
            }
        }
    }
}

/// Texts that white space parts are collapsed apart, with one space between them
/// where both have words.
pub proof fn collapsing_keeps_words_apart(a: Seq<char>, c: char, b: Seq<char>)
    requires
        is_space(c),
    ensures
        collapsed(a.push(c) + b) == if collapsed(a).len() == 0 {
            collapsed(b)
        } else if collapsed(b).len() == 0 {
            collapsed(a)
        } else {
            collapsed(a) + seq![' '] + collapsed(b)
        },
    decreases b.len(),
{
    let s = a.push(c) + b;
    if b.len() == 0 {
        assert(s =~= a.push(c));
        assert(s.drop_last() =~= a);
        if collapsed(a).len() == 0 {
            assert(collapsed(a) =~= collapsed(b));
        }
    } else {
        let rest = b.drop_last();
        collapsing_keeps_words_apart(a, c, rest);
        assert(s.drop_last() =~= a.push(c) + rest);
        assert(s.last() == b.last());
        if rest.len() == 0 {
            assert(s.drop_last().last() == c);
            assert(collapsed(rest) =~= seq![]);
        } else {
            assert(s.drop_last().last() == rest.last());
            collapsing_keeps_the_letters(rest);
            if collapsed(rest).len() == 0 {
                lemma_no_words(rest);
            }
        }
        assert(collapsed(s) =~= if collapsed(a).len() == 0 {
            collapsed(b)
        } else if collapsed(b).len() == 0 {
            collapsed(a)
        } else {
            collapsed(a) + seq![' '] + collapsed(b)
        });
    }
}

proof fn lemma_no_words(s: Seq<char>)
    requires
        collapsed(s).len() == 0,
        s.len() > 0,
    ensures
        is_space(s.last()),
{
}

/// Joining lists one after the other joins each of them, with the separator
/// between them.
pub proof fn joining_goes_on(a: Seq<Seq<char>>, b: Seq<Seq<char>>, sep: Seq<char>, one: Seq<char>)
    requires
        a.len() > 0,
        b.len() > 0,
    ensures
        joined(seq![one], sep) == one,
        joined(a + b, sep) == joined(a, sep) + sep + joined(b, sep),
    decreases b.len(),
{
    let all = a + b;
    assert(all.drop_last() =~= a + b.drop_last());
    assert(all.last() == b.last());
    if b.len() == 1 {
        assert(a + b.drop_last() =~= a);
    } else {
        joining_goes_on(a, b.drop_last(), sep, one);
    }
    assert(joined(all, sep) =~= joined(a, sep) + sep + joined(b, sep));
}

} // verus!
