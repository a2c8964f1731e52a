//! Text helpers.

use vstd::prelude::*;
use vstd::string::*;

verus! {

/// Whether Unicode counts a character as white space.
pub open spec fn is_space(c: char) -> bool {
    let n = c as u32;
    ||| 0x9 <= n <= 0xD
    ||| n == 0x20
    ||| n == 0x85
    ||| n == 0xA0
    ||| n == 0x1680
    ||| 0x2000 <= n <= 0x200A
    ||| n == 0x2028
    ||| n == 0x2029
    ||| n == 0x202F
    ||| n == 0x205F
    ||| n == 0x3000
}

/// Whether `part` is `text` without the white space at its ends.
pub open spec fn is_trimmed(text: Seq<char>, part: Seq<char>) -> bool {
    exists|a: int, b: int| #[trigger] is_core(text, a, b) && part == text.subrange(a, b)
}

/// Whether `text` from `a` to `b` is what is between the white space at its ends.
pub open spec fn is_core(text: Seq<char>, a: int, b: int) -> bool {
    &&& 0 <= a <= b <= text.len()
    &&& forall|i: int| 0 <= i < a ==> is_space(#[trigger] text[i])
    &&& forall|i: int| b <= i < text.len() ==> is_space(#[trigger] text[i])
    &&& a < b ==> !is_space(text[a]) && !is_space(text[b - 1])
}

fn space(c: char) -> (r: bool)
    ensures
        r == is_space(c),
{
    let n: u32 = c as u32;
    (0x9 <= n && n <= 0xD) || n == 0x20 || n == 0x85 || n == 0xA0 || n == 0x1680 || (0x2000 <= n
        && n <= 0x200A) || n == 0x2028 || n == 0x2029 || n == 0x202F || n == 0x205F || n == 0x3000
}

/// The text without the white space at its ends.
pub fn trim(text: &str) -> (r: &str)
    ensures
        is_trimmed(text@, r@),
{
    let len: usize = text.unicode_len();
    let mut a: usize = 0;
    while a < len && space(text.get_char(a))
        invariant
            a <= len,
            len == text@.len(),
            forall|i: int| 0 <= i < a ==> is_space(#[trigger] text@[i]),
        decreases len - a,
    {
        a += 1;
    }
    let mut b: usize = len;
    while b > a && space(text.get_char(b - 1))
        invariant
            a <= b <= len,
            len == text@.len(),
            forall|i: int| b <= i < len ==> is_space(#[trigger] text@[i]),
        decreases b,
    {
        b -= 1;
    }
    assert(is_core(text@, a as int, b as int));
    text.substring_char(a, b)
}

/// There is one way to trim a text.
pub proof fn trim_is_unique(text: Seq<char>, p: Seq<char>, q: Seq<char>)
    requires
        is_trimmed(text, p),
        is_trimmed(text, q),
    ensures
        p == q,
{
    let (a, b) = choose|a: int, b: int| #[trigger] is_core(text, a, b) && p == text.subrange(a, b);
    let (c, d) = choose|a: int, b: int| #[trigger] is_core(text, a, b) && q == text.subrange(a, b);
    if a < b && c < d {
        if a < c {
            assert(is_space(text[a]));
        } else if c < a {
            assert(is_space(text[c]));
        }
        if b < d {
            assert(is_space(text[d - 1]));
        } else if d < b {
            assert(is_space(text[b - 1]));
        }
    } else if a < b {
        assert(is_space(text[a]));
    } else if c < d {
        assert(is_space(text[c]));
    } else {
        assert(p =~= q);
    }
}

/// The character of a decimal digit.
pub open spec fn digit(d: int) -> char {
    (d + 48) as char
}

/// The decimal digits of a number, without leading zeros.
pub open spec fn decimal(n: int) -> Seq<char>
    decreases n,
{
    if n < 10 {
        seq![digit(n)]
    } else {
        decimal(n / 10).push(digit(n % 10))
    }
}

/// Calls `itoa::Buffer::format` and copies the text out of the buffer.
///
/// Believed of it: the text is the number's decimal digits.
#[verifier::external_body]
pub(crate) fn decimal_text(n: u32) -> (r: String)
    ensures
        r@ == decimal(n as int),
{
    itoa::Buffer::new().format(n).to_string()
}

/// `String::clear` drops all contents.
pub assume_specification[ String::clear ](s: &mut String)
    ensures
        final(s)@ == Seq::<char>::empty(),
;

/// Whether a character is a decimal digit.
pub open spec fn is_digit(c: char) -> bool {
    48 <= c as int <= 57
}

/// Decimal text is made of digits, and starts with a zero only for zero itself.
pub proof fn decimal_is_digits(n: int)
    requires
        0 <= n,
    ensures
        decimal(n).len() > 0,
        forall|i: int| 0 <= i < decimal(n).len() ==> is_digit(#[trigger] decimal(n)[i]),
        n > 0 ==> decimal(n)[0] != digit(0),
    decreases n,
{
    if n >= 10 {
        decimal_is_digits(n / 10);
        assert forall|i: int| 0 <= i < decimal(n).len() implies is_digit(
            #[trigger] decimal(n)[i],
        ) by {
            if i < decimal(n).len() - 1 {
                assert(decimal(n)[i] == decimal(n / 10)[i]);
            }
        }
    }
}

/// Different numbers have different digits.
pub proof fn decimal_is_injective(m: int, n: int)
    requires
        0 <= m,
        0 <= n,
        decimal(m) == decimal(n),
    ensures
        m == n,
{
    if m < n {
        decimal_order(m, n);
        order_is_irreflexive(decimal(n));
    } else if n < m {
        decimal_order(n, m);
        order_is_irreflexive(decimal(n));
    }
}

/// Whether one text comes before another: the shorter first, and of equal length by the first
/// character in which they differ.
pub open spec fn comes_before(a: Seq<char>, b: Seq<char>) -> bool {
    a.len() < b.len() || (a.len() == b.len() && differs_below(a, b, a.len() as int))
}

/// Whether the first of the first `n` characters in which two texts differ is lower in `a`.
pub open spec fn differs_below(a: Seq<char>, b: Seq<char>, n: int) -> bool
    decreases n,
{
    n > 0 && (differs_below(a, b, n - 1) || (a.take(n - 1) == b.take(n - 1) && (a[n - 1] as int) < (
    b[n - 1] as int)))
}

/// Decimal numbers come in the order of their values.
pub proof fn decimal_order(m: int, n: int)
    requires
        0 <= m < n,
    ensures
        comes_before(decimal(m), decimal(n)),
    decreases n,
{
    if m < 10 {
        if n < 10 {
            assert(decimal(m).take(0) =~= decimal(n).take(0));
        } else {
            decimal_is_digits(n / 10);
        }
    } else {
        let a = decimal(m / 10);
        let b = decimal(n / 10);
        if m / 10 < n / 10 {
            decimal_order(m / 10, n / 10);
            if a.len() == b.len() {
                lemma_differs_below_prefix(a, b, digit(m % 10), digit(n % 10), a.len() as int);
            }
        } else {
            assert(decimal(m).take(a.len() as int) =~= a);
            assert(decimal(n).take(a.len() as int) =~= a);
        }
    }
}

proof fn lemma_differs_below_prefix(a: Seq<char>, b: Seq<char>, x: char, y: char, n: int)
    requires
        0 <= n <= a.len(),
        a.len() == b.len(),
        differs_below(a, b, n),
    ensures
        differs_below(a.push(x), b.push(y), n),
    decreases n,
{
    if differs_below(a, b, n - 1) {
        lemma_differs_below_prefix(a, b, x, y, n - 1);
    } else {
        assert(a.push(x).take(n - 1) =~= a.take(n - 1));
        assert(b.push(y).take(n - 1) =~= b.take(n - 1));
    }
}

/// Whether one text comes before another.
pub fn is_before(a: &str, b: &str) -> (r: bool)
    ensures
        r == comes_before(a@, b@),
{
    let n: usize = a.unicode_len();
    let m: usize = b.unicode_len();
    if n != m {
        return n < m;
    }
    let mut i: usize = 0;
    while i < n
        invariant
            i <= n,
            n == a@.len(),
            n == b@.len(),
            forall|j: int| 0 <= j < i ==> #[trigger] a@[j] == b@[j],
        decreases n - i,
    {
        let x: char = a.get_char(i);
        let y: char = b.get_char(i);
        if x as u32 != y as u32 {
            proof {
                lemma_first_difference(a@, b@, i as int, n as int);
            }
            return (x as u32) < (y as u32);
        }
        i += 1;
    }
    proof {
        assert(a@ =~= b@);
        order_is_irreflexive(a@);
    }
    false
}

proof fn lemma_first_difference(a: Seq<char>, b: Seq<char>, i: int, n: int)
    requires
        0 <= i <= n <= a.len(),
        a.len() == b.len(),
        i < a.len(),
        forall|j: int| 0 <= j < i ==> #[trigger] a[j] == b[j],
        a[i] != b[i],
    ensures
        differs_below(a, b, n) <==> i < n && (a[i] as int) < (b[i] as int),
    decreases n,
{
    if n > 0 {
        if i < n {
            lemma_first_difference(a, b, i, n - 1);
            if i < n - 1 {
                assert(a.take(n - 1)[i] != b.take(n - 1)[i]);
            } else {
                assert(a.take(n - 1) =~= b.take(n - 1));
            }
        } else {
            lemma_equal_prefix(a, b, n);
        }
    }
}

proof fn lemma_equal_prefix(a: Seq<char>, b: Seq<char>, n: int)
    requires
        0 <= n <= a.len(),
        a.len() == b.len(),
        forall|j: int| 0 <= j < n ==> #[trigger] a[j] == b[j],
    ensures
        !differs_below(a, b, n),
    decreases n,
{
    if n > 0 {
        lemma_equal_prefix(a, b, n - 1);
        assert(a[n - 1] == b[n - 1]);
    }
}

/// No text comes before itself.
pub proof fn order_is_irreflexive(a: Seq<char>)
    ensures
        !comes_before(a, a),
{
    lemma_equal_prefix(a, a, a.len() as int);
}

/// What comes before a text that comes before another comes before that other.
pub proof fn order_is_transitive(a: Seq<char>, b: Seq<char>, c: Seq<char>)
    requires
        comes_before(a, b),
        comes_before(b, c),
    ensures
        comes_before(a, c),
{
    if a.len() == c.len() {
        let i = lemma_difference_at(a, b, a.len() as int);
        let j = lemma_difference_at(b, c, a.len() as int);
        let k = if i < j {
            i
        } else {
            j
        };
        assert forall|h: int| 0 <= h < k implies #[trigger] a[h] == c[h] by {
            assert(a[h] == b[h]);
            assert(b[h] == c[h]);
        }
        if i < j {
            assert(b[i] == c[i]);
        } else if j < i {
            assert(a[j] == b[j]);
        }
        lemma_first_difference(a, c, k, a.len() as int);
    }
}

/// Where the first difference lies.
proof fn lemma_difference_at(a: Seq<char>, b: Seq<char>, n: int) -> (i: int)
    requires
        a.len() == b.len(),
        n <= a.len(),
        differs_below(a, b, n),
    ensures
        0 <= i < n,
        forall|j: int| 0 <= j < i ==> #[trigger] a[j] == b[j],
        (a[i] as int) < (b[i] as int),
    decreases n,
{
    if differs_below(a, b, n - 1) {
        lemma_difference_at(a, b, n - 1)
    } else {
        assert forall|j: int| 0 <= j < n - 1 implies #[trigger] a[j] == b[j] by {
            assert(a.take(n - 1)[j] == b.take(n - 1)[j]);
        }
        n - 1
    }
}

/// The same text in front of two others keeps their order.
pub proof fn order_is_kept_behind_a_prefix(p: Seq<char>, a: Seq<char>, b: Seq<char>)
    requires
        comes_before(a, b),
    ensures
        comes_before(p + a, p + b),
{
    if a.len() == b.len() {
        let i = lemma_difference_at(a, b, a.len() as int);
        let k = p.len() + i;
        assert forall|j: int| 0 <= j < k implies #[trigger] (p + a)[j] == (p + b)[j] by {
            if j >= p.len() {
                assert(a[j - p.len()] == b[j - p.len()]);
            }
        }
        lemma_first_difference(p + a, p + b, k as int, (p + a).len() as int);
    }
}

/// Shorter texts come first, and of two that are equally long the one that is lower in the first
/// character in which they differ.
pub proof fn first_difference_decides(a: Seq<char>, b: Seq<char>, i: int)
    ensures
        a.len() < b.len() ==> comes_before(a, b) && !comes_before(b, a),
        a.len() == b.len() && 0 <= i < a.len() && a.take(i) == b.take(i) && (a[i] as int) < (
        b[i] as int) ==> comes_before(a, b) && !comes_before(b, a),
{
    if a.len() == b.len() && 0 <= i < a.len() && a.take(i) == b.take(i) && (a[i] as int) < (
    b[i] as int) {
        assert forall|j: int| 0 <= j < i implies #[trigger] a[j] == b[j] by {
            assert(a.take(i)[j] == b.take(i)[j]);
        }
        lemma_first_difference(a, b, i, a.len() as int);
        lemma_first_difference(b, a, i, a.len() as int);
    }
}

/// The value of decimal digits, the first counting most.
pub open spec fn digits_value(t: Seq<char>) -> int
    decreases t.len(),
{
    if t.len() == 0 {
        0
    } else {
        10 * digits_value(t.drop_last()) + (t.last() as int - '0' as int)
    }
}

/// The digits of a number have its value, and but for zero the first of them is not a zero.
pub proof fn decimal_has_its_value(n: int)
    requires
        0 <= n,
    ensures
        digits_value(decimal(n)) == n,
        decimal(n).len() > 0,
        n > 0 ==> decimal(n)[0] != '0',
    decreases n,
{
    if n < 10 {
        assert(decimal(n).drop_last() =~= Seq::<char>::empty());
        reveal_with_fuel(digits_value, 2);
    } else {
        decimal_has_its_value(n / 10);
        assert(decimal(n).drop_last() =~= decimal(n / 10));
        assert(decimal(n)[0] == decimal(n / 10)[0]);
    }
}

/// Trimming takes white space from both ends and nothing else.
pub proof fn trimming_takes_white_space_only(before: Seq<char>, part: Seq<char>, after: Seq<char>)
    requires
        forall|i: int| 0 <= i < before.len() ==> is_space(#[trigger] before[i]),
        forall|i: int| 0 <= i < after.len() ==> is_space(#[trigger] after[i]),
        part.len() > 0,
        !is_space(part[0]),
        !is_space(part.last()),
    ensures
        is_trimmed(before + part + after, part),
{
    let t = before + part + after;
    let a = before.len() as int;
    let b = (before.len() + part.len()) as int;
    assert forall|i: int| 0 <= i < a implies is_space(#[trigger] t[i]) by {
        assert(t[i] == before[i]);
    }
    assert forall|i: int| b <= i < t.len() implies is_space(#[trigger] t[i]) by {
        assert(t[i] == after[i - b]);
    }
    assert(t[a] == part[0]);
    assert(t[b - 1] == part.last());
    assert(is_core(t, a, b));
    assert(t.subrange(a, b) =~= part);
}

/// Spaces, tabs and line ends are white space; letters, digits and signs are not.
pub proof fn usual_white_space(c: char)
    ensures
        c == ' ' || c == '\t' || c == '\n' || c == '\r' ==> is_space(c),
        '!' <= c <= '~' ==> !is_space(c),
{
}

} // verus!
