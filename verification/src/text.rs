//! Characters and texts: white space, lower case, the order of texts, padding
//! and decimal numbers. A text is modelled by the sequence of its characters.

use vstd::prelude::*;
use vstd::string::StringExecFns;
use vstd::string::StrSliceExecFns;
use vstd::utf8::is_ascii_chars;

verus! {

/// The characters with the Unicode property `White_Space`, as `PropList.txt` lists them.
pub open spec fn white_space(c: char) -> bool {
    ||| '\u{9}' <= c <= '\u{d}'
    ||| c == '\u{20}'
    ||| c == '\u{85}'
    ||| c == '\u{a0}'
    ||| c == '\u{1680}'
    ||| '\u{2000}' <= c <= '\u{200a}'
    ||| c == '\u{2028}'
    ||| c == '\u{2029}'
    ||| c == '\u{202f}'
    ||| c == '\u{205f}'
    ||| c == '\u{3000}'
}

/// `char::is_whitespace`: whether the character has the property `White_Space`
/// of the Unicode Character Database.
pub assume_specification[ char::is_whitespace ](c: char) -> (b: bool)
    ensures
        b == white_space(c),
;

/// `String::push`: appends one character.
pub assume_specification[ String::push ](s: &mut String, ch: char)
    ensures
        final(s)@ == old(s)@.push(ch),
;

/// What `str::to_lowercase` makes of a text.
pub uninterp spec fn lower_text(s: Seq<char>) -> Seq<char>;

/// `str::to_lowercase`: the text in lower case by the Unicode rules, which
/// depends on the text alone. In a text of ASCII characters the letters `A` to
/// `Z` become `a` to `z` and every other character stays. What becomes of a text
/// with other characters is named, not stated: neither that the case of its ASCII
/// letters makes no difference, nor that lowering it twice is lowering it once.
pub assume_specification[ str::to_lowercase ](s: &str) -> (lower: String)
    ensures
        lower@ == lower_text(s@),
        is_ascii_chars(s@) ==> lower@ == ascii_lower(s@),
;

/// What the `Debug` form of a text is: the text in double quotes, with escapes.
pub uninterp spec fn quoted_text(s: Seq<char>) -> Seq<char>;

/// `<str as Debug>::fmt`, through `format!`: the text in double quotes, with
/// control characters and quotes escaped. The result depends on the text alone;
/// which escape each character gets is named, not stated.
#[verifier::external_body]
pub(crate) fn quoted(s: &str) -> (q: String)
    ensures
        q@ == quoted_text(s@),
{
    format!("{:?}", s)
}

/// The lower case of an ASCII letter; any other character is its own.
pub open spec fn ascii_lower_char(c: char) -> char {
    if 'A' <= c <= 'Z' {
        ((c as u32 + 32) as u32) as char
    } else {
        c
    }
}

/// A text with its ASCII letters in lower case.
pub open spec fn ascii_lower(s: Seq<char>) -> Seq<char> {
    s.map_values(|c: char| ascii_lower_char(c))
}

/// A text in lower case.
pub open spec fn folded(s: Seq<char>) -> Seq<char> {
    if is_ascii_chars(s) {
        ascii_lower(s)
    } else {
        lower_text(s)
    }
}

/// A text in lower case.
pub fn fold(s: &str) -> (lower: String)
    ensures
        lower@ == folded(s@),
        lower@ == lower_text(s@),
{
    s.to_lowercase()
}

/// The characters of a text.
pub fn chars_of(s: &str) -> (chars: Vec<char>)
    ensures
        chars@ == s@,
{
    let mut chars: Vec<char> = Vec::new();
    for c in it: s.chars()
        invariant
            it.seq() == s@,
            chars@ == s@.take(it.index() as int),
    {
        proof {
            assert(s@.take(it.index() as int + 1) =~= s@.take(it.index() as int).push(c));
        }
        chars.push(c);
    }
    assert(s@.take(s@.len() as int) =~= s@);
    chars
}

/// The text made of the characters from `from` up to `to`.
pub fn text_of(chars: &Vec<char>, from: usize, to: usize) -> (s: String)
    requires
        from <= to <= chars@.len(),
    ensures
        s@ == chars@.subrange(from as int, to as int),
{
    let mut s = String::new();
    let mut i: usize = from;
    while i < to
        invariant
            from <= i <= to <= chars@.len(),
            s@ == chars@.subrange(from as int, i as int),
        decreases to - i,
    {
        assert(chars@.subrange(from as int, i + 1) =~= chars@.subrange(from as int, i as int).push(
            chars@[i as int],
        ));
        s.push(chars[i]);
        i += 1;
    }
    s
}

/// A text without the white space at its two ends.
pub open spec fn trimmed(s: Seq<char>) -> Seq<char> {
    strip(s, |c: char| white_space(c), |c: char| white_space(c))
}

/// A sequence without the leading characters that `drop` picks.
pub open spec fn strip_start(s: Seq<char>, drop: spec_fn(char) -> bool) -> Seq<char>
    decreases s.len(),
{
    if s.len() > 0 && drop(s[0]) {
        strip_start(s.drop_first(), drop)
    } else {
        s
    }
}

/// A sequence without the trailing characters that `drop` picks.
pub open spec fn strip_end(s: Seq<char>, drop: spec_fn(char) -> bool) -> Seq<char>
    decreases s.len(),
{
    if s.len() > 0 && drop(s.last()) {
        strip_end(s.drop_last(), drop)
    } else {
        s
    }
}

/// A sequence without the leading characters that `front` picks, and then without the
/// trailing ones that `back` picks.
pub open spec fn strip(
    s: Seq<char>,
    front: spec_fn(char) -> bool,
    back: spec_fn(char) -> bool,
) -> Seq<char> {
    strip_end(strip_start(s, front), back)
}

/// Where characters `a..b` remain and everything outside them is dropped, they are
/// what stripping leaves.
pub proof fn lemma_strip_range(
    s: Seq<char>,
    front: spec_fn(char) -> bool,
    back: spec_fn(char) -> bool,
    a: int,
    b: int,
)
    requires
        0 <= a <= b <= s.len(),
        forall|i: int| 0 <= i < a ==> front(#[trigger] s[i]),
        forall|i: int| b <= i < s.len() ==> back(#[trigger] s[i]),
        a < b ==> !front(s[a]) && !back(s[b - 1]),
    ensures
        strip(s, front, back) == s.subrange(a, b),
{
    if a == b {
        lemma_strip_all(s, front, back, a);
        assert(s.subrange(a, b) =~= Seq::<char>::empty());
    } else {
        lemma_strip_start_at(s, front, a);
        let t = s.skip(a);
        lemma_strip_end_at(t, back, b - a);
        assert(t.take(b - a) =~= s.subrange(a, b));
    }
}

/// Nothing remains where everything up to some place is dropped at the start and
/// everything from there on at the end.
proof fn lemma_strip_all(
    s: Seq<char>,
    front: spec_fn(char) -> bool,
    back: spec_fn(char) -> bool,
    a: int,
)
    requires
        0 <= a <= s.len(),
        forall|i: int| 0 <= i < a ==> front(#[trigger] s[i]),
        forall|i: int| a <= i < s.len() ==> back(#[trigger] s[i]),
    ensures
        strip(s, front, back) == Seq::<char>::empty(),
    decreases s.len(),
{
    if s.len() > 0 && front(s[0]) {
        let t = s.drop_first();
        let n = if a > 0 {
            a - 1
        } else {
            0
        };
        assert forall|i: int| 0 <= i < n implies front(#[trigger] t[i]) by {
            assert(t[i] == s[i + 1]);
        }
        assert forall|i: int| n <= i < t.len() implies back(#[trigger] t[i]) by {
            assert(t[i] == s[i + 1]);
        }
        lemma_strip_all(t, front, back, n);
    } else {
        assert(s.len() > 0 && a > 0 ==> front(s[0]));
        lemma_strip_end_all(s, back);
    }
}

/// Nothing remains where everything is dropped at the end.
proof fn lemma_strip_end_all(s: Seq<char>, drop: spec_fn(char) -> bool)
    requires
        forall|i: int| 0 <= i < s.len() ==> drop(#[trigger] s[i]),
    ensures
        strip_end(s, drop) == Seq::<char>::empty(),
    decreases s.len(),
{
    if s.len() > 0 {
        assert(drop(s[s.len() - 1]));
        let t = s.drop_last();
        assert forall|i: int| 0 <= i < t.len() implies drop(#[trigger] t[i]) by {
            assert(t[i] == s[i]);
        }
        lemma_strip_end_all(t, drop);
    } else {
        assert(s =~= Seq::<char>::empty());
    }
}

/// Stripping the start removes exactly the first `a` characters when they are all
/// dropped and the next one is kept.
proof fn lemma_strip_start_at(s: Seq<char>, drop: spec_fn(char) -> bool, a: int)
    requires
        0 <= a < s.len(),
        forall|i: int| 0 <= i < a ==> drop(#[trigger] s[i]),
        !drop(s[a]),
    ensures
        strip_start(s, drop) == s.skip(a),
    decreases a,
{
    if a > 0 {
        let t = s.drop_first();
        assert(drop(s[0]));
        assert forall|i: int| 0 <= i < a - 1 implies drop(#[trigger] t[i]) by {
            assert(t[i] == s[i + 1]);
        }
        assert(t[a - 1] == s[a]);
        lemma_strip_start_at(t, drop, a - 1);
        assert(t.skip(a - 1) =~= s.skip(a));
    } else {
        assert(s.skip(0) =~= s);
    }
}

/// Stripping the end leaves exactly the first `b` characters when the last of them
/// is kept and all that follow are dropped.
proof fn lemma_strip_end_at(s: Seq<char>, drop: spec_fn(char) -> bool, b: int)
    requires
        0 < b <= s.len(),
        forall|i: int| b <= i < s.len() ==> drop(#[trigger] s[i]),
        !drop(s[b - 1]),
    ensures
        strip_end(s, drop) == s.take(b),
    decreases s.len(),
{
    if b < s.len() {
        let t = s.drop_last();
        assert(drop(s[s.len() - 1]));
        assert forall|i: int| b <= i < t.len() implies drop(#[trigger] t[i]) by {
            assert(t[i] == s[i]);
        }
        assert(t[b - 1] == s[b - 1]);
        lemma_strip_end_at(t, drop, b);
        assert(t.take(b) =~= s.take(b));
    } else {
        assert(s.take(b) =~= s);
    }
}

/// A text without the white space at its two ends.
pub fn trim(s: &str) -> (t: String)
    ensures
        t@ == trimmed(s@),
{
    let chars = chars_of(s);
    let mut a: usize = 0;
    let ghost drop = |c: char| white_space(c);
    while a < chars.len() && chars[a].is_whitespace()
        invariant
            a <= chars@.len(),
            forall|i: int| 0 <= i < a ==> white_space(#[trigger] chars@[i]),
        decreases chars@.len() - a,
    {
        a += 1;
    }
    let mut b: usize = chars.len();
    while a < b && chars[b - 1].is_whitespace()
        invariant
            a <= b <= chars@.len(),
            forall|i: int| b <= i < chars@.len() ==> white_space(#[trigger] chars@[i]),
        decreases b,
    {
        b -= 1;
    }
    proof {
        lemma_strip_range(chars@, drop, drop, a as int, b as int);
    }
    text_of(&chars, a, b)
}

/// The order of texts: by the code points of their characters, the first
/// difference deciding; a text comes after each of its proper prefixes.
pub open spec fn text_lt(a: Seq<char>, b: Seq<char>) -> bool
    decreases a.len(),
{
    if b.len() == 0 {
        false
    } else if a.len() == 0 {
        true
    } else if a[0] != b[0] {
        a[0] < b[0]
    } else {
        text_lt(a.drop_first(), b.drop_first())
    }
}

/// No text comes before itself.
pub proof fn lemma_text_lt_irreflexive(a: Seq<char>)
    ensures
        !text_lt(a, a),
    decreases a.len(),
{
    if a.len() > 0 {
        lemma_text_lt_irreflexive(a.drop_first());
    }
}

/// The order of texts is transitive.
pub proof fn lemma_text_lt_transitive(a: Seq<char>, b: Seq<char>, c: Seq<char>)
    requires
        text_lt(a, b),
        text_lt(b, c),
    ensures
        text_lt(a, c),
    decreases a.len(),
{
    if a.len() > 0 && a[0] == b[0] && b[0] == c[0] {
        lemma_text_lt_transitive(a.drop_first(), b.drop_first(), c.drop_first());
    }
}

/// Of two different texts one comes before the other.
pub proof fn lemma_text_lt_total(a: Seq<char>, b: Seq<char>)
    ensures
        text_lt(a, b) || text_lt(b, a) || a == b,
    decreases a.len(),
{
    if a.len() > 0 && b.len() > 0 && a[0] == b[0] {
        lemma_text_lt_total(a.drop_first(), b.drop_first());
        if a.drop_first() == b.drop_first() {
            assert(a =~= seq![a[0]] + a.drop_first());
            assert(b =~= seq![b[0]] + b.drop_first());
        }
    } else if a.len() == 0 && b.len() == 0 {
        assert(a =~= b);
    }
}

/// Whether one text comes before another.
pub fn text_before(a: &str, b: &str) -> (before: bool)
    ensures
        before == text_lt(a@, b@),
{
    let x = chars_of(a);
    let y = chars_of(b);
    let mut i: usize = 0;
    assert(x@.skip(0) =~= x@);
    assert(y@.skip(0) =~= y@);
    while i < x.len() && i < y.len() && x[i] == y[i]
        invariant
            i <= x@.len(),
            i <= y@.len(),
            text_lt(x@, y@) == text_lt(x@.skip(i as int), y@.skip(i as int)),
        decreases x@.len() - i,
    {
        assert(x@.skip(i as int).drop_first() =~= x@.skip(i + 1));
        assert(y@.skip(i as int).drop_first() =~= y@.skip(i + 1));
        i += 1;
    }
    if i >= y.len() {
        false
    } else if i >= x.len() {
        true
    } else {
        x[i] < y[i]
    }
}

/// `n` spaces.
pub open spec fn spaces(n: nat) -> Seq<char> {
    Seq::new(n, |i: int| ' ')
}

/// A text filled up with spaces on its right, to at least `width` characters.
pub open spec fn padded_right(s: Seq<char>, width: nat) -> Seq<char> {
    if s.len() < width {
        s + spaces((width - s.len()) as nat)
    } else {
        s
    }
}

/// A text filled up with spaces on its left, to at least `width` characters.
pub open spec fn padded_left(s: Seq<char>, width: nat) -> Seq<char> {
    if s.len() < width {
        spaces((width - s.len()) as nat) + s
    } else {
        s
    }
}

/// `n` times the same character.
pub fn repeated(c: char, n: usize) -> (s: String)
    ensures
        s@ == Seq::new(n as nat, |i: int| c),
{
    let mut s = String::new();
    let mut i: usize = 0;
    while i < n
        invariant
            i <= n,
            s@ =~= Seq::new(i as nat, |k: int| c),
        decreases n - i,
    {
        s.push(c);
        i += 1;
    }
    s
}

/// The text, filled up with spaces on its right.
pub fn pad_right(s: &str, width: usize) -> (p: String)
    ensures
        p@ == padded_right(s@, width as nat),
{
    let len: usize = s.unicode_len();
    let mut p = s.to_owned();
    if len < width {
        let fill = repeated(' ', width - len);
        p.append(fill.as_str());
        assert(fill@ =~= spaces((width - len) as nat));
    }
    p
}

/// The text, filled up with spaces on its left.
pub fn pad_left(s: &str, width: usize) -> (p: String)
    ensures
        p@ == padded_left(s@, width as nat),
{
    let len: usize = s.unicode_len();
    if len < width {
        let mut p = repeated(' ', width - len);
        assert(p@ =~= spaces((width - len) as nat));
        p.append(s);
        p
    } else {
        s.to_owned()
    }
}

/// The decimal digit of a number below ten.
pub open spec fn digit(d: int) -> char {
    (48 + d) as char
}

/// The decimal digits of a number, without leading zeros.
pub open spec fn digits(n: nat) -> Seq<char>
    decreases n,
{
    if n < 10 {
        seq![digit(n as int)]
    } else {
        digits(n / 10).push(digit((n % 10) as int))
    }
}

/// A number in decimal, with a minus sign where it is negative.
pub open spec fn decimal(n: int) -> Seq<char> {
    if n < 0 {
        seq!['-'] + digits((-n) as nat)
    } else {
        digits(n as nat)
    }
}

fn push_digits(s: &mut String, n: u64)
    ensures
        final(s)@ == old(s)@ + digits(n as nat),
    decreases n,
{
    let d: u8 = (n % 10) as u8;
    if n >= 10 {
        push_digits(s, n / 10);
    }
    s.push((48 + d) as char);
}

/// A number in decimal.
pub fn decimal_text(n: i64) -> (s: String)
    ensures
        s@ == decimal(n as int),
{
    let mut s = String::new();
    if n < 0 {
        s.push('-');
        let magnitude: u64 = (-(n as i128)) as u64;
        push_digits(&mut s, magnitude);
    } else {
        push_digits(&mut s, n as u64);
    }
    s
}

/// Lower case keeps the whole text: in an ASCII text each character stands where it
/// stood, only `A` to `Z` as `a` to `z`; any other text is what `str::to_lowercase`
/// makes of all of it.
pub proof fn law_fold_keeps_whole_text(s: Seq<char>)
    ensures
        is_ascii_chars(s) ==> {
            &&& folded(s).len() == s.len()
            &&& forall|i: int|
                0 <= i < s.len() ==> #[trigger] folded(s)[i] as int == if 'A' <= s[i] <= 'Z' {
                    s[i] as int + 32
                } else {
                    s[i] as int
                }
        },
        !is_ascii_chars(s) ==> folded(s) == lower_text(s),
{
    if is_ascii_chars(s) {
        assert forall|i: int| 0 <= i < s.len() implies #[trigger] folded(s)[i] as int == if 'A'
            <= s[i] <= 'Z' {
            s[i] as int + 32
        } else {
            s[i] as int
        } by {
            assert(folded(s)[i] == ascii_lower_char(s[i]));
        }
    }
}

/// Trimming takes all white space off the two ends of a text and nothing else.
pub proof fn law_trim_keeps_inside(before: Seq<char>, s: Seq<char>, after: Seq<char>)
    requires
        forall|i: int| 0 <= i < before.len() ==> white_space(#[trigger] before[i]),
        forall|i: int| 0 <= i < after.len() ==> white_space(#[trigger] after[i]),
        s.len() > 0 ==> !white_space(s[0]) && !white_space(s.last()),
    ensures
        trimmed(before + s + after) == s,
{
    let whole = before + s + after;
    let drop = |c: char| white_space(c);
    let a = before.len() as int;
    let b = a + s.len();
    assert forall|i: int| 0 <= i < a implies drop(#[trigger] whole[i]) by {
        assert(whole[i] == before[i]);
    }
    assert forall|i: int| b <= i < whole.len() implies drop(#[trigger] whole[i]) by {
        assert(whole[i] == after[i - b]);
    }
    if s.len() > 0 {
        assert(whole[a] == s[0]);
        assert(whole[b - 1] == s.last());
    }
    lemma_strip_range(whole, drop, drop, a, b);
    assert(whole.subrange(a, b) =~= s);
}

/// The order of texts goes by the first place at which they differ, and a text comes
/// before every longer one that begins with it.
pub proof fn law_text_order(common: Seq<char>, a: Seq<char>, b: Seq<char>)
    ensures
        a.len() > 0 && b.len() > 0 && a[0] != b[0] ==> text_lt(common + a, common + b) == (
        (a[0] as int) < b[0] as int),
        b.len() > 0 ==> text_lt(common, common + b) && !text_lt(common + b, common),
        !text_lt(common, common),
    decreases common.len(),
{
    if common.len() == 0 {
        assert(common + a =~= a);
        assert(common + b =~= b);
    } else {
        let rest = common.drop_first();
        law_text_order(rest, a, b);
        assert((common + a).drop_first() =~= rest + a);
        assert((common + b).drop_first() =~= rest + b);
    }
}

/// Padding reaches exactly the width with spaces alone, on the one side or the other,
/// and a text that is as long stays as it is.
pub proof fn law_padding_fills_with_spaces(s: Seq<char>, width: nat)
    ensures
        padded_right(s, width).len() == if s.len() < width {
            width
        } else {
            s.len()
        },
        padded_right(s, width).take(s.len() as int) == s,
        forall|i: int|
            s.len() <= i < padded_right(s, width).len() ==> #[trigger] padded_right(s, width)[i] == ' ',
        padded_left(s, width).len() == padded_right(s, width).len(),
        padded_left(s, width).skip(padded_left(s, width).len() - s.len()) == s,
        forall|i: int|
            0 <= i < padded_left(s, width).len() - s.len() ==> #[trigger] padded_left(s, width)[i]
                == ' ',
{
    assert(padded_right(s, width).take(s.len() as int) =~= s);
    assert(padded_left(s, width).skip(padded_left(s, width).len() - s.len()) =~= s);
}

/// The number that a row of decimal digits stands for.
pub open spec fn number_read(s: Seq<char>) -> int {
    s.fold_left(0, |n: int, c: char| 10 * n + (c as int - '0' as int))
}

/// A number in decimal is made of digits, has no zero in front of others, and reads as
/// that number; a negative one is its opposite behind a minus sign.
pub proof fn law_decimal_reads_back(n: int)
    ensures
        n >= 0 ==> number_read(decimal(n)) == n,
        n >= 0 ==> forall|i: int|
            0 <= i < decimal(n).len() ==> '0' <= #[trigger] decimal(n)[i] <= '9',
        n >= 0 ==> decimal(n).len() > 0 && (decimal(n).len() > 1 ==> decimal(n)[0] != '0'),
        n < 0 ==> decimal(n) == seq!['-'] + decimal(-n),
{
    if n >= 0 {
        lemma_digits_read_back(n as nat);
    }
}

proof fn lemma_digits_read_back(n: nat)
    ensures
        number_read(digits(n)) == n,
        forall|i: int| 0 <= i < digits(n).len() ==> '0' <= #[trigger] digits(n)[i] <= '9',
        digits(n).len() > 0,
        n > 0 ==> digits(n)[0] != '0',
        n < 10 ==> digits(n).len() == 1,
    decreases n,
{
    let f = |n: int, c: char| 10 * n + (c as int - '0' as int);
    if n < 10 {
        let d = digits(n);
        assert(d.drop_last() =~= Seq::<char>::empty());
        assert(d.drop_last().fold_left(0, f) == 0);
        assert(d.last() as int == 48 + n);
    } else {
        lemma_digits_read_back(n / 10);
        let d = digits(n);
        assert(d.drop_last() =~= digits(n / 10));
        assert(d.last() as int == 48 + n % 10);
        assert(n == 10 * (n / 10) + n % 10);
        assert(digits(n / 10)[0] == d[0]);
    }
}

} // verus!
