//! Merge keys of category labels: which spellings of a label count as one.

use vstd::prelude::*;
use vstd::utf8::is_ascii_chars;
use crate::text::{
    ascii_lower, ascii_lower_char, chars_of, fold, folded, law_fold_keeps_whole_text,
    lemma_strip_range, lower_text, strip, white_space,
};

verus! {

/// The characters that are ignored at the end of a label.
pub open spec fn padding(c: char) -> bool {
    white_space(c) || c == '.'
}

/// A label without the white space at its start and the padding at its end.
pub open spec fn bare(s: Seq<char>) -> Seq<char> {
    strip(s, |c: char| white_space(c), |c: char| padding(c))
}

/// The words of a text: its longest runs of characters that are no white space.
pub open spec fn words(s: Seq<char>) -> Seq<Seq<char>>
    decreases s.len(),
{
    if s.len() == 0 {
        Seq::empty()
    } else {
        let t = s.drop_last();
        let w = words(t);
        if white_space(s.last()) {
            w
        } else if t.len() > 0 && !white_space(t.last()) {
            w.drop_last().push(w.last().push(s.last()))
        } else {
            w.push(seq![s.last()])
        }
    }
}

/// Words with one space between them.
pub open spec fn joined(w: Seq<Seq<char>>) -> Seq<char>
    decreases w.len(),
{
    if w.len() == 0 {
        Seq::empty()
    } else if w.len() == 1 {
        w[0]
    } else {
        joined(w.drop_last()) + seq![' '] + w.last()
    }
}

/// A label without what is ignored at its ends, with one space between its words.
pub open spec fn plain_label(s: Seq<char>) -> Seq<char> {
    joined(words(bare(s)))
}

/// The merge key of a label: its words in lower case, with one space between them,
/// or `(none)` for a label of white space and periods alone.
pub open spec fn normal_key(s: Seq<char>) -> Seq<char> {
    if bare(s).len() == 0 {
        "(none)"@
    } else {
        folded(plain_label(s))
    }
}

/// Merge key for label variants that differ only by whitespace, trailing periods or
/// case, so that "International Affairs." lands in the same bucket as "International
/// Affairs". A period at the start of a label belongs to it: ".NET" is not "NET".
pub fn normalize_key(cat: &str) -> (key: String)
    ensures
        key@ == normal_key(cat@),
        bare(cat@).len() > 0 ==> key@ == lower_text(plain_label(cat@)),
{
    let chars = chars_of(cat);
    let ghost front = |c: char| white_space(c);
    let ghost back = |c: char| padding(c);
    let mut a: usize = 0;
    while a < chars.len() && chars[a].is_whitespace()
        invariant
            a <= chars@.len(),
            forall|i: int| 0 <= i < a ==> white_space(#[trigger] chars@[i]),
        decreases chars@.len() - a,
    {
        a += 1;
    }
    let mut b: usize = chars.len();
    while a < b && (chars[b - 1].is_whitespace() || chars[b - 1] == '.')
        invariant
            a <= b <= chars@.len(),
            forall|i: int| b <= i < chars@.len() ==> padding(#[trigger] chars@[i]),
        decreases b,
    {
        b -= 1;
    }
    let ghost kept = chars@.subrange(a as int, b as int);
    proof {
        lemma_strip_range(chars@, front, back, a as int, b as int);
    }
    if a == b {
        return "(none)".to_owned();
    }
    let mut plain = String::new();
    let mut gap = true;
    let mut i: usize = a;
    while i < b
        invariant
            a <= i <= b <= chars@.len(),
            kept == chars@.subrange(a as int, b as int),
            gap == (i == a || white_space(kept[i - a - 1])),
            plain@ == joined(words(kept.take(i - a))),
        decreases b - i,
    {
        let c: char = chars[i];
        let ghost t = kept.take(i - a);
        proof {
            assert(kept.take(i + 1 - a) =~= t.push(c));
            assert(joined(words(t)).push(' ').push(c) =~= joined(words(t)) + seq![' ', c]);
            assert(Seq::<char>::empty().push(c) =~= seq![c]);
            assert(joined(words(t)).len() == 0 ==> joined(words(t)) =~= Seq::<char>::empty());
            lemma_joined_grows(t, c);
            lemma_words_nonempty(t);
        }
        if c.is_whitespace() {
            gap = true;
        } else {
            if gap && !plain.as_str().is_empty() {
                plain.push(' ');
            }
            plain.push(c);
            gap = false;
        }
        i += 1;
    }
    assert(kept.take(b - a) =~= kept);
    fold(plain.as_str())
}

/// Every word has a character, and a text that ends within a word has one.
proof fn lemma_words_nonempty(s: Seq<char>)
    ensures
        forall|i: int| 0 <= i < words(s).len() ==> #[trigger] words(s)[i].len() > 0,
        s.len() > 0 && !white_space(s.last()) ==> words(s).len() > 0,
        joined(words(s)).len() == 0 <==> words(s).len() == 0,
    decreases s.len(),
{
    if s.len() > 0 {
        lemma_words_nonempty(s.drop_last());
    }
    let w = words(s);
    if w.len() == 1 {
        assert(w[0].len() > 0);
    }
}

/// What one more character does to the joined words of a text.
proof fn lemma_joined_grows(t: Seq<char>, c: char)
    ensures
        white_space(c) ==> joined(words(t.push(c))) == joined(words(t)),
        !white_space(c) && t.len() > 0 && !white_space(t.last()) ==> joined(words(t.push(c)))
            == joined(words(t)).push(c),
        !white_space(c) && (t.len() == 0 || white_space(t.last())) ==> joined(words(t.push(c))) == (
        if words(t).len() == 0 {
            seq![c]
        } else {
            joined(words(t)) + seq![' ', c]
        }),
{
    let s = t.push(c);
    let w = words(t);
    assert(s.drop_last() =~= t);
    lemma_words_nonempty(t);
    if !white_space(c) {
        if t.len() > 0 && !white_space(t.last()) {
            let v = w.drop_last().push(w.last().push(c));
            assert(v.drop_last() =~= w.drop_last());
            if w.len() == 1 {
                assert(v[0] =~= w[0].push(c));
            } else {
                assert(joined(v) =~= joined(w).push(c));
            }
        } else {
            let v = w.push(seq![c]);
            assert(v.drop_last() =~= w);
            if w.len() == 0 {
                assert(v[0] =~= seq![c]);
            } else {
                assert(joined(v) =~= joined(w) + seq![' ', c]);
            }
        }
    }
}

/// Where stripping cuts a text: the bounds of what it keeps.
proof fn lemma_bare_range(s: Seq<char>) -> (range: (int, int))
    ensures
        0 <= range.0 <= range.1 <= s.len(),
        forall|i: int| 0 <= i < range.0 ==> white_space(#[trigger] s[i]),
        forall|i: int| range.1 <= i < s.len() ==> padding(#[trigger] s[i]),
        range.0 < range.1 ==> !white_space(s[range.0]) && !padding(s[range.1 - 1]),
        bare(s) == s.subrange(range.0, range.1),
{
    let a = lemma_leading_space(s);
    let b = lemma_trailing_padding(s);
    let range: (int, int) = if a <= b {
        (a, b)
    } else {
        (a, a)
    };
    lemma_strip_range(s, |c: char| white_space(c), |c: char| padding(c), range.0, range.1);
    range
}

/// How far the white space at the start of a text goes.
proof fn lemma_leading_space(s: Seq<char>) -> (a: int)
    ensures
        0 <= a <= s.len(),
        forall|i: int| 0 <= i < a ==> white_space(#[trigger] s[i]),
        a < s.len() ==> !white_space(s[a]),
    decreases s.len(),
{
    if s.len() > 0 && white_space(s[0]) {
        let t = s.drop_first();
        let a = lemma_leading_space(t);
        assert forall|i: int| 0 <= i < a + 1 implies white_space(#[trigger] s[i]) by {
            if i > 0 {
                assert(t[i - 1] == s[i]);
            }
        }
        a + 1
    } else {
        0
    }
}

/// Where the padding at the end of a text begins.
proof fn lemma_trailing_padding(s: Seq<char>) -> (b: int)
    ensures
        0 <= b <= s.len(),
        forall|i: int| b <= i < s.len() ==> padding(#[trigger] s[i]),
        b > 0 ==> !padding(s[b - 1]),
    decreases s.len(),
{
    if s.len() > 0 && padding(s.last()) {
        let t = s.drop_last();
        let b = lemma_trailing_padding(t);
        assert forall|i: int| b <= i < s.len() implies padding(#[trigger] s[i]) by {
            if i < t.len() {
                assert(t[i] == s[i]);
            }
        }
        b
    } else {
        s.len() as int
    }
}

/// White space before a label, and white space and periods after it, do not change its
/// key.
pub proof fn law_padding_ignored(before: Seq<char>, s: Seq<char>, after: Seq<char>)
    requires
        forall|i: int| 0 <= i < before.len() ==> white_space(#[trigger] before[i]),
        forall|i: int| 0 <= i < after.len() ==> padding(#[trigger] after[i]),
    ensures
        bare(before + s + after) == bare(s),
        normal_key(before + s + after) == normal_key(s),
{
    let whole = before + s + after;
    let (a, b) = lemma_bare_range(s);
    let n = before.len();
    assert forall|i: int| 0 <= i < a + n implies white_space(#[trigger] whole[i]) by {
        if i < n {
            assert(whole[i] == before[i]);
        } else {
            assert(whole[i] == s[i - n]);
        }
    }
    assert forall|i: int| b + n <= i < whole.len() implies padding(#[trigger] whole[i]) by {
        if i < n + s.len() {
            assert(whole[i] == s[i - n]);
        } else {
            assert(whole[i] == after[i - n - s.len()]);
        }
    }
    if a < b {
        assert(whole[a + n] == s[a]);
        assert(whole[b + n - 1] == s[b - 1]);
    }
    lemma_strip_range(whole, |c: char| white_space(c), |c: char| padding(c), a + n, b + n);
    assert(whole.subrange(a + n, b + n) =~= s.subrange(a, b));
}

/// The words of two texts with white space between them are those of the first
/// followed by those of the second.
proof fn lemma_words_split(a: Seq<char>, gap: Seq<char>, b: Seq<char>)
    requires
        gap.len() > 0,
        forall|i: int| 0 <= i < gap.len() ==> white_space(#[trigger] gap[i]),
    ensures
        words(a + gap + b) == words(a) + words(b),
    decreases gap.len() + b.len(),
{
    let s = a + gap + b;
    if b.len() > 0 {
        let t = b.drop_last();
        assert(s.drop_last() =~= a + gap + t);
        lemma_words_split(a, gap, t);
        lemma_words_nonempty(t);
        if t.len() > 0 {
            assert((a + gap + t).last() == t.last());
        } else {
            assert((a + gap + t).last() == gap.last());
        }
        if !white_space(b.last()) && t.len() > 0 && !white_space(t.last()) {
            let w = words(a) + words(t);
            assert(w.drop_last() =~= words(a) + words(t).drop_last());
            assert(words(s) =~= words(a) + words(b));
        } else {
            assert(words(s) =~= words(a) + words(b));
        }
    } else {
        let g = gap.drop_last();
        assert(s.drop_last() =~= a + g);
        assert(white_space(s.last()));
        if g.len() > 0 {
            assert(a + g + b =~= a + g);
            lemma_words_split(a, g, b);
        } else {
            assert(a + g =~= a);
            assert(words(a) + words(b) =~= words(a));
        }
    }
}

/// The length and the kind of the white space at one place of a label do not change
/// its key.
pub proof fn law_gaps_ignored(a: Seq<char>, gap: Seq<char>, other: Seq<char>, b: Seq<char>)
    requires
        gap.len() > 0,
        forall|i: int| 0 <= i < gap.len() ==> white_space(#[trigger] gap[i]),
        other.len() > 0,
        forall|i: int| 0 <= i < other.len() ==> white_space(#[trigger] other[i]),
    ensures
        normal_key(a + gap + b) == normal_key(a + other + b),
{
    let start = lemma_leading_space(a);
    let end = lemma_trailing_padding(b);
    lemma_gap_words(a, gap, b, start, end);
    lemma_gap_words(a, other, b, start, end);
}

/// What a label with white space inside comes to, whatever that white space is.
proof fn lemma_gap_words(a: Seq<char>, gap: Seq<char>, b: Seq<char>, start: int, end: int)
    requires
        gap.len() > 0,
        forall|i: int| 0 <= i < gap.len() ==> white_space(#[trigger] gap[i]),
        0 <= start <= a.len(),
        forall|i: int| 0 <= i < start ==> white_space(#[trigger] a[i]),
        start < a.len() ==> !white_space(a[start]),
        0 <= end <= b.len(),
        forall|i: int| end <= i < b.len() ==> padding(#[trigger] b[i]),
        end > 0 ==> !padding(b[end - 1]),
    ensures
        start == a.len() ==> bare(a + gap + b) == bare(b),
        end == 0 ==> bare(a + gap + b) == bare(a),
        start < a.len() && end > 0 ==> bare(a + gap + b).len() > 0 && words(bare(a + gap + b))
            == words(a.skip(start)) + words(b.take(end)),
{
    let s = a + gap + b;
    let none = Seq::<char>::empty();
    if start == a.len() {
        assert forall|i: int| 0 <= i < (a + gap).len() implies white_space(
            #[trigger] (a + gap)[i],
        ) by {
            if i < a.len() {
                assert((a + gap)[i] == a[i]);
            } else {
                assert((a + gap)[i] == gap[i - a.len()]);
            }
        }
        law_padding_ignored(a + gap, b, none);
        assert((a + gap) + b + none =~= s);
    }
    if end == 0 {
        assert forall|i: int| 0 <= i < (gap + b).len() implies padding(#[trigger] (gap + b)[i]) by {
            if i < gap.len() {
                assert((gap + b)[i] == gap[i]);
            } else {
                assert((gap + b)[i] == b[i - gap.len()]);
            }
        }
        law_padding_ignored(none, a, gap + b);
        assert(none + a + (gap + b) =~= s);
    }
    if start < a.len() && end > 0 {
        let n = a.len() + gap.len();
        assert forall|i: int| 0 <= i < start implies white_space(#[trigger] s[i]) by {
            assert(s[i] == a[i]);
        }
        assert forall|i: int| n + end <= i < s.len() implies padding(#[trigger] s[i]) by {
            assert(s[i] == b[i - n]);
        }
        assert(s[start] == a[start]);
        assert(s[n + end - 1] == b[end - 1]);
        lemma_strip_range(s, |c: char| white_space(c), |c: char| padding(c), start, n + end);
        assert(s.subrange(start, n + end) =~= a.skip(start) + gap + b.take(end));
        lemma_words_split(a.skip(start), gap, b.take(end));
    }
}

/// A text with each character of white space replaced by what `gap` gives for it.
pub open spec fn respaced(s: Seq<char>, gap: spec_fn(char) -> Seq<char>) -> Seq<char>
    decreases s.len(),
{
    if s.len() == 0 {
        Seq::empty()
    } else {
        respaced(s.drop_last(), gap) + if white_space(s.last()) {
            gap(s.last())
        } else {
            seq![s.last()]
        }
    }
}

/// Some white space, at least one character of it.
pub open spec fn is_gap(g: Seq<char>) -> bool {
    g.len() > 0 && forall|i: int| 0 <= i < g.len() ==> white_space(#[trigger] g[i])
}

/// Replacing all white space of a label by other white space, such as every space by
/// two, does not change its key.
pub proof fn law_spacing_ignored(s: Seq<char>, gap: spec_fn(char) -> Seq<char>)
    requires
        forall|c: char| white_space(c) ==> is_gap(#[trigger] gap(c)),
    ensures
        normal_key(respaced(s, gap)) == normal_key(s),
{
    let (a, b) = lemma_bare_range(s);
    let before = s.take(a);
    let kept = s.subrange(a, b);
    let after = s.skip(b);
    assert forall|i: int| 0 <= i < before.len() implies white_space(#[trigger] before[i]) by {
        assert(before[i] == s[i]);
    }
    assert forall|i: int| 0 <= i < after.len() implies padding(#[trigger] after[i]) by {
        assert(after[i] == s[b + i]);
    }
    assert(s =~= before + kept + after);
    lemma_respaced_concat(before + kept, after, gap);
    lemma_respaced_concat(before, kept, gap);
    lemma_respaced_space(before, gap);
    lemma_respaced_padding(after, gap);
    let r = respaced(kept, gap);
    law_padding_ignored(respaced(before, gap), r, respaced(after, gap));
    lemma_respaced_words(kept, gap);
    if kept.len() > 0 {
        assert(kept[0] == s[a]);
        assert(kept.last() == s[b - 1]);
        lemma_respaced_first(kept, gap);
        lemma_strip_range(r, |c: char| white_space(c), |c: char| padding(c), 0, r.len() as int);
        assert(r.subrange(0, r.len() as int) =~= r);
    } else {
        lemma_strip_range(r, |c: char| white_space(c), |c: char| padding(c), 0, 0);
    }
}

proof fn lemma_respaced_concat(x: Seq<char>, y: Seq<char>, gap: spec_fn(char) -> Seq<char>)
    ensures
        respaced(x + y, gap) == respaced(x, gap) + respaced(y, gap),
    decreases y.len(),
{
    if y.len() == 0 {
        assert(x + y =~= x);
        assert(respaced(x, gap) + respaced(y, gap) =~= respaced(x, gap));
    } else {
        lemma_respaced_concat(x, y.drop_last(), gap);
        assert((x + y).drop_last() =~= x + y.drop_last());
        assert(respaced(x + y, gap) =~= respaced(x, gap) + respaced(y, gap));
    }
}

proof fn lemma_respaced_space(s: Seq<char>, gap: spec_fn(char) -> Seq<char>)
    requires
        forall|c: char| white_space(c) ==> is_gap(#[trigger] gap(c)),
        forall|i: int| 0 <= i < s.len() ==> white_space(#[trigger] s[i]),
    ensures
        forall|i: int|
            0 <= i < respaced(s, gap).len() ==> white_space(#[trigger] respaced(s, gap)[i]),
    decreases s.len(),
{
    if s.len() > 0 {
        let t = s.drop_last();
        assert forall|i: int| 0 <= i < t.len() implies white_space(#[trigger] t[i]) by {
            assert(t[i] == s[i]);
        }
        lemma_respaced_space(t, gap);
        assert(white_space(s[s.len() - 1]));
        let r = respaced(t, gap);
        let g = gap(s.last());
        assert(is_gap(g));
        assert forall|i: int| 0 <= i < (r + g).len() implies white_space(#[trigger] (r + g)[i]) by {
            if i < r.len() {
                assert((r + g)[i] == r[i]);
            } else {
                assert((r + g)[i] == g[i - r.len()]);
            }
        }
    }
}

proof fn lemma_respaced_padding(s: Seq<char>, gap: spec_fn(char) -> Seq<char>)
    requires
        forall|c: char| white_space(c) ==> is_gap(#[trigger] gap(c)),
        forall|i: int| 0 <= i < s.len() ==> padding(#[trigger] s[i]),
    ensures
        forall|i: int| 0 <= i < respaced(s, gap).len() ==> padding(#[trigger] respaced(s, gap)[i]),
    decreases s.len(),
{
    if s.len() > 0 {
        let t = s.drop_last();
        assert forall|i: int| 0 <= i < t.len() implies padding(#[trigger] t[i]) by {
            assert(t[i] == s[i]);
        }
        lemma_respaced_padding(t, gap);
        assert(padding(s[s.len() - 1]));
        let r = respaced(t, gap);
        let g = if white_space(s.last()) {
            gap(s.last())
        } else {
            seq![s.last()]
        };
        assert(white_space(s.last()) ==> is_gap(g));
        assert forall|i: int| 0 <= i < (r + g).len() implies padding(#[trigger] (r + g)[i]) by {
            if i < r.len() {
                assert((r + g)[i] == r[i]);
            } else {
                assert((r + g)[i] == g[i - r.len()]);
            }
        }
    }
}

proof fn lemma_respaced_words(s: Seq<char>, gap: spec_fn(char) -> Seq<char>)
    requires
        forall|c: char| white_space(c) ==> is_gap(#[trigger] gap(c)),
    ensures
        words(respaced(s, gap)) == words(s),
        respaced(s, gap).len() > 0 <==> s.len() > 0,
        s.len() > 0 ==> white_space(respaced(s, gap).last()) == white_space(s.last()),
        s.len() > 0 && !white_space(s.last()) ==> respaced(s, gap).last() == s.last(),
    decreases s.len(),
{
    if s.len() > 0 {
        let t = s.drop_last();
        lemma_respaced_words(t, gap);
        let r = respaced(t, gap);
        if white_space(s.last()) {
            let g = gap(s.last());
            assert(is_gap(g));
            lemma_words_split(r, g, Seq::empty());
            assert(r + g + Seq::<char>::empty() =~= r + g);
            assert(words(r) + words(Seq::<char>::empty()) =~= words(r));
            assert((r + g).last() == g[g.len() - 1]);
        } else {
            assert(respaced(s, gap).drop_last() =~= r);
        }
    }
}

proof fn lemma_respaced_first(s: Seq<char>, gap: spec_fn(char) -> Seq<char>)
    requires
        s.len() > 0,
        !white_space(s[0]),
    ensures
        respaced(s, gap).len() > 0,
        respaced(s, gap)[0] == s[0],
    decreases s.len(),
{
    let t = s.drop_last();
    if t.len() > 0 {
        assert(t[0] == s[0]);
        lemma_respaced_first(t, gap);
        assert(respaced(s, gap)[0] == respaced(t, gap)[0]);
    } else {
        assert(respaced(t, gap).len() == 0);
        assert(s.last() == s[0]);
    }
}

/// Words in lower case.
pub open spec fn lower_words(w: Seq<Seq<char>>) -> Seq<Seq<char>> {
    w.map_values(|x: Seq<char>| ascii_lower(x))
}

proof fn lemma_ascii_lower_char(c: char)
    ensures
        white_space(ascii_lower_char(c)) == white_space(c),
        padding(ascii_lower_char(c)) == padding(c),
        ascii_lower_char(c) <= '\u{7f}' <==> c <= '\u{7f}',
        ascii_lower_char(ascii_lower_char(c)) == ascii_lower_char(c),
{
}

proof fn lemma_lower_ascii(s: Seq<char>)
    ensures
        is_ascii_chars(ascii_lower(s)) <==> is_ascii_chars(s),
        ascii_lower(ascii_lower(s)) == ascii_lower(s),
{
    let l = ascii_lower(s);
    assert forall|i: int| 0 <= i < s.len() implies ascii_lower_char(#[trigger] l[i]) == l[i] && (
    l[i] <= '\u{7f}' <==> s[i] <= '\u{7f}') by {
        lemma_ascii_lower_char(s[i]);
    }
    assert(ascii_lower(l) =~= l);
    if is_ascii_chars(l) {
        assert forall|i: int| 0 <= i < s.len() implies '\0' <= #[trigger] s[i] <= '\u{7f}' by {
            assert('\0' <= l[i] <= '\u{7f}');
        }
    }
}

proof fn lemma_lower_words(s: Seq<char>)
    ensures
        words(ascii_lower(s)) == lower_words(words(s)),
    decreases s.len(),
{
    let l = ascii_lower(s);
    if s.len() > 0 {
        let t = s.drop_last();
        lemma_lower_words(t);
        lemma_words_nonempty(t);
        assert(l.drop_last() =~= ascii_lower(t));
        lemma_ascii_lower_char(s.last());
        assert(l.last() == ascii_lower_char(s.last()));
        if t.len() > 0 {
            lemma_ascii_lower_char(t.last());
            assert(ascii_lower(t).last() == ascii_lower_char(t.last()));
        }
        let w = words(t);
        if !white_space(s.last()) {
            if t.len() > 0 && !white_space(t.last()) {
                assert(ascii_lower(w.last().push(s.last())) =~= ascii_lower(w.last()).push(
                    ascii_lower_char(s.last()),
                ));
                assert(lower_words(w).last() == ascii_lower(w.last()));
                assert(lower_words(w.drop_last()) =~= lower_words(w).drop_last());
                assert(lower_words(w.drop_last().push(w.last().push(s.last()))) =~= lower_words(
                    w,
                ).drop_last().push(lower_words(w).last().push(ascii_lower_char(s.last()))));
            } else {
                assert(ascii_lower(seq![s.last()]) =~= seq![ascii_lower_char(s.last())]);
                assert(lower_words(w.push(seq![s.last()])) =~= lower_words(w).push(
                    seq![ascii_lower_char(s.last())],
                ));
            }
        }
    } else {
        assert(words(l) =~= lower_words(words(s)));
    }
}

proof fn lemma_lower_joined(w: Seq<Seq<char>>)
    ensures
        joined(lower_words(w)) == ascii_lower(joined(w)),
    decreases w.len(),
{
    let l = lower_words(w);
    if w.len() == 0 {
        assert(joined(l) =~= ascii_lower(joined(w)));
    } else if w.len() == 1 {
        assert(l[0] == ascii_lower(w[0]));
    } else {
        let v = w.drop_last();
        lemma_lower_joined(v);
        assert(l.drop_last() =~= lower_words(v));
        assert(l.last() == ascii_lower(w.last()));
        assert(ascii_lower_char(' ') == ' ');
        assert(joined(l) =~= ascii_lower(joined(w)));
    }
}

proof fn lemma_lower_plain(s: Seq<char>)
    ensures
        bare(ascii_lower(s)).len() == bare(s).len(),
        plain_label(ascii_lower(s)) == ascii_lower(plain_label(s)),
{
    let l = ascii_lower(s);
    let (a, b) = lemma_bare_range(s);
    assert forall|i: int| 0 <= i < s.len() implies white_space(#[trigger] l[i]) == white_space(s[i])
        && padding(l[i]) == padding(s[i]) by {
        lemma_ascii_lower_char(s[i]);
    }
    lemma_strip_range(l, |c: char| white_space(c), |c: char| padding(c), a, b);
    assert(l.subrange(a, b) =~= ascii_lower(s.subrange(a, b)));
    lemma_lower_words(s.subrange(a, b));
    lemma_lower_joined(words(s.subrange(a, b)));
}

/// Labels that differ in the case of ASCII letters alone are stripped and spaced alike,
/// whatever else they hold. Where their words are ASCII they have the same key; where
/// they are not, they have it if `str::to_lowercase` gives the same for both.
pub proof fn law_case_ignored(a: Seq<char>, b: Seq<char>)
    requires
        ascii_lower(a) == ascii_lower(b),
    ensures
        bare(a).len() == bare(b).len(),
        ascii_lower(plain_label(a)) == ascii_lower(plain_label(b)),
        is_ascii_chars(plain_label(a)) ==> normal_key(a) == normal_key(b),
        lower_text(plain_label(a)) == lower_text(plain_label(b)) ==> normal_key(a) == normal_key(b),
{
    lemma_lower_plain(a);
    lemma_lower_plain(b);
    lemma_lower_ascii(plain_label(a));
    lemma_lower_ascii(plain_label(b));
}

/// A word as a text can have it: with a character, and without white space in it.
spec fn proper_word(x: Seq<char>) -> bool {
    x.len() > 0 && forall|j: int| 0 <= j < x.len() ==> !white_space(#[trigger] x[j])
}

proof fn lemma_words_proper(s: Seq<char>)
    ensures
        forall|i: int| 0 <= i < words(s).len() ==> proper_word(#[trigger] words(s)[i]),
    decreases s.len(),
{
    if s.len() > 0 {
        let t = s.drop_last();
        lemma_words_proper(t);
        lemma_words_nonempty(t);
        let v = words(t);
        let w = words(s);
        assert forall|i: int| 0 <= i < w.len() implies proper_word(#[trigger] w[i]) by {
            if i < v.len() {
                assert(proper_word(v[i]));
            }
        }
    }
}

/// A text without white space is one word.
proof fn lemma_one_word(s: Seq<char>)
    requires
        proper_word(s),
    ensures
        words(s) == seq![s],
    decreases s.len(),
{
    let t = s.drop_last();
    assert(!white_space(s[s.len() - 1]));
    if t.len() > 0 {
        assert forall|j: int| 0 <= j < t.len() implies !white_space(#[trigger] t[j]) by {
            assert(t[j] == s[j]);
        }
        lemma_one_word(t);
        assert(!white_space(t[t.len() - 1]));
        assert(t.push(s.last()) =~= s);
        assert(words(s) =~= seq![s]);
    } else {
        assert(seq![s.last()] =~= s);
        assert(words(t) =~= Seq::<Seq<char>>::empty());
        assert(words(s) =~= seq![s]);
    }
}

/// Joining words and taking the words of the text gives the words back.
proof fn lemma_words_of_joined(w: Seq<Seq<char>>)
    requires
        forall|i: int| 0 <= i < w.len() ==> proper_word(#[trigger] w[i]),
    ensures
        words(joined(w)) == w,
    decreases w.len(),
{
    if w.len() == 0 {
        assert(words(joined(w)) =~= w);
    } else {
        let x = w[w.len() - 1];
        lemma_one_word(x);
        if w.len() == 1 {
            assert(seq![x] =~= w);
        } else {
            let v = w.drop_last();
            assert forall|i: int| 0 <= i < v.len() implies proper_word(#[trigger] v[i]) by {
                assert(v[i] == w[i]);
            }
            lemma_words_of_joined(v);
            lemma_words_split(joined(v), seq![' '], x);
            assert(v + seq![x] =~= w);
        }
    }
}

/// Words of a text stay proper in lower case.
proof fn lemma_lower_proper(w: Seq<Seq<char>>)
    requires
        forall|i: int| 0 <= i < w.len() ==> proper_word(#[trigger] w[i]),
    ensures
        forall|i: int| 0 <= i < w.len() ==> proper_word(#[trigger] lower_words(w)[i]),
{
    assert forall|i: int| 0 <= i < w.len() implies proper_word(#[trigger] lower_words(w)[i]) by {
        assert(proper_word(w[i]));
        let x = lower_words(w)[i];
        assert forall|j: int| 0 <= j < x.len() implies !white_space(#[trigger] x[j]) by {
            lemma_ascii_lower_char(w[i][j]);
        }
    }
}

/// Labels with ASCII words have the same key exactly where their words are the same but
/// for the case of their letters: labels with different words, such as synonyms, are
/// never merged. Left out are labels of white space and periods alone, which have the
/// key of the label `(none)`.
pub proof fn law_different_words_kept(a: Seq<char>, b: Seq<char>)
    requires
        is_ascii_chars(plain_label(a)),
        is_ascii_chars(plain_label(b)),
        bare(a).len() > 0,
        bare(b).len() > 0,
    ensures
        normal_key(a) == normal_key(b) <==> lower_words(words(bare(a))) == lower_words(
            words(bare(b)),
        ),
{
    lemma_key_words(a);
    lemma_key_words(b);
}

/// The key of a label and its words give each other.
proof fn lemma_key_words(s: Seq<char>)
    requires
        is_ascii_chars(plain_label(s)),
        bare(s).len() > 0,
    ensures
        words(normal_key(s)) == lower_words(words(bare(s))),
        normal_key(s) == joined(lower_words(words(bare(s)))),
{
    let w = words(bare(s));
    lemma_lower_joined(w);
    lemma_words_proper(bare(s));
    lemma_lower_proper(w);
    lemma_words_of_joined(lower_words(w));
}

/// Joined words begin as the first and end as the last of them.
proof fn lemma_joined_ends(w: Seq<Seq<char>>)
    requires
        w.len() > 0,
        forall|i: int| 0 <= i < w.len() ==> proper_word(#[trigger] w[i]),
    ensures
        joined(w).len() > 0,
        joined(w)[0] == w[0][0],
        joined(w).last() == w.last().last(),
    decreases w.len(),
{
    assert(proper_word(w[0]));
    assert(proper_word(w[w.len() - 1]));
    if w.len() > 1 {
        let v = w.drop_last();
        assert forall|i: int| 0 <= i < v.len() implies proper_word(#[trigger] v[i]) by {
            assert(v[i] == w[i]);
        }
        lemma_joined_ends(v);
    }
}

/// A text that ends within a word ends as its last word.
proof fn lemma_last_word(s: Seq<char>)
    requires
        s.len() > 0,
        !white_space(s.last()),
    ensures
        words(s).len() > 0,
        words(s).last().len() > 0,
        words(s).last().last() == s.last(),
{
    lemma_words_nonempty(s.drop_last());
}

/// A text with nothing to ignore at its ends is left as it is.
proof fn lemma_bare_whole(s: Seq<char>)
    requires
        s.len() > 0,
        !white_space(s[0]),
        !padding(s.last()),
    ensures
        bare(s) == s,
{
    lemma_strip_range(s, |c: char| white_space(c), |c: char| padding(c), 0, s.len() as int);
    assert(s.subrange(0, s.len() as int) =~= s);
}

/// A plain label is plain, and has the key of the label it was made of, whatever
/// characters that holds.
pub proof fn law_plain_stays_plain(s: Seq<char>)
    ensures
        plain_label(plain_label(s)) == plain_label(s),
        bare(s).len() > 0 ==> normal_key(plain_label(s)) == normal_key(s),
{
    let t = bare(s);
    let w = words(t);
    let p = joined(w);
    if t.len() == 0 {
        assert(p =~= Seq::<char>::empty());
        lemma_strip_range(p, |c: char| white_space(c), |c: char| padding(c), 0, 0);
        assert(bare(p) =~= Seq::<char>::empty());
    } else {
        let (a, b) = lemma_bare_range(s);
        assert(t.last() == s[b - 1]);
        lemma_last_word(t);
        lemma_words_proper(t);
        lemma_joined_ends(w);
        assert(proper_word(w[0]));
        lemma_bare_whole(p);
        lemma_words_of_joined(w);
    }
}

/// The key of a key is that key, for labels with ASCII words.
pub proof fn law_key_of_key(s: Seq<char>)
    requires
        is_ascii_chars(plain_label(s)),
    ensures
        normal_key(normal_key(s)) == normal_key(s),
{
    let k = normal_key(s);
    if bare(s).len() == 0 {
        reveal_strlit("(none)");
        assert(k =~= seq!['(', 'n', 'o', 'n', 'e', ')']);
        lemma_bare_whole(k);
        assert(proper_word(k));
        lemma_one_word(k);
        assert(joined(words(k)) =~= k);
        assert(is_ascii_chars(k));
        assert(ascii_lower(k) =~= k);
    } else {
        let t = bare(s);
        let w = words(t);
        let l = lower_words(w);
        let (a, b) = lemma_bare_range(s);
        assert(t.last() == s[b - 1]);
        lemma_last_word(t);
        lemma_words_proper(t);
        lemma_lower_proper(w);
        lemma_key_words(s);
        lemma_joined_ends(l);
        assert(l.last() == ascii_lower(w.last()));
        assert(l.last().last() == ascii_lower_char(t.last()));
        lemma_ascii_lower_char(t.last());
        assert(proper_word(l[0]));
        lemma_bare_whole(k);
        lemma_lower_ascii(plain_label(s));
    }
}

/// A label is what stands between the white space before it and the white space and
/// periods after it: all of that is kept, its words are those of the label, and a
/// period at its start or inside it stays.
pub proof fn law_label_keeps_inside(before: Seq<char>, s: Seq<char>, after: Seq<char>)
    requires
        forall|i: int| 0 <= i < before.len() ==> white_space(#[trigger] before[i]),
        forall|i: int| 0 <= i < after.len() ==> white_space(#[trigger] after[i]) || after[i] == '.',
        s.len() > 0,
        !white_space(s[0]),
        !white_space(s.last()),
        s.last() != '.',
    ensures
        bare(before + s + after) == s,
        plain_label(before + s + after) == plain_label(s),
        normal_key(before + s + after) == normal_key(s),
{
    assert forall|i: int| 0 <= i < after.len() implies padding(#[trigger] after[i]) by {
        assert(white_space(after[i]) || after[i] == '.');
    }
    law_padding_ignored(before, s, after);
    lemma_bare_whole(s);
}

/// A label of white space and periods alone has the key `(none)`, and only such a label
/// is without a character in its plain form.
pub proof fn law_empty_label_is_none(s: Seq<char>)
    ensures
        (forall|i: int| 0 <= i < s.len() ==> white_space(#[trigger] s[i]) || s[i] == '.') ==> {
            &&& normal_key(s) == "(none)"@
            &&& plain_label(s).len() == 0
        },
        (exists|i: int| 0 <= i < s.len() && !white_space(#[trigger] s[i]) && s[i] != '.')
            ==> bare(s).len() > 0 && plain_label(s).len() > 0,
{
    let (a, b) = lemma_bare_range(s);
    if forall|i: int| 0 <= i < s.len() ==> white_space(#[trigger] s[i]) || s[i] == '.' {
        if a < b {
            assert(white_space(s[b - 1]) || s[b - 1] == '.');
        }
        assert(bare(s).len() == 0);
    }
    if exists|i: int| 0 <= i < s.len() && !white_space(#[trigger] s[i]) && s[i] != '.' {
        let i = choose|i: int| 0 <= i < s.len() && !white_space(#[trigger] s[i]) && s[i] != '.';
        if a == b {
            assert(i < a ==> white_space(s[i]));
            assert(i >= b ==> padding(s[i]));
        }
        assert(bare(s).last() == s[b - 1]);
        lemma_words_nonempty(bare(s));
    }
}

/// A label without white space that does not end with a period is one word, kept as it
/// is.
pub proof fn law_single_word_kept(w: Seq<char>)
    requires
        w.len() > 0,
        forall|i: int| 0 <= i < w.len() ==> !white_space(#[trigger] w[i]),
        w.last() != '.',
    ensures
        plain_label(w) == w,
{
    assert(!white_space(w[0]));
    assert(!white_space(w[w.len() - 1]));
    lemma_bare_whole(w);
    lemma_one_word(w);
}

/// A label of a word, some white space and more is that word, one space and the plain
/// form of the rest: no word is lost, cut or joined to another.
pub proof fn law_word_by_word(w: Seq<char>, gap: Seq<char>, rest: Seq<char>)
    requires
        w.len() > 0,
        forall|i: int| 0 <= i < w.len() ==> !white_space(#[trigger] w[i]),
        gap.len() > 0,
        forall|i: int| 0 <= i < gap.len() ==> white_space(#[trigger] gap[i]),
        rest.len() > 0,
        !white_space(rest[0]),
        !white_space(rest.last()),
        rest.last() != '.',
    ensures
        plain_label(w + gap + rest) == w + seq![' '] + plain_label(rest),
{
    let s = w + gap + rest;
    assert(!white_space(w[0]));
    assert(s[0] == w[0]);
    assert(s.last() == rest.last());
    lemma_bare_whole(s);
    lemma_bare_whole(rest);
    lemma_words_split(w, gap, rest);
    lemma_one_word(w);
    lemma_last_word(rest);
    lemma_joined_front(w, words(rest));
}

proof fn lemma_joined_front(x: Seq<char>, w: Seq<Seq<char>>)
    requires
        w.len() > 0,
    ensures
        joined(seq![x] + w) == x + seq![' '] + joined(w),
    decreases w.len(),
{
    let all = seq![x] + w;
    assert(all.drop_last() =~= seq![x] + w.drop_last());
    assert(all.last() == w.last());
    if w.len() == 1 {
        assert(all.drop_last() =~= seq![x]);
        assert(joined(seq![x]) == x);
    } else {
        lemma_joined_front(x, w.drop_last());
        assert(joined(all) =~= x + seq![' '] + joined(w));
    }
}

/// The key of a label with a name is its whole plain form in lower case, whatever
/// characters that holds.
pub proof fn law_key_is_whole_label(s: Seq<char>, i: int)
    requires
        0 <= i < s.len(),
        !white_space(s[i]),
        s[i] != '.',
    ensures
        is_ascii_chars(plain_label(s)) ==> {
            &&& normal_key(s).len() == plain_label(s).len()
            &&& forall|j: int|
                0 <= j < plain_label(s).len() ==> #[trigger] normal_key(s)[j] as int == if 'A'
                    <= plain_label(s)[j] <= 'Z' {
                    plain_label(s)[j] as int + 32
                } else {
                    plain_label(s)[j] as int
                }
        },
        !is_ascii_chars(plain_label(s)) ==> normal_key(s) == lower_text(plain_label(s)),
{
    law_empty_label_is_none(s);
    law_fold_keeps_whole_text(plain_label(s));
}

/// Labels with other than ASCII words share a key exactly where their whole plain forms
/// are the same in lower case, so that different ones are never merged.
pub proof fn law_other_words_kept(a: Seq<char>, b: Seq<char>)
    requires
        !is_ascii_chars(plain_label(a)),
        !is_ascii_chars(plain_label(b)),
    ensures
        normal_key(a) == normal_key(b) <==> lower_text(plain_label(a)) == lower_text(
            plain_label(b),
        ),
{
    law_fold_keeps_whole_text(plain_label(a));
    law_fold_keeps_whole_text(plain_label(b));
    if bare(a).len() == 0 {
        assert(plain_label(a).len() == 0);
    }
    if bare(b).len() == 0 {
        assert(plain_label(b).len() == 0);
    }
}

} // verus!
