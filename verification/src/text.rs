//! Characters and strings.
use crate::names;
use unicode_normalization::UnicodeNormalization;
use vstd::prelude::*;

verus! {

/// Appending a character to a string: [`String::push`] puts it at the end.
pub assume_specification[ String::push ](s: &mut String, c: char)
    ensures
        final(s)@ == old(s)@.push(c),
;

/// What `unicode-normalization` makes of a text in Normalization Form KC.
pub uninterp spec fn nfkc_of(s: Seq<char>) -> Seq<char>;

/// What [`str::to_lowercase`] makes of a text.
pub uninterp spec fn lowercase_of(s: Seq<char>) -> Seq<char>;

/// Whether [`char::is_alphanumeric`] holds of a character beyond ASCII.
pub uninterp spec fn alphanumeric_beyond_ascii(c: char) -> bool;

/// A letter or a digit. Of ASCII these are the Latin letters and the decimal
/// digits.
pub open spec fn alphanumeric(c: char) -> bool {
    if (c as u32) < 128 {
        is_digit(c) || is_upper(c) || is_lower(c)
    } else {
        alphanumeric_beyond_ascii(c)
    }
}

/// A text in Normalization Form KC: collects
/// `UnicodeNormalization::nfkc` of `unicode-normalization`. The result is
/// only named; that it is a function of the text alone is what is trusted.
#[verifier::external_body]
pub(crate) fn nfkc(s: &str) -> (res: String)
    ensures
        res@ == nfkc_of(s@),
{
    s.nfkc().collect()
}

/// A text in lower case, by the Unicode tables of the standard library. The
/// result is only named.
pub assume_specification[ str::to_lowercase ](s: &str) -> (res: String)
    ensures
        res@ == lowercase_of(s@),
;

/// Whether a character is a letter or a digit, by the Unicode tables of the
/// standard library: of ASCII, the Latin letters and the decimal digits; of
/// the rest, the answer is only named.
pub assume_specification[ char::is_alphanumeric ](c: char) -> (res: bool)
    ensures
        (c as u32) < 128 ==> res == (is_digit(c) || is_upper(c) || is_lower(c)),
        (c as u32) >= 128 ==> res == alphanumeric_beyond_ascii(c),
;

/// A character with the Unicode property White_Space.
pub open spec fn whitespace(c: char) -> bool {
    let u = c as u32;
    (9 <= u <= 13) || u == 32 || u == 0x85 || u == 0xa0 || u == 0x1680 || (0x2000 <= u <= 0x200a) || u == 0x2028 || u
        == 0x2029 || u == 0x202f || u == 0x205f || u == 0x3000
}

/// Whether a character is white space: [`char::is_whitespace`] holds of
/// exactly the characters with the Unicode property White_Space.
pub assume_specification[ char::is_whitespace ](c: char) -> (res: bool)
    ensures
        res == whitespace(c),
;

/// The text is nothing but white space.
pub open spec fn blank(s: Seq<char>) -> bool {
    forall|i: int| 0 <= i < s.len() ==> whitespace(#[trigger] s[i])
}

/// Whether a text is nothing but white space.
pub fn is_blank(s: &str) -> (res: bool)
    ensures
        res == blank(s@),
{
    let chars = chars_of(s);
    let mut i: usize = 0;
    while i < chars.len()
        invariant
            chars@ == s@,
            i <= chars.len(),
            forall|j: int| 0 <= j < i ==> whitespace(#[trigger] s@[j]),
        decreases chars.len() - i,
    {
        let c = chars[i];
        if !c.is_whitespace() {
            assert(!whitespace(s@[i as int]));
            return false;
        }
        i = i + 1;
    }
    true
}

/// The characters of `s`, in order.
pub fn chars_of(s: &str) -> (res: Vec<char>)
    ensures
        res@ == s@,
{
    broadcast use {vstd::string::axiom_spec_iter, vstd::string::next_postcondition};

    let mut res: Vec<char> = Vec::new();
    for c in iter: s.chars()
        invariant
            iter.seq() == s@,
            res@ == s@.take(iter.index()),
    {
        res.push(c);
        assert(res@ =~= s@.take(iter.index() + 1));
    }
    assert(s@.take(s@.len() as int) =~= s@);
    res
}

/// Whether two strings hold the same characters.
pub fn same(a: &str, b: &str) -> (res: bool)
    ensures
        res == (a@ == b@),
{
    let x = chars_of(a);
    let y = chars_of(b);
    if x.len() != y.len() {
        return false;
    }
    let mut i: usize = 0;
    while i < x.len()
        invariant
            x@ == a@,
            y@ == b@,
            x.len() == y.len(),
            i <= x.len(),
            forall|j: int| 0 <= j < i ==> x@[j] == y@[j],
        decreases x.len() - i,
    {
        if x[i] != y[i] {
            return false;
        }
        i = i + 1;
    }
    assert(a@ =~= b@);
    true
}

/// How many bytes the characters take in UTF-8.
pub open spec fn utf8_len(s: Seq<char>) -> nat {
    vstd::utf8::encode_utf8(s).len()
}

/// How many bytes a string takes.
pub fn byte_len(s: &str) -> (res: usize)
    ensures
        res == utf8_len(s@),
{
    s.as_bytes().len()
}

/// A character, with whether it counts as a letter or a digit.
pub type Glyph = (char, bool);

/// A text's characters, each with whether it is a letter or a digit.
pub open spec fn glyphs_of(s: Seq<char>) -> Seq<Glyph> {
    s.map_values(|c: char| (c, alphanumeric(c)))
}

/// The characters of a text of glyphs.
pub open spec fn plain(s: Seq<Glyph>) -> Seq<char> {
    s.map_values(|g: Glyph| g.0)
}

/// A text's characters, each with whether it is a letter or a digit.
pub fn glyphs(s: &str) -> (res: Vec<Glyph>)
    ensures
        res@ == glyphs_of(s@),
{
    let chars = chars_of(s);
    let mut res: Vec<Glyph> = Vec::new();
    let mut i: usize = 0;
    while i < chars.len()
        invariant
            chars@ == s@,
            i <= chars.len(),
            res@ == glyphs_of(s@).take(i as int),
        decreases chars.len() - i,
    {
        let ch = chars[i];
        let glyph: Glyph = (ch, ch.is_alphanumeric());
        res.push(glyph);
        assert(glyphs_of(s@)[i as int] == glyph);
        assert(res@ =~= glyphs_of(s@).take(i + 1));
        i = i + 1;
    }
    assert(glyphs_of(s@).take(i as int) =~= glyphs_of(s@));
    res
}

pub open spec fn is_digit(c: char) -> bool {
    '0' <= c <= '9'
}

pub open spec fn is_upper(c: char) -> bool {
    'A' <= c <= 'Z'
}

pub open spec fn is_lower(c: char) -> bool {
    'a' <= c <= 'z'
}

/// How many of the first characters are in the mask.
pub open spec fn run_len(mask: Seq<bool>) -> nat
    decreases mask.len(),
{
    if mask.len() == 0 || !mask[0] {
        0
    } else {
        1 + run_len(mask.drop_first())
    }
}

/// The maximal runs of the characters that the mask marks, in order.
pub open spec fn runs(s: Seq<char>, mask: Seq<bool>) -> Seq<Seq<char>>
    decreases s.len(),
{
    if s.len() == 0 || mask.len() != s.len() {
        Seq::empty()
    } else if !mask[0] {
        runs(s.drop_first(), mask.drop_first())
    } else {
        let n = run_len(mask);
        if n > s.len() {
            Seq::empty()
        } else {
            seq![s.take(n as int)] + runs(s.skip(n as int), mask.skip(n as int))
        }
    }
}

pub proof fn run_len_bound(mask: Seq<bool>)
    ensures
        run_len(mask) <= mask.len(),
        forall|i: int| 0 <= i < run_len(mask) ==> #[trigger] mask[i],
        run_len(mask) < mask.len() ==> !mask[run_len(mask) as int],
    decreases mask.len(),
{
    if mask.len() > 0 && mask[0] {
        run_len_bound(mask.drop_first());
        assert forall|i: int| 0 <= i < run_len(mask) implies #[trigger] mask[i] by {
            if i > 0 {
                assert(mask.drop_first()[i - 1]);
            }
        }
        if run_len(mask) < mask.len() {
            assert(!mask.drop_first()[run_len(mask.drop_first()) as int]);
        }
    }
}

/// The maximal runs of marked characters, in order.
pub fn marked_runs(chars: &Vec<char>, mask: &Vec<bool>) -> (res: Vec<String>)
    requires
        chars.len() == mask.len(),
    ensures
        names::views(res@) == runs(chars@, mask@),
{
    let mut res: Vec<String> = Vec::new();
    let mut i: usize = 0;
    assert(chars@.skip(0) =~= chars@ && mask@.skip(0) =~= mask@);
    assert(names::views(res@) =~= Seq::empty());
    while i < chars.len()
        invariant
            chars.len() == mask.len(),
            i <= chars.len(),
            names::views(res@) + runs(chars@.skip(i as int), mask@.skip(i as int)) == runs(chars@, mask@),
        decreases chars.len() - i,
    {
        let ghost rest = chars@.skip(i as int);
        let ghost left = mask@.skip(i as int);
        if !mask[i] {
            assert(rest.drop_first() =~= chars@.skip(i + 1));
            assert(left.drop_first() =~= mask@.skip(i + 1));
            i = i + 1;
        } else {
            let start: usize = i;
            let mut token = String::new();
            while i < chars.len() && mask[i]
                invariant
                    chars.len() == mask.len(),
                    start <= i <= chars.len(),
                    token@ == chars@.subrange(start as int, i as int),
                    run_len(mask@.skip(start as int)) == (i - start) + run_len(mask@.skip(i as int)),
                decreases chars.len() - i,
            {
                token.push(chars[i]);
                assert(token@ =~= chars@.subrange(start as int, i + 1));
                assert(mask@.skip(i as int).drop_first() =~= mask@.skip(i + 1));
                i = i + 1;
            }
            let ghost n = (i - start) as nat;
            proof {
                assert(run_len(left) == n);
                assert(token@ =~= rest.take(n as int));
                assert(rest.skip(n as int) =~= chars@.skip(i as int));
                assert(left.skip(n as int) =~= mask@.skip(i as int));
                assert(names::views(res@.push(token)) =~= names::views(res@).push(token@));
                assert(names::views(res@).push(token@) + runs(chars@.skip(i as int), mask@.skip(i as int))
                    =~= names::views(res@) + (seq![token@] + runs(chars@.skip(i as int), mask@.skip(i as int))));
            }
            res.push(token);
        }
    }
    assert(names::views(res@) + Seq::<Seq<char>>::empty() =~= names::views(res@));
    res
}

/// Two texts, one behind the other.
pub fn joined(a: &str, b: &str) -> (res: String)
    ensures
        res@ == a@ + b@,
{
    let tail = chars_of(b);
    let mut res = a.to_owned();
    let mut i: usize = 0;
    while i < tail.len()
        invariant
            tail@ == b@,
            i <= tail.len(),
            res@ == a@ + b@.take(i as int),
        decreases tail.len() - i,
    {
        res.push(tail[i]);
        assert(res@ =~= a@ + b@.take(i + 1));
        i = i + 1;
    }
    assert(b@.take(i as int) =~= b@);
    res
}

/// Whether a text begins with another.
pub fn starts_with(s: &str, prefix: &str) -> (res: bool)
    ensures
        res == prefix@.is_prefix_of(s@),
{
    let a = chars_of(s);
    let b = chars_of(prefix);
    if b.len() > a.len() {
        return false;
    }
    let mut i: usize = 0;
    while i < b.len()
        invariant
            a@ == s@,
            b@ == prefix@,
            i <= b.len() <= a.len(),
            forall|j: int| 0 <= j < i ==> a@[j] == b@[j],
        decreases b.len() - i,
    {
        if a[i] != b[i] {
            assert(s@.subrange(0, prefix@.len() as int)[i as int] != prefix@[i as int]);
            return false;
        }
        i = i + 1;
    }
    assert(prefix@ =~= s@.subrange(0, prefix@.len() as int));
    true
}

/// Whether a text ends with another.
pub fn ends_with(s: &str, suffix: &str) -> (res: bool)
    ensures
        res == suffix@.is_suffix_of(s@),
{
    let a = chars_of(s);
    let b = chars_of(suffix);
    if b.len() > a.len() {
        return false;
    }
    let at: usize = a.len() - b.len();
    let mut i: usize = 0;
    while i < b.len()
        invariant
            a@ == s@,
            b@ == suffix@,
            at == a.len() - b.len(),
            i <= b.len() <= a.len(),
            forall|j: int| 0 <= j < i ==> a@[at + j] == b@[j],
        decreases b.len() - i,
    {
        if a[at + i] != b[i] {
            assert(s@.subrange(at as int, s@.len() as int)[i as int] != suffix@[i as int]);
            return false;
        }
        i = i + 1;
    }
    assert(suffix@ =~= s@.subrange(at as int, s@.len() as int));
    true
}

/// `a` does not come after `b`.
pub open spec fn not_after(a: Seq<char>, b: Seq<char>) -> bool {
    !names::before(b, a)
}

pub proof fn not_after_is_total_order()
    ensures
        vstd::relations::total_ordering(|a: Seq<char>, b: Seq<char>| not_after(a, b)),
{
    let r = |a: Seq<char>, b: Seq<char>| not_after(a, b);
    assert forall|x: Seq<char>| #[trigger] r(x, x) by {
        names::before_irreflexive(x);
    }
    assert forall|x: Seq<char>, y: Seq<char>| #[trigger] r(x, y) && #[trigger] r(y, x) implies x == y by {
        names::before_total(x, y);
    }
    assert forall|x: Seq<char>, y: Seq<char>, z: Seq<char>| #[trigger] r(x, y) && #[trigger] r(y, z) implies r(x, z) by {
        names::before_total(x, y);
        names::before_total(y, z);
        names::before_irreflexive(x);
        if names::before(z, x) {
            if x == y {
            } else if y == z {
            } else {
                names::before_transitive(x, y, z);
                names::before_transitive(x, z, x);
            }
        }
    }
    assert forall|x: Seq<char>, y: Seq<char>| #[trigger] r(x, y) || #[trigger] r(y, x) by {
        if names::before(y, x) && names::before(x, y) {
            names::before_irreflexive(x);
            names::before_transitive(x, y, x);
        }
    }
}

/// The strings stand in name order.
pub open spec fn in_text_order(s: Seq<Seq<char>>) -> bool {
    forall|i: int, j: int| 0 <= i < j < s.len() ==> not_after(#[trigger] s[i], #[trigger] s[j])
}

/// The same strings in name order.
pub fn sort_strings(list: Vec<String>) -> (res: Vec<String>)
    ensures
        in_text_order(names::views(res@)),
        names::views(res@).to_multiset() == names::views(list@).to_multiset(),
{
    let mut res: Vec<String> = Vec::new();
    let mut i: usize = 0;
    assert(names::views(list@).take(0) =~= names::views(res@));
    while i < list.len()
        invariant
            i <= list.len(),
            in_text_order(names::views(res@)),
            names::views(res@).to_multiset() == names::views(list@).take(i as int).to_multiset(),
        decreases list.len() - i,
    {
        let word = list[i].clone();
        let mut at: usize = 0;
        while at < res.len() && !names::is_before(word.as_str(), res[at].as_str())
            invariant
                at <= res.len(),
                forall|j: int| 0 <= j < at ==> not_after(#[trigger] names::views(res@)[j], word@),
            decreases res.len() - at,
        {
            at = at + 1;
        }
        let ghost was = names::views(res@);
        proof {
            not_after_is_total_order();
            let r = |a: Seq<char>, b: Seq<char>| not_after(a, b);
            let now = was.insert(at as int, word@);
            assert forall|x: int, y: int| 0 <= x < y < now.len() implies not_after(#[trigger] now[x], #[trigger] now[y]) by {
                if x == at {
                    let w = was[at as int];
                    names::before_irreflexive(word@);
                    assert(names::before(word@, w));
                    assert(r(word@, w)) by {
                        if names::before(w, word@) {
                            names::before_transitive(word@, w, word@);
                        }
                    }
                    if y > at + 1 {
                        assert(r(w, was[y - 1]));
                        assert(r(word@, was[y - 1]));
                    }
                }
            }
            vstd::seq_lib::to_multiset_insert(was, at as int, word@);
            let all = names::views(list@);
            assert(all.take(i + 1) =~= all.take(i as int).push(word@));
            vstd::seq_lib::to_multiset_build(all.take(i as int), word@);
        }
        res.insert(at, word);
        assert(names::views(res@) =~= was.insert(at as int, word@));
        i = i + 1;
    }
    assert(names::views(list@).take(i as int) =~= names::views(list@));
    res
}

/// Whether two lists hold the same strings, each as often.
pub fn same_strings(a: Vec<String>, b: Vec<String>) -> (res: bool)
    ensures
        res == (names::views(a@).to_multiset() == names::views(b@).to_multiset()),
{
    let x = sort_strings(a);
    let y = sort_strings(b);
    let res = equal_lists(&x, &y);
    proof {
        let vx = names::views(x@);
        let vy = names::views(y@);
        let r = |p: Seq<char>, q: Seq<char>| not_after(p, q);
        if vx.to_multiset() == vy.to_multiset() {
            not_after_is_total_order();
            assert(vstd::relations::sorted_by(vx, r));
            assert(vstd::relations::sorted_by(vy, r));
            vstd::seq_lib::lemma_sorted_unique(vx, vy, r);
        }
    }
    res
}

/// Whether two lists hold the same strings in the same order.
pub fn equal_lists(a: &Vec<String>, b: &Vec<String>) -> (res: bool)
    ensures
        res == (names::views(a@) == names::views(b@)),
{
    if a.len() != b.len() {
        assert(names::views(a@).len() != names::views(b@).len());
        return false;
    }
    let mut i: usize = 0;
    while i < a.len()
        invariant
            a.len() == b.len(),
            i <= a.len(),
            forall|j: int| 0 <= j < i ==> #[trigger] a@[j]@ == b@[j]@,
        decreases a.len() - i,
    {
        if !same(a[i].as_str(), b[i].as_str()) {
            assert(names::views(a@)[i as int] != names::views(b@)[i as int]);
            return false;
        }
        i = i + 1;
    }
    assert(names::views(a@) =~= names::views(b@));
    true
}

/// The runs of marked characters are the longest there are: each is a stretch
/// of the text with every character marked and none marked next to it, they
/// follow one another with a gap between them, and every marked character is
/// in one. What is returned is where each begins and ends.
pub proof fn runs_are_the_longest(s: Seq<char>, mask: Seq<bool>) -> (spans: Seq<(int, int)>)
    requires
        mask.len() == s.len(),
    ensures
        spans.len() == runs(s, mask).len(),
        forall|k: int|
            0 <= k < spans.len() ==> {
                let (a, b) = #[trigger] spans[k];
                &&& 0 <= a < b <= s.len()
                &&& runs(s, mask)[k] == s.subrange(a, b)
                &&& forall|i: int| a <= i < b ==> mask[i]
                &&& a == 0 || !mask[a - 1]
                &&& b == s.len() || !mask[b]
            },
        forall|k: int, l: int| 0 <= k < l < spans.len() ==> (#[trigger] spans[k]).1 < (#[trigger] spans[l]).0,
        forall|i: int|
            0 <= i < s.len() && #[trigger] mask[i] ==> exists|k: int|
                0 <= k < spans.len() && (#[trigger] spans[k]).0 <= i < spans[k].1,
    decreases s.len(),
{
    if s.len() == 0 {
        Seq::empty()
    } else {
        let n: int = if mask[0] {
            run_len(mask) as int
        } else {
            1
        };
        run_len_bound(mask);
        let rest = s.skip(n);
        let left = mask.skip(n);
        if !mask[0] {
            assert(rest =~= s.drop_first());
            assert(left =~= mask.drop_first());
        }
        let tail = runs_are_the_longest(rest, left);
        let moved = tail.map_values(|p: (int, int)| (p.0 + n, p.1 + n));
        let spans = if mask[0] {
            seq![(0, n)] + moved
        } else {
            moved
        };
        let d: int = if mask[0] {
            1
        } else {
            0
        };
        if mask[0] {
            assert(runs(s, mask) == seq![s.take(n)] + runs(rest, left));
        } else {
            assert(runs(s, mask) == runs(rest, left));
        }
        assert forall|k: int| 0 <= k < spans.len() implies {
            let (a, b) = #[trigger] spans[k];
            &&& 0 <= a < b <= s.len()
            &&& runs(s, mask)[k] == s.subrange(a, b)
            &&& forall|i: int| a <= i < b ==> mask[i]
            &&& a == 0 || !mask[a - 1]
            &&& b == s.len() || !mask[b]
        } by {
            let (a, b) = spans[k];
            if k < d {
                assert(s.take(n) =~= s.subrange(0, n));
            } else {
                let (p, q) = tail[k - d];
                assert(a == p + n && b == q + n);
                assert(runs(s, mask)[k] == runs(rest, left)[k - d]);
                assert(rest.subrange(p, q) =~= s.subrange(a, b));
                assert forall|i: int| a <= i < b implies mask[i] by {
                    assert(left[i - n]);
                }
                if p > 0 {
                    assert(!left[p - 1]);
                } else if mask[0] {
                    assert(left[0]);
                    assert(mask[n]);
                }
                if q < rest.len() {
                    assert(!left[q]);
                }
            }
        }
        assert forall|k: int, l: int| 0 <= k < l < spans.len() implies (#[trigger] spans[k]).1 < (#[trigger] spans[l]).0 by {
            let (p, q) = tail[l - d];
            if k < d {
                assert(left[p]);
                assert(spans[l].0 == p + n);
                if p == 0 {
                    assert(mask[n]);
                }
            } else {
                assert(tail[k - d].1 < tail[l - d].0);
            }
        }
        assert forall|i: int| 0 <= i < s.len() && #[trigger] mask[i] implies exists|k: int|
            0 <= k < spans.len() && (#[trigger] spans[k]).0 <= i < spans[k].1 by {
            if i < n {
                assert(spans[0].0 <= i < spans[0].1);
            } else {
                assert(left[i - n]);
                let k = choose|k: int| 0 <= k < tail.len() && (#[trigger] tail[k]).0 <= i - n < tail[k].1;
                assert(spans[k + d] == (tail[k].0 + n, tail[k].1 + n));
                assert(spans[k + d].0 <= i < spans[k + d].1);
            }
        }
        spans
    }
}

/// The ten digits, the twenty-six capitals and the twenty-six small letters
/// are what they are called, and of ASCII only these are letters or digits.
pub proof fn ascii_letters_and_digits(c: char)
    ensures
        is_digit(c) <==> 0x30 <= c as u32 <= 0x39,
        is_upper(c) <==> 0x41 <= c as u32 <= 0x5a,
        is_lower(c) <==> 0x61 <= c as u32 <= 0x7a,
        (c as u32) < 0x80 ==> (alphanumeric(c) <==> (0x30 <= c as u32 <= 0x39) || (0x41 <= c as u32 <= 0x5a) || (0x61
            <= c as u32 <= 0x7a)),
        (c as u32) >= 0x80 ==> alphanumeric(c) == alphanumeric_beyond_ascii(c),
{
}

/// A text is blank exactly where none of its characters is anything but white
/// space; so a text of nothing is blank, and two texts in a row are where
/// both are.
pub proof fn blank_texts_say_nothing(a: Seq<char>, b: Seq<char>, i: int)
    ensures
        blank(Seq::<char>::empty()),
        blank(a) && 0 <= i < a.len() ==> whitespace(a[i]),
        0 <= i < a.len() && !whitespace(a[i]) ==> !blank(a),
        blank(a + b) <==> blank(a) && blank(b),
        whitespace(' ') && whitespace('\t') && whitespace('\n') && whitespace('\r'),
        'a' <= a[i] <= 'z' || 'A' <= a[i] <= 'Z' || '0' <= a[i] <= '9' ==> !whitespace(a[i]),
{
    if blank(a + b) {
        assert forall|k: int| 0 <= k < a.len() implies whitespace(#[trigger] a[k]) by {
            assert((a + b)[k] == a[k]);
        }
        assert forall|k: int| 0 <= k < b.len() implies whitespace(#[trigger] b[k]) by {
            assert((a + b)[a.len() + k] == b[k]);
        }
    }
}

} // verus!
