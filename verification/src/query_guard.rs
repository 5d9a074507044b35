//! The text guard between two queries whose embeddings are close: no
//! negation, numeric or entity-like asymmetry may separate them.
//!
//! The guard compares three multisets over folded text and refuses on any
//! difference. A false refusal only costs a cache miss.
use crate::names;
use crate::text;
use crate::text::{chars_of, glyphs, marked_runs, nfkc, same, same_strings, sort_strings, Glyph};
use vstd::prelude::*;

verus! {

/// Negation cue words, compared as whole tokens of the lower-case text.
pub open spec fn negation_words() -> Seq<Seq<char>> {
    seq!["no"@, "not"@, "never"@, "none"@, "neither"@, "nor"@, "without"@, "cannot"@, "non"@]
}

/// Negation cues that are counted wherever they occur in the lower-case
/// text: the English contraction and a minimal Japanese list.
pub open spec fn negation_substrings() -> Seq<Seq<char>> {
    seq!["n't"@, "ない"@, "ません"@, "なかった"@, "せず"@, "不"@, "無"@]
}

/// The folded text: the typographic apostrophe becomes the plain one.
pub open spec fn plain_apostrophes(s: Seq<char>) -> Seq<char> {
    s.map_values(|c: char| if c == '\u{2019}' { '\'' } else { c })
}

/// What the guard reads of a query: Normalization Form KC, with plain
/// apostrophes.
pub open spec fn folded_of(query: Seq<char>) -> Seq<char> {
    plain_apostrophes(text::nfkc_of(query))
}

/// The words of a text: its maximal runs of letters and digits.
pub open spec fn words(s: Seq<Glyph>) -> Seq<Seq<char>> {
    text::runs(text::plain(s), s.map_values(|g: Glyph| g.1))
}

/// How many of the words are `word`.
pub open spec fn word_count(words: Seq<Seq<char>>, word: Seq<char>) -> nat
    decreases words.len(),
{
    if words.len() == 0 {
        0
    } else {
        word_count(words.drop_last(), word) + if words.last() == word {
            1nat
        } else {
            0nat
        }
    }
}

/// How often `cue` occurs in `s`, counted from the left without overlap.
pub open spec fn cue_count(s: Seq<char>, cue: Seq<char>) -> nat
    decreases s.len(),
{
    if cue.len() == 0 || s.len() < cue.len() {
        0
    } else if s.take(cue.len() as int) == cue {
        1 + cue_count(s.skip(cue.len() as int), cue)
    } else {
        cue_count(s.drop_first(), cue)
    }
}

/// The occurrence counts of every cue, words first.
pub open spec fn negation_counts(lower: Seq<Glyph>) -> Seq<nat> {
    negation_words().map_values(|w: Seq<char>| word_count(words(lower), w)) + negation_substrings().map_values(
        |c: Seq<char>| cue_count(text::plain(lower), c),
    )
}

/// The maximal runs of ASCII digits.
pub open spec fn digit_runs_of(folded: Seq<char>) -> Seq<Seq<char>> {
    text::runs(folded, folded.map_values(|c: char| text::is_digit(c)))
}

pub open spec fn has_upper(word: Seq<char>) -> bool {
    exists|i: int| 0 <= i < word.len() && text::is_upper(#[trigger] word[i])
}

pub open spec fn all_upper(word: Seq<char>) -> bool {
    forall|i: int| 0 <= i < word.len() ==> text::is_upper(#[trigger] word[i])
}

/// A word that capitalization marks as a name: it holds an upper-case ASCII
/// letter, and where it stands first it is an acronym of two letters or more.
pub open spec fn marks_entity(word: Seq<char>, first: bool) -> bool {
    has_upper(word) && (!first || (word.len() >= 2 && all_upper(word)))
}

/// The words among the first `n` that capitalization marks as names.
pub open spec fn entity_words_upto(words: Seq<Seq<char>>, n: nat) -> Seq<Seq<char>>
    decreases n,
{
    if n == 0 || n > words.len() {
        Seq::empty()
    } else {
        let rest = entity_words_upto(words, (n - 1) as nat);
        if marks_entity(words[n - 1], n == 1) {
            rest.push(words[n - 1])
        } else {
            rest
        }
    }
}

/// The words that capitalization marks as names.
pub open spec fn entity_words(words: Seq<Seq<char>>) -> Seq<Seq<char>> {
    entity_words_upto(words, words.len())
}

/// The words that capitalization marks as names, in lower case.
pub open spec fn lowered(words: Seq<Seq<char>>) -> Seq<Seq<char>> {
    words.map_values(|w: Seq<char>| text::lowercase_of(w))
}

/// What the guard compares of two queries, given each one's lower-case text,
/// its folded text and its names in lower case.
pub open spec fn marks_match(
    lower_a: Seq<Glyph>,
    folded_a: Seq<char>,
    entities_a: Seq<Seq<char>>,
    lower_b: Seq<Glyph>,
    folded_b: Seq<char>,
    entities_b: Seq<Seq<char>>,
) -> bool {
    &&& negation_counts(lower_a) == negation_counts(lower_b)
    &&& digit_runs_of(folded_a).to_multiset() == digit_runs_of(folded_b).to_multiset()
    &&& entities_a.to_multiset() == entities_b.to_multiset()
}

/// What the guard answers for two folded texts.
pub open spec fn folded_agree(a: Seq<char>, b: Seq<char>) -> bool {
    marks_match(
        text::glyphs_of(text::lowercase_of(a)),
        a,
        lowered(entity_words(words(text::glyphs_of(a)))),
        text::glyphs_of(text::lowercase_of(b)),
        b,
        lowered(entity_words(words(text::glyphs_of(b)))),
    )
}

/// What the guard answers for two queries.
pub open spec fn agree(a: Seq<char>, b: Seq<char>) -> bool {
    folded_agree(folded_of(a), folded_of(b))
}

/// A query agrees with itself.
pub proof fn agree_reflexive(a: Seq<char>)
    ensures
        agree(a, a),
{
}

/// The guard does not care which query comes first.
pub proof fn agree_symmetric(a: Seq<char>, b: Seq<char>)
    ensures
        agree(a, b) == agree(b, a),
{
}

/// Agreement is transitive: the guard splits queries into classes.
pub proof fn agree_transitive(a: Seq<char>, b: Seq<char>, c: Seq<char>)
    requires
        agree(a, b),
        agree(b, c),
    ensures
        agree(a, c),
{
}

/// The text with plain apostrophes.
pub fn fold_apostrophes(s: &str) -> (res: String)
    ensures
        res@ == plain_apostrophes(s@),
{
    let chars = chars_of(s);
    let mut res = String::new();
    let mut i: usize = 0;
    while i < chars.len()
        invariant
            chars@ == s@,
            i <= chars.len(),
            res@ == plain_apostrophes(s@).take(i as int),
        decreases chars.len() - i,
    {
        let c = if chars[i] == '\u{2019}' {
            '\''
        } else {
            chars[i]
        };
        res.push(c);
        assert(res@ =~= plain_apostrophes(s@).take(i + 1));
        i = i + 1;
    }
    assert(plain_apostrophes(s@).take(i as int) =~= plain_apostrophes(s@));
    res
}

/// The folded text of a query.
pub fn folded(query: &str) -> (res: String)
    ensures
        res@ == folded_of(query@),
{
    let normal = nfkc(query);
    fold_apostrophes(normal.as_str())
}

/// The words of a text.
pub fn words_of(s: &Vec<Glyph>) -> (res: Vec<String>)
    ensures
        names::views(res@) == words(s@),
{
    let mut chars: Vec<char> = Vec::new();
    let mut mask: Vec<bool> = Vec::new();
    let mut i: usize = 0;
    while i < s.len()
        invariant
            i <= s.len(),
            chars@ == text::plain(s@).take(i as int),
            mask@ == s@.map_values(|g: Glyph| g.1).take(i as int),
        decreases s.len() - i,
    {
        chars.push(s[i].0);
        mask.push(s[i].1);
        assert(chars@ =~= text::plain(s@).take(i + 1));
        assert(mask@ =~= s@.map_values(|g: Glyph| g.1).take(i + 1));
        i = i + 1;
    }
    assert(text::plain(s@).take(i as int) =~= text::plain(s@));
    assert(s@.map_values(|g: Glyph| g.1).take(i as int) =~= s@.map_values(|g: Glyph| g.1));
    marked_runs(&chars, &mask)
}

fn plain_of(s: &Vec<Glyph>) -> (res: Vec<char>)
    ensures
        res@ == text::plain(s@),
{
    let mut chars: Vec<char> = Vec::new();
    let mut i: usize = 0;
    while i < s.len()
        invariant
            i <= s.len(),
            chars@ == text::plain(s@).take(i as int),
        decreases s.len() - i,
    {
        chars.push(s[i].0);
        assert(chars@ =~= text::plain(s@).take(i + 1));
        i = i + 1;
    }
    assert(text::plain(s@).take(i as int) =~= text::plain(s@));
    chars
}

fn count_word(list: &Vec<String>, word: &str) -> (res: usize)
    ensures
        res == word_count(names::views(list@), word@),
{
    let mut n: usize = 0;
    let mut i: usize = 0;
    assert(names::views(list@).take(0) =~= Seq::empty());
    while i < list.len()
        invariant
            i <= list.len(),
            n <= i,
            n == word_count(names::views(list@).take(i as int), word@),
        decreases list.len() - i,
    {
        assert(names::views(list@).take(i + 1).drop_last() =~= names::views(list@).take(i as int));
        if same(list[i].as_str(), word) {
            n = n + 1;
        }
        i = i + 1;
    }
    assert(names::views(list@).take(i as int) =~= names::views(list@));
    n
}

fn starts_at(s: &Vec<char>, at: usize, cue: &Vec<char>) -> (res: bool)
    requires
        at + cue.len() <= s.len(),
    ensures
        res == (s@.skip(at as int).take(cue@.len() as int) == cue@),
{
    let mut i: usize = 0;
    while i < cue.len()
        invariant
            at + cue.len() <= s.len(),
            i <= cue.len(),
            forall|j: int| 0 <= j < i ==> s@[at + j] == cue@[j],
        decreases cue.len() - i,
    {
        if s[at + i] != cue[i] {
            assert(s@.skip(at as int).take(cue@.len() as int)[i as int] != cue@[i as int]);
            return false;
        }
        i = i + 1;
    }
    assert(s@.skip(at as int).take(cue@.len() as int) =~= cue@);
    true
}

fn count_cue(s: &Vec<char>, cue: &str) -> (res: usize)
    ensures
        res == cue_count(s@, cue@),
{
    let cue = chars_of(cue);
    if cue.len() == 0 {
        return 0;
    }
    let mut n: usize = 0;
    let mut i: usize = 0;
    assert(s@.skip(0) =~= s@);
    while cue.len() <= s.len() - i
        invariant
            cue.len() > 0,
            i <= s.len(),
            n <= i,
            cue_count(s@, cue@) == n + cue_count(s@.skip(i as int), cue@),
        decreases s.len() - i,
    {
        if starts_at(s, i, &cue) {
            assert(s@.skip(i as int).skip(cue@.len() as int) =~= s@.skip(i + cue.len()));
            n = n + 1;
            i = i + cue.len();
        } else {
            assert(s@.skip(i as int).drop_first() =~= s@.skip(i + 1));
            i = i + 1;
        }
    }
    n
}

fn negation_word(i: usize) -> (res: &'static str)
    requires
        i < 9,
    ensures
        res@ == negation_words()[i as int],
{
    if i == 0 {
        "no"
    } else if i == 1 {
        "not"
    } else if i == 2 {
        "never"
    } else if i == 3 {
        "none"
    } else if i == 4 {
        "neither"
    } else if i == 5 {
        "nor"
    } else if i == 6 {
        "without"
    } else if i == 7 {
        "cannot"
    } else {
        "non"
    }
}

fn negation_substring(i: usize) -> (res: &'static str)
    requires
        i < 7,
    ensures
        res@ == negation_substrings()[i as int],
{
    if i == 0 {
        "n't"
    } else if i == 1 {
        "ない"
    } else if i == 2 {
        "ません"
    } else if i == 3 {
        "なかった"
    } else if i == 4 {
        "せず"
    } else if i == 5 {
        "不"
    } else {
        "無"
    }
}

/// The occurrence counts of every negation cue in a lower-case text, words
/// first.
pub fn negation_marks(lower: &Vec<Glyph>) -> (res: Vec<usize>)
    ensures
        res@.map_values(|n: usize| n as nat) == negation_counts(lower@),
{
    let list = words_of(lower);
    let chars = plain_of(lower);
    let mut marks: Vec<usize> = Vec::new();
    let mut i: usize = 0;
    while i < 9
        invariant
            i <= 9,
            names::views(list@) == words(lower@),
            marks.len() == i,
            forall|j: int| 0 <= j < i ==> #[trigger] marks@[j] == negation_counts(lower@)[j],
        decreases 9 - i,
    {
        let n: usize = count_word(&list, negation_word(i));
        marks.push(n);
        assert(negation_counts(lower@)[i as int] == word_count(words(lower@), negation_words()[i as int]));
        i = i + 1;
    }
    let mut k: usize = 0;
    while k < 7
        invariant
            k <= 7,
            chars@ == text::plain(lower@),
            marks.len() == 9 + k,
            forall|j: int| 0 <= j < 9 + k ==> #[trigger] marks@[j] == negation_counts(lower@)[j],
        decreases 7 - k,
    {
        let n: usize = count_cue(&chars, negation_substring(k));
        marks.push(n);
        assert(negation_counts(lower@)[9 + k] == cue_count(text::plain(lower@), negation_substrings()[k as int]));
        k = k + 1;
    }
    assert(marks@.map_values(|n: usize| n as nat) =~= negation_counts(lower@));
    marks
}

fn runs_of_digits(folded: &str) -> (res: Vec<String>)
    ensures
        names::views(res@) == digit_runs_of(folded@),
{
    let chars = chars_of(folded);
    let mut mask: Vec<bool> = Vec::new();
    let mut i: usize = 0;
    while i < chars.len()
        invariant
            chars@ == folded@,
            i <= chars.len(),
            mask@ == folded@.map_values(|c: char| text::is_digit(c)).take(i as int),
        decreases chars.len() - i,
    {
        mask.push('0' <= chars[i] && chars[i] <= '9');
        assert(mask@ =~= folded@.map_values(|c: char| text::is_digit(c)).take(i + 1));
        i = i + 1;
    }
    assert(mask@ =~= folded@.map_values(|c: char| text::is_digit(c)));
    marked_runs(&chars, &mask)
}

/// The sorted multiset of the maximal runs of ASCII digits.
pub fn digit_runs(folded: &str) -> (res: Vec<String>)
    ensures
        text::in_text_order(names::views(res@)),
        names::views(res@).to_multiset() == digit_runs_of(folded@).to_multiset(),
{
    let found = runs_of_digits(folded);
    sort_strings(found)
}

fn is_entity(word: &str, first: bool) -> (res: bool)
    ensures
        res == marks_entity(word@, first),
{
    let chars = chars_of(word);
    let mut any = false;
    let mut all = true;
    let mut i: usize = 0;
    while i < chars.len()
        invariant
            chars@ == word@,
            i <= chars.len(),
            any == exists|j: int| 0 <= j < i && text::is_upper(#[trigger] word@[j]),
            all == forall|j: int| 0 <= j < i ==> text::is_upper(#[trigger] word@[j]),
        decreases chars.len() - i,
    {
        if 'A' <= chars[i] && chars[i] <= 'Z' {
            assert(text::is_upper(word@[i as int]));
            any = true;
        } else {
            assert(!text::is_upper(word@[i as int]));
            all = false;
        }
        i = i + 1;
    }
    any && (!first || (chars.len() >= 2 && all))
}

/// The words that capitalization marks as names, in order. The first word
/// counts only where it is an all-caps acronym.
pub fn capitalized_words(s: &Vec<Glyph>) -> (res: Vec<String>)
    ensures
        names::views(res@) == entity_words(words(s@)),
{
    let list = words_of(s);
    let mut res: Vec<String> = Vec::new();
    let mut i: usize = 0;
    assert(names::views(res@) =~= Seq::empty());
    while i < list.len()
        invariant
            names::views(list@) == words(s@),
            i <= list.len(),
            names::views(res@) == entity_words_upto(words(s@), i as nat),
        decreases list.len() - i,
    {
        assert(words(s@)[i as int] == list@[i as int]@);
        if is_entity(list[i].as_str(), i == 0) {
            let ghost was = res@;
            res.push(list[i].clone());
            assert(names::views(res@) =~= names::views(was).push(list@[i as int]@));
        }
        i = i + 1;
    }
    res
}

/// The sorted, case-folded multiset of the words that capitalization marks
/// as names.
pub fn entityish_tokens(folded: &str) -> (res: Vec<String>)
    ensures
        text::in_text_order(names::views(res@)),
        names::views(res@).to_multiset() == lowered(entity_words(words(text::glyphs_of(folded@)))).to_multiset(),
{
    let found = capitalized_words(&glyphs(folded));
    let low = lower_all(&found);
    sort_strings(low)
}

fn lower_all(list: &Vec<String>) -> (res: Vec<String>)
    ensures
        names::views(res@) == lowered(names::views(list@)),
{
    let mut res: Vec<String> = Vec::new();
    let mut i: usize = 0;
    while i < list.len()
        invariant
            i <= list.len(),
            names::views(res@) == lowered(names::views(list@)).take(i as int),
        decreases list.len() - i,
    {
        let ghost was = res@;
        let low = list[i].as_str().to_lowercase();
        res.push(low);
        assert(names::views(res@) =~= names::views(was).push(low@));
        assert(names::views(res@) =~= lowered(names::views(list@)).take(i + 1));
        i = i + 1;
    }
    assert(lowered(names::views(list@)).take(i as int) =~= lowered(names::views(list@)));
    res
}

fn equal_counts(a: &Vec<usize>, b: &Vec<usize>) -> (res: bool)
    ensures
        res == (a@.map_values(|n: usize| n as nat) == b@.map_values(|n: usize| n as nat)),
{
    let ghost x = a@.map_values(|n: usize| n as nat);
    let ghost y = b@.map_values(|n: usize| n as nat);
    if a.len() != b.len() {
        assert(x.len() != y.len());
        return false;
    }
    let mut i: usize = 0;
    while i < a.len()
        invariant
            a.len() == b.len(),
            i <= a.len(),
            x == a@.map_values(|n: usize| n as nat),
            y == b@.map_values(|n: usize| n as nat),
            forall|j: int| 0 <= j < i ==> #[trigger] x[j] == y[j],
        decreases a.len() - i,
    {
        if a[i] != b[i] {
            assert(x[i as int] != y[i as int]);
            return false;
        }
        assert(x[i as int] == y[i as int]);
        i = i + 1;
    }
    assert(x =~= y);
    true
}

/// What the guard reads of one query.
pub struct QueryMarks {
    /// The folded text in lower case.
    pub lower: Vec<Glyph>,
    /// The folded text.
    pub folded: String,
    /// The words that capitalization marks as names, in lower case.
    pub entities: Vec<String>,
}

impl QueryMarks {
    /// Reads a query.
    pub fn of(query: &str) -> (res: QueryMarks)
        ensures
            res.folded@ == folded_of(query@),
            res.lower@ == text::glyphs_of(text::lowercase_of(folded_of(query@))),
            names::views(res.entities@).to_multiset() == lowered(
                entity_words(words(text::glyphs_of(folded_of(query@)))),
            ).to_multiset(),
    {
        let folded = folded(query);
        let low = folded.as_str().to_lowercase();
        let lower = glyphs(low.as_str());
        let entities = entityish_tokens(folded.as_str());
        QueryMarks { lower, folded, entities }
    }
}

/// Compares what the guard read of two queries.
pub fn marks_agree(a: &QueryMarks, b: &QueryMarks) -> (res: bool)
    ensures
        res == marks_match(
            a.lower@,
            a.folded@,
            names::views(a.entities@),
            b.lower@,
            b.folded@,
            names::views(b.entities@),
        ),
{
    let negations = equal_counts(&negation_marks(&a.lower), &negation_marks(&b.lower));
    let digits = same_strings(runs_of_digits(a.folded.as_str()), runs_of_digits(b.folded.as_str()));
    let entities = same_strings(copy_strings(&a.entities), copy_strings(&b.entities));
    negations && digits && entities
}

fn copy_strings(list: &Vec<String>) -> (res: Vec<String>)
    ensures
        names::views(res@) == names::views(list@),
{
    let mut res: Vec<String> = Vec::new();
    let mut i: usize = 0;
    while i < list.len()
        invariant
            i <= list.len(),
            names::views(res@) == names::views(list@).take(i as int),
        decreases list.len() - i,
    {
        let ghost was = res@;
        res.push(list[i].clone());
        assert(names::views(res@) =~= names::views(was).push(list@[i as int]@));
        assert(names::views(res@) =~= names::views(list@).take(i + 1));
        i = i + 1;
    }
    assert(names::views(list@).take(i as int) =~= names::views(list@));
    res
}

/// Whether nothing separates two queries: their negation cues, digit runs
/// and capitalized words agree, each with its count.
pub fn queries_agree(a: &str, b: &str) -> (res: bool)
    ensures
        res == agree(a@, b@),
{
    let x = QueryMarks::of(a);
    let y = QueryMarks::of(b);
    marks_agree(&x, &y)
}

/// How many of the numbers below `n` have the property.
pub open spec fn tally(n: nat, p: spec_fn(int) -> bool) -> nat
    decreases n,
{
    if n == 0 {
        0
    } else {
        tally((n - 1) as nat, p) + if p(n - 1) {
            1nat
        } else {
            0nat
        }
    }
}

proof fn tally_same(n: nat, p: spec_fn(int) -> bool, q: spec_fn(int) -> bool)
    requires
        forall|i: int| 0 <= i < n ==> #[trigger] p(i) == q(i),
    ensures
        tally(n, p) == tally(n, q),
    decreases n,
{
    if n > 0 {
        tally_same((n - 1) as nat, p, q);
    }
}

proof fn counted_in_multiset(s: Seq<Seq<char>>, x: Seq<char>)
    ensures
        s.to_multiset().count(x) == times_said(s, x),
    decreases s.len(),
{
    broadcast use vstd::seq_lib::group_to_multiset_ensures;

    if s.len() == 0 {
        assert(s =~= Seq::empty());
    } else {
        let rest = s.drop_last();
        counted_in_multiset(rest, x);
        assert(s =~= rest.push(s.last()));
        tally_same(rest.len(), said_at(rest, x), said_at(s, x));
    }
}

proof fn counted_among_words(s: Seq<Seq<char>>, x: Seq<char>)
    ensures
        word_count(s, x) == times_said(s, x),
    decreases s.len(),
{
    if s.len() > 0 {
        let rest = s.drop_last();
        counted_among_words(rest, x);
        tally_same(rest.len(), said_at(rest, x), said_at(s, x));
    }
}

proof fn counted_among_names(ws: Seq<Seq<char>>, n: nat, x: Seq<char>)
    requires
        n <= ws.len(),
    ensures
        lowered(entity_words_upto(ws, n)).to_multiset().count(x) == tally(n, named_at(ws, x)),
    decreases n,
{
    broadcast use vstd::seq_lib::group_to_multiset_ensures;

    if n == 0 {
        assert(lowered(entity_words_upto(ws, n)) =~= Seq::empty());
    } else {
        let m = (n - 1) as nat;
        counted_among_names(ws, m, x);
        let rest = entity_words_upto(ws, m);
        let w = ws[n - 1];
        assert(has_upper(w) == exists|k: int| 0 <= k < w.len() && 'A' <= #[trigger] w[k] <= 'Z') by {
            if has_upper(w) {
                let k = choose|k: int| 0 <= k < w.len() && text::is_upper(#[trigger] w[k]);
                assert('A' <= w[k] <= 'Z');
            }
            if exists|k: int| 0 <= k < w.len() && 'A' <= #[trigger] w[k] <= 'Z' {
                let k = choose|k: int| 0 <= k < w.len() && 'A' <= #[trigger] w[k] <= 'Z';
                assert(text::is_upper(w[k]));
            }
        }
        assert(all_upper(w) == forall|k: int| 0 <= k < w.len() ==> 'A' <= #[trigger] w[k] <= 'Z');
        assert(marks_entity(w, n == 1) == is_name_at(ws, n - 1));
        if is_name_at(ws, n - 1) {
            assert(lowered(rest.push(w)) =~= lowered(rest).push(text::lowercase_of(w)));
        }
    }
}

/// The word at `i` is written as a name: it holds a capital, and where it
/// stands first it is capitals only, two at least.
pub open spec fn is_name_at(ws: Seq<Seq<char>>, i: int) -> bool {
    &&& exists|k: int| 0 <= k < ws[i].len() && 'A' <= #[trigger] ws[i][k] <= 'Z'
    &&& i > 0 || (ws[i].len() >= 2 && forall|k: int| 0 <= k < ws[i].len() ==> 'A' <= #[trigger] ws[i][k] <= 'Z')
}

/// Which of the words are written as names and are `name` in lower case.
pub open spec fn named_at(ws: Seq<Seq<char>>, name: Seq<char>) -> spec_fn(int) -> bool {
    |i: int| is_name_at(ws, i) && text::lowercase_of(ws[i]) == name
}

/// Which of the words are this one.
pub open spec fn said_at(ws: Seq<Seq<char>>, word: Seq<char>) -> spec_fn(int) -> bool {
    |i: int| ws[i] == word
}

/// How often a text holds a word that is written as a name and is `name` in
/// lower case.
pub open spec fn times_named(ws: Seq<Seq<char>>, name: Seq<char>) -> nat {
    tally(ws.len(), named_at(ws, name))
}

/// How often a word stands among words.
pub open spec fn times_said(ws: Seq<Seq<char>>, word: Seq<char>) -> nat {
    tally(ws.len(), said_at(ws, word))
}

/// Two folded texts deny alike: each word of negation stands in both equally
/// often, and so does each ending and character of negation.
pub open spec fn deny_alike(a: Seq<char>, b: Seq<char>) -> bool {
    let lower_a = text::lowercase_of(a);
    let lower_b = text::lowercase_of(b);
    let x = words(text::glyphs_of(lower_a));
    let y = words(text::glyphs_of(lower_b));
    &&& times_said(x, "no"@) == times_said(y, "no"@)
    &&& times_said(x, "not"@) == times_said(y, "not"@)
    &&& times_said(x, "never"@) == times_said(y, "never"@)
    &&& times_said(x, "none"@) == times_said(y, "none"@)
    &&& times_said(x, "neither"@) == times_said(y, "neither"@)
    &&& times_said(x, "nor"@) == times_said(y, "nor"@)
    &&& times_said(x, "without"@) == times_said(y, "without"@)
    &&& times_said(x, "cannot"@) == times_said(y, "cannot"@)
    &&& times_said(x, "non"@) == times_said(y, "non"@)
    &&& cue_count(lower_a, "n't"@) == cue_count(lower_b, "n't"@)
    &&& cue_count(lower_a, "ない"@) == cue_count(lower_b, "ない"@)
    &&& cue_count(lower_a, "ません"@) == cue_count(lower_b, "ません"@)
    &&& cue_count(lower_a, "なかった"@) == cue_count(lower_b, "なかった"@)
    &&& cue_count(lower_a, "せず"@) == cue_count(lower_b, "せず"@)
    &&& cue_count(lower_a, "不"@) == cue_count(lower_b, "不"@)
    &&& cue_count(lower_a, "無"@) == cue_count(lower_b, "無"@)
}

/// The guard lets two folded texts pass exactly where they deny alike, hold
/// every number equally often, and name everything equally often: each word
/// behind the first that holds a capital counts, and each time that it
/// stands there.
pub proof fn agreement_counts_every_mark(a: Seq<char>, b: Seq<char>)
    ensures
        folded_agree(a, b) <==> {
            &&& deny_alike(a, b)
            &&& forall|number: Seq<char>| #[trigger]
                times_said(digit_runs_of(a), number) == times_said(digit_runs_of(b), number)
            &&& forall|name: Seq<char>| #[trigger]
                times_named(words(text::glyphs_of(a)), name) == times_named(words(text::glyphs_of(b)), name)
        },
{
    let lower_a = text::lowercase_of(a);
    let lower_b = text::lowercase_of(b);
    let glyphs_a = text::glyphs_of(lower_a);
    let glyphs_b = text::glyphs_of(lower_b);
    assert(text::plain(glyphs_a) =~= lower_a);
    assert(text::plain(glyphs_b) =~= lower_b);
    let x = words(glyphs_a);
    let y = words(glyphs_b);
    let p = negation_counts(glyphs_a);
    let q = negation_counts(glyphs_b);
    assert forall|w: Seq<char>| #[trigger] word_count(x, w) == times_said(x, w) by {
        counted_among_words(x, w);
    }
    assert forall|w: Seq<char>| #[trigger] word_count(y, w) == times_said(y, w) by {
        counted_among_words(y, w);
    }
    assert(p.len() == 16 && q.len() == 16);
    assert forall|i: int| 0 <= i < 9 implies #[trigger] p[i] == word_count(x, negation_words()[i]) && q[i] == word_count(
        y,
        negation_words()[i],
    ) by {}
    assert forall|i: int| 9 <= i < 16 implies #[trigger] p[i] == cue_count(lower_a, negation_substrings()[i - 9]) && q[i]
        == cue_count(lower_b, negation_substrings()[i - 9]) by {}
    if p == q {
        assert(p[0] == q[0] && p[1] == q[1] && p[2] == q[2] && p[3] == q[3] && p[4] == q[4] && p[5] == q[5] && p[6] == q[6]
            && p[7] == q[7] && p[8] == q[8]);
        assert(p[9] == q[9] && p[10] == q[10] && p[11] == q[11] && p[12] == q[12] && p[13] == q[13] && p[14] == q[14] && p[15]
            == q[15]);
        assert(deny_alike(a, b));
    }
    if deny_alike(a, b) {
        assert forall|i: int| 0 <= i < 16 implies p[i] == q[i] by {
            if i < 9 {
                assert(p[i] == word_count(x, negation_words()[i]));
            } else {
                assert(p[i] == cue_count(lower_a, negation_substrings()[i - 9]));
            }
        }
        assert(p =~= q);
    }
    let da = digit_runs_of(a);
    let db = digit_runs_of(b);
    assert forall|n: Seq<char>| #[trigger] da.to_multiset().count(n) == times_said(da, n) by {
        counted_in_multiset(da, n);
    }
    assert forall|n: Seq<char>| #[trigger] db.to_multiset().count(n) == times_said(db, n) by {
        counted_in_multiset(db, n);
    }
    same_counts(da.to_multiset(), db.to_multiset());
    let wa = words(text::glyphs_of(a));
    let wb = words(text::glyphs_of(b));
    let ea = lowered(entity_words(wa));
    let eb = lowered(entity_words(wb));
    assert forall|n: Seq<char>| #[trigger] ea.to_multiset().count(n) == times_named(wa, n) by {
        counted_among_names(wa, wa.len(), n);
    }
    assert forall|n: Seq<char>| #[trigger] eb.to_multiset().count(n) == times_named(wb, n) by {
        counted_among_names(wb, wb.len(), n);
    }
    same_counts(ea.to_multiset(), eb.to_multiset());
    if da.to_multiset() == db.to_multiset() {
        assert forall|n: Seq<char>| #[trigger] times_said(da, n) == times_said(db, n) by {
            assert(da.to_multiset().count(n) == times_said(da, n));
            assert(db.to_multiset().count(n) == times_said(db, n));
        }
    }
    if forall|n: Seq<char>| #[trigger] times_said(da, n) == times_said(db, n) {
        assert forall|n: Seq<char>| #[trigger] da.to_multiset().count(n) == db.to_multiset().count(n) by {
            assert(times_said(da, n) == times_said(db, n));
        }
    }
    if ea.to_multiset() == eb.to_multiset() {
        assert forall|n: Seq<char>| #[trigger] times_named(wa, n) == times_named(wb, n) by {
            assert(ea.to_multiset().count(n) == times_named(wa, n));
            assert(eb.to_multiset().count(n) == times_named(wb, n));
        }
    }
    if forall|n: Seq<char>| #[trigger] times_named(wa, n) == times_named(wb, n) {
        assert forall|n: Seq<char>| #[trigger] ea.to_multiset().count(n) == eb.to_multiset().count(n) by {
            assert(times_named(wa, n) == times_named(wb, n));
        }
    }
}

proof fn same_counts(a: vstd::multiset::Multiset<Seq<char>>, b: vstd::multiset::Multiset<Seq<char>>)
    ensures
        (forall|x: Seq<char>| #[trigger] a.count(x) == b.count(x)) <==> a == b,
{
    if forall|x: Seq<char>| #[trigger] a.count(x) == b.count(x) {
        assert(a =~= b);
    }
}

/// What the guard reads of a query is its text in Normalization Form KC,
/// character by character, but with every typographic apostrophe plain.
pub proof fn folding_touches_apostrophes_only(query: Seq<char>, i: int)
    ensures
        folded_of(query).len() == text::nfkc_of(query).len(),
        0 <= i < folded_of(query).len() && text::nfkc_of(query)[i] == '\u{2019}' ==> folded_of(query)[i] == '\'',
        0 <= i < folded_of(query).len() && text::nfkc_of(query)[i] != '\u{2019}' ==> folded_of(query)[i] == text::nfkc_of(
            query,
        )[i],
        agree(query, query),
{
}

/// A cue is counted from the left: its first occurrence counts, then the rest
/// of the text behind it; where it does not occur it counts nothing.
pub proof fn cues_are_counted_from_the_left(s: Seq<char>, cue: Seq<char>, k: int)
    requires
        cue.len() > 0,
        0 <= k <= s.len(),
        forall|j: int| 0 <= j < k && j + cue.len() <= s.len() ==> #[trigger] s.subrange(j, j + cue.len()) != cue,
    ensures
        k + cue.len() <= s.len() && s.subrange(k, k + cue.len()) == cue ==> cue_count(s, cue) == 1 + cue_count(
            s.skip(k + cue.len()),
            cue,
        ),
        k + cue.len() > s.len() ==> cue_count(s, cue) == 0,
    decreases s.len(),
{
    let n = cue.len() as int;
    if s.len() >= n {
        assert(s.take(n) =~= s.subrange(0, n));
        if k == 0 {
            if s.subrange(0, n) == cue {
                assert(s.skip(n) == s.skip(0 + n));
            }
        } else {
            assert(s.subrange(0, 0 + n) != cue);
            let rest = s.drop_first();
            assert forall|j: int| 0 <= j < k - 1 && j + n <= rest.len() implies #[trigger] rest.subrange(j, j + n) != cue by {
                assert(rest.subrange(j, j + n) =~= s.subrange(j + 1, j + 1 + n));
            }
            cues_are_counted_from_the_left(rest, cue, k - 1);
            if k + n <= s.len() {
                assert(rest.subrange(k - 1, k - 1 + n) =~= s.subrange(k, k + n));
                assert(rest.skip(k - 1 + n) =~= s.skip(k + n));
            }
        }
    }
}

/// The words of a text are its longest stretches of letters and digits. What
/// is returned is where each begins and ends.
pub proof fn words_are_the_longest(s: Seq<Glyph>) -> (spans: Seq<(int, int)>)
    ensures
        spans.len() == words(s).len(),
        forall|k: int|
            0 <= k < spans.len() ==> {
                let (a, b) = #[trigger] spans[k];
                &&& 0 <= a < b <= s.len()
                &&& words(s)[k].len() == b - a
                &&& forall|i: int| a <= i < b ==> (#[trigger] s[i]).1 && s[i].0 == words(s)[k][i - a]
                &&& a == 0 || !s[a - 1].1
                &&& b == s.len() || !s[b].1
            },
        forall|k: int, l: int| 0 <= k < l < spans.len() ==> (#[trigger] spans[k]).1 < (#[trigger] spans[l]).0,
        forall|i: int|
            0 <= i < s.len() && (#[trigger] s[i]).1 ==> exists|k: int|
                0 <= k < spans.len() && (#[trigger] spans[k]).0 <= i < spans[k].1,
{
    let mask = s.map_values(|g: Glyph| g.1);
    let spans = text::runs_are_the_longest(text::plain(s), mask);
    assert forall|k: int| 0 <= k < spans.len() implies {
        let (a, b) = #[trigger] spans[k];
        &&& 0 <= a < b <= s.len()
        &&& words(s)[k].len() == b - a
        &&& forall|i: int| a <= i < b ==> (#[trigger] s[i]).1 && s[i].0 == words(s)[k][i - a]
        &&& a == 0 || !s[a - 1].1
        &&& b == s.len() || !s[b].1
    } by {
        let (a, b) = spans[k];
        assert forall|i: int| a <= i < b implies (#[trigger] s[i]).1 && s[i].0 == words(s)[k][i - a] by {
            assert(mask[i]);
        }
    }
    assert forall|i: int| 0 <= i < s.len() && (#[trigger] s[i]).1 implies exists|k: int|
        0 <= k < spans.len() && (#[trigger] spans[k]).0 <= i < spans[k].1 by {
        assert(mask[i]);
    }
    spans
}

/// The numbers of a text are its longest stretches of ASCII digits. What is
/// returned is where each begins and ends.
pub proof fn numbers_are_the_longest(folded: Seq<char>) -> (spans: Seq<(int, int)>)
    ensures
        spans.len() == digit_runs_of(folded).len(),
        forall|k: int|
            0 <= k < spans.len() ==> {
                let (a, b) = #[trigger] spans[k];
                &&& 0 <= a < b <= folded.len()
                &&& digit_runs_of(folded)[k] == folded.subrange(a, b)
                &&& forall|i: int| a <= i < b ==> '0' <= #[trigger] folded[i] <= '9'
                &&& a == 0 || !('0' <= folded[a - 1] <= '9')
                &&& b == folded.len() || !('0' <= folded[b] <= '9')
            },
        forall|k: int, l: int| 0 <= k < l < spans.len() ==> (#[trigger] spans[k]).1 < (#[trigger] spans[l]).0,
        forall|i: int|
            0 <= i < folded.len() && '0' <= #[trigger] folded[i] <= '9' ==> exists|k: int|
                0 <= k < spans.len() && (#[trigger] spans[k]).0 <= i < spans[k].1,
{
    let marks = folded.map_values(|c: char| text::is_digit(c));
    let spans = text::runs_are_the_longest(folded, marks);
    assert forall|k: int| 0 <= k < spans.len() implies {
        let (a, b) = #[trigger] spans[k];
        &&& 0 <= a < b <= folded.len()
        &&& digit_runs_of(folded)[k] == folded.subrange(a, b)
        &&& forall|i: int| a <= i < b ==> '0' <= #[trigger] folded[i] <= '9'
        &&& a == 0 || !('0' <= folded[a - 1] <= '9')
        &&& b == folded.len() || !('0' <= folded[b] <= '9')
    } by {
        let (a, b) = spans[k];
        assert forall|i: int| a <= i < b implies '0' <= #[trigger] folded[i] <= '9' by {
            assert(marks[i]);
        }
    }
    assert forall|i: int| 0 <= i < folded.len() && '0' <= #[trigger] folded[i] <= '9' implies exists|k: int|
        0 <= k < spans.len() && (#[trigger] spans[k]).0 <= i < spans[k].1 by {
        assert(marks[i]);
    }
    spans
}

/// Two queries agree exactly where what is read of them denies alike, holds
/// every number equally often, and names everything equally often.
pub proof fn queries_agree_by_every_mark(a: Seq<char>, b: Seq<char>)
    ensures
        agree(a, b) <==> {
            &&& deny_alike(folded_of(a), folded_of(b))
            &&& forall|number: Seq<char>| #[trigger]
                times_said(digit_runs_of(folded_of(a)), number) == times_said(digit_runs_of(folded_of(b)), number)
            &&& forall|name: Seq<char>| #[trigger]
                times_named(words(text::glyphs_of(folded_of(a))), name) == times_named(
                    words(text::glyphs_of(folded_of(b))),
                    name,
                )
        },
{
    agreement_counts_every_mark(folded_of(a), folded_of(b));
}

} // verus!
