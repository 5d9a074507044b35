//! Search terms: what a passage or a query is indexed and looked up by.
//!
//! Runs of ASCII letters and digits count as whole words; every other run of
//! letters and digits counts by its adjacent character pairs, or as the lone
//! character where it is one long. Words written in camel case also count
//! by their pieces.
use crate::names;
use crate::paths;
use crate::paths::fnv_step;
use crate::text;
use crate::text::{chars_of, glyphs, marked_runs, nfkc, Glyph};
use vstd::prelude::*;

verus! {

/// A term: how it is spelled, and the key it is looked up by.
pub struct Term {
    pub spelling: String,
    pub key: u64,
}

pub struct TermView {
    pub spelling: Seq<char>,
    pub key: u64,
}

impl View for Term {
    type V = TermView;

    open spec fn view(&self) -> TermView {
        TermView { spelling: self.spelling@, key: self.key }
    }
}

pub open spec fn term_views(terms: Seq<Term>) -> Seq<TermView> {
    terms.map_values(|t: Term| t@)
}

pub open spec fn is_ascii_alnum(c: char) -> bool {
    text::is_digit(c) || text::is_upper(c) || text::is_lower(c)
}

/// What a character belongs to: a word, a run of other letters and digits, or
/// neither.
pub open spec fn class_of(g: Glyph) -> int {
    if is_ascii_alnum(g.0) {
        0
    } else if g.1 {
        1
    } else {
        2
    }
}

/// How many of the first characters are of the class.
pub open spec fn class_len(s: Seq<Glyph>, class: int) -> nat
    decreases s.len(),
{
    if s.len() == 0 || class_of(s[0]) != class {
        0
    } else {
        1 + class_len(s.drop_first(), class)
    }
}

/// The key of a word: its hash, with the top bit set.
pub open spec fn word_key(word: Seq<char>) -> u64 {
    paths::fnv(word.map_values(|c: char| c as u64)) | (1u64 << 63)
}

/// The key of an adjacent pair.
pub open spec fn pair_key(a: char, b: char) -> u64 {
    ((a as u64) << 32) | (b as u64)
}

/// The terms of one run.
pub open spec fn run_terms(class: int, run: Seq<char>) -> Seq<TermView> {
    if class == 0 {
        seq![TermView { spelling: run, key: word_key(run) }]
    } else if class == 1 {
        if run.len() == 1 {
            seq![TermView { spelling: run, key: run[0] as u64 }]
        } else {
            pair_terms(run)
        }
    } else {
        Seq::empty()
    }
}

/// The terms of a run's adjacent pairs.
pub open spec fn pair_terms(run: Seq<char>) -> Seq<TermView>
    decreases run.len(),
{
    if run.len() < 2 {
        Seq::empty()
    } else {
        pair_terms(run.drop_last()).push(
            TermView {
                spelling: seq![run[run.len() - 2], run.last()],
                key: pair_key(run[run.len() - 2], run.last()),
            },
        )
    }
}

/// The terms of a text, run by run.
pub open spec fn terms_of_text(s: Seq<Glyph>) -> Seq<TermView>
    decreases s.len(),
{
    if s.len() == 0 {
        Seq::empty()
    } else {
        let class = class_of(s[0]);
        let n = class_len(s, class);
        if n == 0 || n > s.len() {
            Seq::empty()
        } else {
            run_terms(class, text::plain(s.take(n as int))) + terms_of_text(s.skip(n as int))
        }
    }
}

pub open spec fn ascii_lower(c: char) -> char {
    if text::is_upper(c) {
        ((c as u8) + 32) as u8 as char
    } else {
        c
    }
}

/// A camel-case word has a boundary before the character at `at`: a capital
/// behind a small letter or a digit, or the last capital of an acronym.
pub open spec fn is_boundary(run: Seq<char>, at: int) -> bool {
    &&& 1 <= at < run.len()
    &&& text::is_upper(run[at])
    &&& (text::is_lower(run[at - 1]) || text::is_digit(run[at - 1]) || (text::is_upper(run[at - 1]) && at + 1 < run.len()
        && text::is_lower(run[at + 1])))
}

/// The pieces of a run from `from` on, with no boundary before `at`.
pub open spec fn pieces_from(run: Seq<char>, from: int, at: int) -> Seq<Seq<char>>
    decreases run.len() - at,
{
    if at >= run.len() {
        seq![run.subrange(from, run.len() as int)]
    } else if is_boundary(run, at) {
        seq![run.subrange(from, at)] + pieces_from(run, at, at + 1)
    } else {
        pieces_from(run, from, at + 1)
    }
}

/// The term of one piece: the word in lower case.
pub open spec fn piece_term(piece: Seq<char>) -> TermView {
    let word = piece.map_values(|c: char| ascii_lower(c));
    TermView { spelling: word, key: word_key(word) }
}

/// The terms of a camel-case run; none where it has no boundary.
pub open spec fn camel_terms(run: Seq<char>) -> Seq<TermView> {
    let pieces = pieces_from(run, 0, 1);
    if pieces.len() < 2 {
        Seq::empty()
    } else {
        pieces.map_values(|p: Seq<char>| piece_term(p))
    }
}

/// The terms of the first `n` camel-case runs.
pub open spec fn camel_terms_upto(runs: Seq<Seq<char>>, n: nat) -> Seq<TermView>
    decreases n,
{
    if n == 0 {
        Seq::empty()
    } else {
        camel_terms_upto(runs, (n - 1) as nat) + camel_terms(runs[n - 1])
    }
}

/// The runs of ASCII letters and digits.
pub open spec fn ascii_runs(s: Seq<char>) -> Seq<Seq<char>> {
    text::runs(s, s.map_values(|c: char| is_ascii_alnum(c)))
}

/// The terms of a passage or a query, from its normalized text and its text
/// in Normalization Form KC.
pub open spec fn all_terms(normalized: Seq<Glyph>, folded: Seq<char>) -> Seq<TermView> {
    terms_of_text(normalized) + camel_terms_upto(ascii_runs(folded), ascii_runs(folded).len())
}

fn ascii_alnum(c: char) -> (res: bool)
    ensures
        res == is_ascii_alnum(c),
{
    ('0' <= c && c <= '9') || ('A' <= c && c <= 'Z') || ('a' <= c && c <= 'z')
}

fn lower(c: char) -> (res: char)
    ensures
        res == ascii_lower(c),
{
    if 'A' <= c && c <= 'Z' {
        ((c as u8) + 32) as char
    } else {
        c
    }
}

fn key_of_word(word: &str) -> (res: u64)
    ensures
        res == word_key(word@),
{
    let chars = chars_of(word);
    let ghost all = word@.map_values(|c: char| c as u64);
    let mut hash: u64 = paths::FNV_OFFSET;
    let mut i: usize = 0;
    assert(all.take(0) =~= Seq::empty());
    while i < chars.len()
        invariant
            chars@ == word@,
            all == word@.map_values(|c: char| c as u64),
            i <= chars.len(),
            hash == paths::fnv(all.take(i as int)),
        decreases chars.len() - i,
    {
        hash = fnv_step(hash, chars[i] as u64);
        assert(all.take(i + 1).drop_last() =~= all.take(i as int));
        i = i + 1;
    }
    assert(all.take(i as int) =~= all);
    hash | (1u64 << 63)
}

fn class(g: Glyph) -> (res: u8)
    ensures
        res == class_of(g),
{
    if ascii_alnum(g.0) {
        0
    } else if g.1 {
        1
    } else {
        2
    }
}

/// The terms of a text, each next to its spelling.
pub fn text_terms(s: &Vec<Glyph>) -> (res: Vec<Term>)
    ensures
        term_views(res@) == terms_of_text(s@),
{
    let mut res: Vec<Term> = Vec::new();
    let mut i: usize = 0;
    assert(s@.skip(0) =~= s@);
    assert(term_views(res@) =~= Seq::empty());
    assert(Seq::<TermView>::empty() + terms_of_text(s@) =~= terms_of_text(s@));
    while i < s.len()
        invariant
            i <= s.len(),
            term_views(res@) + terms_of_text(s@.skip(i as int)) == terms_of_text(s@),
        decreases s.len() - i,
    {
        let start: usize = i;
        let kind: u8 = class(s[i]);
        let ghost rest = s@.skip(start as int);
        let ghost before = term_views(res@);
        let mut run = String::new();
        let mut previous: char = s[i].0;
        while i < s.len() && class(s[i]) == kind
            invariant
                start <= i <= s.len(),
                start < s.len(),
                kind == class_of(s@[start as int]),
                kind < 3,
                run@ == text::plain(s@.subrange(start as int, i as int)),
                class_len(s@.skip(start as int), kind as int) == (i - start) + class_len(s@.skip(i as int), kind as int),
                i > start ==> previous == run@.last(),
                term_views(res@) == before + if kind == 1 {
                    pair_terms(run@)
                } else {
                    Seq::empty()
                },
            decreases s.len() - i,
        {
            let c = s[i].0;
            let ghost was = run@;
            assert(s@.skip(i as int).drop_first() =~= s@.skip(i + 1));
            if kind == 1 && i > start {
                let mut spelling = String::new();
                spelling.push(previous);
                spelling.push(c);
                let key: u64 = ((previous as u64) << 32) | (c as u64);
                let ghost had = res@;
                let term = Term { spelling, key };
                res.push(term);
                proof {
                    assert(spelling@ =~= seq![previous, c]);
                    assert(was.push(c).drop_last() =~= was);
                    assert(term_views(res@) =~= term_views(had).push(term@));
                    assert(term_views(res@) =~= before + pair_terms(was.push(c)));
                }
            }
            run.push(c);
            previous = c;
            proof {
                assert(run@ =~= text::plain(s@.subrange(start as int, i + 1)));
                assert(run@ == was.push(c));
                if kind == 1 && i == start {
                    assert(pair_terms(run@) =~= Seq::empty());
                }
            }
            i = i + 1;
        }
        let ghost n = (i - start) as nat;
        proof {
            assert(class_len(rest, kind as int) == n) by {
                assert(class_len(s@.skip(i as int), kind as int) == 0);
            }
            assert(n > 0) by {
                assert(rest[0] == s@[start as int]);
            }
            assert(text::plain(rest.take(n as int)) =~= run@);
            assert(rest.skip(n as int) =~= s@.skip(i as int));
        }
        if kind == 0 {
            let key: u64 = key_of_word(run.as_str());
            let term = Term { spelling: run, key };
            let ghost had = res@;
            res.push(term);
            assert(term_views(res@) =~= term_views(had).push(term@));
            assert(term_views(res@) =~= before + run_terms(0, run@));
        } else if kind == 1 {
            if i - start == 1 {
                let key: u64 = previous as u64;
                let term = Term { spelling: run, key };
                let ghost had = res@;
                res.push(term);
                proof {
                    assert(pair_terms(run@) =~= Seq::empty());
                    assert(term_views(res@) =~= term_views(had).push(term@));
                    assert(term_views(res@) =~= before + run_terms(1, run@));
                }
            }
        } else {
            assert(term_views(res@) =~= before + run_terms(2, run@));
        }
        proof {
            assert(term_views(res@) == before + run_terms(kind as int, run@));
            assert(before + terms_of_text(rest) =~= term_views(res@) + terms_of_text(s@.skip(i as int)));
        }
    }
    assert(term_views(res@) + Seq::<TermView>::empty() =~= term_views(res@));
    res
}

/// The terms of a camel-case run: one per piece, none where it has no
/// boundary.
pub fn camel_pieces(run: &str) -> (res: Vec<Term>)
    ensures
        term_views(res@) == camel_terms(run@),
{
    let chars = chars_of(run);
    let ghost all = run@;
    let mut pieces: Vec<String> = Vec::new();
    let mut current = String::new();
    let ghost mut from: int = 0;
    let mut at: usize = 0;
    if chars.len() > 0 {
        current.push(chars[0]);
        at = 1;
    }
    proof {
        assert(names::views(pieces@) =~= Seq::empty());
        assert(Seq::<Seq<char>>::empty() + pieces_from(all, 0, 1) =~= pieces_from(all, 0, 1));
        if chars.len() > 0 {
            assert(current@ =~= all.subrange(0, 1));
        } else {
            assert(current@ =~= all.subrange(0, 0));
        }
    }
    while at < chars.len()
        invariant
            chars@ == all,
            chars.len() > 0 ==> 1 <= at <= chars.len(),
            chars.len() == 0 ==> at == 0,
            0 <= from <= at,
            current@ == all.subrange(from, at as int),
            names::views(pieces@) + pieces_from(all, from, if at == 0 {
                1
            } else {
                at as int
            }) == pieces_from(all, 0, 1),
        decreases chars.len() - at,
    {
        let c = chars[at];
        let p = chars[at - 1];
        let upper = 'A' <= c && c <= 'Z';
        let after_lower = ('a' <= p && p <= 'z') || ('0' <= p && p <= '9');
        let ends_acronym = 'A' <= p && p <= 'Z' && at + 1 < chars.len() && 'a' <= chars[at + 1] && chars[at + 1] <= 'z';
        if upper && (after_lower || ends_acronym) {
            let ghost was = names::views(pieces@);
            let ghost piece = current@;
            assert(is_boundary(all, at as int));
            pieces.push(current);
            current = String::new();
            proof {
                assert(names::views(pieces@) =~= was.push(piece));
                assert(was + (seq![piece] + pieces_from(all, at as int, at + 1)) =~= was.push(piece) + pieces_from(
                    all,
                    at as int,
                    at + 1,
                ));
                from = at as int;
            }
        } else {
            assert(!is_boundary(all, at as int));
        }
        current.push(c);
        assert(current@ =~= all.subrange(from, at + 1));
        at = at + 1;
    }
    let ghost was = names::views(pieces@);
    let ghost piece = current@;
    pieces.push(current);
    proof {
        assert(names::views(pieces@) =~= was.push(piece));
        assert(piece =~= all.subrange(from, all.len() as int));
        assert(was + seq![piece] =~= was.push(piece));
    }
    let mut res: Vec<Term> = Vec::new();
    if pieces.len() < 2 {
        assert(term_views(res@) =~= Seq::empty());
        return res;
    }
    let ghost want = pieces_from(all, 0, 1).map_values(|p: Seq<char>| piece_term(p));
    let mut i: usize = 0;
    while i < pieces.len()
        invariant
            i <= pieces.len(),
            want == names::views(pieces@).map_values(|p: Seq<char>| piece_term(p)),
            term_views(res@) == want.take(i as int),
        decreases pieces.len() - i,
    {
        let word = lowered(pieces[i].as_str());
        let key: u64 = key_of_word(word.as_str());
        let term = Term { spelling: word, key };
        let ghost had = res@;
        res.push(term);
        proof {
            assert(term@ == piece_term(pieces@[i as int]@));
            assert(term_views(res@) =~= term_views(had).push(term@));
            assert(term_views(res@) =~= want.take(i + 1));
        }
        i = i + 1;
    }
    assert(want.take(i as int) =~= want);
    res
}

fn lowered(s: &str) -> (res: String)
    ensures
        res@ == s@.map_values(|c: char| ascii_lower(c)),
{
    let chars = chars_of(s);
    let ghost want = s@.map_values(|c: char| ascii_lower(c));
    let mut res = String::new();
    let mut i: usize = 0;
    while i < chars.len()
        invariant
            chars@ == s@,
            want == s@.map_values(|c: char| ascii_lower(c)),
            i <= chars.len(),
            res@ == want.take(i as int),
        decreases chars.len() - i,
    {
        res.push(lower(chars[i]));
        assert(res@ =~= want.take(i + 1));
        i = i + 1;
    }
    assert(want.take(i as int) =~= want);
    res
}

/// The terms of a passage or a query, from its normalized text and its text
/// in Normalization Form KC: the words and pairs of the one, then the
/// camel-case pieces of the other.
pub fn walk_passage_terms(normalized: &Vec<Glyph>, folded: &str) -> (res: Vec<Term>)
    ensures
        term_views(res@) == all_terms(normalized@, folded@),
{
    let mut res = text_terms(normalized);
    let chars = chars_of(folded);
    let mut mask: Vec<bool> = Vec::new();
    let mut i: usize = 0;
    let ghost marks = folded@.map_values(|c: char| is_ascii_alnum(c));
    while i < chars.len()
        invariant
            chars@ == folded@,
            marks == folded@.map_values(|c: char| is_ascii_alnum(c)),
            i <= chars.len(),
            mask@ == marks.take(i as int),
        decreases chars.len() - i,
    {
        mask.push(ascii_alnum(chars[i]));
        assert(mask@ =~= marks.take(i + 1));
        i = i + 1;
    }
    assert(mask@ =~= marks);
    let runs = marked_runs(&chars, &mask);
    let ghost all = ascii_runs(folded@);
    let ghost base = terms_of_text(normalized@);
    let mut k: usize = 0;
    assert(term_views(res@) =~= base + camel_terms_upto(all, 0));
    while k < runs.len()
        invariant
            names::views(runs@) == all,
            k <= runs.len(),
            term_views(res@) == base + camel_terms_upto(all, k as nat),
        decreases runs.len() - k,
    {
        let more = camel_pieces(runs[k].as_str());
        assert(all[k as int] == runs@[k as int]@);
        let ghost had = term_views(res@);
        let mut j: usize = 0;
        assert(camel_terms(all[k as int]).take(0) =~= Seq::empty());
        assert(term_views(res@) =~= had + Seq::<TermView>::empty());
        while j < more.len()
            invariant
                term_views(more@) == camel_terms(all[k as int]),
                j <= more.len(),
                term_views(res@) == had + camel_terms(all[k as int]).take(j as int),
            decreases more.len() - j,
        {
            let term = Term { spelling: more[j].spelling.clone(), key: more[j].key };
            let ghost now = res@;
            res.push(term);
            proof {
                assert(camel_terms(all[k as int])[j as int] == more@[j as int]@);
                assert(term_views(res@) =~= term_views(now).push(term@));
                assert(term_views(res@) =~= had + camel_terms(all[k as int]).take(j + 1));
            }
            j = j + 1;
        }
        proof {
            assert(camel_terms(all[k as int]).take(j as int) =~= camel_terms(all[k as int]));
            assert(had + camel_terms(all[k as int]) =~= base + camel_terms_upto(all, (k + 1) as nat));
        }
        k = k + 1;
    }
    res
}

/// The terms of a passage or a query, each next to its spelling. `normalized`
/// is the text as the graph normalizes its entries.
pub fn spelled_passage_terms(raw: &str, normalized: &str) -> (res: Vec<Term>)
    ensures
        term_views(res@) == all_terms(text::glyphs_of(normalized@), text::nfkc_of(raw@)),
        forall|i: int| 0 <= i < res.len() ==> is_laid_out((#[trigger] res@[i])@),
{
    let folded = nfkc(raw);
    let res = walk_passage_terms(&glyphs(normalized), folded.as_str());
    proof {
        terms_are_laid_out(normalized@, folded@);
        assert forall|i: int| 0 <= i < res.len() implies is_laid_out((#[trigger] res@[i])@) by {
            assert(term_views(res@)[i] == res@[i]@);
        }
    }
    res
}

/// The terms' keys, in order.
pub open spec fn keys_of(terms: Seq<TermView>) -> Seq<u64> {
    terms.map_values(|t: TermView| t.key)
}

/// The keys of a passage's or a query's terms: exactly those that
/// [`spelled_passage_terms`] spells, in the same order.
pub fn passage_terms(raw: &str, normalized: &str) -> (res: Vec<u64>)
    ensures
        res@ == keys_of(all_terms(text::glyphs_of(normalized@), text::nfkc_of(raw@))),
{
    let terms = spelled_passage_terms(raw, normalized);
    let ghost want = keys_of(term_views(terms@));
    let mut res: Vec<u64> = Vec::new();
    let mut i: usize = 0;
    while i < terms.len()
        invariant
            want == keys_of(term_views(terms@)),
            i <= terms.len(),
            res@ == want.take(i as int),
        decreases terms.len() - i,
    {
        res.push(terms[i].key);
        assert(res@ =~= want.take(i + 1));
        i = i + 1;
    }
    assert(want.take(i as int) =~= want);
    res
}

/// A word of ASCII letters and digits.
pub open spec fn is_ascii_word(s: Seq<char>) -> bool {
    s.len() > 0 && forall|i: int| 0 <= i < s.len() ==> is_ascii_alnum(#[trigger] s[i])
}

/// Characters that are none of the ASCII letters and digits.
pub open spec fn is_beyond_words(s: Seq<char>) -> bool {
    forall|i: int| 0 <= i < s.len() ==> !is_ascii_alnum(#[trigger] s[i])
}

/// The key of a term with this spelling.
pub open spec fn key_spelled(spelling: Seq<char>) -> u64 {
    if is_ascii_word(spelling) {
        word_key(spelling)
    } else if spelling.len() == 1 {
        spelling[0] as u64
    } else {
        pair_key(spelling[0], spelling[1])
    }
}

/// How terms are laid out: the key follows from the spelling, and says which
/// kind of term it is. The keys of words and pieces have the top bit set,
/// those of pairs lie below them and from 2^32 on, and those of lone
/// characters below that.
pub open spec fn is_laid_out(t: TermView) -> bool {
    &&& t.key == key_spelled(t.spelling)
    &&& t.key >= 0x8000_0000_0000_0000 <==> is_ascii_word(t.spelling)
    &&& 0x1_0000_0000 <= t.key < 0x8000_0000_0000_0000 <==> t.spelling.len() == 2 && is_beyond_words(t.spelling)
    &&& t.key < 0x1_0000_0000 <==> t.spelling.len() == 1 && is_beyond_words(t.spelling)
}

proof fn word_is_laid_out(word: Seq<char>)
    requires
        is_ascii_word(word),
    ensures
        is_laid_out((TermView { spelling: word, key: word_key(word) })),
{
    let h = paths::fnv(word.map_values(|c: char| c as u64));
    assert((h | (1u64 << 63)) >= 0x8000_0000_0000_0000u64) by (bit_vector);
    assert(is_ascii_alnum(word[0]));
}

proof fn lone_is_laid_out(c: char, run: Seq<char>)
    requires
        run.len() == 1,
        run[0] == c,
        !is_ascii_alnum(c),
    ensures
        is_laid_out((TermView { spelling: run, key: c as u64 })),
{
    assert(c as u64 <= 0x10ffff);
}

proof fn pair_is_laid_out(a: char, b: char)
    requires
        !is_ascii_alnum(a),
        !is_ascii_alnum(b),
        a as u32 > 0,
    ensures
        is_laid_out((TermView { spelling: seq![a, b], key: pair_key(a, b) })),
{
    let x = a as u64;
    let y = b as u64;
    assert(0 < x <= 0x10ffff && y <= 0x10ffff);
    assert(0x1_0000_0000 <= ((x << 32) | y) < 0x8000_0000_0000_0000u64) by (bit_vector)
        requires
            0 < x <= 0x10ffff,
            y <= 0x10ffff,
    ;
    let spelling = seq![a, b];
    assert(!is_ascii_alnum(spelling[0]) && !is_ascii_alnum(spelling[1]));
}

proof fn pairs_are_laid_out(run: Seq<char>)
    requires
        is_beyond_words(run),
        forall|i: int| 0 <= i < run.len() ==> (#[trigger] run[i]) as u32 > 0,
    ensures
        forall|i: int| 0 <= i < pair_terms(run).len() ==> is_laid_out(#[trigger] pair_terms(run)[i]),
    decreases run.len(),
{
    if run.len() >= 2 {
        let rest = run.drop_last();
        assert forall|i: int| 0 <= i < rest.len() implies (#[trigger] rest[i]) as u32 > 0 && !is_ascii_alnum(rest[i]) by {
            assert(rest[i] == run[i]);
        }
        pairs_are_laid_out(rest);
        let a = run[run.len() - 2];
        let b = run.last();
        pair_is_laid_out(a, b);
        let all = pair_terms(run);
        assert(all == pair_terms(rest).push(TermView { spelling: seq![a, b], key: pair_key(a, b) }));
        assert forall|i: int| 0 <= i < all.len() implies is_laid_out(#[trigger] all[i]) by {
            if i < all.len() - 1 {
                assert(all[i] == pair_terms(rest)[i]);
            }
        }
    }
}

proof fn class_of_first(s: Seq<Glyph>, class: int)
    ensures
        class_len(s, class) <= s.len(),
        forall|i: int| 0 <= i < class_len(s, class) ==> class_of(#[trigger] s[i]) == class,
    decreases s.len(),
{
    if s.len() > 0 && class_of(s[0]) == class {
        let rest = s.drop_first();
        class_of_first(rest, class);
        assert forall|i: int| 0 <= i < class_len(s, class) implies class_of(#[trigger] s[i]) == class by {
            if i > 0 {
                assert(rest[i - 1] == s[i]);
            }
        }
    }
}

proof fn text_terms_are_laid_out(s: Seq<Glyph>)
    requires
        forall|i: int| 0 <= i < s.len() ==> (#[trigger] s[i]).1 == text::alphanumeric(s[i].0),
    ensures
        forall|i: int| 0 <= i < terms_of_text(s).len() ==> is_laid_out(#[trigger] terms_of_text(s)[i]),
    decreases s.len(),
{
    if s.len() > 0 {
        let class = class_of(s[0]);
        let n = class_len(s, class);
        class_of_first(s, class);
        if n > 0 {
            let run = text::plain(s.take(n as int));
            let first = run_terms(class, run);
            let rest = s.skip(n as int);
            assert forall|i: int| 0 <= i < rest.len() implies (#[trigger] rest[i]).1 == text::alphanumeric(rest[i].0) by {
                assert(rest[i] == s[i + n]);
            }
            text_terms_are_laid_out(rest);
            assert forall|i: int| 0 <= i < run.len() implies class_of(s[i]) == class && #[trigger] run[i] == s[i].0 && s[i].1
                == text::alphanumeric(s[i].0) by {}
            if class == 0 {
                assert(is_ascii_word(run));
                word_is_laid_out(run);
            } else if class == 1 {
                assert forall|i: int| 0 <= i < run.len() implies (#[trigger] run[i]) as u32 > 0 && !is_ascii_alnum(run[i]) by {
                    assert(class_of(s[i]) == class);
                }
                if run.len() == 1 {
                    lone_is_laid_out(run[0], run);
                } else {
                    pairs_are_laid_out(run);
                }
            }
            assert forall|i: int| 0 <= i < terms_of_text(s).len() implies is_laid_out(#[trigger] terms_of_text(s)[i]) by {
                if i < first.len() {
                    assert(terms_of_text(s)[i] == first[i]);
                } else {
                    assert(terms_of_text(s)[i] == terms_of_text(rest)[i - first.len()]);
                }
            }
        }
    }
}

proof fn pieces_are_words(run: Seq<char>, from: int, at: int)
    requires
        is_ascii_word(run),
        0 <= from < at <= run.len(),
    ensures
        forall|i: int| 0 <= i < pieces_from(run, from, at).len() ==> is_ascii_word(#[trigger] pieces_from(run, from, at)[i]),
    decreases run.len() - at,
{
    if at >= run.len() {
        assert(is_ascii_word(run.subrange(from, run.len() as int)));
        assert(pieces_from(run, from, at) =~= seq![run.subrange(from, run.len() as int)]);
    } else if is_boundary(run, at) {
        pieces_are_words(run, at, at + 1);
        let first = run.subrange(from, at);
        assert(is_ascii_word(first));
        assert forall|i: int| 0 <= i < pieces_from(run, from, at).len() implies is_ascii_word(
            #[trigger] pieces_from(run, from, at)[i],
        ) by {
            if i > 0 {
                assert(pieces_from(run, from, at)[i] == pieces_from(run, at, at + 1)[i - 1]);
            }
        }
    } else {
        pieces_are_words(run, from, at + 1);
        assert(pieces_from(run, from, at) == pieces_from(run, from, at + 1));
    }
}

proof fn camel_terms_are_laid_out(run: Seq<char>)
    requires
        is_ascii_word(run),
    ensures
        forall|i: int| 0 <= i < camel_terms(run).len() ==> is_laid_out(#[trigger] camel_terms(run)[i]),
{
    pieces_are_words(run, 0, 1);
    let pieces = pieces_from(run, 0, 1);
    assert forall|i: int| 0 <= i < camel_terms(run).len() implies is_laid_out(#[trigger] camel_terms(run)[i]) by {
        let piece = pieces[i];
        assert(is_ascii_word(piece));
        let word = piece.map_values(|c: char| ascii_lower(c));
        assert forall|k: int| 0 <= k < word.len() implies is_ascii_alnum(#[trigger] word[k]) by {
            assert(is_ascii_alnum(piece[k]));
        }
        word_is_laid_out(word);
    }
}

proof fn runs_are_words(s: Seq<char>)
    ensures
        forall|i: int| 0 <= i < ascii_runs(s).len() ==> is_ascii_word(#[trigger] ascii_runs(s)[i]),
    decreases s.len(),
{
    let mask = s.map_values(|c: char| is_ascii_alnum(c));
    assert(ascii_runs(s) == text::runs(s, mask));
    if s.len() > 0 {
        if !mask[0] {
            let rest = s.drop_first();
            runs_are_words(rest);
            assert(mask.drop_first() =~= rest.map_values(|c: char| is_ascii_alnum(c)));
            assert(ascii_runs(s) == ascii_runs(rest));
        } else {
            let n = text::run_len(mask);
            text::run_len_bound(mask);
            let rest = s.skip(n as int);
            runs_are_words(rest);
            assert(mask.skip(n as int) =~= rest.map_values(|c: char| is_ascii_alnum(c)));
            let first = s.take(n as int);
            assert forall|k: int| 0 <= k < first.len() implies is_ascii_alnum(#[trigger] first[k]) by {
                assert(mask[k]);
            }
            assert(is_ascii_word(first));
            assert(ascii_runs(s) == seq![first] + ascii_runs(rest));
            assert forall|i: int| 0 <= i < ascii_runs(s).len() implies is_ascii_word(#[trigger] ascii_runs(s)[i]) by {
                if i > 0 {
                    assert(ascii_runs(s)[i] == ascii_runs(rest)[i - 1]);
                }
            }
        }
    }
}

proof fn all_camel_terms_are_laid_out(runs: Seq<Seq<char>>, n: nat)
    requires
        n <= runs.len(),
        forall|i: int| 0 <= i < runs.len() ==> is_ascii_word(#[trigger] runs[i]),
    ensures
        forall|i: int| 0 <= i < camel_terms_upto(runs, n).len() ==> is_laid_out(#[trigger] camel_terms_upto(runs, n)[i]),
    decreases n,
{
    if n > 0 {
        let m = (n - 1) as nat;
        all_camel_terms_are_laid_out(runs, m);
        assert(is_ascii_word(runs[n - 1]));
        camel_terms_are_laid_out(runs[n - 1]);
        let rest = camel_terms_upto(runs, m);
        assert forall|i: int| 0 <= i < camel_terms_upto(runs, n).len() implies is_laid_out(
            #[trigger] camel_terms_upto(runs, n)[i],
        ) by {
            if i >= rest.len() {
                assert(camel_terms_upto(runs, n)[i] == camel_terms(runs[n - 1])[i - rest.len()]);
            } else {
                assert(camel_terms_upto(runs, n)[i] == rest[i]);
            }
        }
    }
}

/// Every term of a text is laid out: words, pairs and lone characters never
/// share a key, and the key follows from the spelling.
pub proof fn terms_are_laid_out(normalized: Seq<char>, folded: Seq<char>)
    ensures
        forall|i: int|
            0 <= i < all_terms(text::glyphs_of(normalized), folded).len() ==> is_laid_out(
                #[trigger] all_terms(text::glyphs_of(normalized), folded)[i],
            ),
{
    let s = text::glyphs_of(normalized);
    text_terms_are_laid_out(s);
    runs_are_words(folded);
    let runs = ascii_runs(folded);
    all_camel_terms_are_laid_out(runs, runs.len());
    let first = terms_of_text(s);
    assert forall|i: int| 0 <= i < all_terms(s, folded).len() implies is_laid_out(#[trigger] all_terms(s, folded)[i]) by {
        if i < first.len() {
            assert(all_terms(s, folded)[i] == first[i]);
        } else {
            assert(all_terms(s, folded)[i] == camel_terms_upto(runs, runs.len())[i - first.len()]);
        }
    }
}

/// Terms that are spelled the same carry the same key, within a text and
/// across two: a query finds what a passage was indexed by.
pub proof fn equal_spellings_carry_equal_keys(a: TermView, b: TermView)
    requires
        is_laid_out(a),
        is_laid_out(b),
        a.spelling == b.spelling,
    ensures
        a.key == b.key,
{
}

/// A camel-case run turns to a new word before a capital that follows a small
/// letter or a digit, and before the last capital of several where a small
/// letter follows it; nowhere else.
pub proof fn case_boundaries(run: Seq<char>, at: int)
    requires
        1 <= at < run.len(),
    ensures
        'a' <= run[at - 1] <= 'z' && 'A' <= run[at] <= 'Z' ==> is_boundary(run, at),
        '0' <= run[at - 1] <= '9' && 'A' <= run[at] <= 'Z' ==> is_boundary(run, at),
        'A' <= run[at - 1] <= 'Z' && 'A' <= run[at] <= 'Z' ==> (is_boundary(run, at) <==> at + 1 < run.len() && 'a'
            <= run[at + 1] <= 'z'),
        is_boundary(run, at) ==> 'A' <= run[at] <= 'Z',
        is_boundary(run, at) ==> 'a' <= run[at - 1] <= 'z' || '0' <= run[at - 1] <= '9' || 'A' <= run[at - 1] <= 'Z',
{
}

/// Where the pieces of a run from `from` on begin, and where the last ends.
proof fn cuts_from(run: Seq<char>, from: int, at: int) -> (cuts: Seq<int>)
    requires
        0 <= from < at <= run.len(),
        forall|k: int| from < k < at ==> !is_boundary(run, k),
    ensures
        cuts.len() == pieces_from(run, from, at).len() + 1,
        cuts[0] == from,
        cuts.last() == run.len(),
        forall|k: int, l: int| 0 <= k < l < cuts.len() ==> #[trigger] cuts[k] < #[trigger] cuts[l],
        forall|k: int|
            0 <= k < cuts.len() - 1 ==> #[trigger] pieces_from(run, from, at)[k] == run.subrange(cuts[k], cuts[k + 1]),
        forall|k: int| 0 < k < cuts.len() - 1 ==> is_boundary(run, #[trigger] cuts[k]),
        forall|b: int| from < b && #[trigger] is_boundary(run, b) ==> exists|k: int|
            0 < k < cuts.len() - 1 && #[trigger] cuts[k] == b,
    decreases run.len() - at,
{
    if at >= run.len() {
        seq![from, run.len() as int]
    } else if is_boundary(run, at) {
        let tail = cuts_from(run, at, at + 1);
        let cuts = seq![from] + tail;
        let pieces = pieces_from(run, from, at);
        let more = pieces_from(run, at, at + 1);
        assert(pieces == seq![run.subrange(from, at)] + more);
        assert forall|k: int, l: int| 0 <= k < l < cuts.len() implies #[trigger] cuts[k] < #[trigger] cuts[l] by {
            assert(tail[0] == at);
            if k == 0 {
                if l > 1 {
                    assert(tail[0] < tail[l - 1]);
                }
            } else {
                assert(tail[k - 1] < tail[l - 1]);
            }
        }
        assert forall|k: int| 0 <= k < cuts.len() - 1 implies #[trigger] pieces[k] == run.subrange(cuts[k], cuts[k + 1]) by {
            if k > 0 {
                assert(pieces[k] == more[k - 1]);
            }
        }
        assert forall|k: int| 0 < k < cuts.len() - 1 implies is_boundary(run, #[trigger] cuts[k]) by {
            if k > 1 {
                assert(is_boundary(run, tail[k - 1]));
            }
        }
        assert forall|b: int| from < b && #[trigger] is_boundary(run, b) implies exists|k: int|
            0 < k < cuts.len() - 1 && #[trigger] cuts[k] == b by {
            if b == at {
                assert(cuts[1] == at);
            } else {
                let k = choose|k: int| 0 < k < tail.len() - 1 && #[trigger] tail[k] == b;
                assert(cuts[k + 1] == b);
            }
        }
        cuts
    } else {
        cuts_from(run, from, at + 1)
    }
}

/// The terms of a camel-case run are its words in lower case: it is cut
/// before every case boundary and nowhere else, so the words laid end to end
/// are the run. A run without a boundary has none. What is returned is where
/// each word begins, and at last where the run ends.
pub proof fn camel_case_is_cut_at_every_boundary(run: Seq<char>) -> (cuts: Seq<int>)
    requires
        run.len() > 0,
    ensures
        cuts.len() >= 2,
        cuts[0] == 0,
        cuts.last() == run.len(),
        forall|k: int, l: int| 0 <= k < l < cuts.len() ==> #[trigger] cuts[k] < #[trigger] cuts[l],
        forall|k: int| 0 < k < cuts.len() - 1 ==> is_boundary(run, #[trigger] cuts[k]),
        forall|b: int| #[trigger] is_boundary(run, b) ==> exists|k: int| 0 < k < cuts.len() - 1 && #[trigger] cuts[k] == b,
        (forall|b: int| !is_boundary(run, b)) <==> camel_terms(run).len() == 0,
        camel_terms(run).len() > 0 ==> camel_terms(run).len() == cuts.len() - 1,
        forall|k: int|
            0 <= k < camel_terms(run).len() ==> (#[trigger] camel_terms(run)[k]).spelling.len() == cuts[k + 1] - cuts[k],
        forall|k: int, i: int|
            0 <= k < camel_terms(run).len() && 0 <= i < cuts[k + 1] - cuts[k] ==> {
                let from = run[cuts[k] + i];
                let to = #[trigger] camel_terms(run)[k].spelling[i];
                if 'A' <= from <= 'Z' {
                    to as int == from as int + 32
                } else {
                    to == from
                }
            },
{
    let cuts = cuts_from(run, 0, 1);
    let pieces = pieces_from(run, 0, 1);
    if cuts.len() > 2 {
        assert(is_boundary(run, cuts[1]));
    }
    if camel_terms(run).len() == 0 {
        assert forall|b: int| !is_boundary(run, b) by {
            if is_boundary(run, b) {
                let k = choose|k: int| 0 < k < cuts.len() - 1 && #[trigger] cuts[k] == b;
                assert(pieces.len() >= 2);
            }
        }
    }
    assert forall|k: int| 0 <= k < camel_terms(run).len() implies (#[trigger] camel_terms(run)[k]).spelling.len() == cuts[k
        + 1] - cuts[k] by {
        assert(camel_terms(run)[k] == piece_term(pieces[k]));
        assert(cuts[k] < cuts[k + 1]);
        assert(cuts[k + 1] <= cuts.last()) by {
            if k + 1 < cuts.len() - 1 {
                assert(cuts[k + 1] < cuts[cuts.len() - 1]);
            }
        }
        assert(cuts[0] <= cuts[k]) by {
            if k > 0 {
                assert(cuts[0] < cuts[k]);
            }
        }
    }
    assert forall|k: int, i: int| 0 <= k < camel_terms(run).len() && 0 <= i < cuts[k + 1] - cuts[k] implies {
        let from = run[cuts[k] + i];
        let to = #[trigger] camel_terms(run)[k].spelling[i];
        if 'A' <= from <= 'Z' {
            to as int == from as int + 32
        } else {
            to == from
        }
    } by {
        assert(camel_terms(run)[k] == piece_term(pieces[k]));
        assert(camel_terms(run)[k].spelling.len() == cuts[k + 1] - cuts[k]);
        assert(pieces[k][i] == run[cuts[k] + i]);
        lowering(run[cuts[k] + i]);
    }
    cuts
}

/// A capital becomes its small letter; nothing else changes.
pub proof fn lowering(c: char)
    ensures
        'A' <= c <= 'Z' ==> ascii_lower(c) as int == c as int + 32,
        !('A' <= c <= 'Z') ==> ascii_lower(c) == c,
{
}

/// ASCII letters and digits belong to words; of the rest, what counts as a
/// letter or a digit belongs to runs that count by their pairs, and what does
/// not belongs to neither.
pub proof fn classes_of_characters(g: Glyph)
    ensures
        class_of(g) == 0 <==> ('0' <= g.0 <= '9' || 'A' <= g.0 <= 'Z' || 'a' <= g.0 <= 'z'),
        class_of(g) == 1 <==> g.1 && !('0' <= g.0 <= '9' || 'A' <= g.0 <= 'Z' || 'a' <= g.0 <= 'z'),
        class_of(g) == 0 || class_of(g) == 1 || class_of(g) == 2,
{
}

/// The key of a pair tells both of its characters, and a word's key tells the
/// word's hash but for the top bit.
pub proof fn keys_tell_their_characters(a: char, b: char, word: Seq<char>)
    ensures
        pair_key(a, b) == (a as int) * 0x1_0000_0000 + (b as int),
        word_key(word) >= 0x8000_0000_0000_0000,
        word_key(word) % 0x8000_0000_0000_0000 == paths::fnv(word.map_values(|c: char| c as u64)) % 0x8000_0000_0000_0000,
{
    let x = a as u64;
    let y = b as u64;
    assert(x <= 0x10ffff && y <= 0x10ffff);
    assert(((x << 32) | y) == x * 0x1_0000_0000 + y) by (bit_vector)
        requires
            x <= 0x10ffff,
            y <= 0x10ffff,
    ;
    let h = paths::fnv(word.map_values(|c: char| c as u64));
    assert((h | (1u64 << 63)) >= 0x8000_0000_0000_0000u64) by (bit_vector);
    assert((h | (1u64 << 63)) % 0x8000_0000_0000_0000u64 == h % 0x8000_0000_0000_0000u64) by (bit_vector);
}

proof fn pairs_stand_side_by_side(run: Seq<char>)
    requires
        run.len() >= 1,
    ensures
        pair_terms(run).len() == run.len() - 1,
        forall|k: int|
            0 <= k < run.len() - 1 ==> #[trigger] pair_terms(run)[k] == (TermView {
                spelling: seq![run[k], run[k + 1]],
                key: pair_key(run[k], run[k + 1]),
            }),
    decreases run.len(),
{
    if run.len() >= 2 {
        let rest = run.drop_last();
        pairs_stand_side_by_side(rest);
        let all = pair_terms(run);
        let n = run.len() as int;
        assert(all == pair_terms(rest).push(
            TermView { spelling: seq![run[n - 2], run.last()], key: pair_key(run[n - 2], run.last()) },
        ));
        assert forall|k: int| 0 <= k < n - 1 implies #[trigger] all[k] == (TermView {
            spelling: seq![run[k], run[k + 1]],
            key: pair_key(run[k], run[k + 1]),
        }) by {
            if k < n - 2 {
                assert(all[k] == pair_terms(rest)[k]);
            }
        }
    }
}

/// A term of a text begins at `i`: a word at its first character; a pair at
/// each character that another of its kind follows; and a lone character.
pub open spec fn term_begins(s: Seq<Glyph>, i: int) -> bool {
    let here = class_of(s[i]);
    let after_same = i > 0 && class_of(s[i - 1]) == here;
    let before_same = i + 1 < s.len() && class_of(s[i + 1]) == here;
    0 <= i < s.len() && (here == 0 && !after_same || here == 1 && (before_same || !after_same))
}

/// The term that begins at `i`: a word reaches to where it ends, a pair over
/// two characters, a lone character over one.
pub open spec fn term_stands(s: Seq<Glyph>, i: int, t: TermView) -> bool {
    let n = t.spelling.len() as int;
    &&& 0 <= i && 1 <= n && i + n <= s.len()
    &&& forall|k: int| 0 <= k < n ==> #[trigger] t.spelling[k] == s[i + k].0
    &&& forall|k: int| 0 <= k < n ==> class_of(#[trigger] s[i + k]) == class_of(s[i])
    &&& class_of(s[i]) == 0 ==> (i + n == s.len() || class_of(s[i + n]) != 0) && t.key == word_key(t.spelling)
    &&& class_of(s[i]) == 1 ==> n == if i + 1 < s.len() && class_of(s[i + 1]) == 1 {
        2int
    } else {
        1int
    }
    &&& class_of(s[i]) == 1 && n == 1 ==> t.key == t.spelling[0] as u64
    &&& class_of(s[i]) == 1 && n == 2 ==> t.key == pair_key(t.spelling[0], t.spelling[1])
}

/// The terms of a run stand in a text that begins with it.
proof fn run_terms_stand(s: Seq<Glyph>) -> (starts: Seq<int>)
    requires
        s.len() > 0,
    ensures
        ({
            let class = class_of(s[0]);
            let n = class_len(s, class) as int;
            let terms = run_terms(class, text::plain(s.take(n)));
            &&& 1 <= n <= s.len()
            &&& n == s.len() || class_of(s[n]) != class
            &&& starts.len() == terms.len()
            &&& forall|k: int| 0 <= k < starts.len() ==> 0 <= #[trigger] starts[k] < n && term_begins(s, starts[k])
                && term_stands(s, starts[k], terms[k])
            &&& forall|k: int, l: int| 0 <= k < l < starts.len() ==> #[trigger] starts[k] < #[trigger] starts[l]
            &&& forall|i: int|
                0 <= i < n && #[trigger] term_begins(s, i) ==> exists|k: int|
                    0 <= k < starts.len() && #[trigger] starts[k] == i
        }),
{
    let class = class_of(s[0]);
    let n = class_len(s, class) as int;
    class_of_first(s, class);
    class_ends(s, class);
    let run = text::plain(s.take(n));
    let terms = run_terms(class, run);
    assert forall|i: int| 0 <= i < n implies #[trigger] run[i] == s[i].0 && class_of(s[i]) == class by {}
    if class == 0 {
        let starts = seq![0int];
        assert(terms[0].spelling == run);
        assert forall|k: int| 0 <= k < n implies class_of(#[trigger] s[0 + k]) == class by {}
        assert forall|i: int| 0 <= i < n && #[trigger] term_begins(s, i) implies exists|k: int|
            0 <= k < starts.len() && #[trigger] starts[k] == i by {
            if i > 0 {
                assert(class_of(s[i - 1]) == class);
            }
            assert(starts[0] == i);
        }
        starts
    } else if class == 1 && n == 1 {
        let starts = seq![0int];
        assert forall|i: int| 0 <= i < n && #[trigger] term_begins(s, i) implies exists|k: int|
            0 <= k < starts.len() && #[trigger] starts[k] == i by {
            assert(starts[0] == i);
        }
        starts
    } else if class == 1 {
        let starts = Seq::new((n - 1) as nat, |k: int| k);
        pairs_stand_side_by_side(run);
        assert forall|k: int| 0 <= k < starts.len() implies 0 <= #[trigger] starts[k] < n && term_begins(s, starts[k])
            && term_stands(s, starts[k], terms[k]) by {
            assert(class_of(s[k]) == class && class_of(s[k + 1]) == class);
            assert(run[k] == s[k].0 && run[k + 1] == s[k + 1].0);
            assert(terms[k] == pair_terms(run)[k]);
            let t = terms[k];
            assert forall|j: int| 0 <= j < 2 implies class_of(#[trigger] s[k + j]) == class by {}
            assert forall|j: int| 0 <= j < 2 implies #[trigger] t.spelling[j] == s[k + j].0 by {}
        }
        assert forall|i: int| 0 <= i < n && #[trigger] term_begins(s, i) implies exists|k: int|
            0 <= k < starts.len() && #[trigger] starts[k] == i by {
            if i == n - 1 {
                assert(class_of(s[i - 1]) == class && class_of(s[i]) == class);
                assert(false);
            }
            assert(starts[i] == i);
        }
        starts
    } else {
        let starts = Seq::<int>::empty();
        assert forall|i: int| 0 <= i < n && #[trigger] term_begins(s, i) implies exists|k: int|
            0 <= k < starts.len() && #[trigger] starts[k] == i by {
            assert(class_of(s[i]) == class);
        }
        starts
    }
}

proof fn class_ends(s: Seq<Glyph>, class: int)
    ensures
        class_len(s, class) < s.len() ==> class_of(s[class_len(s, class) as int]) != class,
    decreases s.len(),
{
    if s.len() > 0 && class_of(s[0]) == class {
        class_ends(s.drop_first(), class);
    }
}

/// The terms of a text are its words, its adjacent pairs and its lone
/// characters, each in its place and as often as it stands there. What is
/// returned is where each term begins.
pub proof fn terms_stand_in_the_text(s: Seq<Glyph>) -> (starts: Seq<int>)
    ensures
        starts.len() == terms_of_text(s).len(),
        forall|k: int|
            0 <= k < starts.len() ==> term_begins(s, #[trigger] starts[k]) && term_stands(
                s,
                starts[k],
                terms_of_text(s)[k],
            ),
        forall|k: int, l: int| 0 <= k < l < starts.len() ==> #[trigger] starts[k] < #[trigger] starts[l],
        forall|i: int| #[trigger] term_begins(s, i) ==> exists|k: int| 0 <= k < starts.len() && #[trigger] starts[k] == i,
    decreases s.len(),
{
    if s.len() == 0 {
        Seq::empty()
    } else {
        let class = class_of(s[0]);
        let n = class_len(s, class) as int;
        let head = run_terms_stand(s);
        let rest = s.skip(n);
        let tail = terms_stand_in_the_text(rest);
        let moved = tail.map_values(|i: int| i + n);
        let starts = head + moved;
        let first = run_terms(class, text::plain(s.take(n)));
        let all = terms_of_text(s);
        assert(all == first + terms_of_text(rest));
        assert forall|i: int| n <= i < s.len() implies #[trigger] s[i] == rest[i - n] by {}
        assert forall|k: int| 0 <= k < starts.len() implies term_begins(s, #[trigger] starts[k]) && term_stands(
            s,
            starts[k],
            all[k],
        ) by {
            if k < head.len() {
                assert(all[k] == first[k]);
                assert(starts[k] == head[k]);
            } else {
                let i = tail[k - head.len()];
                let t = terms_of_text(rest)[k - head.len()];
                assert(all[k] == t && starts[k] == i + n);
                assert(term_begins(rest, i) && term_stands(rest, i, t));
                if i == 0 {
                    assert(class_of(s[n - 1]) == class) by {
                        class_of_first(s, class);
                    }
                } else {
                    assert(s[i + n - 1] == rest[i - 1]);
                }
                assert forall|j: int| 0 <= j < t.spelling.len() implies class_of(#[trigger] s[i + n + j]) == class_of(
                    s[i + n],
                ) by {
                    assert(rest[i + j] == s[i + n + j]);
                }
                assert forall|j: int| 0 <= j < t.spelling.len() implies #[trigger] t.spelling[j] == s[i + n + j].0 by {
                    assert(rest[i + j] == s[i + n + j]);
                }
            }
        }
        assert forall|k: int, l: int| 0 <= k < l < starts.len() implies #[trigger] starts[k] < #[trigger] starts[l] by {
            if l >= head.len() {
                assert(starts[l] == tail[l - head.len()] + n);
                assert(term_begins(rest, tail[l - head.len()]));
                if k >= head.len() {
                    assert(tail[k - head.len()] < tail[l - head.len()]);
                } else {
                    assert(head[k] < n);
                }
            } else {
                assert(head[k] < head[l]);
            }
        }
        assert forall|i: int| #[trigger] term_begins(s, i) implies exists|k: int|
            0 <= k < starts.len() && #[trigger] starts[k] == i by {
            if i < n {
                let k = choose|k: int| 0 <= k < head.len() && #[trigger] head[k] == i;
                assert(starts[k] == i);
            } else {
                if i == n {
                    assert(class_of(s[n]) != class);
                } else {
                    assert(s[i - 1] == rest[i - n - 1]);
                }
                assert(term_begins(rest, i - n));
                let k = choose|k: int| 0 <= k < tail.len() && #[trigger] tail[k] == i - n;
                assert(starts[k + head.len()] == i);
            }
        }
        starts
    }
}

/// The terms of a passage or a query are the terms of its normalized text,
/// then those of each camel-case run of its folded text, run after run. What
/// is returned is where each run's terms begin among the latter.
pub proof fn terms_are_those_of_the_text_and_of_every_run(normalized: Seq<Glyph>, folded: Seq<char>) -> (offsets: Seq<int>)
    ensures
        ({
            let text = terms_of_text(normalized);
            let runs = ascii_runs(folded);
            let all = all_terms(normalized, folded);
            &&& offsets.len() == runs.len() + 1
            &&& offsets[0] == text.len()
            &&& offsets.last() == all.len()
            &&& forall|i: int| 0 <= i < text.len() ==> #[trigger] all[i] == text[i]
            &&& forall|k: int|
                0 <= k < runs.len() ==> {
                    &&& 0 <= #[trigger] offsets[k] <= offsets[k + 1] <= all.len()
                    &&& all.subrange(offsets[k], offsets[k + 1]) == camel_terms(runs[k])
                }
        }),
{
    let text = terms_of_text(normalized);
    let runs = ascii_runs(folded);
    let all = all_terms(normalized, folded);
    let camel = camel_terms_upto(runs, runs.len());
    let inner = camel_offsets(runs, runs.len());
    let offsets = inner.map_values(|o: int| o + text.len());
    assert forall|k: int| 0 <= k < runs.len() implies {
        &&& 0 <= #[trigger] offsets[k] <= offsets[k + 1] <= all.len()
        &&& all.subrange(offsets[k], offsets[k + 1]) == camel_terms(runs[k])
    } by {
        assert(offsets[k] == inner[k] + text.len() && offsets[k + 1] == inner[k + 1] + text.len());
        assert(all.subrange(offsets[k], offsets[k + 1]) =~= camel.subrange(inner[k], inner[k + 1]));
    }
    offsets
}

proof fn camel_offsets(runs: Seq<Seq<char>>, n: nat) -> (offsets: Seq<int>)
    requires
        n <= runs.len(),
    ensures
        ({
            let all = camel_terms_upto(runs, n);
            &&& offsets.len() == n + 1
            &&& offsets[0] == 0
            &&& offsets.last() == all.len()
            &&& forall|k: int|
                0 <= k < n ==> {
                    &&& 0 <= #[trigger] offsets[k] <= offsets[k + 1] <= all.len()
                    &&& all.subrange(offsets[k], offsets[k + 1]) == camel_terms(runs[k])
                }
        }),
    decreases n,
{
    if n == 0 {
        seq![0int]
    } else {
        let m = (n - 1) as nat;
        let before = camel_offsets(runs, m);
        let rest = camel_terms_upto(runs, m);
        let all = camel_terms_upto(runs, n);
        assert(all == rest + camel_terms(runs[n - 1]));
        let offsets = before.push(all.len() as int);
        assert forall|k: int| 0 <= k < n implies {
            &&& 0 <= #[trigger] offsets[k] <= offsets[k + 1] <= all.len()
            &&& all.subrange(offsets[k], offsets[k + 1]) == camel_terms(runs[k])
        } by {
            if k < m {
                assert(offsets[k] == before[k] && offsets[k + 1] == before[k + 1]);
                assert(all.subrange(offsets[k], offsets[k + 1]) =~= rest.subrange(before[k], before[k + 1]));
            } else {
                assert(offsets[k] == before[m as int]);
                assert(before.last() == before[m as int]);
                assert(all.subrange(offsets[k], offsets[k + 1]) =~= camel_terms(runs[n - 1]));
            }
        }
        offsets
    }
}

/// The runs that are looked at for camel case are the longest stretches of
/// ASCII letters and digits. What is returned is where each begins and ends.
pub proof fn camel_runs_are_the_longest(s: Seq<char>) -> (spans: Seq<(int, int)>)
    ensures
        spans.len() == ascii_runs(s).len(),
        forall|k: int|
            0 <= k < spans.len() ==> {
                let (a, b) = #[trigger] spans[k];
                &&& 0 <= a < b <= s.len()
                &&& ascii_runs(s)[k] == s.subrange(a, b)
                &&& forall|i: int|
                    a <= i < b ==> '0' <= #[trigger] s[i] <= '9' || 'A' <= s[i] <= 'Z' || 'a' <= s[i] <= 'z'
                &&& a == 0 || !('0' <= s[a - 1] <= '9' || 'A' <= s[a - 1] <= 'Z' || 'a' <= s[a - 1] <= 'z')
                &&& b == s.len() || !('0' <= s[b] <= '9' || 'A' <= s[b] <= 'Z' || 'a' <= s[b] <= 'z')
            },
        forall|k: int, l: int| 0 <= k < l < spans.len() ==> (#[trigger] spans[k]).1 < (#[trigger] spans[l]).0,
        forall|i: int|
            0 <= i < s.len() && ('0' <= #[trigger] s[i] <= '9' || 'A' <= s[i] <= 'Z' || 'a' <= s[i] <= 'z') ==> exists|k: int|
                0 <= k < spans.len() && (#[trigger] spans[k]).0 <= i < spans[k].1,
{
    let mask = s.map_values(|c: char| is_ascii_alnum(c));
    let spans = text::runs_are_the_longest(s, mask);
    assert forall|k: int| 0 <= k < spans.len() implies {
        let (a, b) = #[trigger] spans[k];
        &&& 0 <= a < b <= s.len()
        &&& ascii_runs(s)[k] == s.subrange(a, b)
        &&& forall|i: int| a <= i < b ==> '0' <= #[trigger] s[i] <= '9' || 'A' <= s[i] <= 'Z' || 'a' <= s[i] <= 'z'
        &&& a == 0 || !('0' <= s[a - 1] <= '9' || 'A' <= s[a - 1] <= 'Z' || 'a' <= s[a - 1] <= 'z')
        &&& b == s.len() || !('0' <= s[b] <= '9' || 'A' <= s[b] <= 'Z' || 'a' <= s[b] <= 'z')
    } by {
        let (a, b) = spans[k];
        assert forall|i: int| a <= i < b implies '0' <= #[trigger] s[i] <= '9' || 'A' <= s[i] <= 'Z' || 'a' <= s[i] <= 'z' by {
            assert(mask[i]);
        }
    }
    assert forall|i: int|
        0 <= i < s.len() && ('0' <= #[trigger] s[i] <= '9' || 'A' <= s[i] <= 'Z' || 'a' <= s[i] <= 'z') implies exists|
        k: int,
    | 0 <= k < spans.len() && (#[trigger] spans[k]).0 <= i < spans[k].1 by {
        assert(mask[i]);
    }
    spans
}

} // verus!
