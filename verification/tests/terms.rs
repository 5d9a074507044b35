//! Terms of passages and queries, texts, and ordered names.
use registry::names::{is_before, NameMap, NameSet};
use registry::query_guard::{digit_runs, fold_apostrophes, folded, marks_agree, QueryMarks};
use registry::ranking::rank;
use registry::search::{dedup_terms, deduped_query_grams, deduped_spelled_query_terms, term_keys};
use registry::terms::{camel_pieces, passage_terms, spelled_passage_terms, text_terms, Term};
use registry::text::{glyphs, is_blank, sort_strings};

fn spellings(terms: &[Term]) -> Vec<&str> {
    terms.iter().map(|term| term.spelling.as_str()).collect()
}

fn word_key(word: &str) -> u64 {
    let mut hash: u64 = 0xcbf2_9ce4_8422_2325;
    for c in word.chars() {
        hash ^= c as u64;
        hash = hash.wrapping_mul(0x0100_0000_01b3);
    }
    hash | (1 << 63)
}

#[test]
fn words_are_terms_whole_and_other_letters_in_pairs() {
    let terms = text_terms(&glyphs("sake 山田錦, 1907年"));
    assert_eq!(spellings(&terms), ["sake", "山田", "田錦", "1907", "年"]);
    assert_eq!(terms[0].key, word_key("sake"));
    assert_eq!(terms[1].key, (('山' as u64) << 32) | '田' as u64);
    assert_eq!(terms[4].key, '年' as u64);
    assert!(text_terms(&glyphs(" ,;!? ")).is_empty());
}

#[test]
fn the_keys_of_words_pairs_and_single_letters_never_meet() {
    let terms = text_terms(&glyphs("a 年 山田"));
    assert!(terms[0].key >> 63 == 1);
    assert!(terms[1].key < 1 << 32);
    assert!(terms[2].key >> 63 == 0 && terms[2].key >= 1 << 32);
}

#[test]
fn camel_case_words_have_pieces_and_plain_ones_do_not() {
    assert_eq!(spellings(&camel_pieces("AppState")), ["app", "state"]);
    assert_eq!(spellings(&camel_pieces("HTTPServer")), ["http", "server"]);
    assert_eq!(spellings(&camel_pieces("utf8String")), ["utf8", "string"]);
    assert!(camel_pieces("lower").is_empty());
    assert!(camel_pieces("UPPER").is_empty());
    assert!(camel_pieces("").is_empty());
    assert_eq!(camel_pieces("AppState")[0].key, word_key("app"));
}

#[test]
fn wide_letters_fold_before_they_are_split() {
    let terms = spelled_passage_terms("ＡｐｐＳｔａｔｅ", "appstate");
    assert_eq!(spellings(&terms), ["appstate", "app", "state"]);
    assert_eq!(passage_terms("ＡｐｐＳｔａｔｅ", "appstate"), term_keys(&terms));
}

#[test]
fn repeated_query_terms_count_once() {
    let terms = deduped_spelled_query_terms("sake Sake sake", "sake sake sake");
    assert_eq!(spellings(&terms), ["sake"]);
    assert_eq!(deduped_query_grams("sake Sake sake", "sake sake sake"), [word_key("sake")]);
    let twice = dedup_terms(text_terms(&glyphs("b a b")));
    assert_eq!(spellings(&twice), ["b", "a"]);
    assert!(deduped_query_grams("?!", "?!").is_empty());
}

#[test]
fn letters_of_any_script_are_letters() {
    let kinds: Vec<bool> = glyphs("aé年1 -").iter().map(|glyph| glyph.1).collect();
    assert_eq!(kinds, [true, true, true, true, false, false]);
}

#[test]
fn blank_texts_hold_white_space_only() {
    assert!(is_blank(""));
    assert!(is_blank(" \t\u{3000}\n"));
    assert!(!is_blank(" x "));
}

#[test]
fn the_guard_reads_queries_in_lower_case() {
    let marks = QueryMarks::of("Where is Osaka?");
    assert_eq!(marks.entities, ["osaka"]);
    assert_eq!(marks.folded, "Where is Osaka?");
    assert_eq!(marks.lower.iter().map(|glyph| glyph.0).collect::<String>(), "where is osaka?");
    assert!(marks_agree(&marks, &QueryMarks::of("where is Osaka located?")));
    assert!(!marks_agree(&marks, &QueryMarks::of("Where is Kyoto?")));
}

#[test]
fn the_guard_folds_width_and_apostrophes() {
    assert_eq!(fold_apostrophes("don’t"), "don't");
    assert_eq!(folded("Ｉ don’t ２"), "I don't 2");
    assert_eq!(digit_runs("12 and 3, 12"), ["12", "12", "3"]);
}

#[test]
fn positions_rank_by_key_then_by_second_key_then_by_place() {
    assert_eq!(rank(&vec![(2, 0), (1, 5), (1, 4), (2, 0), (0, 9)]), [4, 2, 1, 0, 3]);
    assert!(rank(&Vec::new()).is_empty());
}

#[test]
fn names_stand_in_order_once_each() {
    let mut map = NameMap::new();
    assert!(map.insert("b".to_string(), 1).is_none());
    assert!(map.insert("a".to_string(), 2).is_none());
    assert_eq!(map.insert("b".to_string(), 3), Some(1));
    assert_eq!((map.key_at(0).as_str(), *map.value_at(1)), ("a", 3));
    *map.value_at_mut(0) = 7;
    assert_eq!(map.get("a"), Some(&7));
    assert_eq!(map.remove("a"), Some(7));
    assert_eq!((map.len(), map.remove("a")), (1, None));

    let list = vec!["z".to_string(), "ab".to_string(), "a".to_string(), "z".to_string()];
    let set = NameSet::of(&list);
    assert_eq!(set.names(), ["a", "ab", "z"]);
    assert!(set.equals(&set.copy()));
    assert!(is_before("a", "ab") && is_before("", "a") && !is_before("b", "ab") && !is_before("a", "a"));
    assert_eq!(sort_strings(list), ["a", "ab", "z", "z"]);
}

#[test]
fn equal_spellings_carry_equal_keys_and_the_kind_shows_in_the_key() {
    let raw = "AppState app 山田錦 年 Ω";
    let normalized = "appstate app 山田錦 年 ω";
    let terms = spelled_passage_terms(raw, normalized);
    assert_eq!(spellings(&terms), ["appstate", "app", "山田", "田錦", "年", "ω", "app", "state"]);
    assert_eq!(terms[1].key, terms[6].key);
    for term in &terms {
        let word = term.spelling.chars().all(|c| c.is_ascii_alphanumeric());
        assert_eq!(term.key >> 63 == 1, word, "{}", term.spelling);
        assert_eq!(term.key < 1 << 32, !word && term.spelling.chars().count() == 1, "{}", term.spelling);
    }
}

#[test]
fn white_space_is_what_unicode_says() {
    let spaces: Vec<char> = (0..=0x10ffffu32)
        .filter_map(char::from_u32)
        .filter(|c| is_blank(&c.to_string()))
        .collect();
    let mut expected: Vec<char> = ('\u{9}'..='\u{d}').collect();
    expected.extend([' ', '\u{85}', '\u{a0}', '\u{1680}']);
    expected.extend('\u{2000}'..='\u{200a}');
    expected.extend(['\u{2028}', '\u{2029}', '\u{202f}', '\u{205f}', '\u{3000}']);
    assert_eq!(spaces, expected);
    assert_eq!(spaces.len(), 25);
}

#[test]
fn ascii_letters_and_digits_are_the_ascii_alphanumerics() {
    for c in (0..128u8).map(char::from) {
        assert_eq!(glyphs(&c.to_string())[0].1, c.is_ascii_digit() || c.is_ascii_alphabetic(), "{c:?}");
    }
}
