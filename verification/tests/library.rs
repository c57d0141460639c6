use wordspell::actions::{corrective_actions, spelling_errors, Correction};
use wordspell::source_file::{ChangeRange, EditError, SourceFile, TextChange};
use wordspell::spell::{isqrt, Spell};
use wordspell::state::{CompletionItem, State};
use wordspell::tokenizer::{scan_words, Position};

fn pos(line: u32, character: u32) -> Position {
    Position { line, character }
}

fn token_texts(words: &[(String, Position, Position)]) -> Vec<String> {
    words.iter().map(|(w, _, _)| w.clone()).collect()
}

fn labels(items: &[CompletionItem]) -> Vec<String> {
    items.iter().map(|i| i.label.clone()).collect()
}

fn detail_of<'a>(items: &'a [CompletionItem], label: &str) -> Option<&'a str> {
    items
        .iter()
        .find(|i| i.label == label)
        .map(|i| i.detail.as_str())
}

#[test]
fn scan_simple_words() {
    let words = scan_words("foo bar\nbaz", None);
    assert_eq!(
        words,
        vec![
            ("foo".to_string(), pos(0, 0), pos(0, 3)),
            ("bar".to_string(), pos(0, 4), pos(0, 7)),
            ("baz".to_string(), pos(1, 0), pos(1, 3)),
        ]
    );
}

#[test]
fn scan_empty_text() {
    assert!(scan_words("", None).is_empty());
}

#[test]
fn scan_no_delimiters() {
    let words = scan_words("justoneword", None);
    assert_eq!(words, vec![("justoneword".to_string(), pos(0, 0), pos(0, 11))]);
}

#[test]
fn scan_punctuation_separates() {
    let words = scan_words("a,b;;c", None);
    assert_eq!(token_texts(&words), vec!["a", "b", "c"]);
    assert_eq!(words[1].1, pos(0, 2));
    assert_eq!(words[1].2, pos(0, 3));
}

#[test]
fn scan_excluded_line_drops_its_words() {
    let words = scan_words("foo bar\nbaz", Some(1));
    assert_eq!(token_texts(&words), vec!["foo", "bar"]);
    let words = scan_words("foo bar\nbaz", Some(0));
    assert_eq!(token_texts(&words), vec!["baz"]);
}

#[test]
fn scan_is_idempotent() {
    let text = "alpha beta\ngamma alpha\n\n  delta";
    let first = scan_words(text, None);
    let second = scan_words(text, None);
    assert_eq!(first, second);
}

#[test]
fn scan_unicode_characters_count_as_one() {
    let words = scan_words("héllo wörld", None);
    assert_eq!(token_texts(&words), vec!["héllo", "wörld"]);
    assert_eq!(words[1].1, pos(0, 6));
    assert_eq!(words[1].2, pos(0, 11));
}

#[test]
fn scan_crlf_line_breaks() {
    // '\r' is not alphanumeric: it ends the word but stays on its line
    let words = scan_words("ab\r\ncd", None);
    assert_eq!(
        words,
        vec![
            ("ab".to_string(), pos(0, 0), pos(0, 2)),
            ("cd".to_string(), pos(1, 0), pos(1, 2)),
        ]
    );
}

#[test]
fn buffer_full_text_round_trip() {
    let file = SourceFile::new("hello world\nsecond line");
    assert_eq!(file.full_text(), "hello world\nsecond line");
}

#[test]
fn buffer_range_edit_splices() {
    let mut file = SourceFile::new("hello world");
    let change = TextChange {
        range: Some(ChangeRange { start: pos(0, 6), end: pos(0, 11) }),
        text: "there".to_string(),
    };
    assert_eq!(file.apply_change(&change), Ok(()));
    // the naive splice of "there" into "hello world" at [6, 11)
    let mut expected = String::new();
    expected.push_str(&"hello world"[..6]);
    expected.push_str("there");
    expected.push_str(&"hello world"[11..]);
    assert_eq!(file.full_text(), expected);
}

#[test]
fn buffer_edit_across_line_break() {
    let mut file = SourceFile::new("ab\ncd");
    let change = TextChange {
        range: Some(ChangeRange { start: pos(0, 2), end: pos(1, 0) }),
        text: String::new(),
    };
    assert_eq!(file.apply_change(&change), Ok(()));
    assert_eq!(file.full_text(), "abcd");
}

#[test]
fn buffer_insert_at_position() {
    let mut file = SourceFile::new("one three");
    let change = TextChange {
        range: Some(ChangeRange { start: pos(0, 4), end: pos(0, 4) }),
        text: "two ".to_string(),
    };
    assert_eq!(file.apply_change(&change), Ok(()));
    assert_eq!(file.full_text(), "one two three");
}

#[test]
fn buffer_full_replacement() {
    let mut file = SourceFile::new("old text");
    let change = TextChange { range: None, text: "brand new\ncontent".to_string() };
    assert_eq!(file.apply_change(&change), Ok(()));
    assert_eq!(file.full_text(), "brand new\ncontent");
}

#[test]
fn buffer_rejects_out_of_bounds_range() {
    let mut file = SourceFile::new("short");
    let bad_line = TextChange {
        range: Some(ChangeRange { start: pos(3, 0), end: pos(3, 1) }),
        text: "x".to_string(),
    };
    assert_eq!(file.apply_change(&bad_line), Err(EditError::InvalidRange));
    let bad_character = TextChange {
        range: Some(ChangeRange { start: pos(0, 0), end: pos(0, 99) }),
        text: "x".to_string(),
    };
    assert_eq!(file.apply_change(&bad_character), Err(EditError::InvalidRange));
    let reversed = TextChange {
        range: Some(ChangeRange { start: pos(0, 3), end: pos(0, 1) }),
        text: "x".to_string(),
    };
    assert_eq!(file.apply_change(&reversed), Err(EditError::InvalidRange));
    // a rejected edit leaves the text untouched
    assert_eq!(file.full_text(), "short");
}

#[test]
fn buffer_edit_refreshes_tokens() {
    let mut file = SourceFile::new("alpha beta");
    let change = TextChange { range: None, text: "gamma".to_string() };
    assert_eq!(file.apply_change(&change), Ok(()));
    assert_eq!(file.tokens().as_slice(), &["gamma".to_string()]);
}

#[test]
fn buffer_line_offsets() {
    let file = SourceFile::new("ab\nc\n");
    assert_eq!(file.line_offset(0), Some(0));
    assert_eq!(file.line_offset(1), Some(3));
    assert_eq!(file.line_offset(2), Some(5));
    assert_eq!(file.line_offset(3), Some(5));
    assert_eq!(file.line_offset(4), None);
}

#[test]
fn tokens_are_deduplicated() {
    let file = SourceFile::new("dup dup dup other");
    let mut toks = file.tokens().clone();
    toks.sort();
    assert_eq!(toks, vec!["dup".to_string(), "other".to_string()]);
}

#[test]
fn isqrt_exact_values() {
    assert_eq!(isqrt(0), 0);
    assert_eq!(isqrt(1), 1);
    assert_eq!(isqrt(3), 1);
    assert_eq!(isqrt(4), 2);
    assert_eq!(isqrt(9), 3);
    assert_eq!(isqrt(15), 3);
    assert_eq!(isqrt(16), 4);
}

#[test]
fn short_words_always_valid() {
    let spell = Spell::new("");
    assert!(spell.is_valid("xq"));
    assert!(spell.is_valid(""));
    assert!(spell.is_valid("abc"));
}

#[test]
fn embedded_capital_is_valid() {
    let spell = Spell::new("");
    assert!(spell.is_valid("heLLo"));
    assert!(spell.is_valid("camelCase"));
    // a capital at the first or the last position is no identifier mark
    assert!(!spell.is_valid("Hello"));
    assert!(!spell.is_valid("hellO"));
}

#[test]
fn dictionary_membership_is_case_folded() {
    let spell = Spell::new("hello\nworld");
    assert!(spell.is_valid("hello"));
    // only the lowercase form is in the dictionary
    assert!(spell.is_valid("Hello"));
    assert!(!spell.is_valid("goodbye"));
}

#[test]
fn trailing_s_is_stripped() {
    let spell = Spell::new("hello\nworld");
    assert!(spell.is_valid("worlds"));
    assert!(!spell.is_valid("worldy"));
}

#[test]
fn suggestions_have_exact_distances() {
    let spell = Spell::new("abcd\nabcde");
    // query length 4: threshold is 2, so distances 0 and 1 pass
    let suggs = spell.get_suggestions("abcd");
    assert_eq!(
        suggs,
        vec![(0, "abcd".to_string()), (1, "abcde".to_string())]
    );
}

#[test]
fn suggestions_sorted_without_duplicates() {
    let spell = Spell::new("hello\nhelp\nworld\nheap");
    let suggs = spell.get_suggestions("helo");
    // threshold floor(sqrt(4)) = 2: only distance-1 words qualify
    let mut words: Vec<String> = suggs.iter().map(|(_, w)| w.clone()).collect();
    for pair in suggs.windows(2) {
        assert!(pair[0].0 <= pair[1].0);
    }
    words.sort();
    words.dedup();
    assert_eq!(words.len(), suggs.len());
    assert!(suggs.contains(&(1, "hello".to_string())));
    assert!(suggs.contains(&(1, "help".to_string())));
    assert_eq!(suggs.len(), 2);
}

#[test]
fn suggestions_respect_threshold_boundary() {
    // query of length 9: threshold is 3, distance 2 passes, distance 3 does not
    let spell = Spell::new("aaaaaaabb\naaaaaabbb");
    let suggs = spell.get_suggestions("aaaaaaaaa");
    assert_eq!(suggs, vec![(2, "aaaaaaabb".to_string())]);
}

#[test]
fn suggestions_empty_dictionary() {
    let spell = Spell::new("");
    assert!(spell.get_suggestions("anything").is_empty());
}

#[test]
fn completion_excludes_cursor_line() {
    let mut state = State::new();
    let id = "file:///dir/doc.txt".to_string();
    state.open_file(id.clone(), "foo bar\nbaz");
    let items = state.get_completions(&id, pos(1, 2));
    let ls = labels(&items);
    assert!(ls.contains(&"foo".to_string()));
    assert!(ls.contains(&"bar".to_string()));
    assert!(!ls.contains(&"baz".to_string()));
    assert_eq!(detail_of(&items, "foo"), Some("."));
    assert_eq!(detail_of(&items, "bar"), Some("."));
}

#[test]
fn completion_cross_document_labels() {
    let mut state = State::new();
    let a = "file:///dir/a.txt".to_string();
    let b = "file:///dir/b.txt".to_string();
    state.open_file(a.clone(), "hello world\n");
    state.open_file(b.clone(), "worldly\n");
    let items = state.get_completions(&a, pos(1, 0));
    assert_eq!(detail_of(&items, "hello"), Some("."));
    assert_eq!(detail_of(&items, "world"), Some("."));
    assert_eq!(detail_of(&items, "worldly"), Some("b.txt"));
}

#[test]
fn completion_unknown_document_uses_others_only() {
    let mut state = State::new();
    let a = "file:///dir/a.txt".to_string();
    state.open_file(a.clone(), "alpha beta\n");
    let ghost_id = "file:///dir/missing.txt".to_string();
    let items = state.get_completions(&ghost_id, pos(0, 0));
    let ls = labels(&items);
    assert!(ls.contains(&"alpha".to_string()));
    assert!(ls.contains(&"beta".to_string()));
    assert_eq!(detail_of(&items, "alpha"), Some("a.txt"));
}

#[test]
fn completion_deduplicates_first_seen_wins() {
    let mut state = State::new();
    let a = "file:///w/a.txt".to_string();
    let b = "file:///w/b.txt".to_string();
    state.open_file(a.clone(), "shared onlya\n");
    state.open_file(b.clone(), "shared onlyb\n");
    let items = state.get_completions(&a, pos(1, 0));
    let ls = labels(&items);
    assert_eq!(ls.iter().filter(|l| l.as_str() == "shared").count(), 1);
    assert_eq!(detail_of(&items, "shared"), Some("."));
    assert_eq!(detail_of(&items, "onlyb"), Some("b.txt"));
}

#[test]
fn state_routes_changes_by_identity() {
    let mut state = State::new();
    let a = "file:///x/a.txt".to_string();
    state.open_file(a.clone(), "first words");
    let change = TextChange { range: None, text: "rewritten".to_string() };
    assert_eq!(state.apply_change(&a, &change), Ok(()));
    let words = state.words(&a, None);
    assert_eq!(token_texts(&words), vec!["rewritten"]);
    // an unknown identity is silently ignored
    let missing = "file:///x/missing.txt".to_string();
    assert_eq!(state.apply_change(&missing, &change), Ok(()));
    assert!(state.words(&missing, None).is_empty());
}

#[test]
fn reopening_replaces_content() {
    let mut state = State::new();
    let a = "file:///x/a.txt".to_string();
    state.open_file(a.clone(), "old stuff");
    state.open_file(a.clone(), "new material");
    let words = state.words(&a, None);
    assert_eq!(token_texts(&words), vec!["new", "material"]);
}

#[test]
fn diagnostics_flag_only_invalid_words() {
    let spell = Spell::new("hello\nworld\nfine");
    let file = SourceFile::new("helllo wrld\nok fine");
    let words = file.words(None);
    let errors = spelling_errors(&words, &spell);
    let flagged: Vec<&str> = errors.iter().map(|e| e.word.as_str()).collect();
    assert_eq!(flagged, vec!["helllo", "wrld"]);
    assert_eq!(errors[0].start, pos(0, 0));
    assert_eq!(errors[0].end, pos(0, 6));
    assert_eq!(errors[1].start, pos(0, 7));
    assert_eq!(errors[1].end, pos(0, 11));
}

#[test]
fn diagnostics_empty_when_all_valid() {
    let spell = Spell::new("hello\nworld");
    let file = SourceFile::new("hello world ok");
    let errors = spelling_errors(&file.words(None), &spell);
    assert!(errors.is_empty());
}

#[test]
fn corrective_actions_offer_suggestions_and_accept() {
    let spell = Spell::new("hello\nworld");
    let file = SourceFile::new("helllo");
    let words = file.words(None);
    let actions = corrective_actions(&words, &spell, pos(0, 2), pos(0, 3));
    assert_eq!(actions.len(), 2);
    match &actions[0] {
        Correction::Replace { start, end, suggestion } => {
            assert_eq!(*start, pos(0, 0));
            assert_eq!(*end, pos(0, 6));
            assert_eq!(suggestion, "hello");
        }
        other => panic!("expected a replacement, got {:?}", label_of(other)),
    }
    match &actions[1] {
        Correction::AddToDictionary { word } => assert_eq!(word, "helllo"),
        other => panic!("expected an accept action, got {:?}", label_of(other)),
    }
}

fn label_of(c: &Correction) -> &'static str {
    match c {
        Correction::Replace { .. } => "Replace",
        Correction::AddToDictionary { .. } => "AddToDictionary",
    }
}

#[test]
fn corrective_actions_empty_for_valid_word() {
    let spell = Spell::new("hello");
    let file = SourceFile::new("hello");
    let actions = corrective_actions(&file.words(None), &spell, pos(0, 1), pos(0, 2));
    assert!(actions.is_empty());
}

#[test]
fn corrective_actions_empty_outside_any_token() {
    let spell = Spell::new("hello");
    let file = SourceFile::new("a  b");
    let actions = corrective_actions(&file.words(None), &spell, pos(5, 0), pos(5, 0));
    assert!(actions.is_empty());
}

#[test]
fn scan_exclusion_past_last_line_changes_nothing() {
    let all = scan_words("one two\nthree", None);
    let same = scan_words("one two\nthree", Some(9));
    assert_eq!(all, same);
}

#[test]
fn state_incremental_edit_matches_naive_splice() {
    let mut state = State::new();
    let id = "file:///w/doc.txt".to_string();
    let original = "line one\nline two";
    state.open_file(id.clone(), original);
    let change = TextChange {
        range: Some(ChangeRange { start: pos(1, 5), end: pos(1, 8) }),
        text: "2".to_string(),
    };
    assert_eq!(state.apply_change(&id, &change), Ok(()));
    let words = state.words(&id, None);
    assert_eq!(token_texts(&words), vec!["line", "one", "line", "2"]);
}

#[test]
fn dictionary_keeps_entries_as_written() {
    // entries are the lines of the file, not lowercased
    let spell = Spell::new("Paris\nlondon");
    assert!(!spell.is_valid("paris"));
    assert!(spell.is_valid("london"));
    assert!(spell.is_valid("London"));
}

#[test]
fn empty_dictionary_line_is_harmless() {
    let spell = Spell::new("abcd\n\nefgh");
    assert!(spell.is_valid("abcd"));
    assert!(spell.is_valid("efgh"));
    assert!(!spell.is_valid("wxyz"));
}
