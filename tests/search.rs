use dms::appstate::{AppState, TraceStyle};
use dms::dict::Dict;
use dms::search::{best_pos, cross_fit, SearchError};
use dms::squares::Square;
use dms::words::Word;

const CYCLIC: [&str; 10] = [
    "acebd", "bdace", "cebda", "daceb", "ebdac", "abcde", "cdeab", "eabcd", "bcdea", "deabc",
];

fn rows(s: &Square) -> Vec<String> {
    (0..5).map(|i| s.get_pos(i).as_string()).collect()
}

fn solve(words: &[&str], limit: Option<usize>, doubled: bool, transposed: bool) -> (Result<bool, SearchError>, Vec<Vec<String>>, usize) {
    let mut dict = Dict::new(words).unwrap();
    let mut state = AppState::new(limit, TraceStyle::Silent, doubled, transposed);
    let mut s = Square::default();
    let mut results = Vec::new();
    let r = state.find_all(&mut s, &mut dict, &mut results);
    assert_eq!(s, Square::default());
    (r, results.iter().map(rows).collect(), state.nodes)
}

#[test]
fn test_fitting() {
    let mut s = Square::from_rows([
        "abcde",
        "fghij",
        "klmno",
        "pqrst",
        "uvwxy",
    ]);

    let words: Vec<Word> = (0..10)
        .map(|i| s.get_pos(i))
        .collect();
    let mut dict = Dict::from_words(words.as_ref());
    dict.add_str("fzzij").unwrap();

    let word = Word::from_str("...ij").unwrap();
    s.set_pos(1, word);
    let word = Word::from_str("k.mno").unwrap();
    s.set_pos(2, word);

    let (_, p) = best_pos(&s, &mut dict).unwrap();
    assert!(p == 2, "{}", p);
    assert!(!s.is_transposed());

    s.set_coord(1, 0, 'a');
    assert!(s.is_transposed());
    s.set_coord(1, 0, 'f');
    let (_, p) = best_pos(&s, &mut dict).unwrap();
    assert!(p == 2, "{}", p);
    assert!(!s.is_transposed());
    assert!(cross_fit(&s, &mut dict, 5, false, false), "{}", s.as_string());

    let word = words[6];
    assert!(s.is_fit(6, word));
    s.set_pos(6, word);
    assert!(cross_fit(&s, &mut dict, 6, false, false), "{}", s.as_string());

    let word = words[7];
    assert!(s.is_fit(7, word));
    s.set_pos(7, word);
    assert!(cross_fit(&s, &mut dict, 7, false, false), "{}", s.as_string());

    let word = Word::from_str("aakpu").unwrap();
    s.set_pos(5, word);
    assert!(!cross_fit(&s, &mut dict, 7, true, false), "{}", s.as_string());
}

#[test]
fn first_row_constrains_columns() {
    let mut dict = Dict::new(&["abcde", "fghij", "klmno", "pqrst", "uvwxy", "agmsy"]).unwrap();
    let mut s = Square::default();
    s.set_pos(0, Word::from_str("abcde").unwrap());
    assert_eq!(s.get_pos(5).as_string(), "a....");
    assert_eq!(dict.match_count(s.get_pos(5)), 2);
    for p in 6..10 {
        assert_eq!(dict.match_count(s.get_pos(p)), 0);
    }
    // Column 1 ("b....") has no word at all, so it is the most constrained.
    assert_eq!(best_pos(&s, &mut dict), Some((0, 6)));
    let mut state = AppState::new(None, TraceStyle::Silent, false, false);
    let mut results = Vec::new();
    assert_eq!(state.find_all(&mut s, &mut dict, &mut results), Err(SearchError::NoMatch));
    assert!(results.is_empty());
}

#[test]
fn most_constrained_column() {
    let mut dict = Dict::new(&["abcde", "bcdea", "cdeab", "deabc", "eabcd", "agmsy", "bbbbb", "ccccc", "ddddd", "eeeee"]).unwrap();
    let mut s = Square::default();
    s.set_pos(0, Word::from_str("abcde").unwrap());
    // "a...." fits two words, each other column fits two as well; the
    // lowest slot wins among equals.
    assert_eq!(best_pos(&s, &mut dict), Some((2, 5)));
}

#[test]
fn no_square_without_repeats() {
    let (r, found, nodes) = solve(&["abbbb", "baaaa"], None, false, false);
    assert_eq!(r, Ok(true));
    assert!(found.is_empty());
    assert!(nodes > 0 && nodes < 10);
}

#[test]
fn transposed_pair() {
    let square = vec!["abcde", "cdeab", "eabcd", "bcdea", "deabc"];
    let transpose = vec!["acebd", "bdace", "cebda", "daceb", "ebdac"];

    let (r, found, _) = solve(&CYCLIC, None, false, false);
    assert_eq!(r, Ok(true));
    assert!(found.contains(&square.iter().map(|s| s.to_string()).collect()));
    assert!(!found.contains(&transpose.iter().map(|s| s.to_string()).collect()));
    assert_eq!(found.len(), 5);

    let (r, found, _) = solve(&CYCLIC, None, false, true);
    assert_eq!(r, Ok(true));
    assert!(found.contains(&square.iter().map(|s| s.to_string()).collect()));
    assert!(found.contains(&transpose.iter().map(|s| s.to_string()).collect()));
    assert_eq!(found.len(), 10);
}

#[test]
fn repeats_allowed() {
    let (r, found, _) = solve(&CYCLIC, None, true, true);
    assert_eq!(r, Ok(true));
    assert_eq!(found.len(), 20);
    assert!(found.contains(&["abcde", "bcdea", "cdeab", "deabc", "eabcd"].iter().map(|s| s.to_string()).collect()));
}

#[test]
fn limit_stops_early() {
    let (r, all, all_nodes) = solve(&CYCLIC, None, false, true);
    assert_eq!(r, Ok(true));
    let (r, one, one_nodes) = solve(&CYCLIC, Some(1), false, true);
    assert_eq!(r, Ok(false));
    assert_eq!(one.len(), 1);
    assert_eq!(one[0], all[0]);
    assert!(one_nodes < all_nodes, "{one_nodes} {all_nodes}");
}

#[test]
fn every_result_is_a_square() {
    let mut dict = Dict::new(&CYCLIC).unwrap();
    let (_, found, _) = solve(&CYCLIC, None, false, true);
    for rs in &found {
        let s = Square::from_rows([&rs[0], &rs[1], &rs[2], &rs[3], &rs[4]]);
        let slots: Vec<Word> = (0..10).map(|p| s.get_pos(p)).collect();
        assert!(dict.is_fit(&slots));
        assert!(!s.has_double());
    }
}

#[test]
fn trace_lines() {
    let s = Square::from_rows(["abcde", "cdeab", "eabcd", "bcdea", "deabc"]);
    let quiet = AppState::new(None, TraceStyle::Silent, false, false);
    assert_eq!(quiet.trace_line(&s, 100), None);
    let short = AppState::new(None, TraceStyle::Short, false, false);
    assert_eq!(short.trace_line(&s, 99), None);
    assert_eq!(short.trace_line(&s, 200), Some("ab".to_string()));
    let full = AppState::new(None, TraceStyle::Full, false, false);
    assert_eq!(
        full.trace_line(&s, 1),
        Some("abcde\ncdeab\neabcd\nbcdea\ndeabc\n".to_string())
    );
}

#[test]
fn default_state() {
    let st = AppState::default();
    assert_eq!(st.nodes, 0);
    assert_eq!(st.limit, Some(1000));
    assert_eq!(st.trace, TraceStyle::Silent);
    assert!(!st.doubled && !st.transposed);
}

#[test]
fn repeated_word_in_given_square() {
    let mut dict = Dict::new(&["abcde", "bcdea", "cdeab", "deabc", "eabcd"]).unwrap();
    let mut s = Square::from_rows(["abcde", "bcdea", "cdeab", "deabc", "eabcd"]);
    let kept = s;
    let mut results = Vec::new();
    let mut state = AppState::new(None, TraceStyle::Silent, false, true);
    assert_eq!(state.find_all(&mut s, &mut dict, &mut results), Err(SearchError::Repeated));
    assert!(results.is_empty());
    assert_eq!(s, kept);

    let mut state = AppState::new(None, TraceStyle::Silent, true, true);
    assert_eq!(state.find_all(&mut s, &mut dict, &mut results), Ok(true));
    assert_eq!(results, vec![kept]);
    assert_eq!(state.nodes, 1);
}

#[test]
fn search_from_partial_grid() {
    let mut dict = Dict::new(&CYCLIC).unwrap();
    let mut s = Square::default();
    s.set_pos(0, Word::from_str("abcde").unwrap());
    let kept = s;
    let mut results = Vec::new();
    let mut state = AppState::new(None, TraceStyle::Silent, false, true);
    assert_eq!(state.find_all(&mut s, &mut dict, &mut results), Ok(true));
    assert_eq!(s, kept);
    let found: Vec<Vec<String>> = results.iter().map(rows).collect();
    assert_eq!(found, vec![vec!["abcde", "cdeab", "eabcd", "bcdea", "deabc"]]);
}

#[test]
fn limit_is_exact() {
    for l in 1..12 {
        let (r, found, _) = solve(&CYCLIC, Some(l), false, true);
        if l <= 10 {
            assert_eq!(r, Ok(false), "{l}");
            assert_eq!(found.len(), l);
        } else {
            assert_eq!(r, Ok(true), "{l}");
            assert_eq!(found.len(), 10);
        }
    }
}

#[test]
fn results_are_distinct() {
    let (_, found, _) = solve(&CYCLIC, None, true, true);
    for a in 0..found.len() {
        for b in (a + 1)..found.len() {
            assert_ne!(found[a], found[b]);
        }
    }
}

#[test]
fn node_counts_small_dictionaries() {
    let (r, found, nodes) = solve(&["aaaaa", "bbbbb"], None, false, false);
    assert_eq!(r, Ok(true));
    assert!(found.is_empty());
    assert_eq!(nodes, 3);
}

#[test]
fn unfillable_first_step() {
    // After "aaaab" in row 0, column 4 ("b....") fits no word.
    let (r, found, _) = solve(&["aaaaa", "aaaab"], None, false, false);
    assert_eq!(r, Err(SearchError::NoMatch));
    assert!(found.is_empty());
}
