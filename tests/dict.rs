use dms::dict::{BadEntry, Dict};
use dms::words::{Word, WordError};

fn texts(d: &Dict) -> Vec<String> {
    (0..d.len()).map(|k| d.word_at(k).as_string()).collect()
}

#[test]
fn enumerate_matches_ascending() {
    let d = Dict::new(&["bcdef", "abcdf", "abcde"]).unwrap();
    let m: Vec<String> = d
        .matches(Word::from_str("a....").unwrap())
        .into_iter()
        .map(|w| w.as_string())
        .collect();
    assert_eq!(m, vec!["abcde", "abcdf"]);
}

#[test]
fn words_sorted_on_construction() {
    let d = Dict::new(&["zebra", "apple", "mango", "apple"]).unwrap();
    assert_eq!(texts(&d), vec!["apple", "apple", "mango", "zebra"]);
}

#[test]
fn construction_errors() {
    let err = |r: Result<Dict, BadEntry>| match r {
        Ok(_) => None,
        Err(e) => Some(e),
    };
    assert_eq!(
        err(Dict::new(&["apple", "ab.de"])),
        Some(BadEntry { index: 1, error: WordError::Incomplete })
    );
    assert_eq!(
        err(Dict::new(&["apple", "mango", "abcd", "ab.de"])),
        Some(BadEntry { index: 2, error: WordError::BadLength })
    );
    assert_eq!(
        err(Dict::new(&["Apple", "apple"])),
        Some(BadEntry { index: 0, error: WordError::BadChar })
    );
    assert!(Dict::new(&[]).is_ok());
}

#[test]
fn counts_with_and_without_cache() {
    let mut d = Dict::new(&["abcde", "abcdf", "bcdef", "abxyz", "qbcde"]).unwrap();
    let pats = ["ab...", ".bcd.", ".....", "abcde", "zzzzz", "....e"];
    let expected = [3, 3, 5, 1, 0, 2];
    for _ in 0..3 {
        for (p, e) in pats.iter().zip(expected) {
            assert_eq!(d.match_count(Word::from_str(p).unwrap()), e, "{p}");
        }
    }
}

#[test]
fn all_targets_fit() {
    let mut d = Dict::new(&["abcde", "fghij"]).unwrap();
    let w = |s: &str| Word::from_str(s).unwrap();
    assert!(d.is_fit(&[w("a...."), w("fghij"), w(".....")]));
    assert!(!d.is_fit(&[w("a...."), w("abcdf")]));
    assert!(!d.is_fit(&[w("z....")]));
    assert!(d.is_fit(&[]));
    // Answers come out the same once remembered.
    assert!(!d.is_fit(&[w("abcdf")]));
    assert!(d.is_fit(&[w("fghij"), w("a....")]));
    let mut empty = Dict::new(&[]).unwrap();
    assert!(!empty.is_fit(&[w(".....")]));
}

#[test]
fn from_words_and_add() {
    let w = |s: &str| Word::from_str(s).unwrap();
    let mut d = Dict::from_words(&[w("mango"), w("apple")]);
    assert_eq!(texts(&d), vec!["apple", "mango"]);
    assert_eq!(d.add_str("cherr"), Ok(()));
    assert_eq!(texts(&d), vec!["apple", "cherr", "mango"]);
    assert_eq!(d.add_str("ch.rr"), Err(WordError::Incomplete));
    assert_eq!(d.add_str("cherry"), Err(WordError::BadLength));
    assert_eq!(texts(&d), vec!["apple", "cherr", "mango"]);
    assert_eq!(d.match_count(w("c....")), 1);
}

#[test]
fn word_index_buckets() {
    let words: Vec<Word> = ["abcde", "axcde", "bbcde"]
        .iter()
        .map(|s| Word::from_str(s).unwrap())
        .collect();
    let index = Word::build_word_index(&words);
    assert_eq!(index.len(), 5);
    assert_eq!(index[0][0].len(), 2);
    assert_eq!(index[0][1].len(), 1);
    assert_eq!(index[1][1], vec![words[0], words[2]]);
    assert_eq!(index[1][23], vec![words[1]]);
    assert!(index[4][0].is_empty());
    assert_eq!(index[4][4].len(), 3);
}

#[test]
fn word_index_buckets_ascending() {
    let words: Vec<Word> = ["zebra", "bbcde", "abcde", "axcde", "zaaaa"]
        .iter()
        .map(|s| Word::from_str(s).unwrap())
        .collect();
    let index = Word::build_word_index(&words);
    let text = |v: &Vec<Word>| v.iter().map(|w| w.as_string()).collect::<Vec<String>>();
    assert_eq!(text(&index[0][25]), vec!["zaaaa", "zebra"]);
    assert_eq!(text(&index[0][0]), vec!["abcde", "axcde"]);
    assert_eq!(text(&index[1][1]), vec!["abcde", "bbcde"]);
    assert_eq!(text(&index[4][4]), vec!["abcde", "axcde", "bbcde"]);
    let total: usize = (0..26).map(|c| index[2].get(c).map_or(0, |b| b.len())).sum();
    assert_eq!(total, words.len());
}

#[test]
fn from_words_with_blanks() {
    let w = |s: &str| Word::from_str(s).unwrap();
    let mut d = Dict::from_words(&[w("abcde"), w("ab.de"), w("zz.zz")]);
    assert_eq!(texts(&d), vec!["ab.de", "abcde", "zz.zz"]);
    let m: Vec<String> = d.matches(w("a....")).into_iter().map(|x| x.as_string()).collect();
    assert_eq!(m, vec!["ab.de", "abcde"]);
    assert_eq!(d.match_count(w("..x..")), 2);
    assert_eq!(d.match_count(w("..c..")), 3);
    assert!(d.is_fit(&[w("abxde")]));
    assert!(d.is_fit(&[w("zzqzz")]));
    assert!(!d.is_fit(&[w("zzqzy")]));
}
