use dms::words::{Word, WordError};

#[test]
fn test_is_transposed() {
    let across = Word::from_str("defgh").unwrap();
    let downs = [
        ("dfghi", false),
        ("dezab", false),
        ("d.abc", false),
        ("def.b", false),
        ("da.bc", true),
    ];
    let downs = downs.map(|(w, r)| (Word::from_str(w).unwrap(), r));

    for (down, result) in downs {
        assert_eq!(across.is_transposed(down), result, "{}", down.as_string());
    }
}

#[test]
fn test_word() {
    let w = "abcde";
    let word = Word::from_str(w).unwrap();
    assert_eq!(word.0, 0b00_100000_100001_100010_100011_100100);
    let s = word.as_string();
    assert_eq!(w, &s);

    let w = "abc.e";
    let word = Word::from_str(w).unwrap();
    assert_eq!(word.0, 0b00_100000_100001_100010_000000_100100);
    let s = word.as_string();
    assert_eq!(w, &s);
}

#[test]
fn test_is_fit() {
    let target = Word::from_str("ab.d.").unwrap();
    let word = Word::from_str("abcde").unwrap();
    assert!(target.is_fit(word));
    let word = Word::from_str(".bc..").unwrap();
    assert!(target.is_fit(word));
    let word = Word::from_str(".cc..").unwrap();
    assert!(!target.is_fit(word));
}

#[test]
fn text_round_trip() {
    for s in ["abcde", ".....", "z.y.x", "zzzzz", "a....", "....q", "m.n.o"] {
        let w = Word::from_str(s).unwrap();
        assert_eq!(w.as_string(), s);
        let cs: String = w.chars().into_iter().collect();
        assert_eq!(cs, s);
    }
}

#[test]
fn parse_errors() {
    assert_eq!(Word::from_str("abcd"), Err(WordError::BadLength));
    assert_eq!(Word::from_str("abcdef"), Err(WordError::BadLength));
    assert_eq!(Word::from_str(""), Err(WordError::BadLength));
    assert_eq!(Word::from_str("abCde"), Err(WordError::BadChar));
    assert_eq!(Word::from_str("ab-de"), Err(WordError::BadChar));
    assert_eq!(Word::from_str("ab de"), Err(WordError::BadChar));
    assert_eq!(Word::from_str("abcdé"), Err(WordError::BadChar));
}

#[test]
fn fit_is_symmetric() {
    let pats = ["abcde", "ab.d.", ".bc..", ".cc..", ".....", "zzzzz", "a...z"];
    for a in pats {
        for b in pats {
            let wa = Word::from_str(a).unwrap();
            let wb = Word::from_str(b).unwrap();
            assert_eq!(wa.is_fit(wb), wb.is_fit(wa), "{a} {b}");
        }
    }
}

#[test]
fn full_and_empty() {
    let blank = Word::from_str(".....").unwrap();
    assert!(blank.is_empty());
    assert!(!blank.is_full());
    let full = Word::from_str("abcde").unwrap();
    assert!(full.is_full());
    assert!(!full.is_empty());
    let partial = Word::from_str("ab.de").unwrap();
    assert!(!partial.is_full());
    assert!(!partial.is_empty());
}

#[test]
fn fields() {
    let w = Word::from_str("a.z.b").unwrap();
    assert_eq!(w.get_bits(0), 0x20);
    assert_eq!(w.get_bits(1), 0);
    assert_eq!(w.get_bits(2), 0x20 | 25);
    assert_eq!(w.bits(), vec![0x20, 0, 0x39, 0, 0x21]);
    assert_eq!(w.chars(), vec!['a', '.', 'z', '.', 'b']);
}

#[test]
fn transposed_blank_across() {
    let across = Word::from_str(".bcde").unwrap();
    let down = Word::from_str("a....").unwrap();
    assert!(!across.is_transposed(down));
    let across = Word::from_str("b....").unwrap();
    assert!(across.is_transposed(down));
    let empty = Word::from_str(".....").unwrap();
    assert!(!across.is_transposed(empty));
}
