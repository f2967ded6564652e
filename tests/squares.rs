use dms::squares::Square;
use dms::words::Word;

#[test]
fn test_coord_pos() {
    let mut s = Square::default();
    let wx = Word::from_str("abcde").unwrap();
    s.set_pos(1, wx);
    assert_eq!(s.get_char(1, 1), 'b');
    assert_eq!(s.get_char(6, 0), '.');
    assert_eq!(s.get_char(8, 1), 'd');

    let wy = Word::from_str("udwxy").unwrap();
    assert!(s.is_fit(8, wy));
    assert!(!s.is_fit(9, wy));
    s.set_pos(8, wy);
    assert_eq!(s.get_pos(1), wx);
    assert_eq!(s.get_pos(8), wy);

    for i in 0..5 {
        if i == 1 {
            continue;
        }
        for j in 0..5 {
            if j == 3 {
                continue;
            }
            assert_eq!(s.get_char(i, j), '.', "{i} {j}");
        }
    }
    for i in 5..10 {
        if i == 8 {
            continue;
        }
        for j in 0..5 {
            if j == 1 {
                continue;
            }
            assert_eq!(s.get_char(i, j), '.', "{i} {j}");
        }
    }
}

#[test]
fn test_as_string() {
    let mut s = Square::default();
    let wx = Word::from_str("abcde").unwrap();
    s.set_pos(1, wx);
    let wy = Word::from_str("udwxy").unwrap();
    s.set_pos(8, wy);

    let r = s.as_string();
    let r0 = "...u.\nabcde\n...w.\n...x.\n...y.";
    assert_eq!(&r, r0);
}

#[test]
fn test_set_pos() {
    let mut s = Square::default();

    let set_word_pos = |s: &mut Square, p, w| {
        let word = Word::from_str(w).unwrap();
        s.set_pos(p, word);
        assert!(s.fsck_square());
    };

    set_word_pos(&mut s, 0, "abcde");
    set_word_pos(&mut s, 6, "bfghi");
    set_word_pos(&mut s, 7, "cjklm");
    set_word_pos(&mut s, 9, "nhol.");

    for p in [0, 6, 7] {
        let word = s.get_pos(p);
        assert!(word.is_full());
    }

    let t = Square::from_rows([
        "abcdn",
        ".fj.h",
        ".gk.o",
        ".hl.l",
        ".im..",
    ]);
    assert_eq!(s, t, "\n{}\n\n{}", s.as_string(), t.as_string());
}

#[test]
fn rows_and_columns_agree_after_writes() {
    let mut s = Square::default();
    let writes = [
        (0, "abcde"),
        (5, "azzzz"),
        (3, "q.r.s"),
        (9, ".....") ,
        (7, "ccccc"),
        (2, "xyzxy"),
        (8, "d.d.d"),
    ];
    for (p, w) in writes {
        s.set_pos(p, Word::from_str(w).unwrap());
        assert!(s.fsck_square());
        for i in 0..5 {
            for j in 0..5 {
                let across = s.get_char(i, j);
                let down = s.get_char(5 + j, i);
                assert_eq!(across, down, "{i} {j}");
            }
        }
    }
    assert_eq!(s.get_pos(2).as_string(), "xyzdy");
    assert_eq!(s.get_pos(8).as_string(), "d.d.d");
}

#[test]
fn set_coord_updates_both_slots() {
    let mut s = Square::default();
    s.set_coord(2, 3, 'k');
    assert_eq!(s.get_char(2, 3), 'k');
    assert_eq!(s.get_char(8, 2), 'k');
    s.set_coord(8, 2, '.');
    assert_eq!(s.get_char(2, 3), '.');
    assert!(s.get_pos(2).is_empty());
}

#[test]
fn full_double_and_transposed() {
    let s = Square::from_rows(["abcde", "bcdea", "cdeab", "deabc", "eabcd"]);
    assert!(s.is_full());
    assert!(s.has_double());
    assert!(!s.is_transposed());

    let t = Square::from_rows(["acebd", "bdace", "cebda", "daceb", "ebdac"]);
    assert!(t.is_full());
    assert!(!t.has_double());
    assert!(t.is_transposed());

    let u = Square::from_rows(["abcde", "cdeab", "eabcd", "bcdea", "deabc"]);
    assert!(!u.has_double());
    assert!(!u.is_transposed());

    let mut p = Square::default();
    p.set_pos(0, Word::from_str("abcde").unwrap());
    assert!(!p.is_full());
    assert!(!p.has_double());
}

#[test]
fn rendered_rows() {
    let mut s = Square::default();
    s.set_pos(7, Word::from_str("abcde").unwrap());
    assert_eq!(s.render_rows(), vec!["..a..", "..b..", "..c..", "..d..", "..e.."]);
}
