use rx_automata::regexp::RegExp;

#[test]
fn test_regexp_seq1() {
    let regexp = RegExp::Concat {
        left: Box::new(RegExp::Char('a')),
        right: Box::new(RegExp::Char('b')),
    };
    assert_eq!(regexp._match("ab", 0), Some([2].iter().copied().collect()));
}

#[test]
fn test_regexp_seq2() {
    let regexp = RegExp::Concat {
        left: Box::new(RegExp::Char('a')),
        right: Box::new(RegExp::Char('b')),
    };
    assert_eq!(regexp._match("ab", 1), None);
}

#[test]
fn test_regexp_or1() {
    let regexp = RegExp::Or {
        left: Box::new(RegExp::Char('a')),
        right: Box::new(RegExp::Char('b')),
    };
    assert_eq!(regexp._match("a", 0), Some([1].iter().copied().collect()));
}

#[test]
fn test_regexp_or2() {
    let regexp = RegExp::Or {
        left: Box::new(RegExp::Char('a')),
        right: Box::new(RegExp::Char('b')),
    };
    assert_eq!(regexp._match("b", 0), Some([1].iter().copied().collect()));
}

#[test]
fn test_regexp_or3() {
    let regexp = RegExp::Or {
        left: Box::new(RegExp::Char('a')),
        right: Box::new(RegExp::Char('b')),
    };
    assert_eq!(regexp._match("c", 0), None);
}

#[test]
fn test_regexp_repeat1() {
    let regexp = RegExp::Repeat(Box::new(RegExp::Char('a')));
    assert_eq!(regexp._match("a", 0), Some([0, 1].iter().copied().collect()));
}

#[test]
fn test_regexp_repeat2() {
    let regexp = RegExp::Repeat(Box::new(RegExp::Char('a')));
    assert_eq!(regexp._match("aa", 0), Some([0, 1, 2].iter().copied().collect()));
}

#[test]
fn test_regexp_repeat3() {
    let regexp = RegExp::Repeat(Box::new(RegExp::Char('a')));
    assert_eq!(regexp._match("aaa", 0), Some([0, 1, 2, 3].iter().copied().collect()));
}

#[test]
fn test_regexp_char1() {
    let regexp = RegExp::Char('a');
    assert_eq!(regexp._match("a", 0), Some([1].iter().copied().collect()));
}

#[test]
fn test_regexp_char2() {
    let regexp = RegExp::Char('a');
    assert_eq!(regexp._match("b", 0), None);
}

#[test]
fn test_regexp_any1() {
    let regexp = RegExp::Any;
    assert_eq!(regexp._match("a", 0), Some([1].iter().copied().collect()));
}

#[test]
fn test_regexp_any2() {
    let regexp = RegExp::Any;
    assert_eq!(regexp._match("b", 0), Some([1].iter().copied().collect()));
}

#[test]
fn test_regexp_empty1() {
    let regexp = RegExp::Empty;
    assert_eq!(regexp._match("a", 0), Some([0].iter().copied().collect()));
}

#[test]
fn test_regexp_empty2() {
    let regexp = RegExp::Empty;
    assert_eq!(regexp._match("b", 0), Some([0].iter().copied().collect()));
}

#[test]
fn test_regexp_empty3() {
    let regexp = RegExp::Empty;
    assert_eq!(regexp._match("", 0), Some([0].iter().copied().collect()));
}

#[test]
fn sequence_keeps_the_branches_that_succeed() {
    // `a*` ends at 0 and at 1; only from 1 can `b` go on.
    let regexp = RegExp::Concat {
        left: Box::new(RegExp::Repeat(Box::new(RegExp::Char('a')))),
        right: Box::new(RegExp::Char('b')),
    };
    assert_eq!(regexp._match("ab", 0), Some(vec![2]));
    assert_eq!(regexp._match("aab", 0), Some(vec![3]));
    assert_eq!(regexp._match("aa", 0), None);
}

#[test]
fn offsets_count_characters_not_bytes() {
    let regexp = RegExp::Concat {
        left: Box::new(RegExp::Any),
        right: Box::new(RegExp::Char('b')),
    };
    assert_eq!(regexp._match("éb", 0), Some(vec![2]));
    assert_eq!(RegExp::Char('ü')._match("aü", 1), Some(vec![2]));
    assert_eq!(RegExp::Any._match("é", 1), None);
}

#[test]
fn offsets_past_the_end() {
    let star = RegExp::Repeat(Box::new(RegExp::Char('a')));
    assert_eq!(star._match("ab", 5), Some(vec![5]));
    assert_eq!(RegExp::Empty._match("ab", 2), Some(vec![2]));
    assert_eq!(RegExp::Empty._match("ab", 3), None);
    assert_eq!(RegExp::Any._match("ab", 2), None);
}

#[test]
fn repetition_of_alternatives_and_empty_body() {
    let regexp = RegExp::Repeat(Box::new(RegExp::Or {
        left: Box::new(RegExp::Concat {
            left: Box::new(RegExp::Char('a')),
            right: Box::new(RegExp::Char('b')),
        }),
        right: Box::new(RegExp::Empty),
    }));
    assert_eq!(regexp._match("ababx", 0), Some(vec![0, 2, 4]));
    assert_eq!(regexp._match("ababx", 1), Some(vec![1]));
    let nested = RegExp::Repeat(Box::new(RegExp::Repeat(Box::new(RegExp::Any))));
    assert_eq!(nested._match("xyz", 1), Some(vec![1, 2, 3]));
}
