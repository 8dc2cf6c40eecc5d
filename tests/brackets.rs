use e4code::brackets::{find_matching_bracket, update_bracket_highlighting, BracketPair};

#[test]
fn bracket_nested_match() {
    assert_eq!(find_matching_bracket("(a(b)c)", 0), Some(6));
    assert_eq!(find_matching_bracket("(a(b)c)", 6), Some(0));
    assert_eq!(find_matching_bracket("(a(b)c)", 2), Some(4));
    assert_eq!(find_matching_bracket("(a(b)c)", 4), Some(2));
}

#[test]
fn bracket_mismatched_type_has_no_match() {
    assert_eq!(find_matching_bracket("(a]", 0), None);
    assert_eq!(find_matching_bracket("(a]", 2), None);
}

#[test]
fn bracket_other_kinds_and_edges() {
    assert_eq!(find_matching_bracket("{[x]}", 0), Some(4));
    assert_eq!(find_matching_bracket("{[x]}", 1), Some(3));
    assert_eq!(find_matching_bracket("([)]", 0), Some(2));
    assert_eq!(find_matching_bracket("abc", 1), None);
    assert_eq!(find_matching_bracket("()", 2), None);
    assert_eq!(find_matching_bracket("", 0), None);
    assert_eq!(find_matching_bracket("((", 0), None);
    assert_eq!(find_matching_bracket("é(é)", 1), Some(3));
}

#[test]
fn bracket_highlight_replaced_on_move() {
    let mut prev = None;
    let u = update_bracket_highlighting("(a)", 0, &mut prev);
    assert_eq!(u.remove, None);
    assert_eq!(u.apply, Some(BracketPair { cursor: 0, partner: 2 }));
    assert_eq!(prev, u.apply);
    let u = update_bracket_highlighting("(a)", 1, &mut prev);
    assert_eq!(u.remove, Some(BracketPair { cursor: 0, partner: 2 }));
    assert_eq!(u.apply, None);
    assert_eq!(prev, None);
}
