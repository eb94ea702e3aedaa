use distree::newick::parse_label;
use distree::newick::parse_length;
use distree::newick::parse_newick;
use distree::newick::parse_subtree;
use distree::newick::ParseError;
use distree::newick::ParsedNode;

fn chars(text: &str) -> Vec<char> {
    text.chars().collect()
}

fn tip(name: Option<&str>, length: Option<&str>) -> ParsedNode {
    ParsedNode {
        name: name.map(|s| s.to_string()),
        length: length.map(|s| s.to_string()),
        children: Vec::new(),
    }
}

fn knot(name: Option<&str>, length: Option<&str>, children: Vec<ParsedNode>) -> ParsedNode {
    ParsedNode { name: name.map(|s| s.to_string()), length: length.map(|s| s.to_string()), children }
}

#[test]
fn three_leaves_are_read() {
    let got = parse_newick(&chars("((A:1,B:2):3,C:4);"));
    let want = knot(
        None,
        None,
        vec![
            knot(None, Some("3"), vec![tip(Some("A"), Some("1")), tip(Some("B"), Some("2"))]),
            tip(Some("C"), Some("4")),
        ],
    );
    assert_eq!(got, Ok(want));
}

#[test]
fn single_leaf_is_read() {
    assert_eq!(parse_newick(&chars("A;")), Ok(tip(Some("A"), None)));
    assert_eq!(parse_subtree(&chars("A;"), 0), Ok((tip(Some("A"), None), 1)));
}

#[test]
fn empty_text_is_a_vertex_without_label() {
    assert_eq!(parse_newick(&chars("")), Ok(tip(None, None)));
    assert_eq!(parse_newick(&chars(";")), Ok(tip(None, None)));
}

#[test]
fn inner_vertex_may_have_label_and_length() {
    let got = parse_newick(&chars("(A,B)root:5.5;"));
    let want = knot(Some("root"), Some("5.5"), vec![tip(Some("A"), None), tip(Some("B"), None)]);
    assert_eq!(got, Ok(want));
}

#[test]
fn vertices_without_labels_are_read() {
    assert_eq!(parse_newick(&chars("(,);")), Ok(knot(None, None, vec![tip(None, None), tip(None, None)])));
    assert_eq!(parse_newick(&chars("()")), Ok(knot(None, None, vec![tip(None, None)])));
    assert_eq!(
        parse_newick(&chars("(:1,:2):3")),
        Ok(knot(None, Some("3"), vec![tip(None, Some("1")), tip(None, Some("2"))]))
    );
}

#[test]
fn parenthesis_after_a_subtree_starts_its_label() {
    let got = parse_newick(&chars("((A)(B))"));
    let want = knot(None, None, vec![knot(Some("(B"), None, vec![tip(Some("A"), None)])]);
    assert_eq!(got, Ok(want));
}

#[test]
fn what_follows_the_tree_is_not_read() {
    assert_eq!(parse_newick(&chars("A)garbage")), Ok(tip(Some("A"), None)));
    assert_eq!(parse_subtree(&chars("(A,B)x;(C,D);"), 0).map(|r| r.1), Ok(6));
    assert_eq!(parse_subtree(&chars("(A,B)x;(C,D);"), 7).map(|r| r.1), Ok(12));
}

#[test]
fn text_that_ends_inside_parentheses_is_refused() {
    assert_eq!(parse_newick(&chars("(A,B")), Err(ParseError::UnexpectedEnd));
    assert_eq!(parse_newick(&chars("(")), Err(ParseError::UnexpectedEnd));
    assert_eq!(parse_newick(&chars("((A,B),")), Err(ParseError::UnexpectedEnd));
    assert_eq!(parse_newick(&chars("(A:1")), Err(ParseError::UnexpectedEnd));
}

#[test]
fn wrong_character_after_a_subtree_is_refused() {
    assert_eq!(parse_newick(&chars("(A;B)")), Err(ParseError::UnexpectedChar { found: ';', at: 2 }));
    assert_eq!(parse_newick(&chars("(A B)")), Err(ParseError::UnexpectedChar { found: ' ', at: 2 }));
    assert_eq!(parse_newick(&chars("(A:1x,B)")), Err(ParseError::UnexpectedChar { found: 'x', at: 4 }));
    assert_eq!(parse_newick(&chars("((A),(B)\n)")), Err(ParseError::UnexpectedChar { found: '\n', at: 8 }));
    assert_eq!(parse_newick(&chars("(A:1:2)")), Err(ParseError::UnexpectedChar { found: ':', at: 4 }));
}

#[test]
fn label_ends_at_white_space_of_any_kind() {
    assert_eq!(parse_label(&chars("ab cd"), 0), ("ab".to_string(), 2));
    assert_eq!(parse_label(&chars("ab\tcd"), 0), ("ab".to_string(), 2));
    assert_eq!(parse_label(&chars("ab\u{a0}cd"), 0), ("ab".to_string(), 2));
    assert_eq!(parse_label(&chars("ab\u{3000}cd"), 0), ("ab".to_string(), 2));
    assert_eq!(parse_label(&chars("ab(cd"), 0), ("ab(cd".to_string(), 5));
    assert_eq!(parse_label(&chars("ab:cd"), 3), ("cd".to_string(), 5));
    assert_eq!(parse_label(&chars("ab"), 2), ("".to_string(), 2));
    assert_eq!(parse_label(&chars(",ab"), 0), ("".to_string(), 0));
    assert_eq!(parse_newick(&chars("A\u{a0}B")), Ok(tip(Some("A"), None)));
}

#[test]
fn numbers_are_told_from_other_text() {
    let good = ["1", "0", "12.5", "1.", ".5", "+1", "-1", "1e5", "1E5", "1e+5", "1e-5", "+.5e-3", "-12.e7", "007", "1e05"];
    for text in good {
        let input = chars(text);
        assert_eq!(parse_length(&input, 0), Ok((text.to_string(), input.len())), "{}", text);
        assert!(text.parse::<f64>().is_ok(), "{}", text);
    }
    let bad = ["", ".", "+", "-", "e5", "E", "1e", "1e+", "1e-", "1.2.3", "--1", "+-1", "1e5.3", "1e5e5", "1-2", ".e5", "+.", "1ee5", "e", "1+"];
    for text in bad {
        let input = chars(text);
        assert_eq!(parse_length(&input, 0), Err(ParseError::BadLength { text: text.to_string() }), "{}", text);
        assert!(text.parse::<f64>().is_err(), "{}", text);
    }
}

#[test]
fn length_is_read_up_to_the_first_other_character() {
    assert_eq!(parse_length(&chars("A:12.5,B"), 2), Ok(("12.5".to_string(), 6)));
    assert_eq!(parse_length(&chars("1.5x"), 0), Ok(("1.5".to_string(), 3)));
    assert_eq!(parse_length(&chars("x"), 0), Err(ParseError::BadLength { text: "".to_string() }));
    assert_eq!(parse_length(&chars("1e)"), 0), Err(ParseError::BadLength { text: "1e".to_string() }));
}

#[test]
fn length_that_is_no_number_is_refused() {
    assert_eq!(parse_newick(&chars("A:")), Err(ParseError::BadLength { text: "".to_string() }));
    assert_eq!(parse_newick(&chars("(A:1.2.3,B:1)")), Err(ParseError::BadLength { text: "1.2.3".to_string() }));
    assert_eq!(parse_newick(&chars("(A:1,B:abc)")), Err(ParseError::BadLength { text: "".to_string() }));
    assert_eq!(parse_newick(&chars("(A:1,B:2):e")), Err(ParseError::BadLength { text: "e".to_string() }));
}

#[test]
fn first_fault_in_the_text_is_reported() {
    assert_eq!(parse_newick(&chars("(A:x,B")), Err(ParseError::BadLength { text: "".to_string() }));
    assert_eq!(parse_newick(&chars("(A;B:x)")), Err(ParseError::UnexpectedChar { found: ';', at: 2 }));
}
