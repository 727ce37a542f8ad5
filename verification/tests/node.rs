use green_tree::{
    GreenElement, GreenElementRef, GreenNode, GreenToken, NodeOrToken, SyntaxKind, TextRange,
    TextSize,
};

fn tok(kind: u16, text: &str) -> GreenElement {
    NodeOrToken::Token(GreenToken::new(SyntaxKind(kind), text))
}

fn range(start: u32, end: u32) -> TextRange {
    TextRange::new(TextSize { raw: start }, TextSize { raw: end })
}

fn text_of(element: GreenElementRef<'_>) -> String {
    match element {
        NodeOrToken::Token(token) => token.text().to_string(),
        NodeOrToken::Node(node) => {
            let mut text = String::new();
            let mut children = node.children();
            while let Some(child) = children.next() {
                text.push_str(&text_of(child));
            }
            text
        }
    }
}

fn found(node: &GreenNode, start: u32, end: u32) -> Option<(usize, u32, String)> {
    node.child_at_range(range(start, end))
        .map(|(index, offset, element)| (index, offset.raw, text_of(element)))
}

// "let", " ", "x": offsets 0, 3, 4; length 5
fn sample() -> GreenNode {
    GreenNode::new(SyntaxKind(10), vec![tok(1, "let"), tok(2, " "), tok(3, "x")])
}

#[test]
fn new_node_has_kind_and_summed_length() {
    let node = sample();
    assert_eq!(node.kind(), SyntaxKind(10));
    assert_eq!(node.text_len(), TextSize { raw: 5 });
    assert_eq!(node.children().len(), 3);
}

#[test]
fn childless_node_has_length_zero() {
    let node = GreenNode::new(SyntaxKind(4), Vec::new());
    assert_eq!(node.text_len().raw, 0);
    assert_eq!(node.children().len(), 0);
    assert!(node.children().next().is_none());
    assert!(node.child_at_range(range(0, 0)).is_none());
}

#[test]
fn length_counts_bytes_not_chars() {
    let token = GreenToken::new(SyntaxKind(1), "h\u{e9}\u{20ac}");
    assert_eq!(token.text_len().raw, 6);
    let node = GreenNode::new(SyntaxKind(2), vec![NodeOrToken::Token(token), tok(1, "!")]);
    assert_eq!(node.text_len().raw, 7);
    assert_eq!(found(&node, 6, 7), Some((1, 6, "!".to_string())));
}

#[test]
fn offsets_are_sums_of_the_lengths_before() {
    let inner = GreenNode::new(SyntaxKind(11), vec![tok(1, "ab"), tok(1, "cde")]);
    let node = GreenNode::new(
        SyntaxKind(12),
        vec![tok(1, "x"), NodeOrToken::Node(inner), tok(1, ""), tok(1, "yz")],
    );
    assert_eq!(node.text_len().raw, 8);
    assert_eq!(found(&node, 0, 1), Some((0, 0, "x".to_string())));
    assert_eq!(found(&node, 1, 6), Some((1, 1, "abcde".to_string())));
    assert_eq!(found(&node, 6, 8), Some((3, 6, "yz".to_string())));
    let inner = node.children().nth(1).unwrap().into_node().unwrap().clone();
    assert_eq!(inner.text_len().raw, 5);
    assert_eq!(found(&inner, 2, 5), Some((1, 2, "cde".to_string())));
}

#[test]
fn children_walk_from_the_front() {
    let node = sample();
    let mut children = node.children();
    assert_eq!(children.size_hint(), (3, Some(3)));
    assert_eq!(text_of(children.next().unwrap()), "let");
    assert_eq!(children.len(), 2);
    assert_eq!(text_of(children.next().unwrap()), " ");
    assert_eq!(text_of(children.next().unwrap()), "x");
    assert!(children.next().is_none());
    assert!(children.next().is_none());
    assert_eq!(children.len(), 0);
}

#[test]
fn children_walk_from_the_back() {
    let node = sample();
    let mut children = node.children();
    assert_eq!(text_of(children.next_back().unwrap()), "x");
    assert_eq!(text_of(children.next().unwrap()), "let");
    assert_eq!(text_of(children.next_back().unwrap()), " ");
    assert!(children.next_back().is_none());
    assert!(children.next().is_none());
}

#[test]
fn children_nth_skips_and_exhausts() {
    let node = sample();
    let mut children = node.children();
    assert_eq!(text_of(children.nth(1).unwrap()), " ");
    assert_eq!(children.len(), 1);
    assert!(children.nth(1).is_none());
    assert_eq!(children.len(), 0);

    let mut children = node.children();
    assert_eq!(text_of(children.nth_back(0).unwrap()), "x");
    assert_eq!(text_of(children.nth_back(1).unwrap()), "let");
    assert_eq!(children.len(), 0);

    let mut children = node.children();
    assert!(children.nth_back(3).is_none());
    assert_eq!(children.len(), 0);
}

#[test]
fn children_last_and_count() {
    let node = sample();
    assert_eq!(text_of(node.children().last().unwrap()), "x");
    assert_eq!(node.children().count(), 3);
    let mut children = node.children();
    children.next();
    assert_eq!(children.count(), 2);
    let empty = GreenNode::new(SyntaxKind(1), Vec::new());
    assert!(empty.children().last().is_none());
}

#[test]
fn child_at_range_finds_the_covering_child() {
    let node = sample();
    assert_eq!(found(&node, 0, 3), Some((0, 0, "let".to_string())));
    assert_eq!(found(&node, 1, 2), Some((0, 0, "let".to_string())));
    assert_eq!(found(&node, 3, 4), Some((1, 3, " ".to_string())));
    assert_eq!(found(&node, 4, 5), Some((2, 4, "x".to_string())));
}

#[test]
fn child_at_range_rejects_a_range_across_children() {
    let node = sample();
    assert_eq!(found(&node, 2, 4), None);
    assert_eq!(found(&node, 0, 5), None);
    assert_eq!(found(&node, 3, 5), None);
    assert_eq!(found(&node, 4, 6), None);
    assert_eq!(found(&node, 6, 7), None);
}

#[test]
fn child_at_range_puts_an_empty_range_in_the_preceding_slot() {
    let node = sample();
    assert_eq!(found(&node, 0, 0), Some((0, 0, "let".to_string())));
    assert_eq!(found(&node, 2, 2), Some((0, 0, "let".to_string())));
    assert_eq!(found(&node, 3, 3), Some((0, 0, "let".to_string())));
    assert_eq!(found(&node, 4, 4), Some((1, 3, " ".to_string())));
    assert_eq!(found(&node, 5, 5), Some((2, 4, "x".to_string())));
    assert_eq!(found(&node, 6, 6), None);
}

#[test]
fn child_at_range_with_empty_children() {
    // "abc", "", "de": offsets 0, 3, 3
    let node = GreenNode::new(SyntaxKind(1), vec![tok(1, "abc"), tok(2, ""), tok(3, "de")]);
    assert_eq!(found(&node, 3, 3), Some((1, 3, "".to_string())));
    assert_eq!(found(&node, 3, 4), Some((2, 3, "de".to_string())));
    assert_eq!(found(&node, 2, 3), Some((0, 0, "abc".to_string())));
    let leading = GreenNode::new(SyntaxKind(1), vec![tok(2, ""), tok(3, "de")]);
    assert_eq!(found(&leading, 0, 0), Some((0, 0, "".to_string())));
    assert_eq!(found(&leading, 0, 1), Some((1, 0, "de".to_string())));
}

#[test]
fn replace_child_changes_one_place() {
    let node = sample();
    let changed = node.replace_child(2, tok(3, "yy"));
    assert_eq!(changed.kind(), SyntaxKind(10));
    assert_eq!(changed.text_len().raw, 6);
    assert_eq!(text_of(NodeOrToken::Node(&changed)), "let yy");
    // the first node is as it was
    assert_eq!(text_of(NodeOrToken::Node(&node)), "let x");
    assert_eq!(node.text_len().raw, 5);
    assert!(changed != node);
}

#[test]
fn replace_child_shares_the_other_children() {
    let inner = GreenNode::new(SyntaxKind(11), vec![tok(1, "ab")]);
    let kept = GreenToken::new(SyntaxKind(1), "k");
    let node = GreenNode::new(
        SyntaxKind(12),
        vec![NodeOrToken::Node(inner.clone()), NodeOrToken::Token(kept.clone()), tok(1, "z")],
    );
    assert_eq!(inner.strong_count(), 2);
    assert_eq!(kept.strong_count(), 2);
    let changed = node.replace_child(2, tok(1, "w"));
    assert_eq!(inner.strong_count(), 3);
    assert_eq!(kept.strong_count(), 3);
    let first = changed.children().next().unwrap().into_node().unwrap().clone();
    assert!(first == inner);
    drop(first);
    drop(changed);
    assert_eq!(inner.strong_count(), 2);
    assert_eq!(kept.strong_count(), 2);
}

#[test]
fn replace_child_beyond_the_end_copies_the_node() {
    let node = sample();
    let same = node.replace_child(3, tok(9, "never"));
    assert!(same == node);
    assert_eq!(same.children().len(), 3);
    assert_eq!(same.strong_count(), 1);
    assert_eq!(node.strong_count(), 1);
}

#[test]
fn equality_is_structural() {
    let a = GreenNode::new(SyntaxKind(1), vec![tok(2, "x"), tok(3, "y")]);
    let b = GreenNode::new(SyntaxKind(1), vec![tok(2, "x"), tok(3, "y")]);
    assert!(a == b);
    assert!(a == a.clone());
    let other_kind = GreenNode::new(SyntaxKind(9), vec![tok(2, "x"), tok(3, "y")]);
    let other_text = GreenNode::new(SyntaxKind(1), vec![tok(2, "x"), tok(3, "z")]);
    let other_token_kind = GreenNode::new(SyntaxKind(1), vec![tok(2, "x"), tok(4, "y")]);
    let shorter = GreenNode::new(SyntaxKind(1), vec![tok(2, "x")]);
    let regrouped = GreenNode::new(SyntaxKind(1), vec![tok(2, "xy")]);
    assert!(a != other_kind);
    assert!(a != other_text);
    assert!(a != other_token_kind);
    assert!(a != shorter);
    assert!(a != regrouped);
    let nested_a = GreenNode::new(SyntaxKind(5), vec![NodeOrToken::Node(a), tok(1, "t")]);
    let nested_b = GreenNode::new(SyntaxKind(5), vec![NodeOrToken::Node(b), tok(1, "t")]);
    let nested_c = GreenNode::new(SyntaxKind(5), vec![NodeOrToken::Node(shorter), tok(1, "t")]);
    let leaf = GreenNode::new(SyntaxKind(5), vec![tok(1, "xy"), tok(1, "t")]);
    assert!(nested_a == nested_b);
    assert!(nested_a != nested_c);
    assert!(nested_a != leaf);
}

#[test]
fn clone_is_a_second_handle() {
    let node = sample();
    assert_eq!(node.strong_count(), 1);
    let second = node.clone();
    assert_eq!(node.strong_count(), 2);
    assert_eq!(second.strong_count(), 2);
    drop(second);
    assert_eq!(node.strong_count(), 1);
    let token = GreenToken::new(SyntaxKind(1), "t");
    let again = token.clone();
    assert_eq!(token.strong_count(), 2);
    assert!(token == again);
}

#[test]
fn token_holds_kind_and_text() {
    let token = GreenToken::new(SyntaxKind(7), "fn");
    assert_eq!(token.kind(), SyntaxKind(7));
    assert_eq!(token.text(), "fn");
    assert_eq!(token.text_len(), TextSize { raw: 2 });
    assert!(token == GreenToken::new(SyntaxKind(7), "fn"));
    assert!(token != GreenToken::new(SyntaxKind(8), "fn"));
    assert!(token != GreenToken::new(SyntaxKind(7), "fm"));
}

#[test]
fn elements_convert_and_project() {
    let token = GreenToken::new(SyntaxKind(7), "fn");
    let node = sample();
    let from_token: GreenElement = token.clone().into();
    let from_node: GreenElement = node.clone().into();
    assert_eq!(from_token.text_len().raw, 2);
    assert_eq!(from_node.text_len().raw, 5);
    assert!(from_token.as_node().is_none());
    assert!(from_token.as_token().unwrap() == &token);
    assert!(from_node.as_token().is_none());
    assert!(from_node.as_node().unwrap() == &node);
    assert_eq!(from_node.as_ref().text_len().raw, 5);
    let owned = from_node.as_ref().cloned();
    assert_eq!(node.strong_count(), 3);
    assert!(owned.into_node().unwrap() == node);
    assert!(from_token.into_node().is_none());
    let again: GreenElement = token.clone().into();
    assert!(again.into_token().unwrap() == token);
}

#[test]
fn text_ranges() {
    let r = range(2, 5);
    assert_eq!(r.start().raw, 2);
    assert_eq!(r.end().raw, 5);
    assert_eq!(r.len().raw, 3);
    assert!(!r.is_empty());
    assert!(range(4, 4).is_empty());
    assert!(r.contains_range(range(2, 5)));
    assert!(r.contains_range(range(3, 3)));
    assert!(r.contains_range(range(5, 5)));
    assert!(!r.contains_range(range(1, 3)));
    assert!(!r.contains_range(range(4, 6)));
    let at = TextRange::at(TextSize { raw: 3 }, TextSize { raw: 4 });
    assert_eq!((at.start().raw, at.end().raw), (3, 7));
    assert_eq!(TextSize::of("a\u{df}c").raw, 4);
}

#[test]
fn fold_goes_from_the_front_and_rfold_from_the_back() {
    let node = sample();
    let forward = node.children().fold(String::new(), |acc, child| acc + "<" + &text_of(child) + ">");
    assert_eq!(forward, "<let>< ><x>");
    let backward =
        node.children().rfold(String::new(), |acc, child| acc + "<" + &text_of(child) + ">");
    assert_eq!(backward, "<x>< ><let>");
    let mut rest = node.children();
    rest.next();
    assert_eq!(rest.fold(0usize, |acc, child| acc + child.text_len().raw as usize), 2);
    let empty = GreenNode::new(SyntaxKind(1), Vec::new());
    assert_eq!(empty.children().fold(7, |acc, _| acc + 1), 7);
    assert_eq!(empty.children().rfold(7, |acc, _| acc + 1), 7);
}

#[test]
fn cloned_elements_are_second_handles() {
    let node = sample();
    let element: GreenElement = NodeOrToken::Node(node.clone());
    let copy = element.clone();
    assert_eq!(node.strong_count(), 3);
    assert!(copy == element);
    let token: GreenElement = tok(1, "t");
    assert!(token.clone() == token);
    assert!(token != element);
}
