use green_tree::{
    GreenElementRef, GreenNode, GreenNodeBuilder, MaybeOwned, NodeCache, NodeOrToken, SyntaxKind,
};

const ROOT: SyntaxKind = SyntaxKind(0);
const WORD: SyntaxKind = SyntaxKind(1);
const PLUS: SyntaxKind = SyntaxKind(2);
const SUM: SyntaxKind = SyntaxKind(3);
const GROUP: SyntaxKind = SyntaxKind(4);

/// `3[1"a" 2"+"]`: kinds, texts and nesting, all in one line.
fn show(element: GreenElementRef<'_>) -> String {
    match element {
        NodeOrToken::Token(token) => format!("{}{:?}", token.kind().0, token.text()),
        NodeOrToken::Node(node) => {
            let mut parts = Vec::new();
            let mut children = node.children();
            while let Some(child) = children.next() {
                parts.push(show(child));
            }
            format!("{}[{}]", node.kind().0, parts.join(" "))
        }
    }
}

fn fragments(element: GreenElementRef<'_>, into: &mut Vec<String>) {
    match element {
        NodeOrToken::Token(token) => into.push(token.text().to_string()),
        NodeOrToken::Node(node) => {
            let mut children = node.children();
            while let Some(child) = children.next() {
                fragments(child, into);
            }
        }
    }
}

fn shape(root: &GreenNode) -> String {
    show(NodeOrToken::Node(root))
}

#[test]
fn builds_nested_nodes() {
    let mut builder = GreenNodeBuilder::new();
    builder.start_node(ROOT);
    builder.token(WORD, "a");
    builder.start_node(GROUP);
    builder.token(WORD, "b");
    builder.start_node(GROUP);
    builder.finish_node();
    builder.finish_node();
    builder.token(WORD, "c");
    builder.finish_node();
    let root = builder.finish();
    assert_eq!(shape(&root), r#"0[1"a" 4[1"b" 4[]] 1"c"]"#);
    assert_eq!(root.text_len().raw, 3);
}

#[test]
fn checkpoint_wraps_what_came_after_it() {
    let mut builder = GreenNodeBuilder::new();
    builder.start_node(ROOT);
    builder.token(WORD, "A");
    let checkpoint = builder.checkpoint();
    builder.token(WORD, "B");
    builder.token(WORD, "C");
    builder.start_node_at(checkpoint, SUM);
    builder.finish_node();
    builder.finish_node();
    let root = builder.finish();
    assert_eq!(shape(&root), r#"0[1"A" 3[1"B" 1"C"]]"#);
}

#[test]
fn checkpoint_that_is_not_used_changes_nothing() {
    let mut builder = GreenNodeBuilder::new();
    builder.start_node(ROOT);
    let _checkpoint = builder.checkpoint();
    builder.token(WORD, "a");
    builder.finish_node();
    assert_eq!(shape(&builder.finish()), r#"0[1"a"]"#);
}

#[test]
fn checkpoint_builds_left_leaning_sums() {
    // a + b + c  =>  SUM[SUM[a + b] + c]
    let mut builder = GreenNodeBuilder::new();
    builder.start_node(ROOT);
    let checkpoint = builder.checkpoint();
    builder.token(WORD, "a");
    builder.start_node_at(checkpoint, SUM);
    builder.token(PLUS, "+");
    builder.token(WORD, "b");
    builder.finish_node();
    builder.start_node_at(checkpoint, SUM);
    builder.token(PLUS, "+");
    builder.token(WORD, "c");
    builder.finish_node();
    builder.finish_node();
    let root = builder.finish();
    assert_eq!(shape(&root), r#"0[3[3[1"a" 2"+" 1"b"] 2"+" 1"c"]]"#);
}

#[test]
fn checkpoint_at_the_end_opens_an_empty_node() {
    let mut builder = GreenNodeBuilder::new();
    builder.start_node(ROOT);
    builder.token(WORD, "a");
    let checkpoint = builder.checkpoint();
    builder.start_node_at(checkpoint, GROUP);
    builder.finish_node();
    builder.finish_node();
    assert_eq!(shape(&builder.finish()), r#"0[1"a" 4[]]"#);
}

#[test]
fn text_comes_back_as_it_went_in() {
    let texts = ["fn", " ", "main", "(", ")", " ", "{", "\u{e9}\u{20ac}", "", "}"];
    let mut builder = GreenNodeBuilder::new();
    builder.start_node(ROOT);
    builder.token(WORD, texts[0]);
    builder.token(WORD, texts[1]);
    let checkpoint = builder.checkpoint();
    builder.token(WORD, texts[2]);
    builder.start_node(GROUP);
    builder.token(WORD, texts[3]);
    builder.token(WORD, texts[4]);
    builder.finish_node();
    builder.start_node_at(checkpoint, SUM);
    builder.token(WORD, texts[5]);
    builder.start_node(GROUP);
    builder.token(WORD, texts[6]);
    builder.token(WORD, texts[7]);
    builder.token(WORD, texts[8]);
    builder.token(WORD, texts[9]);
    builder.finish_node();
    builder.finish_node();
    builder.finish_node();
    let root = builder.finish();
    let mut seen = Vec::new();
    fragments(NodeOrToken::Node(&root), &mut seen);
    assert_eq!(seen, texts);
    assert_eq!(seen.concat(), "fn main() {\u{e9}\u{20ac}}");
    assert_eq!(root.text_len().raw as usize, seen.concat().len());
}

#[test]
fn misuse_is_told_apart_before_the_call() {
    let mut builder = GreenNodeBuilder::new();
    // no node is open
    assert!(!builder.can_finish_node());
    // nothing is pending
    assert!(!builder.can_finish());
    builder.start_node(ROOT);
    assert!(builder.can_finish_node());
    assert!(!builder.can_finish());
    builder.finish_node();
    assert!(!builder.can_finish_node());
    assert!(builder.can_finish());
    // a second root: more than one element is pending
    builder.start_node(ROOT);
    builder.finish_node();
    assert!(!builder.can_finish());
}

#[test]
fn a_lone_token_is_no_root() {
    let mut builder = GreenNodeBuilder::new();
    builder.token(WORD, "a");
    assert!(!builder.can_finish());
    assert!(!builder.can_finish_node());
}

#[test]
fn stale_checkpoints_are_told_apart() {
    let mut builder = GreenNodeBuilder::new();
    builder.start_node(ROOT);
    let early = builder.checkpoint();
    builder.token(WORD, "a");
    builder.token(WORD, "b");
    let late = builder.checkpoint();
    assert!(builder.accepts(early));
    assert!(builder.accepts(late));
    // a node opened behind `early` hides it until that node is closed
    builder.start_node(GROUP);
    assert!(!builder.accepts(early));
    assert!(builder.accepts(late));
    builder.token(WORD, "c");
    builder.token(WORD, "d");
    let inner = builder.checkpoint();
    assert!(builder.accepts(inner));
    builder.finish_node();
    // closing the node took away what `inner` pointed behind
    assert!(!builder.accepts(inner));
    assert!(builder.accepts(early));
    assert!(builder.accepts(late));
    builder.start_node_at(late, SUM);
    builder.finish_node();
    builder.finish_node();
    assert_eq!(shape(&builder.finish()), r#"0[1"a" 1"b" 3[4[1"c" 1"d"]]]"#);
}

#[test]
fn can_take_counts_the_pending_text() {
    let mut builder = GreenNodeBuilder::new();
    assert!(builder.can_take(""));
    assert!(builder.can_take("abc"));
    builder.start_node(ROOT);
    builder.token(WORD, "abc");
    assert!(builder.can_take("\u{20ac}"));
}

#[test]
fn builders_share_through_a_lent_cache() {
    let mut cache = NodeCache::new();
    let first = {
        let mut builder = GreenNodeBuilder::with_cache(&mut cache);
        builder.start_node(ROOT);
        builder.start_node(GROUP);
        builder.token(WORD, "x");
        builder.finish_node();
        builder.finish_node();
        builder.finish()
    };
    // the cache and `first`
    assert_eq!(first.strong_count(), 2);
    let second = {
        let mut builder = GreenNodeBuilder::with_cache(&mut cache);
        builder.start_node(ROOT);
        builder.start_node(GROUP);
        builder.token(WORD, "x");
        builder.finish_node();
        builder.finish_node();
        builder.finish()
    };
    assert!(first == second);
    assert_eq!(first.strong_count(), 3);
    // a builder with a cache of its own shares with neither
    let mut builder = GreenNodeBuilder::new();
    builder.start_node(ROOT);
    builder.start_node(GROUP);
    builder.token(WORD, "x");
    builder.finish_node();
    builder.finish_node();
    let third = builder.finish();
    assert!(first == third);
    assert_eq!(first.strong_count(), 3);
    assert_eq!(third.strong_count(), 1);
}

#[test]
fn equal_subtrees_of_one_build_are_shared() {
    let mut cache = NodeCache::new();
    let mut builder = GreenNodeBuilder::with_cache(&mut cache);
    builder.start_node(ROOT);
    for _ in 0..3 {
        builder.start_node(GROUP);
        builder.token(WORD, "x");
        builder.token(PLUS, "+");
        builder.finish_node();
    }
    builder.finish_node();
    let root = builder.finish();
    let group = root.children().next().unwrap().into_node().unwrap().clone();
    // the cache, three child slots of the root, and `group`
    assert_eq!(group.strong_count(), 5);
    drop(group);
    drop(root);
    cache.gc();
    let word = cache.token(WORD, "x");
    assert_eq!(word.strong_count(), 2);
}

#[test]
fn default_builder_is_empty() {
    let builder = GreenNodeBuilder::default();
    assert!(!builder.can_finish());
    assert!(!builder.can_finish_node());
    let checkpoint = builder.checkpoint();
    assert!(builder.accepts(checkpoint));
}

#[test]
fn maybe_owned_reads_and_writes_through() {
    let mut owned: MaybeOwned<'_, u32> = MaybeOwned::Owned(5);
    assert_eq!(*owned, 5);
    *owned = 6;
    assert_eq!(*owned, 6);
    let mut lender = 1u32;
    {
        let mut lent = MaybeOwned::Borrowed(&mut lender);
        assert_eq!(*lent, 1);
        *lent = 9;
        assert_eq!(*lent, 9);
    }
    assert_eq!(lender, 9);
    let fresh: MaybeOwned<'_, u32> = MaybeOwned::default();
    assert!(matches!(fresh, MaybeOwned::Owned(0)));
}

#[test]
fn a_lent_cache_keeps_what_the_builder_interned() {
    let mut cache = NodeCache::new();
    {
        let mut builder = GreenNodeBuilder::with_cache(&mut cache);
        builder.start_node(ROOT);
        builder.token(WORD, "x");
        builder.finish_node();
        let root = builder.finish();
        assert_eq!(root.strong_count(), 2);
    }
    let word = cache.token(WORD, "x");
    // the cache, the child slot of the root that the cache holds, and `word`
    assert_eq!(word.strong_count(), 3);
    cache.gc();
    assert_eq!(word.strong_count(), 2);
}
