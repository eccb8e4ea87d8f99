use xmltree::{parse, parse_tag, read_tag, serialize, ClosingTagError, NodeError, NodeType, Scanner, TagKind, XMLError, XMLNode};

fn name_of(n: &XMLNode) -> &str {
    match &n.node_contents {
        NodeType::Element(e) => e.tag_name.as_str(),
        NodeType::Text(_) => panic!("expected an element"),
    }
}

fn text_of(n: &XMLNode) -> &str {
    match &n.node_contents {
        NodeType::Text(t) => t.as_str(),
        NodeType::Element(_) => panic!("expected a text node"),
    }
}

fn attrs_of(n: &XMLNode) -> Vec<(String, String)> {
    match &n.node_contents {
        NodeType::Element(e) => e.attributes.clone(),
        NodeType::Text(_) => panic!("expected an element"),
    }
}

fn pair(k: &str, v: &str) -> (String, String) {
    (k.to_string(), v.to_string())
}

#[test]
fn nesting_two_children_in_order() {
    let t = parse("<a><b>x</b><b>y</b></a>").unwrap();
    assert_eq!(name_of(&t.root), "a");
    assert_eq!(t.root.children.len(), 2);
    assert_eq!(name_of(&t.root.children[0]), "b");
    assert_eq!(name_of(&t.root.children[1]), "b");
    assert_eq!(t.root.children[0].children.len(), 1);
    assert_eq!(text_of(&t.root.children[0].children[0]), "x");
    assert_eq!(t.root.children[1].children.len(), 1);
    assert_eq!(text_of(&t.root.children[1].children[0]), "y");
}

#[test]
fn self_nesting_matches_outer_close() {
    let t = parse("<a><a>inner</a></a>").unwrap();
    assert_eq!(name_of(&t.root), "a");
    assert_eq!(t.root.children.len(), 1);
    let inner = &t.root.children[0];
    assert_eq!(name_of(inner), "a");
    assert_eq!(inner.children.len(), 1);
    assert_eq!(text_of(&inner.children[0]), "inner");
}

#[test]
fn attributes_of_self_closing_tag() {
    let t = parse("<a id=\"1\" class=\"x\"/>").unwrap();
    assert_eq!(name_of(&t.root), "a");
    assert!(t.root.children.is_empty());
    assert_eq!(attrs_of(&t.root), vec![pair("id", "1"), pair("class", "x")]);
}

#[test]
fn mismatched_close_fails() {
    let r = parse("<a><b></a>");
    assert_eq!(r, Err(XMLError::UnmatchedClosingTag("b".to_string(), "a".to_string())));
}

#[test]
fn unterminated_element_fails() {
    let r = parse("<a><b>text");
    assert_eq!(r, Err(XMLError::ClosingTagError(ClosingTagError("b".to_string()))));
}

#[test]
fn self_close_equals_empty_pair() {
    let a = parse("<a/>").unwrap();
    let b = parse("<a></a>").unwrap();
    assert_eq!(a, b);
    assert_eq!(name_of(&a.root), "a");
    assert!(a.root.children.is_empty());
    assert!(attrs_of(&a.root).is_empty());
}

#[test]
fn mixed_content_order_kept() {
    let t = parse("<a>one<b/>two</a>").unwrap();
    assert_eq!(t.root.children.len(), 3);
    assert_eq!(text_of(&t.root.children[0]), "one");
    assert_eq!(name_of(&t.root.children[1]), "b");
    assert_eq!(text_of(&t.root.children[2]), "two");
}

#[test]
fn round_trip_of_a_document() {
    let src = "<?xml version='1.1'?>\n<doc lang=en>\n  <p class='\"hi\"'>Hello <b>world</b>!</p>\n  <empty></empty>\n  <q k=\"it's\"/>\n</doc>\n";
    let first = parse(&src).unwrap();
    let text = serialize(&first);
    let second = parse(&text).unwrap();
    assert_eq!(first, second);
    assert_eq!(first.version, "1.1");
    assert_eq!(first.encoding, "UTF-8");
}

#[test]
fn serialize_exact_text() {
    let t = parse("<a x='1'>t<b/></a>").unwrap();
    assert_eq!(serialize(&t), "<?xml version=\"1.0\" encoding=\"UTF-8\"?><a x=\"1\">t<b/></a>");
}

#[test]
fn serialize_picks_single_quotes_for_double_quoted_content() {
    let t = parse("<a x='say\"'/>").unwrap();
    assert_eq!(serialize(&t), "<?xml version=\"1.0\" encoding=\"UTF-8\"?><a x='say\"'/>");
}

#[test]
fn declaration_values_are_read() {
    let t = parse("<?xml version=\"2.0\" encoding=\"latin1\"?><r/>").unwrap();
    assert_eq!(t.version, "2.0");
    assert_eq!(t.encoding, "latin1");
}

#[test]
fn defaults_without_declaration() {
    let t = parse("  <r/>  ").unwrap();
    assert_eq!(t.version, "1.0");
    assert_eq!(t.encoding, "UTF-8");
}

#[test]
fn text_is_trimmed_and_blank_text_dropped() {
    let t = parse("<a>\n  hello world  \n<b/>   </a>").unwrap();
    assert_eq!(t.root.children.len(), 2);
    assert_eq!(text_of(&t.root.children[0]), "hello world");
}

#[test]
fn whitespace_inside_tags_is_ignored() {
    let t = parse("< a  k=v  ></a >").unwrap();
    assert_eq!(name_of(&t.root), "a");
    assert_eq!(attrs_of(&t.root), vec![pair("k", "v")]);
}

#[test]
fn empty_input_fails() {
    assert_eq!(parse(""), Err(XMLError::UnterminatedTag));
    assert_eq!(parse("   "), Err(XMLError::UnterminatedTag));
}

#[test]
fn unterminated_tag_fails() {
    assert_eq!(parse("<a"), Err(XMLError::UnterminatedTag));
}

#[test]
fn not_a_tag_fails() {
    assert_eq!(parse("hello"), Err(XMLError::NodeError(NodeError('h'))));
}

#[test]
fn empty_name_fails() {
    assert_eq!(parse("<>"), Err(XMLError::NodeError(NodeError('>'))));
}

#[test]
fn closing_tag_with_extra_content_fails() {
    assert_eq!(parse("<a></a b>"), Err(XMLError::NodeError(NodeError('b'))));
}

#[test]
fn closing_tag_as_root_fails() {
    assert_eq!(parse("</a>"), Err(XMLError::NodeError(NodeError('/'))));
}

#[test]
fn attribute_without_equals_fails() {
    assert_eq!(parse("<a k/>"), Err(XMLError::MalformedAttribute("k".to_string())));
}

#[test]
fn attribute_with_empty_key_fails() {
    assert_eq!(parse("<a =1/>"), Err(XMLError::MalformedAttribute("=1".to_string())));
}

#[test]
fn attribute_with_unbalanced_quote_fails() {
    assert_eq!(parse("<a k=\"v/>"), Err(XMLError::MalformedAttribute("k=\"v".to_string())));
}

#[test]
fn duplicate_attribute_fails() {
    assert_eq!(parse("<a k=1 k=2/>"), Err(XMLError::DuplicateAttribute("k".to_string())));
}

#[test]
fn trailing_content_fails() {
    assert_eq!(parse("<a/><b/>"), Err(XMLError::TrailingContent('<')));
}

#[test]
fn too_deep_nesting_fails() {
    let mut s = String::new();
    for _ in 0..257 {
        s.push_str("<a>");
    }
    for _ in 0..257 {
        s.push_str("</a>");
    }
    assert_eq!(parse(&s), Err(XMLError::NestingTooDeep));
}

#[test]
fn deepest_allowed_nesting_parses() {
    let mut s = String::new();
    for _ in 0..256 {
        s.push_str("<a>");
    }
    for _ in 0..256 {
        s.push_str("</a>");
    }
    assert!(parse(&s).is_ok());
}

#[test]
fn malformed_declaration_fails() {
    assert_eq!(parse("<?xml version=1.0><a/>"), Err(XMLError::NodeError(NodeError('?'))));
}

#[test]
fn read_tag_kinds_and_position() {
    let mut sc = Scanner::new("<a k='v'></a><b/>");
    let t = read_tag(&mut sc).unwrap();
    assert_eq!(t.kind, TagKind::Open);
    assert_eq!(t.name, "a");
    assert_eq!(t.attributes, vec![pair("k", "v")]);
    assert_eq!(sc.offset(), 9);
    let t = read_tag(&mut sc).unwrap();
    assert_eq!(t.kind, TagKind::Close);
    assert_eq!(t.name, "a");
    let t = read_tag(&mut sc).unwrap();
    assert_eq!(t.kind, TagKind::SelfClose);
    assert_eq!(t.name, "b");
    assert!(sc.at_end());
}

#[test]
fn parse_tag_builds_one_element() {
    let mut sc = Scanner::new("  <x><y>z</y></x>rest");
    let n = parse_tag(&mut sc).unwrap();
    assert_eq!(name_of(&n), "x");
    assert_eq!(name_of(&n.children[0]), "y");
    assert_eq!(sc.peek(), Some('r'));
}

#[test]
fn scanner_peek_and_advance() {
    let mut sc = Scanner::new("ab");
    assert_eq!(sc.peek(), Some('a'));
    assert_eq!(sc.advance(), Some('a'));
    assert_eq!(sc.advance(), Some('b'));
    assert!(sc.at_end());
    assert_eq!(sc.peek(), None);
    assert_eq!(sc.advance(), None);
}

#[test]
fn built_tree_serializes() {
    let b = XMLNode::element("b".to_string(), Vec::new(), vec![XMLNode::text("hi".to_string())]);
    let a = XMLNode::element("a".to_string(), vec![pair("k", "v")], vec![b]);
    let tree = xmltree::XMLTree { version: "1.0".to_string(), encoding: "UTF-8".to_string(), root: a };
    let text = serialize(&tree);
    assert_eq!(text, "<?xml version=\"1.0\" encoding=\"UTF-8\"?><a k=\"v\"><b>hi</b></a>");
    assert_eq!(parse(&text).unwrap(), tree);
}

#[test]
fn default_tree_and_node() {
    let t = xmltree::XMLTree::default();
    assert_eq!(t.version, "1.0");
    assert_eq!(t.encoding, "UTF-8");
    assert_eq!(name_of(&t.root), "root");
    assert!(t.root.children.is_empty());
    let n = XMLNode::default();
    assert_eq!(name_of(&n), "Default");
    assert!(attrs_of(&n).is_empty());
}

#[test]
fn error_messages() {
    assert_eq!(NodeError('x').message(), "Tag should begin and end with < and > characters. Got x");
    assert_eq!(ClosingTagError("a".to_string()).message(), "There should be an closing tag for tag a");
}
