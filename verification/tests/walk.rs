use xml::{read_memory, xmlAttr, xmlDoc, xmlElementType, xmlNode, xmlNs, Document, NamedNode};
use xml::TextNode;

fn node(kind: xmlElementType, name: Option<&str>, content: Option<&str>) -> xmlNode {
    xmlNode {
        _type: kind,
        name: name.map(|s| s.as_bytes().to_vec()),
        children: Vec::new(),
        ns: None,
        content: content.map(|s| s.as_bytes().to_vec()),
        properties: Vec::new(),
        nsDef: Vec::new(),
    }
}

fn document(children: Vec<xmlNode>) -> Document {
    Document::from_tree(xmlDoc { children, version: None, encoding: None, url: None })
}

#[test]
fn copies_of_an_iterator_are_independent() {
    let doc = read_memory(b"<r><a/><b/><c/><d/></r>").unwrap();
    let root = doc.get_root_element().unwrap();
    let mut first = root.children_iter();
    assert_eq!(first.next().unwrap().get_element().unwrap().name(), "a");
    let mut copy = first.clone();
    assert_eq!(copy.next().unwrap().get_element().unwrap().name(), "b");
    assert_eq!(copy.next().unwrap().get_element().unwrap().name(), "c");
    assert_eq!(first.next().unwrap().get_element().unwrap().name(), "b");
    assert_eq!(copy.next().unwrap().get_element().unwrap().name(), "d");
    assert!(copy.next().is_none());
    assert_eq!(first.next().unwrap().get_element().unwrap().name(), "c");
    let mut late = first.clone();
    assert_eq!(first.next().unwrap().get_element().unwrap().name(), "d");
    assert!(first.next().is_none());
    assert_eq!(late.next().unwrap().get_element().unwrap().name(), "d");
    assert!(late.next().is_none());
}

#[test]
fn copies_of_an_attribute_iterator_are_independent() {
    let doc = read_memory(b"<r a='1' b='2' c='3'/>").unwrap();
    let root = doc.get_root_element().unwrap();
    let mut first = root.attribute_iter();
    assert_eq!(first.next().unwrap().name(), "a");
    let mut copy = first.clone();
    assert_eq!(copy.next().unwrap().name(), "b");
    assert_eq!(copy.next().unwrap().name(), "c");
    assert!(copy.next().is_none());
    assert_eq!(first.next().unwrap().name(), "b");
    let attr = first.next().unwrap();
    let mut values = attr.children_iter();
    let mut values_copy = values.clone();
    assert_eq!(values.next().unwrap().get_text().unwrap().content(), "3");
    assert!(values.next().is_none());
    assert_eq!(values_copy.next().unwrap().get_text().unwrap().content(), "3");
    assert!(values_copy.next().is_none());
}

#[test]
fn an_exhausted_iterator_stays_exhausted() {
    let doc = read_memory(b"<r><a/></r>").unwrap();
    let root = doc.get_root_element().unwrap();
    let mut iter = root.children_iter();
    assert!(iter.next().is_some());
    assert!(iter.next().is_none());
    assert!(iter.next().is_none());
    assert!(iter.next().is_none());
    let mut attrs = root.attribute_iter();
    assert!(attrs.next().is_none());
    assert!(attrs.next().is_none());
    let mut copy = iter.clone();
    assert!(copy.next().is_none());
}

#[test]
fn iterating_twice_from_the_same_element_gives_the_same() {
    let doc = read_memory(b"<r>x<a/>y</r>").unwrap();
    let root = doc.get_root_element().unwrap();
    for _ in 0..2 {
        let mut iter = root.children_iter();
        assert!(iter.next().unwrap().is_text());
        assert!(iter.next().unwrap().is_element());
        assert!(iter.next().unwrap().is_text());
        assert!(iter.next().is_none());
    }
}

#[test]
fn kinds_that_are_not_modelled_are_passed_over() {
    let mut root = node(xmlElementType::ElementNode, Some("r"), None);
    root.children.push(node(xmlElementType::EntityRefNode, Some("e"), None));
    root.children.push(node(xmlElementType::TextNode, None, Some("t")));
    root.children.push(node(xmlElementType::PINode, Some("p"), Some("q")));
    root.children.push(node(xmlElementType::DTDNode, Some("d"), None));
    root.children.push(node(xmlElementType::CDataSectionNode, None, Some("c")));
    root.children.push(node(xmlElementType::XIncludeStart, None, None));
    root.children.push(node(xmlElementType::CommentNode, None, Some("m")));
    root.children.push(node(xmlElementType::AttributeNode, Some("a"), None));
    root.children.push(node(xmlElementType::ElementNode, Some("x"), None));
    root.children.push(node(xmlElementType::EntityDecl, Some("z"), None));
    let doc = document(vec![root]);
    let root = doc.get_root_element().unwrap();
    let mut iter = root.children_iter();
    let t = iter.next().unwrap();
    assert!(t.is_text() && !t.is_element() && !t.is_cdata() && !t.is_comment());
    assert!(t.get_element().is_none() && t.get_cdata().is_none() && t.get_comment().is_none());
    assert_eq!(t.get_text().unwrap().content(), "t");
    let c = iter.next().unwrap();
    assert!(c.is_cdata() && !c.is_text() && !c.is_element() && !c.is_comment());
    assert!(c.get_text().is_none());
    assert_eq!(c.get_cdata().unwrap().content(), "c");
    let m = iter.next().unwrap();
    assert!(m.is_comment() && !m.is_text() && !m.is_element() && !m.is_cdata());
    assert_eq!(m.get_comment().unwrap().comment(), "m");
    let x = iter.next().unwrap();
    assert!(x.is_element() && !x.is_text() && !x.is_cdata() && !x.is_comment());
    assert_eq!(x.get_element().unwrap().name(), "x");
    assert!(iter.next().is_none());
    assert!(iter.next().is_none());
}

#[test]
fn only_unmodelled_children_give_an_empty_walk() {
    let mut root = node(xmlElementType::ElementNode, Some("r"), None);
    root.children.push(node(xmlElementType::PINode, Some("p"), None));
    root.children.push(node(xmlElementType::EntityRefNode, Some("e"), None));
    let doc = document(vec![root]);
    let root = doc.get_root_element().unwrap();
    let mut iter = root.children_iter();
    assert!(iter.next().is_none());
    assert!(iter.next().is_none());
}

#[test]
fn attribute_value_joins_its_text_children() {
    let mut root = node(xmlElementType::ElementNode, Some("r"), None);
    let attr = xmlAttr {
        name: Some(b"a".to_vec()),
        children: vec![
            node(xmlElementType::TextNode, None, Some("one ")),
            node(xmlElementType::EntityRefNode, Some("e"), None),
            node(xmlElementType::TextNode, None, None),
            node(xmlElementType::TextNode, None, Some("two")),
            node(xmlElementType::CommentNode, None, Some("no")),
        ],
        ns: Some(xmlNs { href: b"u".to_vec(), prefix: Some(b"p".to_vec()) }),
    };
    root.properties.push(attr);
    root.properties.push(xmlAttr { name: None, children: Vec::new(), ns: None });
    let doc = document(vec![root]);
    let root = doc.get_root_element().unwrap();
    let mut attrs = root.attribute_iter();
    let a = attrs.next().unwrap();
    assert_eq!(a.value(), "one two");
    assert_eq!(a.name(), "a");
    assert_eq!(a.namespace().unwrap().prefix(), Some("p".to_string()));
    assert_eq!(a.namespace().unwrap().href(), "u");
    let mut parts = a.children_iter();
    let first = parts.next().unwrap();
    assert!(first.is_text());
    assert_eq!(first.get_text().unwrap().content(), "one ");
    assert_eq!(parts.next().unwrap().get_text().unwrap().content(), "");
    assert_eq!(parts.next().unwrap().get_text().unwrap().content(), "two");
    assert!(parts.next().is_none());
    assert!(parts.next().is_none());
    let nameless = attrs.next().unwrap();
    assert_eq!(nameless.name(), "");
    assert_eq!(nameless.value(), "");
    assert!(nameless.namespace().is_none());
    assert!(nameless.children_iter().next().is_none());
    assert!(attrs.next().is_none());
    assert_eq!(
        String::from_utf8(doc.serialize()).unwrap(),
        "<?xml version=\"1.0\"?>\n<r p:a=\"one &e;two\" =\"\"/>\n"
    );
}

#[test]
fn a_tree_without_an_element_has_no_root() {
    let doc = document(Vec::new());
    assert!(doc.get_root_element().is_none());
    let doc = document(vec![
        node(xmlElementType::CommentNode, None, Some("c")),
        node(xmlElementType::PINode, Some("p"), None),
    ]);
    assert!(doc.get_root_element().is_none());
    assert_eq!(String::from_utf8(doc.serialize()).unwrap(), "<?xml version=\"1.0\"?>\n<!--c-->\n<?p?>\n");
}

#[test]
fn the_root_is_the_first_element() {
    let doc = document(vec![
        node(xmlElementType::CommentNode, None, Some("c")),
        node(xmlElementType::ElementNode, Some("first"), None),
        node(xmlElementType::ElementNode, Some("second"), None),
    ]);
    assert_eq!(doc.get_root_element().unwrap().name(), "first");
}

#[test]
fn absent_names_and_texts_read_as_empty() {
    let mut root = node(xmlElementType::ElementNode, None, None);
    root.children.push(node(xmlElementType::TextNode, None, None));
    root.children.push(node(xmlElementType::CDataSectionNode, None, None));
    root.children.push(node(xmlElementType::CommentNode, None, None));
    let doc = document(vec![root]);
    let root = doc.get_root_element().unwrap();
    assert_eq!(root.name(), "");
    let mut iter = root.children_iter();
    assert_eq!(iter.next().unwrap().get_text().unwrap().content(), "");
    assert_eq!(iter.next().unwrap().get_cdata().unwrap().content(), "");
    assert_eq!(iter.next().unwrap().get_comment().unwrap().comment(), "");
}

#[test]
fn bytes_that_are_no_text_read_with_replacement_characters() {
    let mut root = node(xmlElementType::ElementNode, None, None);
    root.name = Some(vec![0x61, 0xff, 0x62]);
    let doc = document(vec![root]);
    assert_eq!(doc.get_root_element().unwrap().name(), "a\u{fffd}b");
}

#[test]
fn handles_can_be_copied() {
    let doc = read_memory(b"<r><a/>t</r>").unwrap();
    let root = doc.get_root_element().unwrap();
    let again = root;
    assert_eq!(root.name(), again.name());
    let child = root.children_iter().next().unwrap();
    assert!(child.is_element());
    assert!(child.get_text().is_none());
    assert_eq!(child.get_element().unwrap().name(), "a");
}
