use xml::{read_memory, read_memory_with_url, Document, NamedNode, TextNode};

fn root_text(xml: &[u8]) -> Option<String> {
    let doc = read_memory(xml)?;
    let root = doc.get_root_element().unwrap();
    let mut iter = root.children_iter();
    let text = iter.next().unwrap().get_text().unwrap().content();
    assert!(iter.next().is_none());
    Some(text)
}

fn first_attribute_value(xml: &[u8]) -> Option<String> {
    let doc = read_memory(xml)?;
    let root = doc.get_root_element().unwrap();
    let value = root.attribute_iter().next().unwrap().value();
    Some(value)
}

fn written(xml: &[u8]) -> String {
    let doc = read_memory(xml).unwrap();
    String::from_utf8(doc.serialize()).unwrap()
}

#[test]
fn root_without_children() {
    let doc = read_memory(b"<test></test>").unwrap();
    let root = doc.get_root_element().unwrap();
    assert_eq!(root.name(), "test");
    assert!(root.children_iter().next().is_none());
    assert!(root.attribute_iter().next().is_none());
    assert!(root.namespace().is_none());
}

#[test]
fn document_without_declaration_keeps_no_version() {
    let doc = read_memory(b"<a/>").unwrap();
    assert!(doc.tree().version.is_none());
    assert!(doc.tree().encoding.is_none());
    assert!(doc.tree().url.is_none());
}

#[test]
fn declaration_is_kept() {
    let doc = read_memory(b"<?xml version='1.1' encoding=\"UTF-8\" standalone='yes' ?><a/>").unwrap();
    assert_eq!(doc.tree().version, Some(b"1.1".to_vec()));
    assert_eq!(doc.tree().encoding, Some(b"UTF-8".to_vec()));
}

#[test]
fn url_is_kept() {
    let doc = read_memory_with_url(b"<a/>", Some("http://example.org/a.xml")).unwrap();
    assert_eq!(doc.tree().url, Some("http://example.org/a.xml".to_string()));
    let doc = read_memory_with_url(b"<a/>", None).unwrap();
    assert_eq!(doc.tree().url, None);
}

#[test]
fn predefined_entities_are_replaced() {
    assert_eq!(root_text(b"<a>&lt;&gt;&amp;&apos;&quot;</a>").unwrap(), "<>&'\"");
    assert_eq!(root_text(b"<a>x &amp; y</a>").unwrap(), "x & y");
}

#[test]
fn character_references_are_replaced() {
    assert_eq!(root_text(b"<a>&#65;&#x42;&#x63;</a>").unwrap(), "ABc");
    assert_eq!(root_text(b"<a>&#xe9;</a>").unwrap(), "\u{e9}");
    assert_eq!(root_text(b"<a>&#x20AC;</a>").unwrap(), "\u{20ac}");
    assert_eq!(root_text(b"<a>&#128512;</a>").unwrap(), "\u{1f600}");
    assert_eq!(root_text(b"<a>&#x10FFFF;</a>").unwrap(), "\u{10ffff}");
    assert_eq!(root_text(b"<a>&#000000000000000065;</a>").unwrap(), "A");
    assert_eq!(root_text(b"<a>&#9;&#10;&#13;</a>").unwrap(), "\t\n\r");
}

#[test]
fn character_reference_bytes() {
    let doc = read_memory(b"<a>&#x7f;&#x80;&#x7ff;&#x800;&#xffff;&#x10000;</a>");
    assert!(doc.is_none());
    let doc = read_memory(b"<a>&#x7f;&#x80;&#x7ff;&#x800;&#xfffd;&#x10000;</a>").unwrap();
    let root = doc.tree().children[0].children[0].content.clone().unwrap();
    assert_eq!(
        root,
        vec![
            0x7f, 0xc2, 0x80, 0xdf, 0xbf, 0xe0, 0xa0, 0x80, 0xef, 0xbf, 0xbd, 0xf0, 0x90, 0x80, 0x80
        ]
    );
}

#[test]
fn bad_references_give_no_document() {
    assert!(read_memory(b"<a>&#0;</a>").is_none());
    assert!(read_memory(b"<a>&#8;</a>").is_none());
    assert!(read_memory(b"<a>&#xD800;</a>").is_none());
    assert!(read_memory(b"<a>&#xFFFE;</a>").is_none());
    assert!(read_memory(b"<a>&#x110000;</a>").is_none());
    assert!(read_memory(b"<a>&#99999999999999999999;</a>").is_none());
    assert!(read_memory(b"<a>&#;</a>").is_none());
    assert!(read_memory(b"<a>&#x;</a>").is_none());
    assert!(read_memory(b"<a>&#65</a>").is_none());
    assert!(read_memory(b"<a>&foo;</a>").is_none());
    assert!(read_memory(b"<a>&</a>").is_none());
    assert!(read_memory(b"<a b='&foo;'/>").is_none());
}

#[test]
fn attribute_values() {
    assert_eq!(first_attribute_value(b"<a b='c'/>").unwrap(), "c");
    assert_eq!(first_attribute_value(b"<a b=\"it's\"/>").unwrap(), "it's");
    assert_eq!(first_attribute_value(b"<a b = 'c' />").unwrap(), "c");
    assert_eq!(first_attribute_value(b"<a b=''/>").unwrap(), "");
    assert_eq!(first_attribute_value(b"<a b='x&lt;y&#x41;'/>").unwrap(), "x<yA");
    assert_eq!(first_attribute_value(b"<a b='p\tq\nr\rs'/>").unwrap(), "p q r s");
    assert_eq!(first_attribute_value(b"<a b='&#9;&#10;'/>").unwrap(), "\t\n");
    assert_eq!(first_attribute_value(b"<a b=']]>'/>").unwrap(), "]]>");
}

#[test]
fn malformed_attributes_give_no_document() {
    assert!(read_memory(b"<a b/>").is_none());
    assert!(read_memory(b"<a b=c/>").is_none());
    assert!(read_memory(b"<a b='c/>").is_none());
    assert!(read_memory(b"<a b='<'/>").is_none());
    assert!(read_memory(b"<a b='1'c='2'/>").is_none());
    assert!(read_memory(b"<a b='1' b='2'/>").is_none());
    assert!(read_memory(b"<a b='1' c='2' b='3'/>").is_none());
    assert!(read_memory(b"<a b='1' c='2'/>").is_some());
}

#[test]
fn malformed_documents_give_no_document() {
    assert!(read_memory(b"").is_none());
    assert!(read_memory(b"   ").is_none());
    assert!(read_memory(b"text").is_none());
    assert!(read_memory(b"<a>").is_none());
    assert!(read_memory(b"<a></b>").is_none());
    assert!(read_memory(b"<a></ab>").is_none());
    assert!(read_memory(b"<ab></a>").is_none());
    assert!(read_memory(b"<a></a").is_none());
    assert!(read_memory(b"<a/><b/>").is_none());
    assert!(read_memory(b"<a/>text").is_none());
    assert!(read_memory(b"< a/>").is_none());
    assert!(read_memory(b"<1a/>").is_none());
    assert!(read_memory(b"<a>]]></a>").is_none());
    assert!(read_memory(b"<a><!-- a -- b --></a>").is_none());
    assert!(read_memory(b"<a><!-- a </a>").is_none());
    assert!(read_memory(b"<a><![CDATA[ a </a>").is_none());
    assert!(read_memory(b"<a><?p </a>").is_none());
    assert!(read_memory(b"<a><?xml version='1.0'?></a>").is_none());
    assert!(read_memory(b"<a><?XmL?></a>").is_none());
    assert!(read_memory(b" <?xml version='1.0'?><a/>").is_none());
    assert!(read_memory(b"<?xml?><a/>").is_none());
    assert!(read_memory(b"<?xml encoding='UTF-8'?><a/>").is_none());
    assert!(read_memory(b"<?xml version=''?><a/>").is_none());
    assert!(read_memory(b"<?xml version='1 0'?><a/>").is_none());
    assert!(read_memory(b"<?xml version='1\"0'?><a/>").is_none());
    assert!(read_memory(b"<?xml version='1.0\"?><a/>").is_none());
    assert!(read_memory(b"<?xml version='1.0' encoding='a<b'?><a/>").is_none());
    assert!(read_memory(b"<?xml version='1.0'encoding='UTF-8'?><a/>").is_none());
    assert!(read_memory(b"<!DOCTYPE a><a/>").is_none());
    assert!(read_memory(b"<a>\xff</a>").is_none());
    assert!(read_memory(b"<a>\xc3</a>").is_none());
}

#[test]
fn end_tag_may_hold_white_space() {
    assert!(read_memory(b"<a></a >").is_some());
    assert!(read_memory(b"<a></a\n>").is_some());
    assert!(read_memory(b"<a ></a>").is_some());
    assert!(read_memory(b"<a></ a>").is_none());
}

#[test]
fn names_outside_ascii() {
    let doc = read_memory("<\u{e9}l\u{e9}ment attr\u{e9}='v'>\u{4e2d}</\u{e9}l\u{e9}ment>".as_bytes()).unwrap();
    let root = doc.get_root_element().unwrap();
    assert_eq!(root.name(), "\u{e9}l\u{e9}ment");
    assert_eq!(root.attribute_iter().next().unwrap().name(), "attr\u{e9}");
    assert_eq!(root.children_iter().next().unwrap().get_text().unwrap().content(), "\u{4e2d}");
}

#[test]
fn nesting_is_limited() {
    let mut ok = Vec::new();
    for _ in 0..256 {
        ok.extend_from_slice(b"<a>");
    }
    ok.extend_from_slice(b"<a/>");
    for _ in 0..256 {
        ok.extend_from_slice(b"</a>");
    }
    assert!(read_memory(&ok).is_some());
    let mut deep = Vec::new();
    for _ in 0..257 {
        deep.extend_from_slice(b"<a>");
    }
    deep.extend_from_slice(b"<a/>");
    for _ in 0..257 {
        deep.extend_from_slice(b"</a>");
    }
    assert!(read_memory(&deep).is_none());
    let mut deeper = Vec::new();
    for _ in 0..10000 {
        deeper.extend_from_slice(b"<a>");
    }
    assert!(read_memory(&deeper).is_none());
}

#[test]
fn top_level_comments_and_instructions_are_kept() {
    let doc = read_memory(b"<!-- a --><?p q?><r/><!-- b -->\n").unwrap();
    let kinds: Vec<xml::xmlElementType> = doc.tree().children.iter().map(|n| n._type).collect();
    assert_eq!(
        kinds,
        vec![
            xml::xmlElementType::CommentNode,
            xml::xmlElementType::PINode,
            xml::xmlElementType::ElementNode,
            xml::xmlElementType::CommentNode
        ]
    );
    assert_eq!(doc.get_root_element().unwrap().name(), "r");
}

#[test]
fn processing_instructions() {
    let doc = read_memory(b"<r><?p?><?q  some data ?><?xml-stylesheet href='a'?></r>").unwrap();
    let nodes = &doc.tree().children[0].children;
    assert_eq!(nodes.len(), 3);
    assert_eq!(nodes[0].name, Some(b"p".to_vec()));
    assert_eq!(nodes[0].content, None);
    assert_eq!(nodes[1].name, Some(b"q".to_vec()));
    assert_eq!(nodes[1].content, Some(b"some data ".to_vec()));
    assert_eq!(nodes[2].name, Some(b"xml-stylesheet".to_vec()));
    assert_eq!(nodes[2].content, Some(b"href='a'".to_vec()));
    assert!(doc.get_root_element().unwrap().children_iter().next().is_none());
}

#[test]
fn text_around_markup_is_kept_apart() {
    let doc = read_memory(b"<r>a<![CDATA[<b>&amp;]]>c<!--d-->e</r>").unwrap();
    let root = doc.get_root_element().unwrap();
    let mut iter = root.children_iter();
    assert_eq!(iter.next().unwrap().get_text().unwrap().content(), "a");
    assert_eq!(iter.next().unwrap().get_cdata().unwrap().content(), "<b>&amp;");
    assert_eq!(iter.next().unwrap().get_text().unwrap().content(), "c");
    assert_eq!(iter.next().unwrap().get_comment().unwrap().comment(), "d");
    assert_eq!(iter.next().unwrap().get_text().unwrap().content(), "e");
    assert!(iter.next().is_none());
}

#[test]
fn namespace_declarations_are_no_attributes() {
    let doc = read_memory(b"<a xmlns='u' xmlns:p='v' p:b='1' c='2'/>").unwrap();
    let root = doc.get_root_element().unwrap();
    let ns = root.namespace().unwrap();
    assert_eq!(ns.prefix(), None);
    assert_eq!(ns.href(), "u");
    let mut iter = root.attribute_iter();
    let b = iter.next().unwrap();
    assert_eq!(b.name(), "b");
    assert_eq!(b.namespace().unwrap().prefix(), Some("p".to_string()));
    assert_eq!(b.namespace().unwrap().href(), "v");
    let c = iter.next().unwrap();
    assert_eq!(c.name(), "c");
    assert!(c.namespace().is_none());
    assert!(iter.next().is_none());
    assert_eq!(doc.tree().children[0].nsDef.len(), 2);
}

#[test]
fn inner_declarations_shadow_outer_ones() {
    let doc = read_memory(b"<p:a xmlns:p='outer'><p:b xmlns:p='inner'><p:c/></p:b><p:d/></p:a>").unwrap();
    let a = doc.get_root_element().unwrap();
    assert_eq!(a.namespace().unwrap().href(), "outer");
    let mut iter = a.children_iter();
    let b = iter.next().unwrap().get_element().unwrap();
    assert_eq!(b.name(), "b");
    assert_eq!(b.namespace().unwrap().href(), "inner");
    let c = b.children_iter().next().unwrap().get_element().unwrap();
    assert_eq!(c.namespace().unwrap().href(), "inner");
    let d = iter.next().unwrap().get_element().unwrap();
    assert_eq!(d.namespace().unwrap().href(), "outer");
}

#[test]
fn empty_default_namespace_is_none() {
    let doc = read_memory(b"<a xmlns='u'><b xmlns=''><c/></b></a>").unwrap();
    let a = doc.get_root_element().unwrap();
    assert_eq!(a.namespace().unwrap().href(), "u");
    let b = a.children_iter().next().unwrap().get_element().unwrap();
    assert!(b.namespace().is_none());
    let c = b.children_iter().next().unwrap().get_element().unwrap();
    assert!(c.namespace().is_none());
}

#[test]
fn unbound_prefix_stays_in_the_name() {
    let doc = read_memory(b"<q:a q:b='1' :c='2' d:='3'/>").unwrap();
    let a = doc.get_root_element().unwrap();
    assert_eq!(a.name(), "q:a");
    assert!(a.namespace().is_none());
    let mut iter = a.attribute_iter();
    assert_eq!(iter.next().unwrap().name(), "q:b");
    assert_eq!(iter.next().unwrap().name(), ":c");
    assert_eq!(iter.next().unwrap().name(), "d:");
}

#[test]
fn namespace_propagation() {
    let doc = read_memory(b"<h:html xmlns:h=\"URI\"><head xmlns=\"URI\"><meta/></head></h:html>").unwrap();
    let root = doc.get_root_element().unwrap();
    assert_eq!(root.namespace().unwrap().prefix(), Some("h".to_string()));
    assert_eq!(root.namespace().unwrap().href(), "URI");
    let head = root.children_iter().next().unwrap().get_element().unwrap();
    assert_eq!(head.name(), "head");
    assert_eq!(head.namespace().unwrap().prefix(), None);
    assert_eq!(head.namespace().unwrap().href(), "URI");
}

#[test]
fn writing_a_declaration() {
    assert_eq!(written(b"<a/>"), "<?xml version=\"1.0\"?>\n<a/>\n");
    assert_eq!(written(b"<?xml version='1.1'?><a/>"), "<?xml version=\"1.1\"?>\n<a/>\n");
    assert_eq!(
        written(b"<?xml version='1.0' encoding='UTF-8'?><a/>"),
        "<?xml version=\"1.0\" encoding=\"UTF-8\"?>\n<a/>\n"
    );
}

#[test]
fn writing_escapes_markup() {
    assert_eq!(
        written(b"<a>&lt;&gt;&amp;&apos;&quot;&#13;&#10;&#9;</a>"),
        "<?xml version=\"1.0\"?>\n<a>&lt;&gt;&amp;'\"&#13;\n\t</a>\n"
    );
    assert_eq!(
        written(b"<a b='&lt;&gt;&amp;&apos;&quot;&#13;&#10;&#9; '/>"),
        "<?xml version=\"1.0\"?>\n<a b=\"&lt;&gt;&amp;'&quot;&#13;&#10;&#9; \"/>\n"
    );
    assert_eq!(
        written(b"<a xmlns:p='&amp;&quot;'/>"),
        "<?xml version=\"1.0\"?>\n<a xmlns:p=\"&amp;&quot;\"/>\n"
    );
}

#[test]
fn writing_every_kind_of_node() {
    assert_eq!(
        written(b"<!--x--><?p?><r a='1'>t<![CDATA[<c>]]><!--d--><?q r?><e></e><f>g</f></r><?s t?>"),
        "<?xml version=\"1.0\"?>\n<!--x-->\n<?p?>\n<r a=\"1\">t<![CDATA[<c>]]><!--d--><?q r?><e/><f>g</f></r>\n<?s t?>\n"
    );
}

#[test]
fn writing_and_reading_again_gives_the_same_bytes() {
    let first = written(b"<?xml version='1.0'?><h:a xmlns:h='u' xmlns='v' h:b='&lt;1&#10;2'> x &amp; y <c d=\"'\"/><!-- e --><![CDATA[]]></h:a>");
    let second = written(first.as_bytes());
    assert_eq!(first, second);
}

#[test]
fn write_gives_what_serialize_gives() {
    struct Sink {
        bytes: Vec<u8>,
        writes: usize,
        flushes: usize,
    }
    impl xml::Writer for Sink {
        fn write(&mut self, buf: &[u8]) -> Result<(), xml::IoError> {
            assert!(!buf.is_empty());
            assert!(buf.len() <= 4000);
            self.bytes.extend_from_slice(buf);
            self.writes += 1;
            Ok(())
        }
        fn flush(&mut self) -> Result<(), xml::IoError> {
            self.flushes += 1;
            Ok(())
        }
    }
    let mut input = Vec::new();
    input.extend_from_slice(b"<r>");
    for _ in 0..1000 {
        input.extend_from_slice(b"<item>text</item>");
    }
    input.extend_from_slice(b"</r>");
    let doc: Document = read_memory(&input).unwrap();
    let bytes = doc.serialize();
    let mut sink = Sink { bytes: Vec::new(), writes: 0, flushes: 0 };
    doc.write(&mut sink).unwrap();
    assert_eq!(sink.bytes, bytes);
    assert_eq!(sink.writes, (bytes.len() + 3999) / 4000);
    assert_eq!(sink.flushes, 1);
}

#[test]
fn what_is_written_reads_back_as_it_was() {
    let inputs: [&[u8]; 8] = [
        b"<a/>",
        b"<?xml version='1.1' encoding='UTF-8'?><!--c--><?p q?><r/><!--d-->",
        b"<r a='1' xmlns:p='u' p:b='&lt;&#10;&quot;' xmlns='v'>t&amp;<p:c/><d></d>]<![CDATA[x]]></r>",
        b"<r> <a> <b></b>aaa</a><c/></r>",
        b"<q:r q:a='1'>x&#13;y&gt;z<?pi?><?pj  data ?><!----></q:r>",
        b"<h:html xmlns:h=\"URI\"><head xmlns=\"URI\"><meta/></head><h:body xml:lang=\"en\"/></h:html>",
        b"<a b=' c  d '>]]&gt;</a>\n\n",
        "<\u{e9} \u{e8}='\u{4e2d}'>\u{1f600}&#x1F600;</\u{e9}>".as_bytes(),
    ];
    for input in inputs.iter() {
        let first = read_memory(input).unwrap();
        let bytes = first.serialize();
        let second = read_memory(&bytes).unwrap();
        assert_eq!(first.tree().children, second.tree().children);
        assert_eq!(first.tree().encoding, second.tree().encoding);
        let version = first.tree().version.clone().unwrap_or(b"1.0".to_vec());
        assert_eq!(second.tree().version, Some(version));
        assert_eq!(second.serialize(), bytes);
    }
}
