use xml::{AttributeChildrenIterator, BorrowedAttribute, BorrowedElement, Document};
use xml::{ElementAttributeIterator, ElementChildrenIterator, IoError, IoErrorKind, NamedNode};
use xml::{Reader, TextNode, Writer};

/// Reads from a byte slice; the end of the slice is the end of the input.
struct BufReader<'a> {
    buf: &'a [u8],
    pos: usize,
}

impl<'a> BufReader<'a> {
    fn new(buf: &'a [u8]) -> BufReader<'a> {
        BufReader { buf, pos: 0 }
    }
}

impl<'a> Reader for BufReader<'a> {
    fn read(&mut self, buf: &mut [u8]) -> Result<usize, IoError> {
        if self.pos == self.buf.len() {
            return Err(IoError { kind: IoErrorKind::EndOfFile, desc: "end of file", detail: None });
        }
        let write_len = std::cmp::min(buf.len(), self.buf.len() - self.pos);
        buf[..write_len].copy_from_slice(&self.buf[self.pos..self.pos + write_len]);
        self.pos += write_len;
        Ok(write_len)
    }
}

/// Writes into a growing vector and never fails.
struct MemWriter {
    buf: Vec<u8>,
}

impl Writer for MemWriter {
    fn write(&mut self, buf: &[u8]) -> Result<(), IoError> {
        self.buf.extend_from_slice(buf);
        Ok(())
    }

    fn flush(&mut self) -> Result<(), IoError> {
        Ok(())
    }
}

/// Writes into a buffer of fixed size; a write that does not fit fails and
/// writes nothing.
struct BufWriter {
    buf: Vec<u8>,
    pos: usize,
}

impl BufWriter {
    fn new(size: usize) -> BufWriter {
        BufWriter { buf: vec![0u8; size], pos: 0 }
    }

    fn tell(&self) -> usize {
        self.pos
    }
}

impl Writer for BufWriter {
    fn write(&mut self, buf: &[u8]) -> Result<(), IoError> {
        let max_size = self.buf.len();
        if self.pos >= max_size || self.pos + buf.len() > max_size {
            return Err(IoError {
                kind: IoErrorKind::OtherIoError,
                desc: "Trying to write past end of buffer",
                detail: None,
            });
        }
        self.buf[self.pos..self.pos + buf.len()].copy_from_slice(buf);
        self.pos += buf.len();
        Ok(())
    }

    fn flush(&mut self) -> Result<(), IoError> {
        Ok(())
    }
}

type Namespace<'a> = Option<(Option<&'a str>, &'a str)>;

fn check_namespace(prefix: Option<Option<String>>, namespace: Option<String>, expected_ns: Namespace) {
    assert_eq!(
        prefix.as_ref().map(|x| x.as_ref().map(|y| &y[..])),
        expected_ns.as_ref().map(|x| x.0.clone())
    );
    assert_eq!(namespace.as_ref().map(|x| &x[..]), expected_ns.as_ref().map(|x| x.1.clone()));
}

fn expect_attribute<'r>(
    iter: &mut ElementAttributeIterator<'r>,
    expected_name: &str,
    expected_ns: Namespace,
    expected_value: &str,
) -> BorrowedAttribute<'r> {
    let next = iter.next();
    assert!(next.is_some(), "Expected next attribute - there is none");
    let attr = next.unwrap();
    let name = attr.name();
    let value = attr.value();
    assert_eq!(&name[..], expected_name);
    let prefix = attr.namespace().map(|x| x.prefix());
    let namespace = attr.namespace().map(|x| x.href());
    check_namespace(prefix, namespace, expected_ns);
    assert_eq!(&value[..], expected_value);
    attr
}

fn expect_attribute_text(iter: &mut AttributeChildrenIterator, expected_text: &str) {
    let next = iter.next();
    assert!(next.is_some(), "Expected text but there is no further element");
    let text = next.unwrap().get_text();
    assert!(text.is_some(), "Extected text but got other children");
    let cur = text.unwrap();
    let content = cur.content();
    assert_eq!(&content[..], expected_text);
}

fn expect_cdata(iter: &mut ElementChildrenIterator, expected_text: &str) {
    let next = iter.next();
    assert!(next.is_some(), "Expected CDATA section but there is no further element");
    let text = next.unwrap().get_cdata();
    assert!(text.is_some(), "Extected CDATA section but got other children");
    let cur = text.unwrap();
    let content = cur.content();
    assert_eq!(&content[..], expected_text);
}

fn expect_comment(iter: &mut ElementChildrenIterator, expected_text: &str) {
    let next = iter.next();
    assert!(next.is_some(), "Expected comment but there is no further element");
    let text = next.unwrap().get_comment();
    assert!(text.is_some(), "Extected comment but got other children");
    let cur = text.unwrap();
    let comment = cur.comment();
    assert_eq!(&comment[..], expected_text);
}

fn check_elem(cur: &BorrowedElement, expected_name: &str, expected_ns: Namespace) {
    let name = cur.name();
    assert_eq!(&name[..], expected_name);
    let prefix = cur.namespace().map(|x| x.prefix());
    let namespace = cur.namespace().map(|x| x.href());
    check_namespace(prefix, namespace, expected_ns);
}

fn expect_elem<'r>(
    iter: &mut ElementChildrenIterator<'r>,
    expected_name: &str,
    expected_ns: Namespace,
) -> BorrowedElement<'r> {
    let next = iter.next();
    assert!(next.is_some(), "Expected element but there is no further element");
    let elem = next.unwrap().get_element();
    assert!(elem.is_some(), "Extected element but got other children");
    let cur = elem.unwrap();
    check_elem(&cur, expected_name, expected_ns);
    cur
}

fn expect_text(iter: &mut ElementChildrenIterator, expected_text: &str) {
    let next = iter.next();
    assert!(next.is_some(), "Expected text but there is no further element");
    let text = next.unwrap().get_text();
    assert!(text.is_some(), "Extected text but got other children");
    let cur = text.unwrap();
    let content = cur.content();
    assert_eq!(&content[..], expected_text);
}

fn no_attributes(elem: &BorrowedElement) {
    assert!(elem.attribute_iter().next().is_none(), "Unexpected attribute");
}

fn no_children(elem: &BorrowedElement) {
    assert!(elem.children_iter().next().is_none(), "Unexpected children");
}

fn read_memory(xml: &[u8]) -> Option<Document> {
    let mut reader = BufReader::new(xml);
    Document::read(&mut reader).unwrap()
}

#[test]
fn test_simple_fail() {
    let xml = "<?xml version=\"1.0\"> <test />".as_bytes();
    let doc = read_memory(xml);
    assert!(doc.is_none());
}

#[test]
fn test_simple_parse() {
    let xml = "<?xml version=\"1.0\"?> <test />".as_bytes();
    let doc = read_memory(xml).unwrap();
    let root = doc.get_root_element().unwrap();
    check_elem(&root, "test", None);
    no_attributes(&root);
    no_children(&root);
}

#[test]
fn test_subelements() {
    let xml = "<?xml version=\"1.0\"?> <test> <![CDATA[test]]><a> <b></b>aaa<!-- comment --></a><c/></test>".as_bytes();
    let doc = read_memory(xml).unwrap();
    let root = doc.get_root_element().unwrap();
    check_elem(&root, "test", None);
    no_attributes(&root);
    let mut iter = root.children_iter();
    expect_text(&mut iter, " ");
    expect_cdata(&mut iter, "test");
    {
        let a = expect_elem(&mut iter, "a", None);
        no_attributes(&a);
        let mut iter = a.children_iter();
        expect_text(&mut iter, " ");
        {
            let b = expect_elem(&mut iter, "b", None);
            no_attributes(&b);
            no_children(&b);
        }
        expect_text(&mut iter, "aaa");
        expect_comment(&mut iter, " comment ");
        assert!(iter.next().is_none(), "Unexpected children");
    }
    {
        let c = expect_elem(&mut iter, "c", None);
        no_attributes(&c);
        no_children(&c);
    }
    assert!(iter.next().is_none(), "Unexpected children");
}

#[test]
fn test_attributes() {
    let xml = "<?xml version=\"1.0\"?> <test a=\"b\"> <![CDATA[test]]><a> <b test=\"a\" test2=\"c\"></b>aaa<!-- comment --></a><c/></test>".as_bytes();
    let doc = read_memory(xml).unwrap();
    let root = doc.get_root_element().unwrap();
    check_elem(&root, "test", None);
    {
        let mut iter = root.attribute_iter();
        {
            let attr = expect_attribute(&mut iter, "a", None, "b");
            let mut iter = attr.children_iter();
            expect_attribute_text(&mut iter, "b");
            assert!(iter.next().is_none(), "Unexpected children");
        }
        assert!(iter.next().is_none(), "Unexpected attribute");
    }
    let mut iter = root.children_iter();
    expect_text(&mut iter, " ");
    expect_cdata(&mut iter, "test");
    {
        let a = expect_elem(&mut iter, "a", None);
        no_attributes(&a);
        let mut iter = a.children_iter();
        expect_text(&mut iter, " ");
        {
            let b = expect_elem(&mut iter, "b", None);
            {
                let mut iter = b.attribute_iter();
                {
                    let attr = expect_attribute(&mut iter, "test", None, "a");
                    let mut iter = attr.children_iter();
                    expect_attribute_text(&mut iter, "a");
                    assert!(iter.next().is_none(), "Unexpected children");
                }
                {
                    let attr = expect_attribute(&mut iter, "test2", None, "c");
                    let mut iter = attr.children_iter();
                    expect_attribute_text(&mut iter, "c");
                    assert!(iter.next().is_none(), "Unexpected children");
                }
                assert!(iter.next().is_none(), "Unexpected attribute");
            }
            no_children(&b);
        }
        expect_text(&mut iter, "aaa");
        expect_comment(&mut iter, " comment ");
        assert!(iter.next().is_none(), "Unexpected children");
    }
    {
        let c = expect_elem(&mut iter, "c", None);
        no_attributes(&c);
        no_children(&c);
    }
    assert!(iter.next().is_none(), "Unexpected children");
}

#[test]
fn test_ns() {
    let xml = "<?xml version=\"1.0\"?><h:html xmlns:h=\"http://www.w3.org/TR/html4/\"><head xmlns=\"http://www.w3.org/TR/html4/\"><meta /></head><h:body xml:lang=\"en\"><my:elem /></h:body></h:html>".as_bytes();
    let doc = read_memory(xml).unwrap();
    let root = doc.get_root_element().unwrap();
    let html4 = "http://www.w3.org/TR/html4/";
    check_elem(&root, "html", Some((Some("h"), html4)));
    no_attributes(&root);
    let mut iter = root.children_iter();
    {
        let head = expect_elem(&mut iter, "head", Some((None, html4)));
        no_attributes(&head);
        let mut iter = head.children_iter();
        {
            let meta = expect_elem(&mut iter, "meta", Some((None, html4)));
            no_attributes(&meta);
            no_children(&meta);
        }
        assert!(iter.next().is_none(), "Unexpected children");
    }
    {
        let body = expect_elem(&mut iter, "body", Some((Some("h"), html4)));
        {
            let mut iter = body.attribute_iter();
            {
                let attr = expect_attribute(
                    &mut iter,
                    "lang",
                    Some((Some("xml"), "http://www.w3.org/XML/1998/namespace")),
                    "en",
                );
                let mut iter = attr.children_iter();
                expect_attribute_text(&mut iter, "en");
                assert!(iter.next().is_none(), "Unexpected children");
            }
            assert!(iter.next().is_none(), "Unexpected attribute");
        }
        let mut iter = body.children_iter();
        {
            let elem = expect_elem(&mut iter, "my:elem", None);
            no_attributes(&elem);
            no_children(&elem);
        }
        assert!(iter.next().is_none(), "Unexpected children");
    }
    assert!(iter.next().is_none(), "Unexpected children");
}

#[test]
fn test_write() {
    let xml = "<?xml version=\"1.0\"?>\n<h:html xmlns:h=\"http://www.w3.org/TR/html4/\"><head xmlns=\"http://www.w3.org/TR/html4/\"><meta/></head><h:body xml:lang=\"en\"><my:elem/></h:body></h:html>\n".as_bytes();
    let doc = read_memory(xml).unwrap();
    let mut writer = MemWriter { buf: Vec::new() };
    doc.write(&mut writer).unwrap();
    assert_eq!(std::str::from_utf8(&writer.buf[..]), std::str::from_utf8(xml))
}

#[test]
fn test_read_condition() {
    struct MyReader<'t> {
        buf: &'t [u8],
        pos: usize,
        error: &'t IoError,
    }
    impl<'t> MyReader<'t> {
        fn new(buf: &'t [u8], error: &'t IoError) -> MyReader<'t> {
            MyReader { buf, pos: 0, error }
        }
        fn eof(&mut self) -> bool {
            self.pos == self.buf.len()
        }
    }
    impl<'t> Reader for MyReader<'t> {
        fn read(&mut self, buf: &mut [u8]) -> Result<usize, IoError> {
            if self.eof() {
                return Err(IoError {
                    kind: IoErrorKind::EndOfFile,
                    desc: "end of file",
                    detail: None,
                });
            }
            let write_len = std::cmp::min(buf.len(), self.buf.len() - self.pos);
            {
                let input = &self.buf[self.pos..self.pos + write_len];
                let output = &mut buf[0..write_len];
                assert_eq!(input.len(), output.len());
                output.copy_from_slice(input);
            }
            self.pos += write_len;
            assert!(self.pos <= self.buf.len());
            if self.pos == self.buf.len() {
                let error = IoError {
                    kind: self.error.kind,
                    desc: self.error.desc,
                    detail: self.error.detail.clone(),
                };
                return Err(error);
            }
            return Ok(write_len);
        }
    }
    let xml = "<?xml version=\"1.0\"?>\n<h:html xmlns:h=\"http://www.w3.org/TR/html4/\"><head xmlns=\"http://www.w3.org/TR/html4/\">".as_bytes();
    let error = IoError { kind: IoErrorKind::BrokenPipe, desc: "Test error", detail: None };
    let mut reader = MyReader::new(xml, &error);
    let mut thrown = false;
    match Document::read(&mut reader) {
        Err(err) => {
            assert_eq!(err.kind, error.kind);
            assert_eq!(err.desc, error.desc);
            assert_eq!(err.detail, error.detail);
            thrown = true;
        },
        Ok(_) => {},
    }
    assert!(thrown);
}

#[test]
fn test_write_condition() {
    let xml = "<?xml version=\"1.0\"?>\n<h:html xmlns:h=\"http://www.w3.org/TR/html4/\"><head xmlns=\"http://www.w3.org/TR/html4/\"><meta/></head><h:body xml:lang=\"en\"><my:elem/></h:body></h:html>\n".as_bytes();
    let doc = read_memory(xml).unwrap();
    let mut thrown = false;
    let mut writer = BufWriter::new(20);
    match doc.write(&mut writer) {
        Err(err) => {
            assert_eq!(err.kind, IoErrorKind::OtherIoError);
            thrown = true;
        },
        Ok(_) => {},
    }
    assert!(thrown);
    let size = writer.tell();
    assert_eq!(&writer.buf[..size], &xml[..size]);
}
