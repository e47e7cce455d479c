use xml::basic::{read_memory, read_memory_with_url};

#[test]
fn test_test_simple_parse() {
    let xml = "<?xml version=\"1.0\"?> <test />".as_bytes();
    let doc = read_memory(xml).unwrap();
    let root = doc.get_root_element().unwrap();
    assert_eq!(root.name(), "test".to_string());
    assert!(root.children_iter().next().is_none());
}

#[test]
fn test_test_simple_fail() {
    let xml = "<?xml version=\"1.0\"> <test />".as_bytes();
    let doc = read_memory(xml);
    assert!(doc.is_none());
}

#[test]
fn test_test_subelements() {
    let xml = "<?xml version=\"1.0\"?> <test> <a> <b></b>aaa</a><c/></test>".as_bytes();
    let doc = read_memory(xml).unwrap();
    let root = doc.get_root_element().unwrap();
    assert_eq!(root.name(), "test".to_string());
    let mut iter = root.children_iter();
    {
        let cur = iter.next().unwrap().get_text().unwrap();
        assert_eq!(cur.content(), " ".to_string());
    }
    {
        let cur = iter.next().unwrap().get_element().unwrap();
        assert_eq!(cur.name(), "a".to_string());
        let mut iter = cur.children_iter();
        {
            let cur = iter.next().unwrap().get_text().unwrap();
            assert_eq!(cur.content(), " ".to_string());
        }
        {
            let cur = iter.next().unwrap().get_element().unwrap();
            assert_eq!(cur.name(), "b".to_string());
            assert!(cur.children_iter().next().is_none());
        }
        {
            let cur = iter.next().unwrap().get_text().unwrap();
            assert_eq!(cur.content(), "aaa".to_string());
        }
        assert!(iter.next().is_none());
    }
    {
        let cur = iter.next().unwrap().get_element().unwrap();
        assert_eq!(cur.name(), "c".to_string());
        assert!(cur.children_iter().next().is_none());
    }
    assert!(iter.next().is_none());
}

#[test]
fn plain_view_passes_over_cdata_and_comments() {
    let xml = "<r>a<![CDATA[b]]><!--c--><?p d?><e/>f</r>".as_bytes();
    let doc = read_memory_with_url(xml, Some("http://example.org/r.xml")).unwrap();
    let root = doc.get_root_element().unwrap();
    let mut iter = root.children_iter();
    let first = iter.next().unwrap();
    assert!(first.is_text());
    assert!(!first.is_element());
    assert!(first.get_element().is_none());
    assert_eq!(first.get_text().unwrap().content(), "a".to_string());
    let second = iter.next().unwrap();
    assert!(second.is_element());
    assert!(!second.is_text());
    assert!(second.get_text().is_none());
    assert_eq!(second.get_element().unwrap().name(), "e".to_string());
    let third = iter.next().unwrap();
    assert_eq!(third.get_text().unwrap().content(), "f".to_string());
    assert!(iter.next().is_none());
    assert!(iter.next().is_none());
}
