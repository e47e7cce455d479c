//! Documents: the owners of parsed trees.

use vstd::prelude::*;
use vstd::utf8::valid_utf8;
use crate::dom::BorrowedElement;
use crate::grammar::{parse_comment, parse_document, parse_element, parse_misc, parse_pi};
use crate::grammar::{parse_prolog, root_scope, MAX_DEPTH};
use crate::io::{accepted, failure_after, read_failure, read_result, received, sent, write_result};
use crate::io::{IoError, ReadContext, ReadEvent, Reader, WriteContext, WriteEvent, Writer, FAULT};
use crate::parse::document;
use crate::serialize::{serialize, write_document};
use crate::syntax::{has_prefix, kw_comment_open, kw_pi_open, push_all, skip_spaces};
use crate::text::is_utf8;
use crate::tree::{node_views, xmlDoc, xmlElementType, DocView, NodeView};

verus! {

/// How many bytes the engine asks a reader for at a time.
pub const INPUT_CHUNK: usize = 4000;

/// How many bytes the engine hands a writer at a time, at most.
pub const OUTPUT_CHUNK: usize = 4000;

/// An XML document.
///
/// It owns its tree: elements, text and iterators borrow from it, and the
/// tree is released, once, when the document is dropped.
#[derive(Debug)]
pub struct Document {
    doc: xmlDoc,
}

impl View for Document {
    type V = DocView;

    closed spec fn view(&self) -> DocView {
        self.doc@
    }
}

/// The characters of an optional string.
pub open spec fn opt_str(o: Option<&str>) -> Option<Seq<char>> {
    match o {
        Some(s) => Some(s@),
        None => None,
    }
}

/// The value of an optional document.
pub open spec fn opt_doc(o: Option<Document>) -> Option<DocView> {
    match o {
        Some(d) => Some(d@),
        None => None,
    }
}

/// The document that the bytes stand for when they are taken to come from
/// `url`, or `None`: where they are not UTF-8, or not a well-formed document.
pub open spec fn document_of(bytes: Seq<u8>, url: Option<Seq<char>>) -> Option<DocView> {
    if !valid_utf8(bytes) {
        None
    } else {
        match parse_document(bytes) {
            Some(p) => Some(
                DocView {
                    version: p.prolog.version,
                    encoding: p.prolog.encoding,
                    url,
                    children: p.children,
                },
            ),
            None => None,
        }
    }
}

/// The first of the nodes that is an element.
pub open spec fn first_element(s: Seq<NodeView>) -> Option<NodeView>
    decreases s.len(),
{
    if s.len() == 0 {
        None
    } else if s[0].kind == xmlElementType::ElementNode {
        Some(s[0])
    } else {
        first_element(s.drop_first())
    }
}

/// What the engine makes of a stream: nothing where reading failed or the
/// input is longer than memory can hold, else the document that the bytes it
/// was given stand for.
pub open spec fn stream_document(log: Seq<ReadEvent>) -> Option<DocView> {
    if log.len() == 0 || read_failure(log.last().outcome) is Some || received(log).len()
        > usize::MAX {
        None
    } else {
        document_of(received(log), None)
    }
}

/// Whether a transcript is one of the engine pulling a whole input: every
/// call but the last gave it bytes, and after the last it stopped, because
/// there were no more bytes, because the reader failed, or because the input
/// had grown longer than memory can hold.
pub open spec fn read_transcript(log: Seq<ReadEvent>) -> bool {
    &&& log.len() >= 1
    &&& forall|i: int|
        0 <= i < log.len() - 1 ==> (#[trigger] log[i]).data.len() > 0 && read_failure(
            log[i].outcome,
        ) is None
    &&& log.last().data.len() == 0 || received(log).len() > usize::MAX
}

/// What reading a document gives for a transcript: the reader's failure if it
/// failed, else what the engine makes of the bytes.
pub open spec fn read_outcome(log: Seq<ReadEvent>) -> Result<Option<DocView>, IoError> {
    read_result(read_failure(log.last().outcome), stream_document(log))
}

/// The value of the result of reading a document.
pub open spec fn read_view(r: Result<Option<Document>, IoError>) -> Result<
    Option<DocView>,
    IoError,
> {
    match r {
        Ok(d) => Ok(opt_doc(d)),
        Err(e) => Err(e),
    }
}

/// Whether a transcript is one of the engine writing `bytes` out: spans of
/// `bytes`, in order and none of them empty, until one fails or all are
/// written, and then one flush.
pub open spec fn write_transcript(log: Seq<WriteEvent>, bytes: Seq<u8>) -> bool {
    &&& log.len() >= 1
    &&& log.last() is Flush
    &&& forall|i: int|
        0 <= i < log.len() - 1 ==> (#[trigger] log[i]) is Write && 0 < log[i].data().len()
            <= OUTPUT_CHUNK
    &&& forall|i: int| 0 <= i < log.len() - 2 ==> (#[trigger] log[i]).outcome() is Ok
    &&& sent(log).len() <= bytes.len()
    &&& sent(log) == bytes.take(sent(log).len() as int)
    &&& (log.len() >= 2 && log[log.len() - 2].outcome() is Err) || sent(log) == bytes
}

/// The bytes received grow by those of each call.
pub proof fn lemma_received_push(log: Seq<ReadEvent>, event: ReadEvent)
    ensures
        received(log.push(event)) == received(log) + event.data,
{
    assert(log.push(event).drop_last() =~= log);
}

/// What was sent, what was taken, and the failure slot change with each call
/// as the call says.
pub proof fn lemma_sent_push(log: Seq<WriteEvent>, event: WriteEvent)
    ensures
        sent(log.push(event)) == sent(log) + event.data(),
        accepted(log.push(event)) == if event.outcome() is Ok {
            accepted(log) + event.data()
        } else {
            accepted(log)
        },
        forall|slot: Option<IoError>|
            failure_after(slot, log.push(event)) == crate::io::write_failure(
                #[trigger] failure_after(slot, log),
                event.outcome(),
            ),
{
    assert(log.push(event).drop_last() =~= log);
}

/// Comments and processing instructions are no elements.
pub proof fn lemma_misc_holds_no_element(s: Seq<u8>, i: int)
    ensures
        parse_misc(s, i) matches Some((nodes, _)) ==> forall|k: int|
            0 <= k < nodes.len() ==> (#[trigger] nodes[k]).kind != xmlElementType::ElementNode,
    decreases s.len() - i,
{
    let j = skip_spaces(s, i);
    if has_prefix(s, j, kw_comment_open()) {
        match parse_comment(s, j) {
            Some((node, k)) => {
                if i < k <= s.len() {
                    lemma_misc_holds_no_element(s, k);
                }
            },
            None => {},
        }
    } else if has_prefix(s, j, kw_pi_open()) {
        match parse_pi(s, j) {
            Some((node, k)) => {
                if i < k <= s.len() {
                    lemma_misc_holds_no_element(s, k);
                }
            },
            None => {},
        }
    }
}

/// The first element of a list is the one that only nodes of other kinds
/// stand before.
pub proof fn lemma_first_element_behind(
    before: Seq<NodeView>,
    root: NodeView,
    after: Seq<NodeView>,
)
    requires
        forall|k: int|
            0 <= k < before.len() ==> (#[trigger] before[k]).kind != xmlElementType::ElementNode,
        root.kind == xmlElementType::ElementNode,
    ensures
        first_element(before + seq![root] + after) == Some(root),
    decreases before.len(),
{
    let all = before + seq![root] + after;
    if before.len() == 0 {
        assert(all[0] == root);
    } else {
        assert(all[0] == before[0]);
        assert(all.drop_first() =~= before.drop_first() + seq![root] + after);
        assert forall|k: int| 0 <= k < before.drop_first().len() implies (
        #[trigger] before.drop_first()[k]).kind != xmlElementType::ElementNode by {
            assert(before.drop_first()[k] == before[k + 1]);
        }
        lemma_first_element_behind(before.drop_first(), root, after);
    }
}

/// A document that was read has a root: every well-formed document holds
/// exactly one top-level element, and that is what asking for its root
/// element finds.
pub proof fn lemma_read_document_has_root(bytes: Seq<u8>, url: Option<Seq<char>>)
    ensures
        document_of(bytes, url) matches Some(d) ==> {
            &&& first_element(d.children) matches Some(root)
            &&& root.kind == xmlElementType::ElementNode
            &&& d.children.filter(|n: NodeView| n.kind == xmlElementType::ElementNode) == seq![
                root,
            ]
        },
{
    if let Some(d) = document_of(bytes, url) {
        let (prolog, i) = parse_prolog(bytes)->0;
        let (before, j) = parse_misc(bytes, i)->0;
        let (root, k) = parse_element(bytes, j, root_scope(), MAX_DEPTH as nat)->0;
        let (after, end) = parse_misc(bytes, k)->0;
        lemma_misc_holds_no_element(bytes, i);
        lemma_misc_holds_no_element(bytes, k);
        lemma_first_element_behind(before, root, after);
        let keep = |n: NodeView| n.kind == xmlElementType::ElementNode;
        assert(d.children == before + seq![root] + after);
        Seq::filter_distributes_over_add(before + seq![root], after, keep);
        Seq::filter_distributes_over_add(before, seq![root], keep);
        lemma_filter_none(before, keep);
        lemma_filter_none(after, keep);
        assert(seq![root].filter(keep) =~= seq![root]) by {
            reveal(Seq::filter);
            assert(seq![root].drop_last() =~= Seq::<NodeView>::empty());
        }
        assert(d.children.filter(keep) =~= seq![root]);
    }
}

/// Filtering a list of which nothing is to be kept leaves nothing.
pub proof fn lemma_filter_none<A>(s: Seq<A>, keep: spec_fn(A) -> bool)
    requires
        forall|k: int| 0 <= k < s.len() ==> !keep(#[trigger] s[k]),
    ensures
        s.filter(keep) == Seq::<A>::empty(),
    decreases s.len(),
{
    reveal(Seq::filter);
    if s.len() > 0 {
        assert forall|k: int| 0 <= k < s.drop_last().len() implies !keep(
            #[trigger] s.drop_last()[k],
        ) by {
            assert(s.drop_last()[k] == s[k]);
        }
        lemma_filter_none(s.drop_last(), keep);
    }
}

/// While every call succeeds, the writer takes all that it is sent and no
/// failure is recorded.
pub proof fn lemma_all_accepted(log: Seq<WriteEvent>)
    requires
        forall|i: int| 0 <= i < log.len() ==> (#[trigger] log[i]).outcome() is Ok,
    ensures
        accepted(log) == sent(log),
        failure_after(None, log) is None,
    decreases log.len(),
{
    if log.len() > 0 {
        let front = log.drop_last();
        assert forall|i: int| 0 <= i < front.len() implies (#[trigger] front[i]).outcome() is Ok by {
            assert(front[i] == log[i]);
        }
        lemma_all_accepted(front);
    }
}

/// A failure of the reader surfaces: when the reader fails with anything but
/// the end of its input, reading gives exactly that failure, whatever bytes
/// came before it and whatever they would have parsed to.
pub proof fn lemma_read_failure_surfaces(log: Seq<ReadEvent>, e: IoError)
    requires
        log.len() >= 1,
        log.last().outcome == Err::<usize, IoError>(e),
        e.kind != crate::io::IoErrorKind::EndOfFile,
    ensures
        read_outcome(log) == Err::<Option<DocView>, IoError>(e),
{
}

/// The end of the input is no failure: when the last answer of the reader is
/// the end of its input, reading gives what the bytes read stand for.
pub proof fn lemma_end_of_input_is_no_failure(log: Seq<ReadEvent>, e: IoError)
    requires
        log.len() >= 1,
        log.last().outcome == Err::<usize, IoError>(e),
        e.kind == crate::io::IoErrorKind::EndOfFile,
    ensures
        read_outcome(log) == Ok::<Option<DocView>, IoError>(stream_document(log)),
        received(log).len() <= usize::MAX ==> stream_document(log) == document_of(
            received(log),
            None,
        ),
{
}

/// A failure of the writer surfaces: when a write fails and the closing flush
/// succeeds, serializing gives exactly the failure of that write. Nothing was
/// written after it, and what the writer took is what was sent before it: the
/// beginning of the document's bytes, and no byte more.
pub proof fn lemma_write_failure_surfaces(log: Seq<WriteEvent>, bytes: Seq<u8>, e: IoError)
    requires
        write_transcript(log, bytes),
        log.len() >= 2,
        log[log.len() - 2].outcome() == Err::<(), IoError>(e),
        log.last().outcome() is Ok,
    ensures
        write_result(failure_after(None, log)) == Err::<(), IoError>(e),
        accepted(log) == sent(log.take(log.len() - 2)),
        accepted(log).len() <= bytes.len(),
        accepted(log) == bytes.take(accepted(log).len() as int),
{
    let writes = log.drop_last();
    let before = writes.drop_last();
    assert(before =~= log.take(log.len() - 2));
    assert(writes.last() == log[log.len() - 2]);
    assert forall|i: int| 0 <= i < before.len() implies (#[trigger] before[i]).outcome() is Ok by {
        assert(before[i] == log[i]);
    }
    lemma_all_accepted(before);
    assert(failure_after(None, writes) == crate::io::write_failure(
        failure_after(None, before),
        writes.last().outcome(),
    ));
    assert(failure_after(None, log) == crate::io::write_failure(
        failure_after(None, writes),
        log.last().outcome(),
    ));
    assert(sent(log) == sent(writes) + log.last().data());
    assert(log.last().data() =~= Seq::<u8>::empty());
    assert(sent(writes) == sent(before) + writes.last().data());
    assert(sent(log) =~= sent(before) + writes.last().data());
    assert(accepted(writes) == accepted(before));
    assert(accepted(log) == accepted(writes) + log.last().data());
    assert(accepted(log) =~= accepted(before));
    assert(sent(before) =~= sent(log).take(sent(before).len() as int));
    assert(sent(before) =~= bytes.take(sent(before).len() as int));
}

/// While the writer does not fail, it is sent the whole document, and
/// serializing succeeds.
pub proof fn lemma_write_succeeds(log: Seq<WriteEvent>, bytes: Seq<u8>)
    requires
        write_transcript(log, bytes),
        forall|i: int| 0 <= i < log.len() ==> (#[trigger] log[i]).outcome() is Ok,
    ensures
        write_result(failure_after(None, log)) == Ok::<(), IoError>(()),
        accepted(log) == bytes,
{
    lemma_all_accepted(log);
}

/// The tree that the bytes stand for.
fn build(buffer: &[u8], url: Option<String>) -> (r: Option<Document>)
    ensures
        opt_doc(r) == document_of(
            buffer@,
            match url {
                Some(u) => Some(u@),
                None => None,
            },
        ),
{
    if !is_utf8(buffer) {
        return None;
    }
    match document(buffer) {
        Some(parsed) => {
            let tree = xmlDoc {
                children: parsed.children,
                version: parsed.declaration.version,
                encoding: parsed.declaration.encoding,
                url,
            };
            Some(Document { doc: tree })
        },
        None => None,
    }
}

/// Reads the buffer treating it as if it came from url.
///
/// It returns the document if buffer contained valid XML.
pub fn read_memory_with_url(buffer: &[u8], url: Option<&str>) -> (r: Option<Document>)
    ensures
        opt_doc(r) == document_of(buffer@, opt_str(url)),
{
    let owned = match url {
        Some(u) => Some(u.to_owned()),
        None => None,
    };
    build(buffer, owned)
}

/// Reads the buffer and return the document if it contains valid XML.
pub fn read_memory(buffer: &[u8]) -> (r: Option<Document>)
    ensures
        opt_doc(r) == document_of(buffer@, None),
{
    read_memory_with_url(buffer, None)
}

impl Document {
    /// A document that owns the given tree.
    pub fn from_tree(tree: xmlDoc) -> (d: Document)
        ensures
            d@ == tree@,
    {
        Document { doc: tree }
    }

    /// The tree that the document owns.
    pub fn tree(&self) -> (tree: &xmlDoc)
        ensures
            tree@ == self@,
    {
        &self.doc
    }

    /// Find the root element, if it exists: the first top-level node that is
    /// an element.
    pub fn get_root_element<'r>(&'r self) -> (r: Option<BorrowedElement<'r>>)
        ensures
            r is Some <==> first_element(self@.children) is Some,
            r matches Some(e) ==> Some(e@) == first_element(self@.children),
    {
        let ghost all = node_views(self.doc.children@);
        let mut k: usize = 0;
        proof {
            assert(all.skip(0) =~= all);
        }
        while k < self.doc.children.len()
            invariant
                k <= self.doc.children@.len(),
                all == node_views(self.doc.children@),
                first_element(all) == first_element(all.skip(k as int)),
            decreases self.doc.children@.len() - k,
        {
            let node = &self.doc.children[k];
            proof {
                assert(all.skip(k as int)[0] == node@);
                assert(all.skip(k as int).drop_first() =~= all.skip(k + 1));
            }
            match node._type {
                xmlElementType::ElementNode => {
                    return Some(BorrowedElement::new(node));
                },
                _ => {},
            }
            k = k + 1;
        }
        None
    }

    /// Lets the engine pull a whole input from the reader and parse it, and
    /// hands back the adapter it used together with what the engine made of
    /// the input.
    ///
    /// The reader is asked for bytes until it gives none or fails. A failure
    /// other than the end of the input is left in the adapter's failure slot,
    /// and the engine then produces nothing.
    pub fn read_io<R: Reader>(reader: &mut R) -> (r: (ReadContext, Option<Document>))
        ensures
            read_transcript(r.0.log()),
            r.0.pending() == read_failure(r.0.log().last().outcome),
            opt_doc(r.1) == stream_document(r.0.log()),
    {
        let mut ctx = ReadContext::new();
        let mut input: Vec<u8> = Vec::new();
        loop
            invariant
                ctx.pending() is None,
                input@ == received(ctx.log()),
                forall|i: int|
                    0 <= i < ctx.log().len() ==> (#[trigger] ctx.log()[i]).data.len() > 0
                        && read_failure(ctx.log()[i].outcome) is None,
            decreases usize::MAX - input@.len(),
        {
            let mut buf: Vec<u8> = vec![0u8; INPUT_CHUNK];
            let ghost before = ctx.log();
            let report = ctx.ioread(reader, &mut buf);
            proof {
                assert(ctx.log() =~= before.push(ctx.log().last()));
                lemma_received_push(before, ctx.log().last());
            }
            if report <= 0 {
                ctx.ioclose();
                let doc = if ctx.has_failed() {
                    None
                } else {
                    proof {
                        assert(received(ctx.log()) =~= input@);
                    }
                    build(input.as_slice(), None)
                };
                return (ctx, doc);
            }
            let n = report as usize;
            if n > usize::MAX - input.len() {
                ctx.ioclose();
                return (ctx, None);
            }
            let chunk = buf.as_slice();
            push_all(&mut input, &chunk[0..n]);
            proof {
                assert(buf@.take(n as int) =~= buf@.subrange(0, n as int));
            }
        }
    }

    /// Parse the document from reader.
    ///
    /// A failure of the reader other than the end of its input is handed
    /// back as it was raised, whatever the engine made of the bytes that came
    /// before it. Otherwise the result is the document that all the bytes
    /// read stand for, or nothing where they are malformed.
    pub fn read<R: Reader>(reader: &mut R) -> (r: Result<Option<Document>, IoError>)
        ensures
            exists|log: Seq<ReadEvent>| read_transcript(log) && read_view(r) == read_outcome(log),
    {
        let (ctx, doc) = Document::read_io(reader);
        let ghost log = ctx.log();
        let r = ctx.finish(doc);
        proof {
            assert(read_transcript(log) && read_view(r) == read_outcome(log));
        }
        r
    }

    /// The bytes that the document is written as.
    pub fn serialize(&self) -> (out: Vec<u8>)
        ensures
            out@ == write_document(self@),
    {
        serialize(&self.doc)
    }

    /// Lets the engine write the document out to the writer, and hands back
    /// the adapter it used.
    ///
    /// The bytes of the document go to the writer span by span until all are
    /// written or a write fails; after a failed write nothing more is
    /// written. The writer is then flushed. Failures are left in the
    /// adapter's failure slot.
    pub fn write_io<W: Writer>(&self, writer: &mut W) -> (ctx: WriteContext)
        ensures
            write_transcript(ctx.log(), write_document(self@)),
            ctx.pending() == failure_after(None, ctx.log()),
    {
        let bytes = serialize(&self.doc);
        let mut ctx = WriteContext::new();
        let mut off: usize = 0;
        proof {
            assert(sent(ctx.log()) =~= bytes@.take(0));
        }
        while off < bytes.len()
            invariant
                off <= bytes@.len(),
                bytes@ == write_document(self@),
                ctx.pending() is None,
                failure_after(None, ctx.log()) is None,
                sent(ctx.log()) == bytes@.take(off as int),
                forall|i: int|
                    0 <= i < ctx.log().len() ==> (#[trigger] ctx.log()[i]) is Write && 0
                        < ctx.log()[i].data().len() <= OUTPUT_CHUNK && ctx.log()[i].outcome() is Ok,
            decreases bytes@.len() - off,
        {
            let end: usize = if bytes.len() - off > OUTPUT_CHUNK {
                off + OUTPUT_CHUNK
            } else {
                bytes.len()
            };
            let ghost before = ctx.log();
            let report = ctx.iowrite(writer, &bytes.as_slice()[off..end]);
            proof {
                assert(ctx.log() =~= before.push(ctx.log().last()));
                lemma_sent_push(before, ctx.log().last());
                assert(bytes@.take(off as int) + bytes@.subrange(off as int, end as int)
                    =~= bytes@.take(end as int));
            }
            if report == FAULT {
                let ghost writes = ctx.log();
                ctx.ioclose(writer);
                proof {
                    assert(ctx.log() =~= writes.push(ctx.log().last()));
                    lemma_sent_push(writes, ctx.log().last());
                    assert(sent(ctx.log()) =~= sent(writes));
                    assert(ctx.log()[ctx.log().len() - 2] == writes.last());
                    assert forall|i: int| 0 <= i < ctx.log().len() - 1 implies (
                    #[trigger] ctx.log()[i]) is Write && 0 < ctx.log()[i].data().len()
                        <= OUTPUT_CHUNK by {
                        assert(ctx.log()[i] == writes[i]);
                        if i < before.len() {
                            assert(writes[i] == before[i]);
                        }
                    }
                    assert forall|i: int| 0 <= i < ctx.log().len() - 2 implies (
                    #[trigger] ctx.log()[i]).outcome() is Ok by {
                        assert(ctx.log()[i] == writes[i]);
                        assert(writes[i] == before[i]);
                    }
                }
                return ctx;
            }
            proof {
                assert forall|i: int| 0 <= i < ctx.log().len() implies (#[trigger] ctx.log()[i])
                    is Write && 0 < ctx.log()[i].data().len() <= OUTPUT_CHUNK
                    && ctx.log()[i].outcome() is Ok by {
                    if i < before.len() {
                        assert(ctx.log()[i] == before[i]);
                    }
                }
            }
            off = end;
        }
        let ghost writes = ctx.log();
        ctx.ioclose(writer);
        proof {
            assert(ctx.log() =~= writes.push(ctx.log().last()));
            lemma_sent_push(writes, ctx.log().last());
            assert(sent(ctx.log()) =~= sent(writes));
            assert(bytes@.take(bytes@.len() as int) =~= bytes@);
            assert forall|i: int| 0 <= i < ctx.log().len() - 1 implies (#[trigger] ctx.log()[i])
                is Write && 0 < ctx.log()[i].data().len() <= OUTPUT_CHUNK by {
                assert(ctx.log()[i] == writes[i]);
            }
            assert forall|i: int| 0 <= i < ctx.log().len() - 2 implies (
            #[trigger] ctx.log()[i]).outcome() is Ok by {
                assert(ctx.log()[i] == writes[i]);
            }
        }
        ctx
    }

    /// Write document to writer
    ///
    /// A failure of the writer is handed back as it was raised: that of the
    /// closing flush if it failed, else that of the write that failed.
    pub fn write<W: Writer>(&self, writer: &mut W) -> (r: Result<(), IoError>)
        ensures
            exists|log: Seq<WriteEvent>|
                write_transcript(log, write_document(self@)) && r == write_result(
                    failure_after(None, log),
                ),
    {
        let ctx = self.write_io(writer);
        let ghost log = ctx.log();
        let r = ctx.finish();
        proof {
            assert(write_transcript(log, write_document(self@)) && r == write_result(
                failure_after(None, log),
            ));
        }
        r
    }
}

} // verus!
