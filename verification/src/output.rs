//! Output of data, potentially from a mapped file.
//!
//! Outputs from mapped data are joined and handed out as one write, without any copying if
//! worthwhile. All other output goes through a write buffer. What is to be done with the writer and
//! its buffer is handed out as a plan, a list of steps to be performed in order.
use vstd::prelude::*;
use vstd::utf8::*;

use crate::chunk::{IOChunk, IOChunkContent};
use crate::lines;
use crate::text::{self, bytes_to_str, NEWLINE};

verus! {

/// Threshold to use buffered writes for output.
// These 4k are half the 8k size of the usual write buffer. The constant guarantees that, at worst,
// mapped output will result in a doubling of the issued write system calls. Taking into account the
// non-copied data, this should result in overall fewer CPU instructions.
pub const MIN_DIRECT_WRITE: usize = 4096;

/// The maximum size of a pending write.
// Once more than 64k accumulate, issue a write to allow the OS and downstream pipes to handle the
// output processing in parallel with our processing.
pub const MAX_PENDING_WRITE: usize = 65536;

/// Bytes in memory: where they start, and how many they are.
#[derive(Clone, Copy, Debug, PartialEq, Eq, Structural)]
pub struct Span {
    pub start: usize,
    pub len: usize,
}

impl Span {
    /// The span does not go around the end of the address space.
    pub open spec fn wf(self) -> bool {
        self.start + self.len <= usize::MAX
    }
}

/// One step of output.
pub enum Output<'c> {
    /// Write the bytes to the buffer.
    Bytes(&'c [u8]),
    /// Write what the span holds to the buffer.
    Buffered(Span, Ghost<Seq<u8>>),
    /// Hand what is in the buffer to the writer.
    Flush,
    /// Hand what the span holds to the writer, past the buffer.
    Direct(Span, Ghost<Seq<u8>>),
}

/// One step of output, as a value of specifications.
pub enum OutputView {
    Bytes(Seq<u8>),
    Buffered(Span, Seq<u8>),
    Flush,
    Direct(Span, Seq<u8>),
}

impl<'c> View for Output<'c> {
    type V = OutputView;

    open spec fn view(&self) -> OutputView {
        match *self {
            Output::Bytes(bytes) => OutputView::Bytes(bytes@),
            Output::Buffered(span, bytes) => OutputView::Buffered(span, bytes@),
            Output::Flush => OutputView::Flush,
            Output::Direct(span, bytes) => OutputView::Direct(span, bytes@),
        }
    }
}

/// The steps of a plan, as values of specifications.
pub open spec fn steps(plan: Seq<Output<'_>>) -> Seq<OutputView> {
    plan.map_values(|step: Output<'_>| step@)
}

/// Mapped data still to be written: where it lies, and what it holds.
pub struct Pending {
    pub span: Span,
    pub bytes: Seq<u8>,
}

/// What the pending data holds.
pub open spec fn pending_bytes(pending: Option<Pending>) -> Seq<u8> {
    match pending {
        None => Seq::empty(),
        Some(p) => p.bytes,
    }
}

/// The steps that write the pending data: through the buffer if it is small, else past the buffer,
/// once what is in the buffer has been written.
pub open spec fn flush_steps(pending: Option<Pending>) -> Seq<OutputView> {
    match pending {
        None => Seq::empty(),
        Some(p) => if p.span.len < MIN_DIRECT_WRITE {
            seq![OutputView::Buffered(p.span, p.bytes)]
        } else {
            seq![OutputView::Flush, OutputView::Direct(p.span, p.bytes)]
        },
    }
}

/// Whether the span joins the pending one: it follows it in memory, and not too much is pending.
pub open spec fn joins(pending: Option<Pending>, span: Span) -> bool {
    pending matches Some(p) && p.span.start + p.span.len == span.start && p.span.len
        < MAX_PENDING_WRITE
}

/// What is pending once the mapped data has been scheduled.
pub open spec fn pending_after(pending: Option<Pending>, data: Pending) -> Option<Pending> {
    if joins(pending, data.span) {
        let p = pending->0;
        Some(
            Pending {
                span: Span { start: p.span.start, len: (p.span.len + data.span.len) as usize },
                bytes: p.bytes + data.bytes,
            },
        )
    } else {
        Some(data)
    }
}

/// The steps that scheduling the span takes.
pub open spec fn span_steps(pending: Option<Pending>, span: Span) -> Seq<OutputView> {
    if joins(pending, span) {
        Seq::empty()
    } else {
        flush_steps(pending)
    }
}

/// The steps that writing the bytes takes, and a newline after them if asked for.
pub open spec fn bytes_steps(pending: Option<Pending>, bytes: Seq<u8>, newline: bool) -> Seq<
    OutputView,
> {
    let written = flush_steps(pending).push(OutputView::Bytes(bytes));
    if newline {
        written.push(OutputView::Bytes(seq![NEWLINE]))
    } else {
        written
    }
}

/// The bytes, and a newline after them if asked for.
pub open spec fn with_newline(bytes: Seq<u8>, newline: bool) -> Seq<u8> {
    if newline {
        bytes.push(NEWLINE)
    } else {
        bytes
    }
}

/// The bytes of a chunk, with its newline if it ends a line.
pub open spec fn chunk_bytes(content: IOChunkContent<'_>) -> Seq<u8> {
    match content {
        IOChunkContent::MmapInput { full_span, .. } => full_span@,
        IOChunkContent::Owned { content, has_newline } => with_newline(
            encode_utf8(content@),
            has_newline,
        ),
    }
}

/// What has become of the output so far: what the writer has got, and what is still in the buffer.
pub struct Sink {
    pub file: Seq<u8>,
    pub buffered: Seq<u8>,
}

impl Sink {
    /// The sink once the step has been performed.
    pub open spec fn perform(self, step: OutputView) -> Sink {
        match step {
            OutputView::Bytes(bytes) => Sink { buffered: self.buffered + bytes, ..self },
            OutputView::Buffered(_, bytes) => Sink { buffered: self.buffered + bytes, ..self },
            OutputView::Flush => Sink { file: self.file + self.buffered, buffered: Seq::empty() },
            OutputView::Direct(_, bytes) => Sink { file: self.file + bytes, ..self },
        }
    }

    /// The sink once all steps have been performed, in order.
    pub open spec fn perform_all(self, steps: Seq<OutputView>) -> Sink
        decreases steps.len(),
    {
        if steps.len() == 0 {
            self
        } else {
            self.perform_all(steps.drop_last()).perform(steps.last())
        }
    }

    /// All that has been output, whether or not it has got to the writer, and then what is pending.
    pub open spec fn total(self, pending: Option<Pending>) -> Seq<u8> {
        self.file + self.buffered + pending_bytes(pending)
    }
}

/// Whether the plan puts the bytes behind all that was output or pending before, whatever that was.
pub open spec fn puts_behind(
    before: Option<Pending>,
    plan: Seq<OutputView>,
    after: Option<Pending>,
    bytes: Seq<u8>,
) -> bool {
    forall|sink: Sink| (#[trigger] sink.perform_all(plan)).total(after) == sink.total(before) + bytes
}

/// Whether the plan hands all that was output or pending before to the writer, whatever that was.
pub open spec fn hands_over(before: Option<Pending>, plan: Seq<OutputView>) -> bool {
    forall|sink: Sink| #[trigger]
        sink.perform_all(plan) == (Sink { file: sink.total(before), buffered: Seq::empty() })
}

/// Abstraction for outputting data, potentially from a mapped file.
pub struct OutputBuffer {
    mmap_ptr: Option<Span>,  // Mapped data still to be written
    held: Ghost<Seq<u8>>,  // What that data holds
}

/// The place of the bytes in memory, as `<[u8]>::as_ptr` gives it. It is whatever the machine has
/// chosen, but a slice never goes around the end of the address space.
#[verifier::external_body]
fn address_of(bytes: &[u8]) -> (r: usize)
    ensures
        r + bytes@.len() <= usize::MAX,
{
    bytes.as_ptr() as usize
}

impl OutputBuffer {
    /// The mapped data still to be written.
    pub closed spec fn pending(&self) -> Option<Pending> {
        match self.mmap_ptr {
            Some(span) => Some(Pending { span, bytes: self.held@ }),
            None => None,
        }
    }

    #[verifier::type_invariant]
    closed spec fn wf(self) -> bool {
        self.mmap_ptr matches Some(span) ==> span.wf() && span.len == self.held@.len()
    }

    /// Nothing has been scheduled.
    pub fn new() -> (r: Self)
        ensures
            r.pending() is None,
    {
        OutputBuffer { mmap_ptr: None, held: Ghost(Seq::empty()) }
    }

    /// Schedule mapped data that lies at `start` for eventual output.
    pub fn write_span<'c>(&mut self, start: usize, bytes: &[u8]) -> (r: Vec<Output<'c>>)
        requires
            start + bytes@.len() <= usize::MAX,
        ensures
            ({
                let span = Span { start, len: bytes@.len() as usize };
                &&& steps(r@) == span_steps(old(self).pending(), span)
                &&& final(self).pending() == pending_after(
                    old(self).pending(),
                    Pending { span, bytes: bytes@ },
                )
            }),
            puts_behind(old(self).pending(), steps(r@), final(self).pending(), bytes@),
    {
        let len: usize = bytes.len();
        proof {
            use_type_invariant(&*self);
            let span = Span { start, len };
            law_mapped_data_goes_behind(self.pending(), Pending { span, bytes: bytes@ });
        }
        if let Some(p) = self.mmap_ptr {
            // Coalesce if adjacent
            if p.start + p.len == start && p.len < MAX_PENDING_WRITE {
                let ghost held = self.held@;
                *self = OutputBuffer {
                    mmap_ptr: Some(Span { start: p.start, len: p.len + len }),
                    held: Ghost(held + bytes@),
                };
                let r: Vec<Output<'c>> = Vec::new();
                assert(steps(r@) =~= Seq::empty());
                return r;
            }
        }
        let r = self.flush_mmap();
        *self = OutputBuffer { mmap_ptr: Some(Span { start, len }), held: Ghost(bytes@) };
        r
    }

    /// Schedule the bytes for eventual output, and a newline after them if asked for.
    fn write_bytes<'c>(&mut self, bytes: &'c [u8], newline: bool) -> (r: Vec<Output<'c>>)
        ensures
            steps(r@) == bytes_steps(old(self).pending(), bytes@, newline),
            final(self).pending() is None,
            puts_behind(
                old(self).pending(),
                steps(r@),
                final(self).pending(),
                with_newline(bytes@, newline),
            ),
    {
        proof {
            law_bytes_go_behind(self.pending(), bytes@, newline);
        }
        let mut r = self.flush_mmap();
        r.push(Output::Bytes(bytes));
        if newline {
            let end = "\n".as_bytes();
            proof {
                reveal_strlit("\n");
                is_ascii_chars_encode_utf8("\n"@);
                assert(end@ =~= seq![NEWLINE]);
            }
            r.push(Output::Bytes(end));
        }
        assert(steps(r@) =~= bytes_steps(old(self).pending(), bytes@, newline));
        r
    }

    /// Schedule the specified output chunk for eventual output. Where a mapped chunk lies in memory is
    /// the machine's choice; what it holds goes behind all that was scheduled before, wherever it lies.
    pub fn write_chunk<'c>(&mut self, chunk: &'c IOChunk<'_>) -> (r: Vec<Output<'c>>)
        ensures
            match chunk.spec_content() {
                IOChunkContent::MmapInput { full_span, .. } => exists|span: Span| #[trigger]
                    span.wf() && span.len == full_span@.len() && steps(r@) == span_steps(
                        old(self).pending(),
                        span,
                    ) && final(self).pending() == pending_after(
                        old(self).pending(),
                        Pending { span, bytes: full_span@ },
                    ),
                IOChunkContent::Owned { content, has_newline } => {
                    &&& steps(r@) == bytes_steps(
                        old(self).pending(),
                        encode_utf8(content@),
                        has_newline,
                    )
                    &&& final(self).pending() is None
                },
            },
            puts_behind(
                old(self).pending(),
                steps(r@),
                final(self).pending(),
                chunk_bytes(chunk.spec_content()),
            ),
    {
        match chunk.content() {
            IOChunkContent::MmapInput { full_span, .. } => {
                let start: usize = address_of(full_span);
                assert((Span { start, len: full_span@.len() as usize }).wf());
                self.write_span(start, full_span)
            },
            IOChunkContent::Owned { content, has_newline } => {
                self.write_bytes(content.as_str().as_bytes(), *has_newline)
            },
        }
    }

    /// Schedule the specified string for eventual output.
    pub fn write_str<'c>(&mut self, s: &'c str) -> (r: Vec<Output<'c>>)
        ensures
            steps(r@) == bytes_steps(old(self).pending(), encode_utf8(s@), false),
            final(self).pending() is None,
            puts_behind(old(self).pending(), steps(r@), final(self).pending(), encode_utf8(s@)),
    {
        self.write_bytes(s.as_bytes(), false)
    }

    /// Schedule the bytes for eventual output, if they are UTF-8, and return how many they are.
    /// Otherwise nothing is scheduled.
    pub fn write<'c>(&mut self, buf: &'c [u8]) -> (r: Result<(Vec<Output<'c>>, usize), String>)
        ensures
            match r {
                Ok((plan, n)) => {
                    &&& valid_utf8(buf@)
                    &&& n == buf@.len()
                    &&& steps(plan@) == bytes_steps(old(self).pending(), buf@, false)
                    &&& final(self).pending() is None
                    &&& puts_behind(
                        old(self).pending(),
                        steps(plan@),
                        final(self).pending(),
                        buf@,
                    )
                },
                Err(message) => {
                    &&& !valid_utf8(buf@)
                    &&& message@ == text::utf8_error_text(buf@)
                    &&& final(self).pending() == old(self).pending()
                },
            },
    {
        match bytes_to_str(buf) {
            Ok(s) => Ok((self.write_str(s), buf.len())),
            Err(message) => Err(message),
        }
    }

    /// Copy a file with the given contents to the output. If the file can't be read, treat it as empty.
    pub fn copy_file<'c>(&mut self, contents: Option<&'c [u8]>) -> (r: Vec<Output<'c>>)
        ensures
            steps(r@) == match contents {
                Some(bytes) => bytes_steps(old(self).pending(), bytes@, false),
                None => flush_steps(old(self).pending()),
            },
            final(self).pending() is None,
            puts_behind(
                old(self).pending(),
                steps(r@),
                final(self).pending(),
                match contents {
                    Some(bytes) => bytes@,
                    None => Seq::empty(),
                },
            ),
    {
        match contents {
            Some(bytes) => self.write_bytes(bytes, false),
            None => self.flush_mmap(),
        }
    }

    /// Write any pending mapped data.
    pub fn flush_mmap<'c>(&mut self) -> (r: Vec<Output<'c>>)
        ensures
            steps(r@) == flush_steps(old(self).pending()),
            final(self).pending() is None,
            puts_behind(old(self).pending(), steps(r@), final(self).pending(), Seq::empty()),
    {
        proof {
            law_flush_keeps_the_order(self.pending());
        }
        let mut r: Vec<Output<'c>> = Vec::new();
        if let Some(span) = self.mmap_ptr {
            let ghost held = self.held@;
            self.mmap_ptr = None;
            if span.len < MIN_DIRECT_WRITE {
                r.push(Output::Buffered(span, Ghost(held)));
            } else {
                // Large enough: past the buffer, which is written before
                r.push(Output::Flush);
                r.push(Output::Direct(span, Ghost(held)));
            }
        }
        assert(steps(r@) =~= flush_steps(old(self).pending()));
        r
    }

    /// Flush everything: pending mapped data, then buffered data.
    pub fn flush<'c>(&mut self) -> (r: Vec<Output<'c>>)
        ensures
            steps(r@) == flush_steps(old(self).pending()).push(OutputView::Flush),
            final(self).pending() is None,
            hands_over(old(self).pending(), steps(r@)),
    {
        proof {
            law_flush_hands_over(self.pending());
        }
        let mut r = self.flush_mmap();
        r.push(Output::Flush);
        assert(steps(r@) =~= flush_steps(old(self).pending()).push(OutputView::Flush));
        r
    }

    /// A step of the last plan has failed: what the plan was for is given up, and nothing is
    /// pending any more.
    pub fn write_failed(&mut self)
        ensures
            final(self).pending() is None,
    {
        self.mmap_ptr = None;
    }
}

/// Performing one more step.
proof fn lemma_perform_push(sink: Sink, plan: Seq<OutputView>, step: OutputView)
    ensures
        sink.perform_all(plan.push(step)) == sink.perform_all(plan).perform(step),
{
    assert(plan.push(step).drop_last() =~= plan);
}

/// Performing one plan after another.
proof fn lemma_perform_append(sink: Sink, first: Seq<OutputView>, second: Seq<OutputView>)
    ensures
        sink.perform_all(first + second) == sink.perform_all(first).perform_all(second),
    decreases second.len(),
{
    if second.len() == 0 {
        assert(first + second =~= first);
    } else {
        assert((first + second).drop_last() =~= first + second.drop_last());
        lemma_perform_append(sink, first, second.drop_last());
    }
}

/// Law: writing the pending data puts what it holds behind all that was output before, whether it
/// goes through the buffer or past it.
pub proof fn law_flush_keeps_the_order(pending: Option<Pending>)
    ensures
        puts_behind(pending, flush_steps(pending), None, Seq::empty()),
{
    let none = Seq::<OutputView>::empty();
    assert forall|sink: Sink| (#[trigger] sink.perform_all(flush_steps(pending))).total(None)
        == sink.total(pending) + Seq::<u8>::empty() by {
        assert(sink.perform_all(none) == sink);
        if let Some(p) = pending {
            if p.span.len < MIN_DIRECT_WRITE {
                let step = OutputView::Buffered(p.span, p.bytes);
                lemma_perform_push(sink, none, step);
                assert(none.push(step) =~= flush_steps(pending));
            } else {
                let step = OutputView::Direct(p.span, p.bytes);
                let flushed = none.push(OutputView::Flush);
                lemma_perform_push(sink, none, OutputView::Flush);
                lemma_perform_push(sink, flushed, step);
                assert(flushed.push(step) =~= flush_steps(pending));
            }
        }
        assert(sink.perform_all(flush_steps(pending)).total(None) =~= sink.total(pending)
            + Seq::<u8>::empty());
    }
}

/// Law: flushing hands all that was output or pending to the writer, in order, and leaves nothing in
/// the buffer.
pub proof fn law_flush_hands_over(pending: Option<Pending>)
    ensures
        hands_over(pending, flush_steps(pending).push(OutputView::Flush)),
{
    law_flush_keeps_the_order(pending);
    let flush = flush_steps(pending);
    assert forall|sink: Sink| #[trigger]
        sink.perform_all(flush.push(OutputView::Flush)) == (Sink {
            file: sink.total(pending),
            buffered: Seq::empty(),
        }) by {
        lemma_perform_push(sink, flush, OutputView::Flush);
        let written = sink.perform_all(flush);
        assert(written.total(None) =~= written.file + written.buffered);
        assert(sink.total(pending) + Seq::<u8>::empty() =~= sink.total(pending));
    }
}

/// Law: scheduling mapped data puts what it holds behind all that was scheduled before, whether or
/// not it joins the pending data.
pub proof fn law_mapped_data_goes_behind(pending: Option<Pending>, data: Pending)
    ensures
        puts_behind(
            pending,
            span_steps(pending, data.span),
            pending_after(pending, data),
            data.bytes,
        ),
{
    law_flush_keeps_the_order(pending);
    let plan = span_steps(pending, data.span);
    let after = pending_after(pending, data);
    assert forall|sink: Sink| (#[trigger] sink.perform_all(plan)).total(after) == sink.total(pending)
        + data.bytes by {
        if joins(pending, data.span) {
            assert(sink.total(after) =~= sink.total(pending) + data.bytes);
        } else {
            let flushed = sink.perform_all(flush_steps(pending));
            assert(flushed.total(None) =~= flushed.file + flushed.buffered);
            assert(flushed.total(after) =~= sink.total(pending) + data.bytes);
        }
    }
}

/// Law: writing bytes puts them, and their newline, behind all that was scheduled before.
pub proof fn law_bytes_go_behind(pending: Option<Pending>, bytes: Seq<u8>, newline: bool)
    ensures
        puts_behind(
            pending,
            bytes_steps(pending, bytes, newline),
            None,
            with_newline(bytes, newline),
        ),
{
    law_flush_keeps_the_order(pending);
    let flush = flush_steps(pending);
    let plan = bytes_steps(pending, bytes, newline);
    assert forall|sink: Sink| (#[trigger] sink.perform_all(plan)).total(None) == sink.total(pending)
        + with_newline(bytes, newline) by {
        lemma_perform_push(sink, flush, OutputView::Bytes(bytes));
        if newline {
            lemma_perform_push(
                sink,
                flush.push(OutputView::Bytes(bytes)),
                OutputView::Bytes(seq![NEWLINE]),
            );
        }
        let flushed = sink.perform_all(flush);
        assert(flushed.total(None) =~= flushed.file + flushed.buffered);
        assert(sink.perform_all(plan).total(None) =~= sink.total(pending) + with_newline(
            bytes,
            newline,
        ));
    }
}

/// A call that schedules something: what was pending before and after it, its plan, and the bytes
/// that it was given.
pub struct Call {
    pub before: Option<Pending>,
    pub plan: Seq<OutputView>,
    pub after: Option<Pending>,
    pub bytes: Seq<u8>,
}

/// Whether these are calls on an output buffer, one after the other, beginning with a new one.
pub open spec fn are_calls(calls: Seq<Call>) -> bool {
    &&& calls.len() > 0 ==> calls[0].before is None
    &&& forall|i: int| 0 < i < calls.len() ==> (#[trigger] calls[i]).before == calls[i - 1].after
    &&& forall|i: int|
        0 <= i < calls.len() ==> puts_behind(
            (#[trigger] calls[i]).before,
            calls[i].plan,
            calls[i].after,
            calls[i].bytes,
        )
}

/// What is pending after the calls.
pub open spec fn calls_pending(calls: Seq<Call>) -> Option<Pending> {
    if calls.len() == 0 {
        None
    } else {
        calls.last().after
    }
}

/// The plans of the calls, one behind the other.
pub open spec fn calls_plan(calls: Seq<Call>) -> Seq<OutputView>
    decreases calls.len(),
{
    if calls.len() == 0 {
        Seq::empty()
    } else {
        calls_plan(calls.drop_last()) + calls.last().plan
    }
}

/// The bytes that the calls were given, one behind the other.
pub open spec fn calls_bytes(calls: Seq<Call>) -> Seq<u8>
    decreases calls.len(),
{
    if calls.len() == 0 {
        Seq::empty()
    } else {
        calls_bytes(calls.drop_last()) + calls.last().bytes
    }
}

/// Once the calls' plans have been performed, the sink and what is pending hold the calls' bytes.
proof fn lemma_calls_in_order(sink: Sink, calls: Seq<Call>)
    requires
        are_calls(calls),
    ensures
        sink.perform_all(calls_plan(calls)).total(calls_pending(calls)) == sink.file + sink.buffered
            + calls_bytes(calls),
    decreases calls.len(),
{
    if calls.len() == 0 {
        assert(sink.total(None) =~= sink.file + sink.buffered + Seq::<u8>::empty());
    } else {
        let before = calls.drop_last();
        let call = calls.last();
        assert(calls[calls.len() - 1] == call);
        assert forall|i: int| 0 <= i < before.len() implies #[trigger] before[i] == calls[i] by {}
        lemma_calls_in_order(sink, before);
        lemma_perform_append(sink, calls_plan(before), call.plan);
        let scheduled = sink.perform_all(calls_plan(before));
        assert(calls_pending(before) == call.before);
        assert(scheduled.perform_all(call.plan).total(call.after) == scheduled.total(call.before)
            + call.bytes);
        assert(sink.perform_all(calls_plan(calls)).total(calls_pending(calls)) =~= sink.file
            + sink.buffered + calls_bytes(calls));
    }
}

/// Law: whatever the calls were given, mapped or not, gets to the writer in the order of the calls,
/// each byte once, and nothing is left over once all has been flushed.
pub proof fn law_output_in_order(file: Seq<u8>, calls: Seq<Call>, flush: Seq<OutputView>)
    requires
        are_calls(calls),
        hands_over(calls_pending(calls), flush),
    ensures
        (Sink { file, buffered: Seq::empty() }).perform_all(calls_plan(calls) + flush) == (Sink {
            file: file + calls_bytes(calls),
            buffered: Seq::empty(),
        }),
{
    let sink = Sink { file, buffered: Seq::empty() };
    lemma_calls_in_order(sink, calls);
    lemma_perform_append(sink, calls_plan(calls), flush);
    let scheduled = sink.perform_all(calls_plan(calls));
    assert(scheduled.perform_all(flush).file == scheduled.total(calls_pending(calls)));
    assert(file + Seq::<u8>::empty() + calls_bytes(calls) =~= file + calls_bytes(calls));
}

/// Calls that were given the lines were given what the lines hold.
proof fn lemma_calls_of_lines(calls: Seq<Call>, lines: Seq<Seq<u8>>)
    requires
        calls.len() == lines.len(),
        forall|i: int| 0 <= i < calls.len() ==> (#[trigger] calls[i]).bytes == lines[i],
    ensures
        calls_bytes(calls) == lines.flatten_alt(),
    decreases calls.len(),
{
    if calls.len() > 0 {
        assert(calls[calls.len() - 1].bytes == lines[calls.len() - 1]);
        assert forall|i: int| 0 <= i < calls.len() - 1 implies (
        #[trigger] calls.drop_last()[i]).bytes == lines.drop_last()[i] by {
            assert(calls.drop_last()[i] == calls[i]);
        }
        lemma_calls_of_lines(calls.drop_last(), lines.drop_last());
    }
}

/// Law: a file whose lines are read and written one after the other, each with its newline, is
/// copied byte for byte.
pub proof fn law_lines_are_copied(
    file: Seq<u8>,
    data: Seq<u8>,
    calls: Seq<Call>,
    flush: Seq<OutputView>,
)
    requires
        are_calls(calls),
        calls.len() == lines::lines_from(data, NEWLINE, 0).len(),
        forall|i: int|
            0 <= i < calls.len() ==> (#[trigger] calls[i]).bytes == lines::lines_from(
                data,
                NEWLINE,
                0,
            )[i],
        hands_over(calls_pending(calls), flush),
    ensures
        (Sink { file, buffered: Seq::empty() }).perform_all(calls_plan(calls) + flush) == (Sink {
            file: file + data,
            buffered: Seq::empty(),
        }),
{
    let lines = lines::lines_from(data, NEWLINE, 0);
    lemma_calls_of_lines(calls, lines);
    lines.lemma_flatten_and_flatten_alt_are_equivalent();
    lines::law_lines_make_up_the_data(data, NEWLINE, 0);
    assert(data.skip(0) =~= data);
    law_output_in_order(file, calls, flush);
}

/// Law: a line read from a file, mapped or as a stream, is written as it stood there.
pub proof fn law_lines_are_written_whole(content: IOChunkContent<'_>, line: Seq<u8>)
    requires
        match content {
            IOChunkContent::MmapInput { full_span, .. } => full_span@ == line,
            IOChunkContent::Owned { content, has_newline } => encode_utf8(content@)
                == lines::strip_newline(line, NEWLINE) && has_newline == lines::ends_in_newline(
                line,
                NEWLINE,
            ),
        },
    ensures
        chunk_bytes(content) == line,
{
    assert(chunk_bytes(content) =~= line);
}

} // verus!
