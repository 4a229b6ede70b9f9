//! Chunks of data that are input and can be output.
use vstd::prelude::*;
use vstd::utf8::*;
use vstd::cell::invcell::InvCell;
use vstd::predicate::Predicate;

use crate::error::{ErrorView, SedError};
use crate::lines;
use crate::text::{self, bytes_to_str, NEWLINE};

verus! {

/// Data to be written to a file. It can come from the mapped memory space, in which case its place
/// is kept to allow joining outputs, or it can be other data from the process's memory space.
#[derive(Debug, PartialEq, Eq)]
#[allow(inconsistent_fields)]
pub enum IOChunkContent<'a> {
    MmapInput {
        /// Line without newline.
        content: &'a [u8],
        /// Line including original newline, if any.
        full_span: &'a [u8],
    },
    Owned {
        /// Line content without newline.
        content: String,
        /// True if \n-terminated.
        has_newline: bool,
    },
}

impl<'a> IOChunkContent<'a> {
    /// The bytes of the content, without the newline.
    pub open spec fn bytes(&self) -> Seq<u8> {
        match *self {
            IOChunkContent::MmapInput { content, .. } => content@,
            IOChunkContent::Owned { content, .. } => encode_utf8(content@),
        }
    }

    /// Whether the content ends a line.
    pub open spec fn terminated(&self) -> bool {
        match *self {
            IOChunkContent::MmapInput { full_span, .. } => lines::ends_in_newline(full_span@, NEWLINE),
            IOChunkContent::Owned { has_newline, .. } => has_newline,
        }
    }

    /// Construct a new Owned chunk.
    pub fn new_owned(content: String, has_newline: bool) -> (r: Self)
        ensures
            r == (IOChunkContent::Owned { content, has_newline }),
    {
        IOChunkContent::Owned { content, has_newline }
    }

    /// Return the content's length in bytes.
    pub fn len(&self) -> (r: usize)
        ensures
            r == self.bytes().len(),
    {
        match self {
            IOChunkContent::MmapInput { content, .. } => content.len(),
            IOChunkContent::Owned { content, .. } => content.as_str().as_bytes().len(),
        }
    }
}

/// What a chunk may record about its text: whether it must record that it is valid UTF-8, and whether
/// it may.
pub struct Utf8Claim {
    pub recorded: Ghost<bool>,
    pub allowed: Ghost<bool>,
}

impl Predicate<bool> for Utf8Claim {
    open spec fn predicate(&self, v: bool) -> bool {
        &&& self.recorded@ ==> v
        &&& v ==> self.allowed@
    }
}

/// A chunk of data that is input and can be output, often very efficiently.
pub struct IOChunk<'a> {
    utf8_verified: InvCell<bool, Utf8Claim>,  // True if the contents are known to be valid UTF-8
    content: IOChunkContent<'a>,
}

impl<'a> IOChunk<'a> {
    /// What the chunk holds.
    pub closed spec fn spec_content(&self) -> IOChunkContent<'a> {
        self.content
    }

    /// The bytes of the chunk, without the newline.
    pub open spec fn bytes(&self) -> Seq<u8> {
        self.spec_content().bytes()
    }

    /// Whether the chunk ends a line.
    pub open spec fn terminated(&self) -> bool {
        self.spec_content().terminated()
    }

    /// Whether the chunk has recorded from the start that its text is valid UTF-8.
    pub closed spec fn recorded(&self) -> bool {
        self.utf8_verified.predicate().recorded@
    }

    /// What an Owned chunk records does not change. A mapped one records nothing at the start, and may
    /// record that its text is valid UTF-8 if and only if it is.
    pub closed spec fn wf(&self) -> bool {
        let allowed = self.utf8_verified.predicate().allowed@;
        if self.spec_content() is Owned {
            allowed == self.recorded()
        } else {
            !self.recorded() && allowed == valid_utf8(self.bytes())
        }
    }

    /// Construct an IOChunk from the given content.
    pub fn from_content(content: IOChunkContent<'a>) -> (r: Self)
        ensures
            r.wf(),
            !r.recorded(),
            r.spec_content() == content,
    {
        let ghost claim = Utf8Claim {
            recorded: Ghost(false),
            allowed: Ghost(content is MmapInput && valid_utf8(content.bytes())),
        };
        IOChunk { utf8_verified: InvCell::new(false, Ghost(claim)), content }
    }

    /// Create an Owned newline-terminated IOChunk from a string.
    pub fn from_str(s: &str) -> (r: Self)
        ensures
            r.wf(),
            !r.recorded(),
            r.bytes() == encode_utf8(s@),
            r.spec_content() matches IOChunkContent::Owned { content, has_newline } && content@ == s@
                && has_newline,
    {
        IOChunk::from_content(IOChunkContent::new_owned(s.to_owned(), true))
    }

    /// An Owned chunk whose text is known to be valid UTF-8.
    fn verified(content: String, has_newline: bool) -> (r: Self)
        ensures
            r.wf(),
            r.recorded(),
            r.spec_content() == (IOChunkContent::Owned { content, has_newline }),
    {
        let ghost claim = Utf8Claim { recorded: Ghost(true), allowed: Ghost(true) };
        IOChunk {
            utf8_verified: InvCell::new(true, Ghost(claim)),
            content: IOChunkContent::new_owned(content, has_newline),
        }
    }

    /// What the chunk holds.
    pub fn content(&self) -> (r: &IOChunkContent<'a>)
        ensures
            *r == self.spec_content(),
    {
        &self.content
    }

    /// Return true if the text is known to be valid UTF-8. Of an Owned chunk that is what it has
    /// recorded from the start. Of a mapped one it depends on whether its text has been asked for,
    /// which lies behind a shared reference; but it is never so if the text is not valid.
    pub fn utf8_verified(&self) -> (r: bool)
        requires
            self.wf(),
        ensures
            self.spec_content() is Owned ==> r == self.recorded(),
            r ==> valid_utf8(self.bytes()),
    {
        broadcast use encode_utf8_valid_utf8;

        self.utf8_verified.get()
    }

    /// Clear the object's contents, converting it into Owned if needed.
    pub fn clear(&mut self)
        ensures
            final(self).wf(),
            final(self).recorded(),
            final(self).spec_content() matches IOChunkContent::Owned { content, has_newline }
                && content@.len() == 0 && !has_newline,
            final(self).bytes() == Seq::<u8>::empty(),
    {
        self.set_to_string(String::new(), false);
    }

    /// Return true if the content is empty.
    pub fn is_empty(&self) -> (r: bool)
        ensures
            r == (self.bytes().len() == 0),
    {
        self.content.len() == 0
    }

    /// Return true if the content ends with a newline.
    pub fn is_newline_terminated(&self) -> (r: bool)
        ensures
            r == self.terminated(),
    {
        match &self.content {
            IOChunkContent::Owned { has_newline, .. } => *has_newline,
            IOChunkContent::MmapInput { full_span, .. } => match full_span.last() {
                Some(last) => *last == NEWLINE,
                None => false,
            },
        }
    }

    /// Set the object's contents to the specified string.
    /// Convert it into Owned if needed.
    pub fn set_to_string(&mut self, new_content: String, add_newline: bool)
        ensures
            final(self).wf(),
            final(self).recorded(),
            final(self).spec_content() == (IOChunkContent::Owned {
                content: new_content,
                has_newline: add_newline,
            }),
    {
        *self = IOChunk::verified(new_content, add_newline);
    }

    /// Return the content as a str. Once that has succeeded, the chunk records that its text is
    /// valid UTF-8; what is recorded lies behind a shared reference, so that no clause here can tell.
    pub fn as_str(&self) -> (r: Result<&str, SedError>)
        requires
            self.wf(),
        ensures
            match r {
                Ok(s) => valid_utf8(self.bytes()) && s@ == decode_utf8(self.bytes())
                    && encode_utf8(s@) == self.bytes(),
                Err(e) => !valid_utf8(self.bytes()) && e@ == utf8_error(self.bytes()),
            },
    {
        broadcast use {encode_utf8_valid_utf8, encode_utf8_decode_utf8};

        match &self.content {
            IOChunkContent::MmapInput { content, .. } => match bytes_to_str(content) {
                Ok(s) => {
                    self.utf8_verified.set(true);
                    Ok(s)
                },
                Err(message) => Err(SedError::Simple { code: 2, message }),
            },
            IOChunkContent::Owned { content, .. } => Ok(content.as_str()),
        }
    }

    /// Return the raw byte content (always safe).
    pub fn as_bytes(&self) -> (r: &[u8])
        ensures
            r@ == self.bytes(),
    {
        match &self.content {
            IOChunkContent::MmapInput { content, .. } => content,
            IOChunkContent::Owned { content, .. } => content.as_str().as_bytes(),
        }
    }

    /// Convert content to the Owned variant if it's not already.
    /// Fails if the conversion to UTF-8 fails.
    pub fn ensure_owned(&mut self) -> (r: Result<(), SedError>)
        ensures
            old(self).wf() ==> final(self).wf(),
            final(self).bytes() == old(self).bytes(),
            final(self).terminated() == old(self).terminated(),
            match r {
                Ok(()) => {
                    &&& valid_utf8(old(self).bytes())
                    &&& final(self).spec_content() is Owned
                    &&& old(self).spec_content() is MmapInput ==> final(self).recorded()
                    &&& old(self).spec_content() is Owned ==> *final(self) == *old(self)
                },
                Err(e) => {
                    &&& !valid_utf8(old(self).bytes())
                    &&& *final(self) == *old(self)
                    &&& e@ == utf8_error(old(self).bytes())
                },
            },
    {
        broadcast use encode_utf8_valid_utf8;

        let has_newline = self.is_newline_terminated();
        match &self.content {
            IOChunkContent::Owned { .. } => Ok(()),  // already owned
            IOChunkContent::MmapInput { content, .. } => match bytes_to_str(content) {
                Ok(valid_str) => {
                    *self = IOChunk::verified(valid_str.to_owned(), has_newline);
                    Ok(())
                },
                Err(message) => Err(SedError::Simple { code: 2, message }),
            },
        }
    }

    /// Return mutable access to the content and has_newline fields.
    pub fn fields_mut(&mut self) -> (r: Result<(&mut String, &mut bool), SedError>)
        ensures
            match r {
                Ok((content, has_newline)) => {
                    &&& valid_utf8(old(self).bytes())
                    &&& content@ == decode_utf8(old(self).bytes())
                    &&& *has_newline == old(self).terminated()
                    &&& old(self).wf() ==> final(self).wf()
                    &&& final(self).recorded() == (old(self).recorded()
                        || old(self).spec_content() is MmapInput)
                    &&& final(self).spec_content() == (IOChunkContent::Owned {
                        content: *final(content),
                        has_newline: *final(has_newline),
                    })
                },
                Err(e) => {
                    &&& !valid_utf8(old(self).bytes())
                    &&& *final(self) == *old(self)
                    &&& e@ == utf8_error(old(self).bytes())
                },
            },
    {
        broadcast use {encode_utf8_valid_utf8, encode_utf8_decode_utf8};

        match self.ensure_owned() {
            Ok(()) => {},
            Err(e) => return Err(e),
        }
        match &mut self.content {
            IOChunkContent::Owned { content, has_newline } => Ok((content, has_newline)),
            IOChunkContent::MmapInput { .. } => Err(
                SedError::Simple { code: 2, message: String::new() },
            ),
        }
    }
}

/// The error for a chunk whose bytes are not UTF-8.
pub open spec fn utf8_error(bytes: Seq<u8>) -> ErrorView {
    ErrorView::Simple { code: 2, message: text::utf8_error_text(bytes) }
}

} // verus!
