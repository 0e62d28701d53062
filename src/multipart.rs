//! `multipart/form-data` bodies: an eager encoder over parts held in memory,
//! and a pull-based reader over parts whose content may be streamed.
use crate::body::{BodyError, ByteSource, Pull};
use crate::outside::{
    file_name_of, guess_mime, guessed_mime, is_alphanumeric, parse_mime, parsed_mime,
    path_file_name, random_alphanumeric,
};
use crate::wire::{
    append_bytes, append_crlf, closing, crlf, form_bytes, head_bytes, head_view,
    lemma_names_in_order, lemma_parts_front, lemma_parts_take_next, name_offset, named, opt_chars,
    parts_bytes, render_closing, render_head, HeadView,
};
use vstd::prelude::*;

verus! {

/// The text that every generated boundary starts with.
pub open spec fn boundary_prefix() -> Seq<char> {
    "--FormBoundary"@
}

/// A boundary as this library generates it: the fixed prefix and ten ASCII
/// letters or digits.
pub open spec fn generated_boundary(b: Seq<char>) -> bool {
    &&& b.len() == boundary_prefix().len() + 10
    &&& b.take(boundary_prefix().len() as int) == boundary_prefix()
    &&& forall|i: int|
        boundary_prefix().len() <= i < b.len() ==> is_alphanumeric(#[trigger] b[i])
}

/// Generates a fresh boundary.
fn new_boundary() -> (r: String)
    ensures
        generated_boundary(r@),
{
    let tail = random_alphanumeric(10);
    let r = String::from_str("--FormBoundary").concat(tail.as_str());
    proof {
        reveal_strlit("--FormBoundary");
        assert(r@.take(14) =~= boundary_prefix());
    }
    r
}

/// A media type that parsed, held as its canonical text.
pub struct MediaType {
    text: String,
}

impl View for MediaType {
    type V = Seq<char>;

    closed spec fn view(&self) -> Seq<char> {
        self.text@
    }
}

impl MediaType {
    /// Parses a media type, or gives `None` where the text is not one.
    pub fn parse(s: &str) -> (r: Option<MediaType>)
        ensures
            match parsed_mime(s@) {
                Some(t) => r matches Some(m) && m@ == t,
                None => r is None,
            },
    {
        match parse_mime(s) {
            Some(t) => Some(MediaType { text: t }),
            None => None,
        }
    }

    /// The canonical text of the media type.
    pub fn as_str(&self) -> (r: &str)
        ensures
            r@ == self@,
    {
        self.text.as_str()
    }
}

/// One field of a form, its content held in memory.
pub struct Part {
    pub key: String,
    pub value: Vec<u8>,
    pub filename: Option<String>,
    /// The media type, as text.
    pub mime: Option<String>,
    /// Extra headers, in the order they are written.
    pub headers: Vec<(String, String)>,
}

impl Part {
    /// The header fields and content this part is written from.
    pub open spec fn entry(&self) -> (HeadView, Seq<u8>) {
        (head_view(self.key, self.filename, self.mime, self.headers@), self.value@)
    }

    pub fn new(key: &str, value: &[u8]) -> (r: Part)
        ensures
            r.key@ == key@,
            r.value@ == value@,
            r.filename is None,
            r.mime is None,
            r.headers@.len() == 0,
    {
        Part {
            key: key.to_owned(),
            value: vstd::slice::slice_to_vec(value),
            filename: None,
            mime: None,
            headers: Vec::new(),
        }
    }

    /// A part for a file read into memory: its media type is guessed from the
    /// path, and its file name is the path's last component.
    pub fn file(key: &str, path: &str, content: Vec<u8>) -> (r: Part)
        ensures
            r.key@ == key@,
            r.value == content,
            opt_chars(r.filename) == path_file_name(path@),
            opt_chars(r.mime) == Some(guessed_mime(path@)),
            r.headers@.len() == 0,
    {
        Part {
            key: key.to_owned(),
            value: content,
            filename: file_name_of(path),
            mime: Some(guess_mime(path)),
            headers: Vec::new(),
        }
    }

    /// Sets a parsed media type.
    pub fn mime(self, mime: MediaType) -> (r: Part)
        ensures
            opt_chars(r.mime) == Some(mime@),
            r.key == self.key,
            r.value == self.value,
            r.filename == self.filename,
            r.headers == self.headers,
    {
        Part { mime: Some(mime.text), ..self }
    }

    /// Sets the media type parsed from `mime`, or fails where it does not parse.
    pub fn mime_str(self, mime: &str) -> (r: Result<Part, BodyError>)
        ensures
            match parsed_mime(mime@) {
                Some(t) => r matches Ok(p) && opt_chars(p.mime) == Some(t) && p.key == self.key
                    && p.value == self.value && p.filename == self.filename && p.headers
                    == self.headers,
                None => r == Err::<Part, BodyError>(BodyError::MimeParseFailed),
            },
    {
        match parse_mime(mime) {
            Some(t) => Ok(Part { mime: Some(t), ..self }),
            None => Err(BodyError::MimeParseFailed),
        }
    }

    pub fn filename(self, name: &str) -> (r: Part)
        ensures
            opt_chars(r.filename) == Some(name@),
            r.key == self.key,
            r.value == self.value,
            r.mime == self.mime,
            r.headers == self.headers,
    {
        Part { filename: Some(name.to_owned()), ..self }
    }

    /// Appends headers, keeping their order.
    pub fn headers(self, headers: Vec<(String, String)>) -> (r: Part)
        ensures
            r.headers@ == self.headers@ + headers@,
            r.key == self.key,
            r.value == self.value,
            r.filename == self.filename,
            r.mime == self.mime,
    {
        let mut p = self;
        let mut extra = headers;
        p.headers.append(&mut extra);
        p
    }
}

/// A form whose parts are held in memory.
pub struct Form {
    pub parts: Vec<Part>,
    pub boundary: String,
}

impl Default for Form {
    fn default() -> (r: Form)
        ensures
            r.parts@.len() == 0,
            generated_boundary(r.boundary@),
    {
        Form::new()
    }
}

impl Form {
    pub open spec fn entries(&self) -> Seq<(HeadView, Seq<u8>)> {
        self.parts@.map_values(|p: Part| p.entry())
    }

    /// The body this form is written as.
    pub open spec fn encoded(&self) -> Seq<u8> {
        form_bytes(self.boundary@, self.entries())
    }

    pub fn new() -> (r: Form)
        ensures
            r.parts@.len() == 0,
            generated_boundary(r.boundary@),
    {
        Form { parts: Vec::new(), boundary: new_boundary() }
    }

    pub fn boundary(&self) -> (r: &str)
        ensures
            r@ == self.boundary@,
    {
        self.boundary.as_str()
    }

    /// Adds a part at the end.
    pub fn part(self, part: Part) -> (r: Form)
        ensures
            r.parts@ == self.parts@.push(part),
            r.boundary == self.boundary,
    {
        let mut f = self;
        f.parts.push(part);
        f
    }

    /// Adds a text field at the end.
    pub fn text(self, key: &str, value: &[u8]) -> (r: Form)
        ensures
            r.parts@.len() == self.parts@.len() + 1,
            r.parts@.drop_last() == self.parts@,
            r.parts@.last().key@ == key@,
            r.parts@.last().value@ == value@,
            r.parts@.last().filename is None,
            r.parts@.last().mime is None,
            r.parts@.last().headers@.len() == 0,
            r.boundary == self.boundary,
    {
        let r = self.part(Part::new(key, value));
        assert(r.parts@.drop_last() =~= self.parts@);
        r
    }

    /// Adds a file read into memory at the end (see [`Part::file`]).
    pub fn file(self, key: &str, path: &str, content: Vec<u8>) -> (r: Form)
        ensures
            r.parts@.len() == self.parts@.len() + 1,
            r.parts@.drop_last() == self.parts@,
            r.parts@.last().key@ == key@,
            r.parts@.last().value == content,
            opt_chars(r.parts@.last().filename) == path_file_name(path@),
            opt_chars(r.parts@.last().mime) == Some(guessed_mime(path@)),
            r.parts@.last().headers@.len() == 0,
            r.boundary == self.boundary,
    {
        let r = self.part(Part::file(key, path, content));
        assert(r.parts@.drop_last() =~= self.parts@);
        r
    }

    /// Writes the whole body: each part in order, then the closing delimiter.
    pub fn build(self) -> (r: Vec<u8>)
        ensures
            r@ == self.encoded(),
    {
        let ghost b = self.boundary@;
        let ghost es = self.entries();
        let mut out: Vec<u8> = Vec::new();
        let mut i: usize = 0;
        while i < self.parts.len()
            invariant
                i <= self.parts@.len(),
                es == self.entries(),
                b == self.boundary@,
                out@ == parts_bytes(b, es.take(i as int)),
            decreases self.parts@.len() - i,
        {
            let p = &self.parts[i];
            let head = render_head(self.boundary.as_str(), &p.key, &p.filename, &p.mime, &p.headers);
            append_bytes(&mut out, head.as_slice());
            append_bytes(&mut out, p.value.as_slice());
            append_crlf(&mut out);
            proof {
                lemma_parts_take_next(b, es, i as int);
                assert(es[i as int] == p.entry());
                assert(out@ =~= parts_bytes(b, es.take(i as int)) + (head_bytes(b, es[i as int].0)
                    + es[i as int].1 + crlf()));
            }
            i = i + 1;
        }
        assert(es.take(i as int) =~= es);
        let tail = render_closing(self.boundary.as_str());
        append_bytes(&mut out, tail.as_slice());
        out
    }
}

/// Where the content of a streamed part comes from.
pub enum StreamingContent<R> {
    /// Bytes held in memory, for small fields.
    Bytes(Vec<u8>),
    /// A producer read once, for large content such as files.
    Reader(R),
}

impl<R: ByteSource> StreamingContent<R> {
    /// Whether reading this content cannot fail: bytes in memory, or a
    /// producer that does not fail.
    pub open spec fn healthy(&self) -> bool {
        match self {
            StreamingContent::Bytes(_) => true,
            StreamingContent::Reader(r) => r.healthy(),
        }
    }

    /// The bytes this content still yields.
    pub open spec fn bytes_view(&self) -> Seq<u8> {
        match self {
            StreamingContent::Bytes(v) => v@,
            StreamingContent::Reader(r) => r.unread(),
        }
    }
}

/// One field of a form whose content may be streamed.
pub struct StreamingPart<R> {
    pub key: String,
    pub content: StreamingContent<R>,
    pub filename: Option<String>,
    /// The media type, as text.
    pub mime: Option<String>,
    /// Extra headers, in the order they are written.
    pub headers: Vec<(String, String)>,
}

impl<R: ByteSource> StreamingPart<R> {
    /// The header fields and content this part is written from.
    pub open spec fn entry(&self) -> (HeadView, Seq<u8>) {
        (head_view(self.key, self.filename, self.mime, self.headers@), self.content.bytes_view())
    }

    /// A part whose content is held in memory.
    pub fn text(key: &str, value: &[u8]) -> (r: StreamingPart<R>)
        ensures
            r.key@ == key@,
            r.content matches StreamingContent::Bytes(v) && v@ == value@,
            r.filename is None,
            r.mime is None,
            r.headers@.len() == 0,
    {
        StreamingPart {
            key: key.to_owned(),
            content: StreamingContent::Bytes(vstd::slice::slice_to_vec(value)),
            filename: None,
            mime: None,
            headers: Vec::new(),
        }
    }

    /// A part whose content is pulled from `reader` while the body is written.
    pub fn from_reader(key: &str, reader: R) -> (r: StreamingPart<R>)
        ensures
            r.key@ == key@,
            r.content == StreamingContent::Reader(reader),
            r.filename is None,
            r.mime is None,
            r.headers@.len() == 0,
    {
        StreamingPart {
            key: key.to_owned(),
            content: StreamingContent::Reader(reader),
            filename: None,
            mime: None,
            headers: Vec::new(),
        }
    }

    /// A part streamed from an opened file: its media type is guessed from
    /// the path, and its file name is the path's last component.
    pub fn file(key: &str, path: &str, reader: R) -> (r: StreamingPart<R>)
        ensures
            r.key@ == key@,
            r.content == StreamingContent::Reader(reader),
            opt_chars(r.filename) == path_file_name(path@),
            opt_chars(r.mime) == Some(guessed_mime(path@)),
            r.headers@.len() == 0,
    {
        StreamingPart {
            key: key.to_owned(),
            content: StreamingContent::Reader(reader),
            filename: file_name_of(path),
            mime: Some(guess_mime(path)),
            headers: Vec::new(),
        }
    }

    /// Sets a parsed media type.
    pub fn mime(self, mime: MediaType) -> (r: StreamingPart<R>)
        ensures
            opt_chars(r.mime) == Some(mime@),
            r.key == self.key,
            r.content == self.content,
            r.filename == self.filename,
            r.headers == self.headers,
    {
        StreamingPart { mime: Some(mime.text), ..self }
    }

    /// Sets the media type parsed from `mime`, or fails where it does not parse.
    pub fn mime_str(self, mime: &str) -> (r: Result<StreamingPart<R>, BodyError>)
        ensures
            match parsed_mime(mime@) {
                Some(t) => r matches Ok(p) && opt_chars(p.mime) == Some(t) && p.key == self.key
                    && p.content == self.content && p.filename == self.filename && p.headers
                    == self.headers,
                None => r matches Err(e) && e == BodyError::MimeParseFailed,
            },
    {
        match parse_mime(mime) {
            Some(t) => Ok(StreamingPart { mime: Some(t), ..self }),
            None => Err(BodyError::MimeParseFailed),
        }
    }

    pub fn filename(self, name: &str) -> (r: StreamingPart<R>)
        ensures
            opt_chars(r.filename) == Some(name@),
            r.key == self.key,
            r.content == self.content,
            r.mime == self.mime,
            r.headers == self.headers,
    {
        StreamingPart { filename: Some(name.to_owned()), ..self }
    }

    /// Appends headers, keeping their order.
    pub fn headers(self, headers: Vec<(String, String)>) -> (r: StreamingPart<R>)
        ensures
            r.headers@ == self.headers@ + headers@,
            r.key == self.key,
            r.content == self.content,
            r.filename == self.filename,
            r.mime == self.mime,
    {
        let mut p = self;
        let mut extra = headers;
        p.headers.append(&mut extra);
        p
    }

    /// The header block of this part: everything before its content.
    fn build_header(&self, boundary: &str) -> (r: Vec<u8>)
        ensures
            r@ == head_bytes(boundary@, self.entry().0),
    {
        render_head(boundary, &self.key, &self.filename, &self.mime, &self.headers)
    }
}

/// A form whose parts may stream their content.
pub struct StreamingForm<R> {
    pub parts: Vec<StreamingPart<R>>,
    pub boundary: String,
}

impl<R: ByteSource> Default for StreamingForm<R> {
    fn default() -> (r: StreamingForm<R>)
        ensures
            r.parts@.len() == 0,
            generated_boundary(r.boundary@),
    {
        StreamingForm::new()
    }
}

impl<R: ByteSource> StreamingForm<R> {
    pub open spec fn entries(&self) -> Seq<(HeadView, Seq<u8>)> {
        self.parts@.map_values(|p: StreamingPart<R>| p.entry())
    }

    /// The body this form is written as.
    pub open spec fn encoded(&self) -> Seq<u8> {
        form_bytes(self.boundary@, self.entries())
    }

    /// Whether no part's content can fail to be read.
    pub open spec fn sources_healthy(&self) -> bool {
        forall|i: int| 0 <= i < self.parts@.len() ==> (#[trigger] self.parts@[i]).content.healthy()
    }

    pub fn new() -> (r: StreamingForm<R>)
        ensures
            r.parts@.len() == 0,
            generated_boundary(r.boundary@),
    {
        StreamingForm { parts: Vec::new(), boundary: new_boundary() }
    }

    pub fn boundary(&self) -> (r: &str)
        ensures
            r@ == self.boundary@,
    {
        self.boundary.as_str()
    }

    /// Adds a text field at the end.
    pub fn text(self, key: &str, value: &[u8]) -> (r: StreamingForm<R>)
        ensures
            r.parts@.len() == self.parts@.len() + 1,
            r.parts@.drop_last() == self.parts@,
            r.parts@.last().key@ == key@,
            r.parts@.last().content matches StreamingContent::Bytes(v) && v@ == value@,
            r.parts@.last().filename is None,
            r.parts@.last().mime is None,
            r.parts@.last().headers@.len() == 0,
            r.boundary == self.boundary,
            self.sources_healthy() ==> r.sources_healthy(),
    {
        let r = self.part(StreamingPart::text(key, value));
        assert(r.parts@.drop_last() =~= self.parts@);
        r
    }

    /// Adds a part at the end.
    pub fn part(self, part: StreamingPart<R>) -> (r: StreamingForm<R>)
        ensures
            r.parts@ == self.parts@.push(part),
            r.boundary == self.boundary,
            self.sources_healthy() && part.content.healthy() ==> r.sources_healthy(),
    {
        let mut f = self;
        f.parts.push(part);
        f
    }

    /// Adds a file streamed from `reader` at the end (see [`StreamingPart::file`]).
    pub fn file(self, key: &str, path: &str, reader: R) -> (r: StreamingForm<R>)
        ensures
            r.parts@.len() == self.parts@.len() + 1,
            r.parts@.drop_last() == self.parts@,
            r.parts@.last().key@ == key@,
            r.parts@.last().content == StreamingContent::Reader(reader),
            opt_chars(r.parts@.last().filename) == path_file_name(path@),
            opt_chars(r.parts@.last().mime) == Some(guessed_mime(path@)),
            r.parts@.last().headers@.len() == 0,
            r.boundary == self.boundary,
    {
        let r = self.part(StreamingPart::file(key, path, reader));
        assert(r.parts@.drop_last() =~= self.parts@);
        r
    }

    /// A reader that yields the body of this form, on demand.
    pub fn into_reader(self) -> (r: StreamingFormReader<R>)
        ensures
            r.wf(),
            r.remaining() == self.encoded(),
            r.sources_healthy() == self.sources_healthy(),
    {
        StreamingFormReader::new(self.parts, self.boundary)
    }
}

/// Where the reader stands in the body.
pub enum ReaderState {
    /// The header block of the next part, or the end, comes next.
    PartHeader,
    /// The content of the current part is being handed out.
    PartContent,
    /// The line break after the current part's content comes next.
    PartTrailer,
    /// The closing delimiter comes next.
    Finished,
    /// Nothing is left.
    Done,
}

impl ReaderState {
    fn is_content(&self) -> (r: bool)
        ensures
            r == (*self is PartContent),
    {
        match self {
            ReaderState::PartContent => true,
            _ => false,
        }
    }
}

/// How far a state is from the end, for the transitions made without output.
pub open spec fn state_rank(s: ReaderState) -> nat {
    match s {
        ReaderState::PartContent => 3,
        ReaderState::PartHeader => 2,
        ReaderState::PartTrailer => 2,
        ReaderState::Finished => 1,
        ReaderState::Done => 0,
    }
}

/// A pull-based reader of a multipart body. It holds at most one fixed
/// fragment (a header block, a line break or the closing delimiter) besides
/// what the current part's content yields.
pub struct StreamingFormReader<R> {
    parts: Vec<StreamingPart<R>>,
    boundary: String,
    state: ReaderState,
    active: Option<StreamingContent<R>>,
    active_offset: usize,
    pending_bytes: Vec<u8>,
    pending_offset: usize,
}

impl<R: ByteSource> StreamingFormReader<R> {
    pub closed spec fn wf(&self) -> bool {
        &&& self.pending_offset <= self.pending_bytes@.len()
        &&& self.state is PartContent ==> self.active is Some
        &&& (self.active matches Some(StreamingContent::Bytes(v)) ==> self.active_offset
            <= v@.len())
    }

    /// The part of the current fragment not yet handed out.
    closed spec fn pending(&self) -> Seq<u8> {
        self.pending_bytes@.subrange(self.pending_offset as int, self.pending_bytes@.len() as int)
    }

    /// What the current part's content still yields.
    closed spec fn active_rest(&self) -> Seq<u8> {
        match self.active {
            Some(StreamingContent::Bytes(v)) => v@.subrange(
                self.active_offset as int,
                v@.len() as int,
            ),
            Some(StreamingContent::Reader(r)) => r.unread(),
            None => Seq::empty(),
        }
    }

    closed spec fn queue(&self) -> Seq<(HeadView, Seq<u8>)> {
        self.parts@.map_values(|p: StreamingPart<R>| p.entry())
    }

    /// What the reader yields after the current fragment.
    closed spec fn tail(&self) -> Seq<u8> {
        match self.state {
            ReaderState::PartHeader => form_bytes(self.boundary@, self.queue()),
            ReaderState::PartContent => self.active_rest() + crlf() + form_bytes(
                self.boundary@,
                self.queue(),
            ),
            ReaderState::PartTrailer => crlf() + form_bytes(self.boundary@, self.queue()),
            ReaderState::Finished => closing(self.boundary@),
            ReaderState::Done => Seq::empty(),
        }
    }

    /// Every byte the reader has yet to yield.
    pub closed spec fn remaining(&self) -> Seq<u8> {
        self.pending() + self.tail()
    }

    /// Whether no content still to be read can fail: each part's content is
    /// in memory or comes from a producer that does not fail.
    pub closed spec fn sources_healthy(&self) -> bool {
        &&& (self.active matches Some(c) ==> c.healthy())
        &&& forall|i: int|
            0 <= i < self.parts@.len() ==> (#[trigger] self.parts@[i]).content.healthy()
    }

    /// The requests made so far of the current part's producer, if its
    /// content is one.
    pub closed spec fn active_pulls(&self) -> Seq<Pull> {
        match self.active {
            Some(StreamingContent::Reader(r)) => r.pulls(),
            _ => Seq::empty(),
        }
    }

    /// Whether the next call pulls from a producer: nothing is pending and the
    /// current part's content is a producer.
    pub closed spec fn pulls_next(&self) -> bool {
        &&& self.pending().len() == 0
        &&& self.state is PartContent
        &&& self.active matches Some(StreamingContent::Reader(_))
    }

    fn new(parts: Vec<StreamingPart<R>>, boundary: String) -> (r: StreamingFormReader<R>)
        ensures
            r.wf(),
            r.sources_healthy() == (forall|i: int|
                0 <= i < parts@.len() ==> (#[trigger] parts@[i]).content.healthy()),
            r.remaining() == form_bytes(
                boundary@,
                parts@.map_values(|p: StreamingPart<R>| p.entry()),
            ),
    {
        let r = StreamingFormReader {
            parts,
            boundary,
            state: ReaderState::PartHeader,
            active: None,
            active_offset: 0,
            pending_bytes: Vec::new(),
            pending_offset: 0,
        };
        assert(r.pending() =~= Seq::<u8>::empty());
        assert(r.remaining() =~= r.tail());
        r
    }

    /// Moves at most `max` bytes of the current fragment to the empty `out`.
    fn drain_pending(&mut self, out: &mut Vec<u8>, max: usize)
        requires
            old(self).wf(),
            old(out)@.len() == 0,
        ensures
            final(self).wf(),
            final(self).parts == old(self).parts,
            final(self).boundary == old(self).boundary,
            final(self).state == old(self).state,
            final(self).active == old(self).active,
            final(self).active_offset == old(self).active_offset,
            old(self).pending() == final(out)@ + final(self).pending(),
            final(out)@.len() == if old(self).pending().len() < max {
                old(self).pending().len()
            } else {
                max as nat
            },
    {
        let len = self.pending_bytes.len();
        if self.pending_offset >= len {
            return;
        }
        let start = self.pending_offset;
        let avail = len - start;
        let n: usize = if avail < max {
            avail
        } else {
            max
        };
        let mut j: usize = 0;
        while j < n
            invariant
                j <= n,
                n <= avail,
                start + avail == len,
                len == self.pending_bytes@.len(),
                self.pending_offset == start,
                out@ == self.pending_bytes@.subrange(start as int, start + j),
            decreases n - j,
        {
            out.push(self.pending_bytes[start + j]);
            j = j + 1;
            assert(out@ =~= self.pending_bytes@.subrange(start as int, start + j));
        }
        self.pending_offset = start + n;
        assert(old(self).pending() =~= out@ + self.pending());
        if self.pending_offset >= len {
            self.pending_bytes.clear();
            self.pending_offset = 0;
            assert(self.pending() =~= Seq::<u8>::empty());
        }
    }

    /// Starts the next part: its header block becomes the current fragment,
    /// of which at most `max` bytes move to `out`.
    fn begin_part(&mut self, out: &mut Vec<u8>, max: usize)
        requires
            old(self).wf(),
            old(self).state is PartHeader,
            old(self).parts@.len() > 0,
            old(self).pending().len() == 0,
            old(out)@.len() == 0,
            max > 0,
        ensures
            final(self).wf(),
            0 < final(out)@.len() <= max,
            old(self).remaining() == final(out)@ + final(self).remaining(),
            old(self).sources_healthy() ==> final(self).sources_healthy(),
    {
        let ghost q = self.queue();
        let ghost ps = self.parts@;
        let part = self.parts.remove(0);
        proof {
            lemma_parts_front(self.boundary@, q);
            assert(self.queue() =~= q.skip(1));
            assert(q[0] == part.entry());
        }
        let header = part.build_header(self.boundary.as_str());
        self.set_pending(header);
        self.active = Some(part.content);
        self.active_offset = 0;
        self.state = ReaderState::PartContent;
        proof {
            let b = self.boundary@;
            assert(self.pending() =~= head_bytes(b, q[0].0));
            assert(self.active_rest() =~= q[0].1);
            assert(old(self).pending() =~= Seq::<u8>::empty());
            assert(old(self).remaining() =~= self.pending() + self.tail());
        }
        assert(self.parts@ =~= ps.skip(1));
        self.drain_pending(out, max);
    }

    /// Hands out the next bytes of the current part's content, or, where it
    /// has none left, moves on to the line break after it (`Ok(None)`).
    fn content_step(&mut self, max: usize) -> (r: Result<Option<Vec<u8>>, BodyError>)
        requires
            old(self).wf(),
            old(self).state is PartContent,
            old(self).pending().len() == 0,
            max > 0,
        ensures
            final(self).wf(),
            r matches Ok(Some(v)) ==> {
                &&& 0 < v@.len() <= max
                &&& old(self).remaining() == v@ + final(self).remaining()
            },
            r matches Ok(None) ==> {
                &&& final(self).state is PartTrailer
                &&& final(self).pending().len() == 0
                &&& old(self).remaining() == final(self).remaining()
            },
            r is Err ==> r == Err::<Option<Vec<u8>>, BodyError>(BodyError::SourceReadFailed),
            r is Err ==> old(self).active matches Some(StreamingContent::Reader(_)),
            old(self).active matches Some(StreamingContent::Reader(_)) ==> (r is Err <==> (
            final(self).active_pulls().len() == old(self).active_pulls().len() + 1
                && final(self).active_pulls().last().got is None)),
            r matches Ok(None) ==> final(self).active is None,
            old(self).sources_healthy() ==> (r is Ok && final(self).sources_healthy()),
            final(self).parts == old(self).parts,
    {
        let active = self.active.take();
        match active {
            Some(StreamingContent::Bytes(bytes)) => {
                let start = self.active_offset;
                let len = bytes.len();
                if start < len {
                    let avail = len - start;
                    let n: usize = if avail < max {
                        avail
                    } else {
                        max
                    };
                    let mut out: Vec<u8> = Vec::new();
                    let mut j: usize = 0;
                    while j < n
                        invariant
                            j <= n,
                            n <= avail,
                            start + avail == len,
                            len == bytes@.len(),
                            out@ == bytes@.subrange(start as int, start + j),
                        decreases n - j,
                    {
                        out.push(bytes[start + j]);
                        j = j + 1;
                        assert(out@ =~= bytes@.subrange(start as int, start + j));
                    }
                    self.active_offset = start + n;
                    if start + n == len {
                        self.state = ReaderState::PartTrailer;
                    } else {
                        self.active = Some(StreamingContent::Bytes(bytes));
                    }
                    assert(old(self).remaining() =~= out@ + self.remaining());
                    Ok(Some(out))
                } else {
                    self.state = ReaderState::PartTrailer;
                    assert(old(self).remaining() =~= self.remaining());
                    Ok(None)
                }
            },
            Some(StreamingContent::Reader(reader)) => {
                let mut reader = reader;
                match reader.pull(max) {
                    Ok(v) => {
                        if v.len() == 0 {
                            self.state = ReaderState::PartTrailer;
                            assert(old(self).remaining() =~= self.remaining());
                            Ok(None)
                        } else {
                            self.active = Some(StreamingContent::Reader(reader));
                            assert(old(self).remaining() =~= v@ + self.remaining());
                            Ok(Some(v))
                        }
                    },
                    Err(_) => {
                        self.active = Some(StreamingContent::Reader(reader));
                        Err(BodyError::SourceReadFailed)
                    },
                }
            },
            None => {
                self.state = ReaderState::PartTrailer;
                Ok(None)
            },
        }
    }

    /// Yields the next bytes of the body, at most `max` of them. An empty
    /// result, where `max` is positive, means the body has been read to its end,
    /// and every later call yields nothing again.
    #[verifier::rlimit(100)]
    #[verifier::spinoff_prover]
    pub fn read(&mut self, max: usize) -> (r: Result<Vec<u8>, BodyError>)
        requires
            old(self).wf(),
        ensures
            final(self).wf(),
            r matches Ok(v) ==> {
                &&& v@.len() <= max
                &&& old(self).remaining() == v@ + final(self).remaining()
                &&& (v@.len() == 0 && max > 0 ==> old(self).remaining().len() == 0)
            },
            r is Err ==> r == Err::<Vec<u8>, BodyError>(BodyError::SourceReadFailed),
            r is Err ==> old(self).pulls_next(),
            old(self).pulls_next() ==> (r is Err <==> (final(self).active_pulls().len()
                == old(self).active_pulls().len() + 1
                && final(self).active_pulls().last().got is None)),
            old(self).sources_healthy() ==> (r is Ok && final(self).sources_healthy()),
            old(self).remaining().len() == 0 ==> (r matches Ok(v) && v@.len() == 0
                && final(self).remaining().len() == 0),
    {
        let mut out: Vec<u8> = Vec::new();
        if max == 0 {
            assert(old(self).remaining() =~= out@ + self.remaining());
            return Ok(out);
        }
        self.drain_pending(&mut out, max);
        if out.len() > 0 {
            return Ok(out);
        }
        assert(self.pending().len() == 0);
        assert(self.remaining() =~= self.tail());
        if self.state.is_content() {
            match self.content_step(max) {
                Ok(Some(v)) => {
                    return Ok(v);
                },
                Ok(None) => {
                    self.emit_trailer(&mut out, max);
                    return Ok(out);
                },
                Err(e) => {
                    return Err(e);
                },
            }
        }
        loop
            invariant
                self.wf(),
                max > 0,
                out@.len() == 0,
                self.pending().len() == 0,
                !(old(self).state is PartContent),
                !(self.state is PartContent),
                self.remaining() == old(self).remaining(),
                old(self).sources_healthy() ==> self.sources_healthy(),
            decreases state_rank(self.state),
        {
            match self.state {
                ReaderState::PartHeader => {
                    if self.parts.len() > 0 {
                        self.begin_part(&mut out, max);
                        return Ok(out);
                    } else {
                        self.close_queue();
                    }
                },
                ReaderState::PartContent => {
                    return Ok(out);
                },
                ReaderState::PartTrailer => {
                    self.emit_trailer(&mut out, max);
                    return Ok(out);
                },
                ReaderState::Finished => {
                    self.emit_closing(&mut out, max);
                    return Ok(out);
                },
                ReaderState::Done => {
                    assert(old(self).remaining() =~= out@ + self.remaining());
                    return Ok(out);
                },
            }
        }
    }

    /// With no part left, moves on to the closing delimiter.
    fn close_queue(&mut self)
        requires
            old(self).wf(),
            old(self).state is PartHeader,
            old(self).parts@.len() == 0,
            old(self).pending().len() == 0,
        ensures
            final(self).wf(),
            final(self).state is Finished,
            final(self).pending().len() == 0,
            final(self).remaining() == old(self).remaining(),
            old(self).sources_healthy() ==> final(self).sources_healthy(),
    {
        self.state = ReaderState::Finished;
        proof {
            assert(self.queue() =~= Seq::<(HeadView, Seq<u8>)>::empty());
            assert(old(self).remaining() =~= self.remaining());
        }
    }

    /// Makes the line break after a part's content the current fragment, and
    /// moves at most `max` bytes of it to `out`.
    fn emit_trailer(&mut self, out: &mut Vec<u8>, max: usize)
        requires
            old(self).wf(),
            old(self).state is PartTrailer,
            old(self).pending().len() == 0,
            old(out)@.len() == 0,
            max > 0,
        ensures
            final(self).active == old(self).active,
            final(self).wf(),
            0 < final(out)@.len() <= max,
            old(self).remaining() == final(out)@ + final(self).remaining(),
            old(self).sources_healthy() ==> final(self).sources_healthy(),
    {
        let mut line: Vec<u8> = Vec::new();
        append_crlf(&mut line);
        self.set_pending(line);
        self.state = ReaderState::PartHeader;
        assert(old(self).remaining() =~= self.pending() + self.tail());
        self.drain_pending(out, max);
    }

    /// Makes the closing delimiter the current fragment, and moves at most
    /// `max` bytes of it to `out`.
    fn emit_closing(&mut self, out: &mut Vec<u8>, max: usize)
        requires
            old(self).wf(),
            old(self).state is Finished,
            old(self).pending().len() == 0,
            old(out)@.len() == 0,
            max > 0,
        ensures
            final(self).wf(),
            0 < final(out)@.len() <= max,
            old(self).remaining() == final(out)@ + final(self).remaining(),
            old(self).sources_healthy() ==> final(self).sources_healthy(),
    {
        let last = render_closing(self.boundary.as_str());
        self.set_pending(last);
        self.state = ReaderState::Done;
        assert(old(self).remaining() =~= self.pending() + self.tail());
        self.drain_pending(out, max);
    }

    /// Reads the rest of the body, `chunk` bytes at most at a time. The
    /// result does not depend on `chunk`.
    pub fn read_to_end(&mut self, chunk: usize) -> (r: Result<Vec<u8>, BodyError>)
        requires
            old(self).wf(),
            chunk > 0,
        ensures
            final(self).wf(),
            r matches Ok(v) ==> (v@ == old(self).remaining() && final(self).remaining().len()
                == 0),
            r is Err ==> r == Err::<Vec<u8>, BodyError>(BodyError::SourceReadFailed),
            old(self).sources_healthy() ==> r is Ok,
    {
        let mut all: Vec<u8> = Vec::new();
        loop
            invariant
                self.wf(),
                chunk > 0,
                old(self).sources_healthy() ==> self.sources_healthy(),
                old(self).remaining() == all@ + self.remaining(),
            decreases self.remaining().len(),
        {
            match self.read(chunk) {
                Ok(v) => {
                    if v.len() == 0 {
                        assert(all@ + self.remaining() =~= all@);
                        return Ok(all);
                    }
                    append_bytes(&mut all, v.as_slice());
                },
                Err(e) => {
                    return Err(e);
                },
            }
        }
    }

    /// Makes `bytes` the current fragment.
    fn set_pending(&mut self, bytes: Vec<u8>)
        ensures
            final(self).pending_bytes == bytes,
            final(self).pending_offset == 0,
            final(self).parts == old(self).parts,
            final(self).boundary == old(self).boundary,
            final(self).state == old(self).state,
            final(self).active == old(self).active,
            final(self).active_offset == old(self).active_offset,
    {
        self.pending_bytes = bytes;
        self.pending_offset = 0;
    }
}

/// A form's body names its parts, each through its disposition line, in the
/// order in which they were added.
pub proof fn lemma_form_names_in_order(form: Form)
    ensures
        forall|i: int|
            #![trigger form.parts@[i]]
            0 <= i < form.parts@.len() ==> name_offset(form.boundary@, form.entries(), i)
                + named(form.parts@[i].key@).len() <= form.encoded().len()
                && form.encoded().subrange(
                name_offset(form.boundary@, form.entries(), i),
                name_offset(form.boundary@, form.entries(), i) + named(form.parts@[i].key@).len(),
            ) == named(form.parts@[i].key@),
        forall|i: int, j: int|
            #![trigger name_offset(form.boundary@, form.entries(), i), name_offset(form.boundary@, form.entries(), j)]
            0 <= i < j < form.parts@.len() ==> name_offset(form.boundary@, form.entries(), i)
                < name_offset(form.boundary@, form.entries(), j),
{
    let es = form.entries();
    lemma_names_in_order(form.boundary@, es);
    assert forall|i: int|
        #![trigger form.parts@[i]]
        0 <= i < form.parts@.len() implies name_offset(form.boundary@, es, i) + named(
            form.parts@[i].key@,
        ).len() <= form.encoded().len() && form.encoded().subrange(
            name_offset(form.boundary@, es, i),
            name_offset(form.boundary@, es, i) + named(form.parts@[i].key@).len(),
        ) == named(form.parts@[i].key@) by {
        assert(es[i].0.key == form.parts@[i].key@);
    }
}

/// The eager encoder and the streaming reader write the same bytes: a form and
/// a streaming form with the same boundary and, part for part, the same key,
/// file name, media type, headers and content have the same body.
pub proof fn lemma_eager_matches_streaming<R: ByteSource>(
    form: Form,
    streaming: StreamingForm<R>,
)
    requires
        form.boundary@ == streaming.boundary@,
        form.parts@.len() == streaming.parts@.len(),
        forall|i: int|
            #![trigger form.parts@[i]]
            0 <= i < form.parts@.len() ==> {
                &&& form.parts@[i].key == streaming.parts@[i].key
                &&& form.parts@[i].filename == streaming.parts@[i].filename
                &&& form.parts@[i].mime == streaming.parts@[i].mime
                &&& form.parts@[i].headers@ == streaming.parts@[i].headers@
                &&& form.parts@[i].value@ == streaming.parts@[i].content.bytes_view()
            },
    ensures
        form.encoded() == streaming.encoded(),
{
    assert(form.entries() =~= streaming.entries());
}

} // verus!
