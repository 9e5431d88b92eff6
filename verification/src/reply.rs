//! What a request is answered with.

use vstd::prelude::*;
use vstd::string::*;

verus! {

/// The headers that replies have.
#[derive(Clone, Copy, Debug, PartialEq, Eq, Structural)]
pub enum Header {
    ContentType,
    Location,
    AcceptRanges,
    ContentLength,
    ContentDisposition,
    /// The marker header of the connection's barrier.
    ConnMarker,
    ContentRange,
    Connection,
}

/// The body of a reply.
#[derive(Debug)]
pub enum ReplyBody {
    Empty,
    Text(String),
    /// Bytes of the file that was asked for: from that offset (first), that many
    /// (second).
    File(u64, u64),
}

/// A reply: a status code, headers in the order in which they are set, a body.
#[derive(Debug)]
pub struct Reply {
    pub status: u16,
    pub headers: Vec<(Header, String)>,
    pub body: ReplyBody,
}

/// What the body of a reply is.
#[verifier::ext_equal]
pub enum Payload {
    Empty,
    Text(Seq<char>),
    File(u64, u64),
}

/// What a reply is.
#[verifier::ext_equal]
pub struct Answer {
    pub status: u16,
    pub headers: Seq<(Header, Seq<char>)>,
    pub body: Payload,
}

impl View for ReplyBody {
    type V = Payload;

    open spec fn view(&self) -> Payload {
        match self {
            ReplyBody::Empty => Payload::Empty,
            ReplyBody::Text(s) => Payload::Text(s@),
            ReplyBody::File(offset, len) => Payload::File(*offset, *len),
        }
    }
}

impl View for Reply {
    type V = Answer;

    open spec fn view(&self) -> Answer {
        Answer {
            status: self.status,
            headers: Seq::new(
                self.headers@.len(),
                |i: int| (self.headers@[i].0, self.headers@[i].1@),
            ),
            body: self.body@,
        }
    }
}

impl Answer {
    /// With one more header.
    pub open spec fn with(self, header: Header, value: Seq<char>) -> Answer {
        Answer { headers: self.headers.push((header, value)), ..self }
    }

    /// The header is there with that value.
    pub open spec fn has(self, header: Header, value: Seq<char>) -> bool {
        self.headers.contains((header, value))
    }
}

/// A reply that is nothing but a status code.
pub open spec fn bare(status: u16) -> Answer {
    Answer { status, headers: Seq::empty(), body: Payload::Empty }
}

/// A plain page with a message on a line of its own.
pub open spec fn message(status: u16, msg: Seq<char>) -> Answer {
    Answer {
        status,
        headers: seq![(Header::ContentType, "text/plain; charset=utf-8"@)],
        body: Payload::Text(msg + "\n"@),
    }
}

/// The request is refused.
pub open spec fn forbidden() -> Answer {
    message(403, "403 Forbidden"@)
}

/// There is no such thing.
pub open spec fn not_found() -> Answer {
    message(404, "404 Not Found"@)
}

/// The server could not do it.
pub open spec fn server_error() -> Answer {
    message(500, "500 Internal Server Error"@)
}

impl Reply {
    /// A reply without headers and without a body.
    pub fn new(status: u16) -> (r: Self)
        ensures
            r@ == bare(status),
            r@.status == status && r@.headers.len() == 0 && r@.body == Payload::Empty,
    {
        let r = Reply { status, headers: Vec::new(), body: ReplyBody::Empty };
        assert(r@ =~= bare(status));
        r
    }

    /// Sets one more header.
    pub fn header(self, header: Header, value: String) -> (r: Self)
        ensures
            r@ == self@.with(header, value@),
            r@.headers == self@.headers.push((header, value@)),
            r@.status == self@.status && r@.body == self@.body,
    {
        let mut r = self;
        r.headers.push((header, value));
        assert(r@ =~= self@.with(header, value@));
        r
    }

    /// Sets the body.
    pub fn body(self, body: ReplyBody) -> (r: Self)
        ensures
            r@ == (Answer { body: body@, ..self@ }),
    {
        let r = Reply { status: self.status, headers: self.headers, body };
        assert(r@ =~= Answer { body: body@, ..self@ });
        r
    }
}

/// A plain page with a message.
pub fn error_page(status: u16, msg: &str) -> (r: Reply)
    ensures
        r@ == message(status, msg@),
        r@.status == status,
        r@.headers == seq![(Header::ContentType, "text/plain; charset=utf-8"@)],
        r@.body == Payload::Text(msg@ + "\n"@),
{
    let mut text = String::from_str(msg);
    text.append("\n");
    let r = Reply::new(status).header(
        Header::ContentType,
        String::from_str("text/plain; charset=utf-8"),
    ).body(ReplyBody::Text(text));
    assert(r@ =~= message(status, msg@));
    r
}

/// What a reply is seen as is the reply: its status, each of its headers in its
/// place, its body.
pub proof fn law_reply_is_seen_whole(r: Reply)
    ensures
        r@.status == r.status,
        r@.headers.len() == r.headers@.len(),
        forall|i: int|
            0 <= i < r.headers@.len() ==> #[trigger] r@.headers[i] == (
                r.headers@[i].0,
                r.headers@[i].1@,
            ),
        r.body is Empty <==> r@.body is Empty,
        r.body matches ReplyBody::Text(s) ==> r@.body == Payload::Text(s@),
        r.body matches ReplyBody::File(offset, len) ==> r@.body == Payload::File(offset, len),
{
}

} // verus!
