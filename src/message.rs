//! The values that are encoded: log records (`Command`) and the requests and
//! responses of the wire protocol.
use vstd::prelude::*;

use crate::codec::{
    fields_fit, frame_bytes, get_fields, lemma_fields_bytes_one, lemma_fields_bytes_two,
    lemma_fields_bytes_none, lemma_fields_end, lemma_fields_stable, lemma_frame_prefix, lemma_frame_round_trip, lemma_parse_fields_len,
    parse_frame, put_field,
    reports, Parse,
};
use crate::error::KvsError;

verus! {

/// A mutation, as it is appended to the log: `Put` sets a key to a value.
#[derive(Debug, PartialEq, Eq)]
pub enum Command {
    Put { key: String, value: String },
    Remove { key: String },
}

/// A command with its strings seen as character sequences.
pub ghost enum CommandView {
    Put { key: Seq<char>, value: Seq<char> },
    Remove { key: Seq<char> },
}

impl View for Command {
    type V = CommandView;

    open spec fn view(&self) -> CommandView {
        match self {
            Command::Put { key, value } => CommandView::Put { key: key@, value: value@ },
            Command::Remove { key } => CommandView::Remove { key: key@ },
        }
    }
}

impl CommandView {
    pub open spec fn key(self) -> Seq<char> {
        match self {
            CommandView::Put { key, .. } => key,
            CommandView::Remove { key } => key,
        }
    }

    pub open spec fn tag(self) -> u8 {
        match self {
            CommandView::Put { .. } => 0,
            CommandView::Remove { .. } => 1,
        }
    }

    pub open spec fn fields(self) -> Seq<Seq<char>> {
        match self {
            CommandView::Put { key, value } => seq![key, value],
            CommandView::Remove { key } => seq![key],
        }
    }

    /// Every string of the command can be given a length header.
    pub open spec fn fits(self) -> bool {
        fields_fit(self.fields())
    }

    /// The encoded command.
    pub open spec fn bytes(self) -> Seq<u8> {
        frame_bytes(self.tag(), self.fields())
    }
}

pub open spec fn command_arity(tag: u8) -> Option<nat> {
    if tag == 0 {
        Some(2)
    } else if tag == 1 {
        Some(1)
    } else {
        None
    }
}

pub open spec fn command_of(tag: u8, fs: Seq<Seq<char>>) -> CommandView {
    if tag == 0 {
        CommandView::Put { key: fs[0], value: fs[1] }
    } else {
        CommandView::Remove { key: fs[0] }
    }
}

/// Decodes the command at the front of `b`.
pub open spec fn parse_command(b: Seq<u8>) -> Parse<CommandView> {
    if b.len() == 0 {
        Parse::Partial
    } else {
        match parse_frame(b, command_arity(b[0])) {
            Parse::Done(fs, e) => Parse::Done(command_of(b[0], fs), e),
            Parse::Partial => Parse::Partial,
            Parse::Bad => Parse::Bad,
        }
    }
}

/// An encoded command decodes to itself, followed by anything, and ends
/// exactly where its bytes end.
pub proof fn lemma_command_round_trip(c: CommandView, rest: Seq<u8>)
    requires
        c.fits(),
    ensures
        parse_command(c.bytes() + rest) == Parse::Done(c, c.bytes().len() as int),
{
    lemma_frame_round_trip(c.tag(), c.fields(), rest);
}

/// A command decodes the same way whatever follows its last byte.
pub proof fn lemma_command_stable(b: Seq<u8>, b2: Seq<u8>)
    requires
        parse_command(b) matches Parse::Done(_, n) && n <= b2.len() && b2.take(n) == b.take(n),
    ensures
        parse_command(b2) == parse_command(b),
{
    let n = parse_command(b)->Done_1;
    lemma_fields_end(b, 1, command_arity(b[0])->Some_0);
    assert(b2[0] == b2.take(n)[0]);
    lemma_fields_stable(b, b2, 1, command_arity(b[0])->Some_0);
}

/// A decoded command takes at least its tag byte and no more than the bytes.
pub proof fn lemma_command_end(b: Seq<u8>)
    ensures
        parse_command(b) matches Parse::Done(_, n) ==> 1 <= n <= b.len(),
{
    if b.len() > 0 && command_arity(b[0]) is Some {
        lemma_fields_end(b, 1, command_arity(b[0])->Some_0);
    }
}

/// Every strict prefix of an encoded command decodes as incomplete.
pub proof fn lemma_command_prefix(c: CommandView, j: int)
    requires
        c.fits(),
        0 <= j < c.bytes().len(),
    ensures
        parse_command(c.bytes().take(j)) == Parse::<CommandView>::Partial,
{
    if j > 0 {
        lemma_frame_prefix(c.tag(), c.fields(), j);
    }
}

/// Encodes a command.
pub fn encode_command(c: &Command) -> (r: Vec<u8>)
    ensures
        r@ == c@.bytes(),
{
    let mut out: Vec<u8> = Vec::new();
    match c {
        Command::Put { key, value } => {
            out.push(0u8);
            put_field(&mut out, key.as_str());
            put_field(&mut out, value.as_str());
            proof {
                lemma_fields_bytes_two(key@, value@);
                assert(out@ =~= c@.bytes());
            }
        },
        Command::Remove { key } => {
            out.push(1u8);
            put_field(&mut out, key.as_str());
            proof {
                lemma_fields_bytes_one(key@);
                assert(out@ =~= c@.bytes());
            }
        },
    }
    out
}

/// Decodes the command at the front of `b`: the command and the number of
/// bytes it takes, nothing if `b` ends before the command does, or an error
/// if `b` cannot begin a command.
pub fn decode_command(b: &[u8]) -> (r: Result<Option<(Command, usize)>, KvsError>)
    ensures
        reports(parse_command(b@), r),
{
    if b.len() == 0 {
        return Ok(None);
    }
    let tag = b[0];
    let k: usize = if tag == 0 {
        2
    } else if tag == 1 {
        1
    } else {
        return Err(KvsError::Serialization);
    };
    proof {
        lemma_parse_fields_len(b@, 1, k as nat);
    }
    match get_fields(b, 1, k) {
        Err(e) => Err(e),
        Ok(None) => Ok(None),
        Ok(Some((mut fs, end))) => {
            if tag == 0 {
                let value = fs.pop().unwrap();
                let key = fs.pop().unwrap();
                Ok(Some((Command::Put { key, value }, end)))
            } else {
                let key = fs.pop().unwrap();
                Ok(Some((Command::Remove { key }, end)))
            }
        },
    }
}

/// A request of the wire protocol: `Put` sets a key to a value.
#[derive(Debug, PartialEq, Eq)]
pub enum Request {
    Get { key: String },
    Put { key: String, value: String },
    Remove { key: String },
}

pub ghost enum RequestView {
    Get { key: Seq<char> },
    Put { key: Seq<char>, value: Seq<char> },
    Remove { key: Seq<char> },
}

impl View for Request {
    type V = RequestView;

    open spec fn view(&self) -> RequestView {
        match self {
            Request::Get { key } => RequestView::Get { key: key@ },
            Request::Put { key, value } => RequestView::Put { key: key@, value: value@ },
            Request::Remove { key } => RequestView::Remove { key: key@ },
        }
    }
}

impl RequestView {
    pub open spec fn tag(self) -> u8 {
        match self {
            RequestView::Get { .. } => 0,
            RequestView::Put { .. } => 1,
            RequestView::Remove { .. } => 2,
        }
    }

    pub open spec fn fields(self) -> Seq<Seq<char>> {
        match self {
            RequestView::Get { key } => seq![key],
            RequestView::Put { key, value } => seq![key, value],
            RequestView::Remove { key } => seq![key],
        }
    }

    pub open spec fn fits(self) -> bool {
        fields_fit(self.fields())
    }

    pub open spec fn bytes(self) -> Seq<u8> {
        frame_bytes(self.tag(), self.fields())
    }
}

pub open spec fn request_arity(tag: u8) -> Option<nat> {
    if tag == 0 || tag == 2 {
        Some(1)
    } else if tag == 1 {
        Some(2)
    } else {
        None
    }
}

pub open spec fn request_of(tag: u8, fs: Seq<Seq<char>>) -> RequestView {
    if tag == 0 {
        RequestView::Get { key: fs[0] }
    } else if tag == 1 {
        RequestView::Put { key: fs[0], value: fs[1] }
    } else {
        RequestView::Remove { key: fs[0] }
    }
}

/// Decodes the request at the front of `b`.
pub open spec fn parse_request(b: Seq<u8>) -> Parse<RequestView> {
    if b.len() == 0 {
        Parse::Partial
    } else {
        match parse_frame(b, request_arity(b[0])) {
            Parse::Done(fs, e) => Parse::Done(request_of(b[0], fs), e),
            Parse::Partial => Parse::Partial,
            Parse::Bad => Parse::Bad,
        }
    }
}

/// An encoded request decodes to itself, followed by anything, and ends
/// exactly where its bytes end.
pub proof fn lemma_request_round_trip(q: RequestView, rest: Seq<u8>)
    requires
        q.fits(),
    ensures
        parse_request(q.bytes() + rest) == Parse::Done(q, q.bytes().len() as int),
{
    lemma_frame_round_trip(q.tag(), q.fields(), rest);
}

/// A decoded request takes at least its tag byte and no more than the bytes.
pub proof fn lemma_request_end(b: Seq<u8>)
    ensures
        parse_request(b) matches Parse::Done(_, n) ==> 1 <= n <= b.len(),
{
    if b.len() > 0 && request_arity(b[0]) is Some {
        lemma_fields_end(b, 1, request_arity(b[0])->Some_0);
    }
}

/// Every strict prefix of an encoded request decodes as incomplete.
pub proof fn lemma_request_prefix(q: RequestView, j: int)
    requires
        q.fits(),
        0 <= j < q.bytes().len(),
    ensures
        parse_request(q.bytes().take(j)) == Parse::<RequestView>::Partial,
{
    if j > 0 {
        lemma_frame_prefix(q.tag(), q.fields(), j);
    }
}

/// Encodes a request.
pub fn encode_request(q: &Request) -> (r: Vec<u8>)
    ensures
        r@ == q@.bytes(),
{
    let mut out: Vec<u8> = Vec::new();
    match q {
        Request::Get { key } => {
            out.push(0u8);
            put_field(&mut out, key.as_str());
            proof {
                lemma_fields_bytes_one(key@);
            }
        },
        Request::Put { key, value } => {
            out.push(1u8);
            put_field(&mut out, key.as_str());
            put_field(&mut out, value.as_str());
            proof {
                lemma_fields_bytes_two(key@, value@);
            }
        },
        Request::Remove { key } => {
            out.push(2u8);
            put_field(&mut out, key.as_str());
            proof {
                lemma_fields_bytes_one(key@);
            }
        },
    }
    assert(out@ =~= q@.bytes());
    out
}

/// Decodes the request at the front of `b`, as `decode_command` does.
pub fn decode_request(b: &[u8]) -> (r: Result<Option<(Request, usize)>, KvsError>)
    ensures
        reports(parse_request(b@), r),
{
    if b.len() == 0 {
        return Ok(None);
    }
    let tag = b[0];
    let k: usize = if tag == 0 || tag == 2 {
        1
    } else if tag == 1 {
        2
    } else {
        return Err(KvsError::Serialization);
    };
    proof {
        lemma_parse_fields_len(b@, 1, k as nat);
    }
    match get_fields(b, 1, k) {
        Err(e) => Err(e),
        Ok(None) => Ok(None),
        Ok(Some((mut fs, end))) => {
            if tag == 1 {
                let value = fs.pop().unwrap();
                let key = fs.pop().unwrap();
                Ok(Some((Request::Put { key, value }, end)))
            } else if tag == 0 {
                let key = fs.pop().unwrap();
                Ok(Some((Request::Get { key }, end)))
            } else {
                let key = fs.pop().unwrap();
                Ok(Some((Request::Remove { key }, end)))
            }
        },
    }
}

/// A response of the wire protocol: the value read (if any), the
/// acknowledgement of a write or a removal, or an error message.
#[derive(Debug, PartialEq, Eq)]
pub enum Response {
    Get(Option<String>),
    Put,
    Remove,
    Failure(String),
}

pub ghost enum ResponseView {
    Get(Option<Seq<char>>),
    Put,
    Remove,
    Failure(Seq<char>),
}

impl View for Response {
    type V = ResponseView;

    open spec fn view(&self) -> ResponseView {
        match self {
            Response::Get(v) => ResponseView::Get(
                match v {
                    Some(s) => Some(s@),
                    None => None,
                },
            ),
            Response::Put => ResponseView::Put,
            Response::Remove => ResponseView::Remove,
            Response::Failure(m) => ResponseView::Failure(m@),
        }
    }
}

impl ResponseView {
    pub open spec fn tag(self) -> u8 {
        match self {
            ResponseView::Get(None) => 0,
            ResponseView::Get(Some(_)) => 1,
            ResponseView::Put => 2,
            ResponseView::Remove => 3,
            ResponseView::Failure(_) => 4,
        }
    }

    pub open spec fn fields(self) -> Seq<Seq<char>> {
        match self {
            ResponseView::Get(Some(v)) => seq![v],
            ResponseView::Failure(m) => seq![m],
            _ => Seq::empty(),
        }
    }

    pub open spec fn fits(self) -> bool {
        fields_fit(self.fields())
    }

    pub open spec fn bytes(self) -> Seq<u8> {
        frame_bytes(self.tag(), self.fields())
    }
}

pub open spec fn response_arity(tag: u8) -> Option<nat> {
    if tag == 1 || tag == 4 {
        Some(1)
    } else if tag <= 3 {
        Some(0)
    } else {
        None
    }
}

pub open spec fn response_of(tag: u8, fs: Seq<Seq<char>>) -> ResponseView {
    if tag == 0 {
        ResponseView::Get(None)
    } else if tag == 1 {
        ResponseView::Get(Some(fs[0]))
    } else if tag == 2 {
        ResponseView::Put
    } else if tag == 3 {
        ResponseView::Remove
    } else {
        ResponseView::Failure(fs[0])
    }
}

/// Decodes the response at the front of `b`.
pub open spec fn parse_response(b: Seq<u8>) -> Parse<ResponseView> {
    if b.len() == 0 {
        Parse::Partial
    } else {
        match parse_frame(b, response_arity(b[0])) {
            Parse::Done(fs, e) => Parse::Done(response_of(b[0], fs), e),
            Parse::Partial => Parse::Partial,
            Parse::Bad => Parse::Bad,
        }
    }
}

/// An encoded response decodes to itself, followed by anything, and ends
/// exactly where its bytes end.
pub proof fn lemma_response_round_trip(p: ResponseView, rest: Seq<u8>)
    requires
        p.fits(),
    ensures
        parse_response(p.bytes() + rest) == Parse::Done(p, p.bytes().len() as int),
{
    lemma_frame_round_trip(p.tag(), p.fields(), rest);
}

/// A decoded response takes at least its tag byte and no more than the bytes.
pub proof fn lemma_response_end(b: Seq<u8>)
    ensures
        parse_response(b) matches Parse::Done(_, n) ==> 1 <= n <= b.len(),
{
    if b.len() > 0 && response_arity(b[0]) is Some {
        lemma_fields_end(b, 1, response_arity(b[0])->Some_0);
    }
}

/// Every strict prefix of an encoded response decodes as incomplete.
pub proof fn lemma_response_prefix(p: ResponseView, j: int)
    requires
        p.fits(),
        0 <= j < p.bytes().len(),
    ensures
        parse_response(p.bytes().take(j)) == Parse::<ResponseView>::Partial,
{
    if j > 0 {
        lemma_frame_prefix(p.tag(), p.fields(), j);
    }
}

/// Encodes a response.
pub fn encode_response(p: &Response) -> (r: Vec<u8>)
    ensures
        r@ == p@.bytes(),
{
    let mut out: Vec<u8> = Vec::new();
    match p {
        Response::Get(None) => {
            out.push(0u8);
        },
        Response::Get(Some(v)) => {
            out.push(1u8);
            put_field(&mut out, v.as_str());
            proof {
                lemma_fields_bytes_one(v@);
            }
        },
        Response::Put => {
            out.push(2u8);
        },
        Response::Remove => {
            out.push(3u8);
        },
        Response::Failure(m) => {
            out.push(4u8);
            put_field(&mut out, m.as_str());
            proof {
                lemma_fields_bytes_one(m@);
            }
        },
    }
    proof {
        lemma_fields_bytes_none();
    }
    assert(out@ =~= p@.bytes());
    out
}

/// Decodes the response at the front of `b`, as `decode_command` does.
pub fn decode_response(b: &[u8]) -> (r: Result<Option<(Response, usize)>, KvsError>)
    ensures
        reports(parse_response(b@), r),
{
    if b.len() == 0 {
        return Ok(None);
    }
    let tag = b[0];
    let k: usize = if tag == 1 || tag == 4 {
        1
    } else if tag <= 3 {
        0
    } else {
        return Err(KvsError::Serialization);
    };
    proof {
        lemma_parse_fields_len(b@, 1, k as nat);
    }
    match get_fields(b, 1, k) {
        Err(e) => Err(e),
        Ok(None) => Ok(None),
        Ok(Some((mut fs, end))) => {
            if tag == 0 {
                Ok(Some((Response::Get(None), end)))
            } else if tag == 1 {
                let v = fs.pop().unwrap();
                Ok(Some((Response::Get(Some(v)), end)))
            } else if tag == 2 {
                Ok(Some((Response::Put, end)))
            } else if tag == 3 {
                Ok(Some((Response::Remove, end)))
            } else {
                let m = fs.pop().unwrap();
                Ok(Some((Response::Failure(m), end)))
            }
        },
    }
}

} // verus!
