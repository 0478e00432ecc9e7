//! What a server answers to each request and what a client makes of each
//! answer, apart from the network that carries them.
use vstd::prelude::*;

use crate::error::KvsError;
use crate::message::{Request, Response, ResponseView};

verus! {

/// The capability set of a storage engine: the log-structured engine and
/// any embedded database that stands in for it.
pub trait KvsEngine: Clone + Send + 'static {
    /// Sets the value of a string key to a string, overwriting any earlier one.
    fn set(&self, key: String, value: String) -> Result<(), KvsError>;

    /// Gets the value of a string key, `None` where the key is absent.
    fn get(&self, key: String) -> Result<Option<String>, KvsError>;

    /// Removes a key; `KeyNotFound` where the key is absent.
    fn remove(&self, key: String) -> Result<(), KvsError>;
}

pub open spec fn opt_view(v: Option<String>) -> Option<Seq<char>> {
    match v {
        Some(s) => Some(s@),
        None => None,
    }
}

/// The answer to a read: the value found, or the error's text.
pub fn get_response(r: Result<Option<String>, KvsError>) -> (resp: Response)
    ensures
        match r {
            Ok(v) => resp@ == ResponseView::Get(opt_view(v)),
            Err(e) => resp@ == ResponseView::Failure(e.message_spec()),
        },
{
    match r {
        Ok(v) => Response::Get(v),
        Err(e) => Response::Failure(e.message()),
    }
}

/// The answer to a write: its acknowledgement, or the error's text.
pub fn put_response(r: Result<(), KvsError>) -> (resp: Response)
    ensures
        match r {
            Ok(_) => resp@ == ResponseView::Put,
            Err(e) => resp@ == ResponseView::Failure(e.message_spec()),
        },
{
    match r {
        Ok(_) => Response::Put,
        Err(e) => Response::Failure(e.message()),
    }
}

/// The answer to a removal: its acknowledgement, or the error's text.
pub fn remove_response(r: Result<(), KvsError>) -> (resp: Response)
    ensures
        match r {
            Ok(_) => resp@ == ResponseView::Remove,
            Err(e) => resp@ == ResponseView::Failure(e.message_spec()),
        },
{
    match r {
        Ok(_) => Response::Remove,
        Err(e) => Response::Failure(e.message()),
    }
}

/// The answer to a read, as `get_response` builds it.
pub open spec fn get_answer(r: Result<Option<String>, KvsError>) -> ResponseView {
    match r {
        Ok(v) => ResponseView::Get(opt_view(v)),
        Err(e) => ResponseView::Failure(e.message_spec()),
    }
}

/// The answer to a write or a removal: `ok` on success, else the error's text.
pub open spec fn unit_answer(r: Result<(), KvsError>, ok: ResponseView) -> ResponseView {
    match r {
        Ok(_) => ok,
        Err(e) => ResponseView::Failure(e.message_spec()),
    }
}

/// Serves one request on `engine`: the engine operation that the request
/// names, called once with the request's fields, and the answer that its
/// outcome calls for.
pub fn handle<E: KvsEngine>(engine: &E, req: Request) -> (resp: Response)
    ensures
        req matches Request::Get { key } ==> exists|r: Result<Option<String>, KvsError>|
            call_ensures(E::get, (engine, key), r) && resp@ == get_answer(r),
        req matches Request::Put { key, value } ==> exists|r: Result<(), KvsError>|
            call_ensures(E::set, (engine, key, value), r) && resp@ == unit_answer(
                r,
                ResponseView::Put,
            ),
        req matches Request::Remove { key } ==> exists|r: Result<(), KvsError>|
            call_ensures(E::remove, (engine, key), r) && resp@ == unit_answer(
                r,
                ResponseView::Remove,
            ),
{
    match req {
        Request::Get { key } => {
            let ghost k = key;
            let r = engine.get(key);
            let ghost gr = r;
            let resp = get_response(r);
            assert(call_ensures(E::get, (engine, k), gr) && resp@ == get_answer(gr));
            resp
        },
        Request::Put { key, value } => {
            let ghost (k, v) = (key, value);
            let r = engine.set(key, value);
            let ghost gr = r;
            let resp = put_response(r);
            assert(call_ensures(E::set, (engine, k, v), gr) && resp@ == unit_answer(
                gr,
                ResponseView::Put,
            ));
            resp
        },
        Request::Remove { key } => {
            let ghost k = key;
            let r = engine.remove(key);
            let ghost gr = r;
            let resp = remove_response(r);
            assert(call_ensures(E::remove, (engine, k), gr) && resp@ == unit_answer(
                gr,
                ResponseView::Remove,
            ));
            resp
        },
    }
}

/// What a client makes of the answer to a read: the value, the server's
/// error as text, or `UnexpectedResponse` for an answer of another kind.
pub fn get_reply(resp: Response) -> (r: Result<Option<String>, KvsError>)
    ensures
        match resp {
            Response::Get(v) => r == Ok::<Option<String>, KvsError>(v),
            Response::Failure(m) => r == Err::<Option<String>, KvsError>(KvsError::StringError(m)),
            _ => r == Err::<Option<String>, KvsError>(KvsError::UnexpectedResponse),
        },
{
    match resp {
        Response::Get(v) => Ok(v),
        Response::Failure(m) => Err(KvsError::StringError(m)),
        _ => Err(KvsError::UnexpectedResponse),
    }
}

/// What a client makes of the answer to a write.
pub fn put_reply(resp: Response) -> (r: Result<(), KvsError>)
    ensures
        match resp {
            Response::Put => r == Ok::<(), KvsError>(()),
            Response::Failure(m) => r == Err::<(), KvsError>(KvsError::StringError(m)),
            _ => r == Err::<(), KvsError>(KvsError::UnexpectedResponse),
        },
{
    match resp {
        Response::Put => Ok(()),
        Response::Failure(m) => Err(KvsError::StringError(m)),
        _ => Err(KvsError::UnexpectedResponse),
    }
}

/// What a client makes of the answer to a removal.
pub fn remove_reply(resp: Response) -> (r: Result<(), KvsError>)
    ensures
        match resp {
            Response::Remove => r == Ok::<(), KvsError>(()),
            Response::Failure(m) => r == Err::<(), KvsError>(KvsError::StringError(m)),
            _ => r == Err::<(), KvsError>(KvsError::UnexpectedResponse),
        },
{
    match resp {
        Response::Remove => Ok(()),
        Response::Failure(m) => Err(KvsError::StringError(m)),
        _ => Err(KvsError::UnexpectedResponse),
    }
}

} // verus!
