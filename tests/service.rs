use kvs::error::KvsError;
use kvs::message::{Request, Response};
use kvs::selection::{select_engine, EngineKind};
use kvs::service::{
    get_reply, get_response, handle, put_reply, put_response, remove_reply, remove_response,
    KvsEngine,
};
use kvs::sled_engine::value_from_bytes;

#[test]
fn engine_mismatch_is_refused() {
    assert_eq!(
        select_engine(Some(EngineKind::Sled), Some(EngineKind::Kvs)),
        Err(KvsError::EngineMismatch)
    );
    assert_eq!(select_engine(Some(EngineKind::Kvs), Some(EngineKind::Kvs)), Ok(EngineKind::Kvs));
    assert_eq!(select_engine(None, Some(EngineKind::Sled)), Ok(EngineKind::Sled));
    assert_eq!(select_engine(Some(EngineKind::Sled), None), Ok(EngineKind::Sled));
    assert_eq!(select_engine(None, None), Ok(EngineKind::Kvs));
}

#[test]
fn engine_names_parse_back() {
    assert_eq!(EngineKind::parse(&"kvs".to_string()), Some(EngineKind::Kvs));
    assert_eq!(EngineKind::parse(&"sled".to_string()), Some(EngineKind::Sled));
    assert_eq!(EngineKind::parse(&"rocks".to_string()), None);
    assert_eq!(EngineKind::Sled.name(), "sled");
    assert_eq!(EngineKind::parse(&EngineKind::Kvs.name()), Some(EngineKind::Kvs));
}

#[test]
fn errors_become_failure_responses() {
    assert_eq!(
        remove_response(Err(KvsError::KeyNotFound)),
        Response::Failure("Key not found".to_string())
    );
    assert_eq!(get_response(Ok(Some("v".to_string()))), Response::Get(Some("v".to_string())));
    assert_eq!(put_response(Ok(())), Response::Put);
    assert_eq!(
        put_response(Err(KvsError::Io("disk full".to_string()))),
        Response::Failure("disk full".to_string())
    );
}

#[test]
fn replies_map_back_to_results() {
    assert_eq!(get_reply(Response::Get(None)), Ok(None));
    assert_eq!(
        get_reply(Response::Failure("boom".to_string())),
        Err(KvsError::StringError("boom".to_string()))
    );
    assert_eq!(get_reply(Response::Put), Err(KvsError::UnexpectedResponse));
    assert_eq!(put_reply(Response::Put), Ok(()));
    assert_eq!(put_reply(Response::Remove), Err(KvsError::UnexpectedResponse));
    assert_eq!(remove_reply(Response::Remove), Ok(()));
}

#[derive(Clone)]
struct Fixed;

impl KvsEngine for Fixed {
    fn set(&self, _key: String, _value: String) -> Result<(), KvsError> {
        Ok(())
    }
    fn get(&self, key: String) -> Result<Option<String>, KvsError> {
        Ok(Some(key))
    }
    fn remove(&self, _key: String) -> Result<(), KvsError> {
        Err(KvsError::KeyNotFound)
    }
}

#[test]
fn handle_dispatches_each_request() {
    assert_eq!(
        handle(&Fixed, Request::Get { key: "k".to_string() }),
        Response::Get(Some("k".to_string()))
    );
    assert_eq!(
        handle(&Fixed, Request::Put { key: "k".to_string(), value: "v".to_string() }),
        Response::Put
    );
    assert_eq!(
        handle(&Fixed, Request::Remove { key: "k".to_string() }),
        Response::Failure("Key not found".to_string())
    );
}

#[test]
fn stored_bytes_become_strings() {
    assert_eq!(value_from_bytes(None), Ok(None));
    assert_eq!(value_from_bytes(Some(vec![104, 105])), Ok(Some("hi".to_string())));
    assert_eq!(value_from_bytes(Some(vec![0xc3])), Err(KvsError::Serialization));
}
