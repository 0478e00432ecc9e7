use kvs::{KvsEngine, KvsError, SledKvsEngine, ThreadPool};

#[derive(Clone)]
struct InlinePool;

impl ThreadPool for InlinePool {
    fn new(_threads: u32) -> Result<Self, KvsError> {
        Ok(InlinePool)
    }

    fn spawn<F: FnOnce() + Send + 'static>(&self, job: F) {
        job()
    }
}

#[derive(Clone)]
struct FailingPool;

impl ThreadPool for FailingPool {
    fn new(_threads: u32) -> Result<Self, KvsError> {
        Err(KvsError::PoolSpawn)
    }

    fn spawn<F: FnOnce() + Send + 'static>(&self, job: F) {
        job()
    }
}

fn temporary_db() -> sled::Db {
    sled::Config::new().temporary(true).open().unwrap()
}

#[test]
fn sled_engine_set_get_remove() {
    let engine = SledKvsEngine::<InlinePool>::new(temporary_db(), 2).unwrap();
    assert_eq!(engine.get("k".to_string()), Ok(None));
    engine.set("k".to_string(), "v1".to_string()).unwrap();
    engine.set("k".to_string(), "v2".to_string()).unwrap();
    assert_eq!(engine.get("k".to_string()), Ok(Some("v2".to_string())));
    engine.remove("k".to_string()).unwrap();
    assert_eq!(engine.get("k".to_string()), Ok(None));
    assert_eq!(engine.remove("k".to_string()), Err(KvsError::KeyNotFound));
}

#[test]
fn sled_engine_fails_with_its_pool() {
    assert!(matches!(
        SledKvsEngine::<FailingPool>::new(temporary_db(), 2),
        Err(KvsError::PoolSpawn)
    ));
}


#[test]
fn removal_outcome_decides_key_not_found() {
    assert_eq!(kvs::sled_engine::removal_outcome(true), Ok(()));
    assert_eq!(kvs::sled_engine::removal_outcome(false), Err(KvsError::KeyNotFound));
}
