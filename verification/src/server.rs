//! What the server decides: which engine a data directory is bound to, and
//! the response to each request.

use vstd::prelude::*;
use crate::engines::KvsEngine;
use crate::error::KVSError;
use crate::proto::{
    error_text, get_response, get_response_text, remove_response, remove_response_text,
    set_response, set_response_text, text_remove_done, text_set_done, Command, Record,
};

verus! {

/// The name of the built-in engine.
pub open spec fn engine_kvs() -> Seq<char> {
    "kvs"@
}

/// The name of the engine that wraps the embedded database.
pub open spec fn engine_sled() -> Seq<char> {
    "sled"@
}

/// Whether a name is the name of an engine.
pub open spec fn is_engine_name(name: Seq<char>) -> bool {
    name == engine_kvs() || name == engine_sled()
}

/// The engine that a data directory runs with, given the engine that was
/// recorded for it, if any, and the engine that is asked for: the engine
/// asked for, where it is the name of an engine and none or the same was
/// recorded. `Corrupt` for a name that is no engine's, `EngineMismatch`
/// where another engine was recorded.
pub open spec fn engine_choice(persisted: Option<Seq<char>>, requested: Seq<char>) -> Result<
    Seq<char>,
    KVSError,
> {
    if !is_engine_name(requested) {
        Err(KVSError::Corrupt)
    } else if persisted is Some && persisted.unwrap() != requested {
        Err(KVSError::EngineMismatch)
    } else {
        Ok(requested)
    }
}

/// The configuration of a server: the engine that its data directory is
/// bound to.
#[derive(Debug)]
pub struct KvServer {
    pub engine: String,
}

impl KvServer {
    /// A server bound to an engine.
    pub fn new(engine: String) -> (server: KvServer)
        ensures
            server.engine@ == engine@,
    {
        KvServer { engine }
    }

    /// Whether a name is the name of an engine.
    pub fn is_engine(name: &str) -> (r: bool)
        ensures
            r == is_engine_name(name@),
    {
        let kvs = "kvs".to_string();
        let sled = "sled".to_string();
        let given = name.to_string();
        given == kvs || given == sled
    }

    /// Binds a data directory to an engine, or confirms the binding it has.
    /// The first run records the engine asked for. A later run that asks
    /// for another engine than the one recorded is refused with
    /// `EngineMismatch`; a name that is no engine's is refused with
    /// `Corrupt`.
    pub fn bind(persisted: Option<&KvServer>, requested: &str) -> (r: Result<KvServer, KVSError>)
        ensures
            match engine_choice(
                match persisted {
                    Some(server) => Some(server.engine@),
                    None => None,
                },
                requested@,
            ) {
                Ok(name) => r is Ok && r.unwrap().engine@ == name,
                Err(e) => r is Err && r->Err_0 == e,
            },
    {
        if !KvServer::is_engine(requested) {
            return Err(KVSError::Corrupt);
        }
        let wanted = requested.to_string();
        match persisted {
            Some(server) => {
                if server.engine == wanted {
                    Ok(KvServer { engine: wanted })
                } else {
                    Err(KVSError::EngineMismatch)
                }
            },
            None => Ok(KvServer { engine: wanted }),
        }
    }

    /// Runs one request against an engine and gives the response.
    ///
    /// A `get` is answered with the value, or with the notice that the key
    /// is absent. A `set` or a `remove` that succeeds is answered with its
    /// success text, and the engine then shows the write; one that fails is
    /// answered with `ERROR: ` and the message of the error.
    pub fn serve<E: KvsEngine>(store: &mut E, record: Record) -> (response: String)
        requires
            old(store).ready(),
        ensures
            final(store).ready(),
            record@.cmd == Command::Get ==> response@ == get_response_text(
                old(store).lookup(record@.key),
            ),
            record@.cmd == Command::Put ==> (response@ == text_set_done() && final(store).lookup(
                record@.key,
            ) == Ok::<Option<Seq<char>>, KVSError>(Some(record@.value))) || (exists|e: KVSError|
                response@ == #[trigger] error_text(e)),
            record@.cmd == Command::Remove ==> (response@ == text_remove_done()
                && final(store).lookup(record@.key) == Ok::<Option<Seq<char>>, KVSError>(None))
                || (exists|e: KVSError| response@ == #[trigger] error_text(e)),
    {
        match record.cmd {
            Command::Put => {
                let outcome = store.set(record.key, record.value);
                proof {
                    if outcome is Err {
                        assert(set_response_text(outcome) == error_text(outcome->Err_0));
                    }
                }
                set_response(outcome)
            },
            Command::Get => {
                let outcome = store.get(record.key);
                get_response(outcome)
            },
            Command::Remove => {
                let outcome = store.remove(record.key);
                proof {
                    if outcome is Err {
                        assert(remove_response_text(outcome) == error_text(outcome->Err_0));
                    }
                }
                remove_response(outcome)
            },
        }
    }
}

} // verus!
