//! The server side of the request pipeline: engine selection and the
//! dispatch of one decoded request to the engine.
//!
//! The accept loop, connection handling and socket I/O live with the
//! embedding program; what is decided here is everything that does not
//! touch a socket: which engine a directory may be opened with, and what
//! response a request earns.

use vstd::prelude::*;

use crate::codec::{match_lit, push_bytes};
use crate::engine::KvsEngine;
use crate::err::KvsError;
use crate::protocol::{Request, RequestV, Response};

verus! {

/// Which storage engine backs the server.
#[derive(Clone, Copy, PartialEq, Eq, Structural, Debug)]
pub enum Engine {
    /// The log-structured engine of this crate.
    Kvs,
    /// The embedded `sled`-backed engine.
    Sled,
}

/// The persisted spelling of an engine selection: `"kvs"` or `"sled"`.
pub open spec fn engine_json(e: Engine) -> Seq<u8> {
    match e {
        Engine::Kvs => seq![0x22u8, 0x6Bu8, 0x76u8, 0x73u8, 0x22u8],
        Engine::Sled => seq![0x22u8, 0x73u8, 0x6Cu8, 0x65u8, 0x64u8, 0x22u8],
    }
}

/// Read an engine selection back from its persisted bytes.
pub open spec fn parse_engine(d: Seq<u8>) -> Option<Engine> {
    if d == engine_json(Engine::Kvs) {
        Some(Engine::Kvs)
    } else if d == engine_json(Engine::Sled) {
        Some(Engine::Sled)
    } else {
        None
    }
}

/// The persisted selection round-trips.
pub proof fn lemma_engine_round_trip(e: Engine)
    ensures
        parse_engine(engine_json(e)) == Some(e),
{
    assert(engine_json(Engine::Sled) != engine_json(Engine::Kvs)) by {
        assert(engine_json(Engine::Sled).len() != engine_json(Engine::Kvs).len());
    }
}

/// Spell an engine selection out for the selection file.
pub fn encode_engine(e: Engine) -> (out: Vec<u8>)
    ensures
        out@ == engine_json(e),
{
    let mut out: Vec<u8> = Vec::new();
    match e {
        Engine::Kvs => {
            let lit: [u8; 5] = [0x22, 0x6B, 0x76, 0x73, 0x22];
            proof {
                assert(lit@ =~= engine_json(Engine::Kvs));
            }
            push_bytes(&mut out, lit.as_slice());
        },
        Engine::Sled => {
            let lit: [u8; 6] = [0x22, 0x73, 0x6C, 0x65, 0x64, 0x22];
            proof {
                assert(lit@ =~= engine_json(Engine::Sled));
            }
            push_bytes(&mut out, lit.as_slice());
        },
    }
    out
}

/// Read an engine selection file's bytes; anything but the two known
/// spellings is a broken selection file.
pub fn decode_engine(d: &[u8]) -> (r: Result<Engine, KvsError>)
    ensures
        match parse_engine(d@) {
            Some(e) => r matches Ok(re) && re == e,
            None => r matches Err(er) && er matches KvsError::BrokenEngine,
        },
{
    let kvs_lit: [u8; 5] = [0x22, 0x6B, 0x76, 0x73, 0x22];
    let sled_lit: [u8; 6] = [0x22, 0x73, 0x6C, 0x65, 0x64, 0x22];
    proof {
        assert(kvs_lit@ =~= engine_json(Engine::Kvs));
        assert(sled_lit@ =~= engine_json(Engine::Sled));
        assert(d@.skip(0) =~= d@);
    }
    if d.len() == 5 && match_lit(d, 0, kvs_lit.as_slice()) {
        proof {
            assert(d@.take(5) =~= d@);
        }
        Ok(Engine::Kvs)
    } else if d.len() == 6 && match_lit(d, 0, sled_lit.as_slice()) {
        proof {
            assert(d@.take(6) =~= d@);
        }
        Ok(Engine::Sled)
    } else {
        proof {
            if d@ == engine_json(Engine::Kvs) {
                assert(d@.take(5) =~= d@);
            }
            if d@ == engine_json(Engine::Sled) {
                assert(d@.take(6) =~= d@);
            }
        }
        Err(KvsError::BrokenEngine)
    }
}

/// Decide which engine a server run uses: the requested one, the
/// previously persisted one, or the default; a request that contradicts
/// the persisted selection is refused.
pub fn determine_engine(requested: Option<Engine>, previous: Option<Engine>) -> (r: Result<
    Engine,
    KvsError,
>)
    ensures
        requested is None && previous is None ==> (r matches Ok(e) && e == Engine::Kvs),
        requested is Some && previous is None ==> (r matches Ok(re) && re == requested->Some_0),
        requested is None && previous is Some ==> (r matches Ok(re) && re == previous->Some_0),
        requested is Some && previous is Some && requested->Some_0 == previous->Some_0 ==> (
        r matches Ok(re) && re == requested->Some_0),
        requested is Some && previous is Some && requested->Some_0 != previous->Some_0 ==> (
        r matches Err(er) && er matches KvsError::BrokenEngine),
{
    match (requested, previous) {
        (None, None) => Ok(Engine::Kvs),
        (Some(e), None) => Ok(e),
        (None, Some(p)) => Ok(p),
        (Some(e), Some(p)) => {
            if e == p {
                Ok(e)
            } else {
                Err(KvsError::BrokenEngine)
            }
        },
    }
}

/// The message a server-side error travels with: `err: ` and the error's
/// own description.
fn error_reply(e: KvsError) -> String {
    let mut s = String::from_str("err: ");
    let m = e.message();
    s.append(m.as_str());
    s
}

/// Dispatch one decoded request to the engine and shape its answer: `Get`
/// answers with the optional value, `Set` and `Rm` answer with an empty
/// success, and every engine error is stringified so the connection stays
/// healthy.
pub fn handle_request<E: KvsEngine>(engine: &mut E, req: Request) -> (resp: Response)
    requires
        old(engine).kv_inv(),
    ensures
        final(engine).kv_inv(),
        req@ matches RequestV::Put { key, value } ==> (resp matches Response::Value(o) ==> o
            is None && final(engine).kv_model() == old(engine).kv_model().insert(key, value)),
        req@ matches RequestV::Get { .. } ==> final(engine).kv_model() == old(engine).kv_model(),
        req@ matches RequestV::Get { key } ==> (resp matches Response::Value(o) ==> (match o {
            Some(v) => old(engine).kv_model().dom().contains(key) && v@ == old(
                engine,
            ).kv_model()[key],
            None => !old(engine).kv_model().dom().contains(key),
        })),
        req@ matches RequestV::Rm { key } ==> (resp matches Response::Value(o) ==> o is None
            && final(engine).kv_model() == old(engine).kv_model().remove(key)),
{
    match req {
        Request::Put { key, value } => match engine.set(key, value) {
            Ok(_) => Response::Value(None),
            Err(e) => Response::Error(error_reply(e)),
        },
        Request::Get { key } => match engine.get(key) {
            Ok(v) => Response::Value(v),
            Err(e) => Response::Error(error_reply(e)),
        },
        Request::Rm { key } => match engine.remove(key) {
            Ok(_) => Response::Value(None),
            Err(e) => Response::Error(error_reply(e)),
        },
    }
}

} // verus!
