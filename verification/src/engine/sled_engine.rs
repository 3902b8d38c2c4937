//! The alternate engine: the same capability contract, delegated to the
//! embedded `sled` database.
//!
//! `sled` stores byte strings; this adapter encodes keys and values as
//! UTF-8 on the way in, decodes them on the way out, flushes after every
//! mutation, and turns a removal of an absent key into `KeyNotFound`.

use vstd::prelude::*;

use crate::codec::bytes_to_string;
use crate::engine::KvsEngine;
use crate::err::KvsError;
use vstd::utf8::{decode_utf8, encode_utf8, valid_utf8};

verus! {

#[verifier::external_type_specification]
#[verifier::external_body]
pub struct ExDb(sled::Db);

/// What the database holds: the mapping from key bytes to value bytes.
pub uninterp spec fn sled_db_view(db: sled::Db) -> Map<Seq<u8>, Seq<u8>>;

/// Relies on sled::open: opens (or creates) the database directory.
/// What it holds depends on the disk, so nothing is claimed of the
/// contents.
#[verifier::external_body]
fn sled_open(path: &str) -> (r: Result<sled::Db, KvsError>)
{
    match sled::open(path) {
        Ok(db) => Ok(db),
        Err(e) => Err(KvsError::Sled(format!("{}", e))),
    }
}

/// Relies on sled::Tree::insert (through Db's deref): maps the key bytes
/// to the value bytes, superseding any earlier value.
#[verifier::external_body]
fn sled_insert(db: &mut sled::Db, key: &str, value: &str) -> (r: Result<(), KvsError>)
    ensures
        r is Ok ==> sled_db_view(*final(db)) == sled_db_view(*old(db)).insert(
            encode_utf8(key@),
            encode_utf8(value@),
        ),
{
    match db.insert(key, value.as_bytes()) {
        Ok(_) => Ok(()),
        Err(e) => Err(KvsError::Sled(format!("{}", e))),
    }
}

/// Relies on sled::Tree::get: returns the value bytes stored under the
/// key bytes, if any.
#[verifier::external_body]
fn sled_get(db: &sled::Db, key: &str) -> (r: Result<Option<Vec<u8>>, KvsError>)
    ensures
        r matches Ok(o) ==> (match o {
            Some(v) => sled_db_view(*db).dom().contains(encode_utf8(key@)) && v@ == sled_db_view(
                *db,
            )[encode_utf8(key@)],
            None => !sled_db_view(*db).dom().contains(encode_utf8(key@)),
        }),
{
    match db.get(key) {
        Ok(o) => Ok(o.map(|ivec| ivec.to_vec())),
        Err(e) => Err(KvsError::Sled(format!("{}", e))),
    }
}

/// Relies on sled::Tree::remove: removes the key's entry and returns the
/// value bytes it held, if any.
#[verifier::external_body]
fn sled_remove(db: &mut sled::Db, key: &str) -> (r: Result<Option<Vec<u8>>, KvsError>)
    ensures
        r is Ok ==> sled_db_view(*final(db)) == sled_db_view(*old(db)).remove(encode_utf8(key@)),
        r matches Err(er) ==> er matches KvsError::Sled(_),
        r matches Ok(o) ==> (match o {
            Some(v) => sled_db_view(*old(db)).dom().contains(encode_utf8(key@)) && v@
                == sled_db_view(*old(db))[encode_utf8(key@)],
            None => !sled_db_view(*old(db)).dom().contains(encode_utf8(key@)),
        }),
{
    match db.remove(key) {
        Ok(o) => Ok(o.map(|ivec| ivec.to_vec())),
        Err(e) => Err(KvsError::Sled(format!("{}", e))),
    }
}

/// Relies on sled::Tree::flush: makes earlier writes durable; the
/// contents are untouched.
#[verifier::external_body]
fn sled_flush(db: &mut sled::Db) -> (r: Result<(), KvsError>)
    ensures
        r is Ok ==> sled_db_view(*final(db)) == sled_db_view(*old(db)),
        r matches Err(er) ==> er matches KvsError::Sled(_),
{
    match db.flush() {
        Ok(_) => Ok(()),
        Err(e) => Err(KvsError::Sled(format!("{}", e))),
    }
}

/// Two different strings never share a UTF-8 encoding.
proof fn lemma_encode_injective(a: Seq<char>, b: Seq<char>)
    requires
        encode_utf8(a) == encode_utf8(b),
    ensures
        a == b,
{
    broadcast use vstd::utf8::encode_utf8_decode_utf8;

    assert(decode_utf8(encode_utf8(a)) == a);
    assert(decode_utf8(encode_utf8(b)) == b);
}

/// A store backed by the embedded `sled` database.
pub struct SledKvsEngine {
    db: sled::Db,
}

impl SledKvsEngine {
    /// The string mapping the database holds: every key whose stored bytes
    /// are valid UTF-8, read back as text.
    pub closed spec fn smodel(self) -> Map<Seq<char>, Seq<char>> {
        Map::new(
            |k: Seq<char>|
                sled_db_view(self.db).dom().contains(encode_utf8(k)) && valid_utf8(
                    sled_db_view(self.db)[encode_utf8(k)],
                ),
            |k: Seq<char>| decode_utf8(sled_db_view(self.db)[encode_utf8(k)]),
        )
    }

    /// Open (or create) the database directory at `path`.
    pub fn open(path: &str) -> (r: Result<SledKvsEngine, KvsError>) {
        let db = sled_open(path)?;
        Ok(SledKvsEngine { db })
    }
}

impl KvsEngine for SledKvsEngine {
    open spec fn kv_model(&self) -> Map<Seq<char>, Seq<char>> {
        self.smodel()
    }

    open spec fn kv_inv(&self) -> bool {
        true
    }

    fn set(&mut self, key: String, value: String) -> (r: Result<(), KvsError>) {
        let ghost m0 = self.smodel();
        let ghost m1 = m0.insert(key@, value@);
        sled_insert(&mut self.db, key.as_str(), value.as_str())?;
        sled_flush(&mut self.db)?;
        proof {
            broadcast use vstd::utf8::encode_utf8_valid_utf8, vstd::utf8::encode_utf8_decode_utf8;

            assert forall|k: Seq<char>| #[trigger] self.smodel().dom().contains(k) implies
                m1.dom().contains(k) && self.smodel()[k] == m1[k] by {
                if encode_utf8(k) == encode_utf8(key@) {
                    lemma_encode_injective(k, key@);
                }
            }
            assert forall|k: Seq<char>| #[trigger] m1.dom().contains(k) implies self.smodel(
            ).dom().contains(k) by {
                if encode_utf8(k) == encode_utf8(key@) {
                    lemma_encode_injective(k, key@);
                }
            }
            assert(self.smodel() =~= m1);
        }
        Ok(())
    }

    fn get(&mut self, key: String) -> (r: Result<Option<String>, KvsError>) {
        let found = sled_get(&self.db, key.as_str())?;
        match found {
            Some(bytes) => {
                let ghost bs = bytes@;
                match bytes_to_string(bytes) {
                    Some(s) => Ok(Some(s)),
                    None => Err(KvsError::Utf8),
                }
            },
            None => Ok(None),
        }
    }

    fn remove(&mut self, key: String) -> (r: Result<(), KvsError>) {
        let ghost m0 = self.smodel();
        let old_value = sled_remove(&mut self.db, key.as_str())?;
        match old_value {
            Some(_) => {
                sled_flush(&mut self.db)?;
                proof {
                    broadcast use vstd::utf8::encode_utf8_valid_utf8;

                    let m1 = m0.remove(key@);
                    assert forall|k: Seq<char>| #[trigger] self.smodel().dom().contains(
                        k,
                    ) implies m1.dom().contains(k) && self.smodel()[k] == m1[k] by {
                        if encode_utf8(k) == encode_utf8(key@) {
                            lemma_encode_injective(k, key@);
                        }
                    }
                    assert forall|k: Seq<char>| #[trigger] m1.dom().contains(k) implies
                        self.smodel().dom().contains(k) by {
                        if encode_utf8(k) == encode_utf8(key@) {
                            lemma_encode_injective(k, key@);
                        }
                    }
                    assert(self.smodel() =~= m1);
                }
                Ok(())
            },
            None => {
                proof {
                    assert(sled_db_view(old(self).db).remove(encode_utf8(key@)) =~= sled_db_view(
                        old(self).db,
                    ));
                    assert(self.smodel() =~= m0);
                }
                Err(KvsError::KeyNotFound)
            },
        }
    }
}

} // verus!
