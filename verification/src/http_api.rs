//! What requests over HTTP are answered, apart from the transport and the encoding of
//! answers.

use crate::bytes::{copy_bytes, has_prefix};
use crate::clock::{is_reading, now_ms};
use crate::engine::LsmEngine;
use crate::engine::read::{between, lists_map, seen};
use crate::engine::write::wrote;
use crate::error::EngineError;
use crate::layers::visible_values;
use crate::snapshot::with_prefix;
use crate::sorted_map::pairs;
use crate::wal::Record;
use vstd::prelude::*;
use vstd::utf8::{decode_utf8, encode_utf8, valid_utf8};

verus! {

/// What `String::from_utf8_lossy` makes of bytes.
pub uninterp spec fn lossy_utf8(b: Seq<u8>) -> Seq<char>;

/// `String::from_utf8_lossy` turns bytes into text: valid UTF-8 into the text that it
/// encodes, and in other bytes what is not valid into replacement characters. How much
/// each of those stands for is not stated.
#[verifier::external_body]
fn lossy_text(b: &[u8]) -> (r: String)
    ensures
        r@ == lossy_utf8(b@),
        valid_utf8(b@) ==> r@ == decode_utf8(b@),
{
    String::from_utf8_lossy(b).into_owned()
}

/// A key and a value as text.
pub struct KvPair {
    pub key: String,
    pub value: String,
}

/// Why a request was not served.
#[derive(Clone, Copy, Debug, PartialEq, Eq, Structural)]
pub enum Refusal {
    /// There is no value of that key.
    NoValue,
    /// The engine did not serve it.
    Failed(EngineError),
}

/// The HTTP status of a request that was served.
pub const STATUS_OK: u16 = 200;

impl Refusal {
    /// The HTTP status of a request that was not served.
    pub open spec fn code(self) -> u16 {
        match self {
            Refusal::NoValue => 404,
            Refusal::Failed(_) => 500,
        }
    }

    /// The HTTP status of a request that was not served.
    pub fn status(self) -> (r: u16)
        ensures
            r == self.code(),
    {
        match self {
            Refusal::NoValue => 404,
            Refusal::Failed(_) => 500,
        }
    }
}

/// The column family that a request is for.
pub open spec fn family_asked(cf: Option<Seq<char>>) -> Seq<char> {
    match cf {
        Some(name) => name,
        None => "default"@,
    }
}

/// A name that may be absent, as a mathematical value.
pub open spec fn name_view(cf: Option<String>) -> Option<Seq<char>> {
    match cf {
        Some(name) => Some(name@),
        None => None,
    }
}

/// The column family that a request is for: the one that it names, or `default`.
pub fn choose_family(cf: Option<String>) -> (r: String)
    ensures
        r@ == family_asked(name_view(cf)),
{
    match cf {
        Some(name) => name,
        None => "default".to_owned(),
    }
}

/// The text of a list of pairs is that of the pairs.
pub open spec fn text_of(v: Seq<KvPair>, list: Seq<(Vec<u8>, Vec<u8>)>) -> bool {
    &&& v.len() == list.len()
    &&& forall|i: int|
        0 <= i < v.len() ==> (#[trigger] v[i]).key@ == lossy_utf8(list[i].0@) && v[i].value@
            == lossy_utf8(list[i].1@)
}

/// Turn pairs into text.
pub fn pairs_as_text(list: &Vec<(Vec<u8>, Vec<u8>)>) -> (r: Vec<KvPair>)
    ensures
        text_of(r@, list@),
{
    let mut r: Vec<KvPair> = Vec::new();
    let mut i: usize = 0;
    while i < list.len()
        invariant
            i <= list@.len(),
            r@.len() == i,
            forall|j: int|
                0 <= j < i ==> (#[trigger] r@[j]).key@ == lossy_utf8(list@[j].0@) && r@[j].value@
                    == lossy_utf8(list@[j].1@),
        decreases list@.len() - i,
    {
        r.push(
            KvPair {
                key: lossy_text(list[i].0.as_slice()),
                value: lossy_text(list[i].1.as_slice()),
            },
        );
        i = i + 1;
    }
    r
}

/// What `get` is answered, when the clock shows `now`.
pub fn get_key_at(db: &LsmEngine, cf: Option<String>, key: String, now: u64) -> (r: Result<
    KvPair,
    Refusal,
>)
    requires
        db.wf(),
    ensures
        ({
            let family = family_asked(name_view(cf));
            let value = seen(db.contents(family), encode_utf8(key@), now);
            match r {
                Ok(p) => {
                    &&& db.has_cf(family)
                    &&& !db.hides(family, encode_utf8(key@))
                    &&& value is Some
                    &&& p.key@ == key@
                    &&& p.value@ == lossy_utf8(value->0)
                },
                Err(Refusal::NoValue) => db.has_cf(family) && !db.hides(family, encode_utf8(key@))
                    && value is None,
                Err(Refusal::Failed(e)) => db.fails_with(
                    e,
                    family,
                    db.hides(family, encode_utf8(key@)),
                ),
            }
        }),
{
    let family: String = choose_family(cf);
    match db.get_cf_at(family.as_str(), key.as_str().as_bytes(), now) {
        Ok(v) => match v {
            Some(value) => Ok(KvPair { key, value: lossy_text(value.as_slice()) }),
            None => Err(Refusal::NoValue),
        },
        Err(e) => Err(Refusal::Failed(e)),
    }
}

/// What `get` is answered now.
pub fn get_key(db: &LsmEngine, cf: Option<String>, key: String) -> (r: Result<KvPair, Refusal>)
    requires
        db.wf(),
    ensures
        ({
            let family = family_asked(name_view(cf));
            match r {
                Ok(p) => {
                    &&& db.has_cf(family)
                    &&& !db.hides(family, encode_utf8(key@))
                    &&& p.key@ == key@
                    &&& exists|now: u64|
                        is_reading(now) && ((#[trigger] seen(
                            db.contents(family),
                            encode_utf8(key@),
                            now,
                        )) matches Some(v) && p.value@ == lossy_utf8(v))
                },
                Err(Refusal::NoValue) => db.has_cf(family) && !db.hides(
                    family,
                    encode_utf8(key@),
                ) && exists|now: u64|
                    is_reading(now) && (#[trigger] seen(db.contents(family), encode_utf8(key@), now)) is None,
                Err(Refusal::Failed(e)) => db.fails_with(
                    e,
                    family,
                    db.hides(family, encode_utf8(key@)),
                ),
            }
        }),
{
    get_key_at(db, cf, key, now_ms())
}

/// Serve `put`: the body of the request is the value.
pub fn put_key(db: &mut LsmEngine, cf: Option<String>, key: String, body: String) -> (r: Result<
    (),
    Refusal,
>)
    requires
        old(db).wf(),
        old(db).has_room(),
        encode_utf8(key@).len() < 0x1_0000_0000,
        encode_utf8(body@).len() < 0x1_0000_0000,
    ensures
        ({
            let family = family_asked(name_view(cf));
            match r {
                Ok(_) => old(db).has_cf(family) && wrote(
                    old(db),
                    final(db),
                    family,
                    Record::Put {
                        key: encode_utf8(key@),
                        seq: old(db).next_seq(),
                        value: encode_utf8(body@),
                    },
                ),
                Err(x) => x == Refusal::Failed(EngineError::NotFound) && !old(db).has_cf(family)
                    && *final(db) == *old(db),
            }
        }),
{
    let family: String = choose_family(cf);
    let k: Vec<u8> = copy_bytes(key.as_str().as_bytes());
    let v: Vec<u8> = copy_bytes(body.as_str().as_bytes());
    match db.put_cf(family.as_str(), k, v) {
        Ok(_) => Ok(()),
        Err(e) => Err(Refusal::Failed(e)),
    }
}

/// Serve `delete`.
pub fn delete_key(db: &mut LsmEngine, cf: Option<String>, key: String) -> (r: Result<(), Refusal>)
    requires
        old(db).wf(),
        old(db).has_room(),
        encode_utf8(key@).len() < 0x1_0000_0000,
    ensures
        ({
            let family = family_asked(name_view(cf));
            match r {
                Ok(_) => old(db).has_cf(family) && wrote(
                    old(db),
                    final(db),
                    family,
                    Record::Delete { key: encode_utf8(key@), seq: old(db).next_seq() },
                ),
                Err(x) => x == Refusal::Failed(EngineError::NotFound) && !old(db).has_cf(family)
                    && *final(db) == *old(db),
            }
        }),
{
    let family: String = choose_family(cf);
    let k: Vec<u8> = copy_bytes(key.as_str().as_bytes());
    match db.delete_cf(family.as_str(), k) {
        Ok(_) => Ok(()),
        Err(e) => Err(Refusal::Failed(e)),
    }
}

/// A bound of a range that may be absent: then it is empty.
pub open spec fn bound_asked(b: Option<String>) -> Seq<u8> {
    match b {
        Some(s) => encode_utf8(s@),
        None => Seq::empty(),
    }
}

fn choose_bound(b: &Option<String>) -> (r: Vec<u8>)
    ensures
        r@ == bound_asked(*b),
{
    match b {
        Some(s) => copy_bytes(s.as_str().as_bytes()),
        None => {
            let r: Vec<u8> = Vec::new();
            assert(r@ =~= Seq::<u8>::empty());
            r
        },
    }
}

/// What a scan of a range is answered, when the clock shows `now`.
pub fn scan_range_at(
    db: &LsmEngine,
    cf: Option<String>,
    from: Option<String>,
    to: Option<String>,
    now: u64,
) -> (r: Result<Vec<KvPair>, Refusal>)
    requires
        db.wf(),
    ensures
        ({
            let family = family_asked(name_view(cf));
            match r {
                Ok(v) => db.has_cf(family) && !db.is_damaged(family) && exists|list: Seq<(Vec<u8>, Vec<u8>)>| #[trigger]
                    lists_map(
                        list,
                        between(
                            visible_values(db.contents(family), now),
                            bound_asked(from),
                            bound_asked(to),
                        ),
                    ) && text_of(v@, list),
                Err(x) => x matches Refusal::Failed(e) && db.fails_with(
                    e,
                    family,
                    db.is_damaged(family),
                ),
            }
        }),
{
    let family: String = choose_family(cf);
    let a: Vec<u8> = choose_bound(&from);
    let b: Vec<u8> = choose_bound(&to);
    match db.scan_cf_at(family.as_str(), a.as_slice(), b.as_slice(), now) {
        Ok(list) => Ok(pairs_as_text(&list)),
        Err(e) => Err(Refusal::Failed(e)),
    }
}

/// What a scan of a range is answered now.
pub fn scan_range(db: &LsmEngine, cf: Option<String>, from: Option<String>, to: Option<String>) -> (r:
    Result<Vec<KvPair>, Refusal>)
    requires
        db.wf(),
    ensures
        ({
            let family = family_asked(name_view(cf));
            match r {
                Ok(v) => db.has_cf(family) && !db.is_damaged(family) && exists|list: Seq<(Vec<u8>, Vec<u8>)>, now: u64|
                    is_reading(now) && #[trigger] lists_map(
                        list,
                        between(
                            visible_values(db.contents(family), now),
                            bound_asked(from),
                            bound_asked(to),
                        ),
                    ) && text_of(v@, list),
                Err(x) => x matches Refusal::Failed(e) && db.fails_with(
                    e,
                    family,
                    db.is_damaged(family),
                ),
            }
        }),
{
    scan_range_at(db, cf, from, to, now_ms())
}

/// What a scan of a prefix is answered, when the clock shows `now`.
pub fn scan_prefix_at(db: &LsmEngine, cf: Option<String>, prefix: String, now: u64) -> (r: Result<
    Vec<KvPair>,
    Refusal,
>)
    requires
        db.wf(),
    ensures
        ({
            let family = family_asked(name_view(cf));
            match r {
                Ok(v) => db.has_cf(family) && !db.is_damaged(family) && exists|list: Seq<(Vec<u8>, Vec<u8>)>| #[trigger]
                    lists_map(
                        list,
                        with_prefix(
                            visible_values(db.contents(family), now),
                            encode_utf8(prefix@),
                        ),
                    ) && text_of(v@, list),
                Err(x) => x matches Refusal::Failed(e) && db.fails_with(
                    e,
                    family,
                    db.is_damaged(family),
                ),
            }
        }),
{
    let family: String = choose_family(cf);
    match db.scan_prefix_cf_at(family.as_str(), prefix.as_str().as_bytes(), now) {
        Ok(list) => Ok(pairs_as_text(&list)),
        Err(e) => Err(Refusal::Failed(e)),
    }
}

/// What a scan of a prefix is answered now.
pub fn scan_prefix(db: &LsmEngine, cf: Option<String>, prefix: String) -> (r: Result<
    Vec<KvPair>,
    Refusal,
>)
    requires
        db.wf(),
    ensures
        ({
            let family = family_asked(name_view(cf));
            match r {
                Ok(v) => db.has_cf(family) && !db.is_damaged(family) && exists|list: Seq<(Vec<u8>, Vec<u8>)>, now: u64|
                    is_reading(now) && #[trigger] lists_map(
                        list,
                        with_prefix(
                            visible_values(db.contents(family), now),
                            encode_utf8(prefix@),
                        ),
                    ) && text_of(v@, list),
                Err(x) => x matches Refusal::Failed(e) && db.fails_with(
                    e,
                    family,
                    db.is_damaged(family),
                ),
            }
        }),
{
    scan_prefix_at(db, cf, prefix, now_ms())
}

/// A snapshot as text: its number and its pairs.
pub struct SnapshotText {
    pub seq: u64,
    pub entries: Vec<KvPair>,
}

/// What a request for a snapshot of `default` is answered, when the clock shows `now`.
pub fn snapshot_at(db: &LsmEngine, now: u64) -> (r: Result<SnapshotText, Refusal>)
    requires
        db.wf(),
    ensures
        match r {
            Ok(s) => {
                &&& db.has_cf("default"@)
                &&& !db.is_damaged("default"@)
                &&& s.seq + 1 == db.next_seq()
                &&& exists|list: Seq<(Vec<u8>, Vec<u8>)>| #[trigger]
                    lists_map(list, visible_values(db.contents("default"@), now)) && text_of(
                        s.entries@,
                        list,
                    )
            },
            Err(x) => x matches Refusal::Failed(e) && db.fails_with(
                e,
                "default"@,
                db.is_damaged("default"@),
            ),
        },
{
    match db.snapshot_cf_at("default", now) {
        Ok(snap) => {
            let empty: Vec<u8> = Vec::new();
            let list: Vec<(Vec<u8>, Vec<u8>)> = snap.scan_prefix(empty.as_slice());
            proof {
                assert(with_prefix(snap@, empty@) =~= snap@) by {
                    assert forall|k: Seq<u8>| has_prefix(k, empty@) by {
                        assert(k.subrange(0, 0) =~= empty@);
                    }
                }
                assert(lists_map(list@, visible_values(db.contents("default"@), now)));
            }
            Ok(SnapshotText { seq: snap.seq(), entries: pairs_as_text(&list) })
        },
        Err(e) => Err(Refusal::Failed(e)),
    }
}

/// What a request for a snapshot of `default` is answered now.
pub fn snapshot(db: &LsmEngine) -> (r: Result<SnapshotText, Refusal>)
    requires
        db.wf(),
    ensures
        match r {
            Ok(s) => {
                &&& db.has_cf("default"@)
                &&& !db.is_damaged("default"@)
                &&& s.seq + 1 == db.next_seq()
                &&& exists|list: Seq<(Vec<u8>, Vec<u8>)>, now: u64| is_reading(now) && #[trigger]
                    lists_map(list, visible_values(db.contents("default"@), now)) && text_of(
                        s.entries@,
                        list,
                    )
            },
            Err(x) => x matches Refusal::Failed(e) && db.fails_with(
                e,
                "default"@,
                db.is_damaged("default"@),
            ),
        },
{
    snapshot_at(db, now_ms())
}

// ---- laws ----------------------------------------------------------------------

/// A request is for the column family that it names, or for `default`.
pub proof fn law_family_of_a_request(cf: Option<String>)
    ensures
        cf is None ==> family_asked(name_view(cf)) == "default"@,
        cf is Some ==> family_asked(name_view(cf)) == cf->0@,
{
}

/// A bound that is not given is empty, and one that is given is its UTF-8 bytes.
pub proof fn law_bound_of_a_request(b: Option<String>)
    ensures
        b is None ==> bound_asked(b).len() == 0,
        b is Some ==> bound_asked(b) == encode_utf8(b->0@),
{
}

/// A request for a key without a value is answered with 404, one that fails with 500.
pub proof fn law_statuses(e: EngineError)
    ensures
        Refusal::NoValue.code() == 404,
        Refusal::Failed(e).code() == 500,
        STATUS_OK == 200,
{
}

/// The text of a list has one pair for each pair of the list, in the same order.
pub proof fn law_text_one_by_one(list: &Vec<(Vec<u8>, Vec<u8>)>, r: Vec<KvPair>, i: int)
    requires
        call_ensures(pairs_as_text, (list,), r),
        0 <= i < list@.len(),
    ensures
        r@.len() == list@.len(),
        r@[i].key@ == lossy_utf8(list@[i].0@),
        r@[i].value@ == lossy_utf8(list@[i].1@),
{
}

/// What is put under a key is what is answered when the key is asked for, as text.
pub proof fn law_put_is_answered(
    before: &LsmEngine,
    after: &LsmEngine,
    cf: Option<String>,
    key: String,
    body: Seq<char>,
    seq: u64,
    now: u64,
    r: Result<KvPair, Refusal>,
)
    requires
        wrote(
            before,
            after,
            family_asked(name_view(cf)),
            Record::Put { key: encode_utf8(key@), seq, value: encode_utf8(body) },
        ),
        after.has_cf(family_asked(name_view(cf))),
        !after.hides(family_asked(name_view(cf)), encode_utf8(key@)),
        call_ensures(get_key_at, (after, cf, key, now), r),
    ensures
        r is Ok,
        r->Ok_0.key@ == key@,
        r->Ok_0.value@ == lossy_utf8(encode_utf8(body)),
{
    assert(seen(after.contents(family_asked(name_view(cf))), encode_utf8(key@), now) == Some(
        encode_utf8(body),
    ));
}

} // verus!
