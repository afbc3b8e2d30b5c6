//! The manifest: a durable log of which table files are live at which level.
//!
//! A record is `[payload_len u32 LE][payload][crc32 u32 LE]`, where the checksum
//! covers the payload. Payloads are
//!
//! - a column family is created: `[0x01][cf_name]`
//! - a file becomes live: `[0x02][level u8][cf_name][filename]`
//! - a file is no longer live: `[0x03][cf_name][filename]`
//!
//! with each name as `[len u16 LE][utf8 bytes]`. An edit is logged before the
//! files that it makes obsolete are deleted, so that replaying the log always
//! gives a set of files that are all there.

use crate::bytes::{le_bytes, le_value, lemma_le_round_trip, lemma_le_value_round_trip,
    lemma_pow256_values, put_bytes, put_le};
use crate::codec::{lemma_take_le, lemma_take_le_splits, lemma_take_lp_le, lemma_take_lp_le_splits,
    lemma_take_n, lp_le, put_lp_le, read_lp_le, take_le, take_lp_le};
use crate::compaction::reverse;
use crate::crc::{crc32, law_changed_byte_changes_checksum};
use crate::text::utf8_text;
use crate::wal::accept_checksum;
use vstd::prelude::*;
use vstd::string::*;
use vstd::utf8::{decode_utf8, decode_utf8_encode_utf8, encode_utf8, encode_utf8_decode_utf8, encode_utf8_valid_utf8,
    valid_utf8};

verus! {

/// One change to the set of live files.
#[derive(Debug)]
pub enum ManifestRecord {
    CreateCF { name: String },
    AddFile { cf: String, level: u32, filename: String },
    RemoveFile { cf: String, filename: String },
}

/// One change to the set of live files, as a mathematical value.
pub enum Edit {
    CreateCF { name: Seq<char> },
    AddFile { cf: Seq<char>, level: u32, filename: Seq<char> },
    RemoveFile { cf: Seq<char>, filename: Seq<char> },
}

impl View for ManifestRecord {
    type V = Edit;

    open spec fn view(&self) -> Edit {
        match *self {
            ManifestRecord::CreateCF { name } => Edit::CreateCF { name: name@ },
            ManifestRecord::AddFile { cf, level, filename } => Edit::AddFile {
                cf: cf@,
                level,
                filename: filename@,
            },
            ManifestRecord::RemoveFile { cf, filename } => Edit::RemoveFile {
                cf: cf@,
                filename: filename@,
            },
        }
    }
}

/// Records as mathematical values.
pub open spec fn edit_views(v: Seq<ManifestRecord>) -> Seq<Edit> {
    v.map_values(|r: ManifestRecord| r@)
}

// ---- format --------------------------------------------------------------------

/// A name as it is written.
pub open spec fn name_bytes(s: Seq<char>) -> Seq<u8> {
    lp_le(encode_utf8(s), 2)
}

/// The payload of a record.
#[verifier::opaque]
pub open spec fn edit_payload(e: Edit) -> Seq<u8> {
    match e {
        Edit::CreateCF { name } => seq![1u8] + name_bytes(name),
        Edit::AddFile { cf, level, filename } => seq![2u8] + (seq![(level % 256) as u8] + (
        name_bytes(cf) + name_bytes(filename))),
        Edit::RemoveFile { cf, filename } => seq![3u8] + (name_bytes(cf) + name_bytes(filename)),
    }
}

/// A payload with its length and a checksum.
pub open spec fn framed(p: Seq<u8>, crc: u32) -> Seq<u8> {
    lp_le(p, 4) + le_bytes(crc as nat, 4)
}

/// The bytes of a record in the manifest.
pub open spec fn edit_frame(e: Edit) -> Seq<u8> {
    framed(edit_payload(e), crc32(edit_payload(e)))
}

/// The bytes of a manifest that holds `es`.
pub open spec fn manifest_of(es: Seq<Edit>) -> Seq<u8>
    decreases es.len(),
{
    if es.len() == 0 {
        Seq::empty()
    } else {
        edit_frame(es[0]) + manifest_of(es.drop_first())
    }
}

/// A name that takes no more bytes than its length can say.
pub open spec fn name_fits(s: Seq<char>) -> bool {
    encode_utf8(s).len() < 0x1_0000
}

/// The names of a record and its level can be written.
pub open spec fn edit_fits(e: Edit) -> bool {
    match e {
        Edit::CreateCF { name } => name_fits(name),
        Edit::AddFile { cf, level, filename } => name_fits(cf) && level < 256 && name_fits(
            filename,
        ),
        Edit::RemoveFile { cf, filename } => name_fits(cf) && name_fits(filename),
    }
}

/// Every record of a sequence can be written.
pub open spec fn edits_fit(es: Seq<Edit>) -> bool {
    forall|i: int| 0 <= i < es.len() ==> edit_fits(#[trigger] es[i])
}

/// A name at the front of `s`, if its bytes are valid UTF-8.
pub open spec fn take_name(s: Seq<u8>) -> Option<(Seq<char>, Seq<u8>)> {
    match take_lp_le(s, 2) {
        Some((b, rest)) => if valid_utf8(b) {
            Some((decode_utf8(b), rest))
        } else {
            None
        },
        None => None,
    }
}

/// The record that a payload holds, if it is one.
#[verifier::opaque]
pub open spec fn decode_edit(p: Seq<u8>) -> Option<Edit> {
    if p.len() == 0 {
        None
    } else if p[0] == 1 {
        match take_name(p.skip(1)) {
            Some((name, _)) => Some(Edit::CreateCF { name }),
            None => None,
        }
    } else if p[0] == 2 {
        if p.len() == 1 {
            None
        } else {
            match take_name(p.skip(2)) {
                Some((cf, r)) => match take_name(r) {
                    Some((filename, _)) => Some(
                        Edit::AddFile { cf, level: p[1] as u32, filename },
                    ),
                    None => None,
                },
                None => None,
            }
        }
    } else if p[0] == 3 {
        match take_name(p.skip(1)) {
            Some((cf, r)) => match take_name(r) {
                Some((filename, _)) => Some(Edit::RemoveFile { cf, filename }),
                None => None,
            },
            None => None,
        }
    } else {
        None
    }
}

/// The payload at the front of a manifest with what follows its checksum: none
/// where the bytes run out or the checksum does not match.
pub open spec fn parse_edit_frame(s: Seq<u8>) -> Option<(Seq<u8>, Seq<u8>)> {
    match take_lp_le(s, 4) {
        Some((p, r)) => match take_le(r, 4) {
            Some((crc, tail)) => if crc == crc32(p) {
                Some((p, tail))
            } else {
                None
            },
            None => None,
        },
        None => None,
    }
}

/// Reading a record uses up some of the manifest.
pub proof fn lemma_edit_frame_shrinks(s: Seq<u8>)
    ensures
        match parse_edit_frame(s) {
            Some((p, tail)) => tail.len() < s.len(),
            None => true,
        },
{
    lemma_take_lp_le_splits(s, 4);
    if let Some((p, r)) = take_lp_le(s, 4) {
        lemma_take_le_splits(r, 4);
        lemma_le_round_trip(p.len(), 4);
    }
}

/// A sequence of no record or one.
pub open spec fn one_or_none(e: Option<Edit>) -> Seq<Edit> {
    match e {
        Some(e) => seq![e],
        None => Seq::empty(),
    }
}

/// The records that recovery reads: up to the first that is cut short or does
/// not match its checksum, without those whose payload holds no record.
pub open spec fn recovered_edits(s: Seq<u8>) -> Seq<Edit>
    decreases s.len(),
{
    proof {
        lemma_edit_frame_shrinks(s);
    }
    match parse_edit_frame(s) {
        Some((p, tail)) => one_or_none(decode_edit(p)) + recovered_edits(tail),
        None => Seq::empty(),
    }
}

// ---- facts about the format ------------------------------------------------------

proof fn lemma_take_name(name: Seq<char>, rest: Seq<u8>)
    requires
        name_fits(name),
    ensures
        take_name(name_bytes(name) + rest) == Some((name, rest)),
{
    lemma_pow256_values();
    lemma_take_lp_le(encode_utf8(name), 2, rest);
    encode_utf8_valid_utf8(name);
    encode_utf8_decode_utf8(name);
}

/// A payload is read back as the record that it was made of.
pub proof fn lemma_decode_edit(e: Edit)
    requires
        edit_fits(e),
    ensures
        decode_edit(edit_payload(e)) == Some(e),
        edit_payload(e).len() < 0x1_0000_0000,
{
    reveal(edit_payload);
    reveal(decode_edit);
    let p = edit_payload(e);
    let none = Seq::<u8>::empty();
    match e {
        Edit::CreateCF { name } => {
            assert(p.skip(1) =~= name_bytes(name) + none);
            lemma_take_name(name, none);
            lemma_le_round_trip(encode_utf8(name).len(), 2);
        },
        Edit::AddFile { cf, level, filename } => {
            assert(p.skip(2) =~= name_bytes(cf) + name_bytes(filename));
            lemma_take_name(cf, name_bytes(filename));
            assert(name_bytes(filename) =~= name_bytes(filename) + none);
            lemma_take_name(filename, none);
            lemma_le_round_trip(encode_utf8(cf).len(), 2);
            lemma_le_round_trip(encode_utf8(filename).len(), 2);
        },
        Edit::RemoveFile { cf, filename } => {
            assert(p.skip(1) =~= name_bytes(cf) + name_bytes(filename));
            lemma_take_name(cf, name_bytes(filename));
            assert(name_bytes(filename) =~= name_bytes(filename) + none);
            lemma_take_name(filename, none);
            lemma_le_round_trip(encode_utf8(cf).len(), 2);
            lemma_le_round_trip(encode_utf8(filename).len(), 2);
        },
    }
}

proof fn lemma_edit_frame_round_trip(e: Edit, rest: Seq<u8>)
    requires
        edit_fits(e),
    ensures
        parse_edit_frame(edit_frame(e) + rest) == Some((edit_payload(e), rest)),
{
    let p = edit_payload(e);
    lemma_decode_edit(e);
    lemma_pow256_values();
    let t = le_bytes(crc32(p) as nat, 4) + rest;
    assert(edit_frame(e) + rest =~= lp_le(p, 4) + t);
    lemma_take_lp_le(p, 4, t);
    lemma_take_le(crc32(p) as nat, 4, rest);
}

/// Recovery returns every record of an intact manifest in order, and goes on
/// with what follows them.
#[verifier::rlimit(50)]
#[verifier::spinoff_prover]
pub proof fn lemma_recover_manifest(es: Seq<Edit>, tail: Seq<u8>)
    requires
        edits_fit(es),
    ensures
        recovered_edits(manifest_of(es) + tail) == es + recovered_edits(tail),
    decreases es.len(),
{
    if es.len() == 0 {
        assert(manifest_of(es) + tail =~= tail);
        assert(es + recovered_edits(tail) =~= recovered_edits(tail));
    } else {
        let more = es.drop_first();
        assert(manifest_of(es) + tail =~= edit_frame(es[0]) + (manifest_of(more) + tail));
        assert(edit_fits(es[0]));
        lemma_edit_frame_round_trip(es[0], manifest_of(more) + tail);
        lemma_decode_edit(es[0]);
        assert forall|i: int| 0 <= i < more.len() implies edit_fits(#[trigger] more[i]) by {
            assert(more[i] == es[i + 1]);
        }
        lemma_recover_manifest(more, tail);
        assert(seq![es[0]] + (more + recovered_edits(tail)) =~= es + recovered_edits(tail));
    }
}

/// An empty file holds no records.
pub proof fn lemma_empty_manifest()
    ensures
        recovered_edits(Seq::<u8>::empty()) == Seq::<Edit>::empty(),
{
}

/// An intact manifest gives back exactly what was logged.
pub proof fn law_manifest_returns_what_was_logged(es: Seq<Edit>)
    requires
        edits_fit(es),
    ensures
        recovered_edits(manifest_of(es)) == es,
{
    lemma_recover_manifest(es, Seq::empty());
    lemma_empty_manifest();
    assert(manifest_of(es) + Seq::<u8>::empty() =~= manifest_of(es));
    assert(es + Seq::<Edit>::empty() =~= es);
}

/// Logging one more record puts its bytes at the end of the manifest.
pub proof fn lemma_manifest_push(es: Seq<Edit>, e: Edit)
    ensures
        manifest_of(es.push(e)) == manifest_of(es) + edit_frame(e),
    decreases es.len(),
{
    if es.len() == 0 {
        assert(es.push(e).drop_first() =~= Seq::<Edit>::empty());
        assert(manifest_of(es.push(e)) == edit_frame(e) + manifest_of(Seq::<Edit>::empty()));
        assert(manifest_of(es.push(e)) =~= manifest_of(es) + edit_frame(e));
    } else {
        lemma_manifest_push(es.drop_first(), e);
        assert(es.push(e).drop_first() =~= es.drop_first().push(e));
        assert(es.push(e)[0] == es[0]);
        assert(edit_frame(es[0]) + (manifest_of(es.drop_first()) + edit_frame(e)) =~= manifest_of(
            es,
        ) + edit_frame(e));
    }
}

/// A manifest followed by more records.
pub proof fn lemma_manifest_concat(a: Seq<Edit>, b: Seq<Edit>)
    ensures
        manifest_of(a + b) == manifest_of(a) + manifest_of(b),
    decreases a.len(),
{
    if a.len() == 0 {
        assert(a + b =~= b);
        assert(manifest_of(a) + manifest_of(b) =~= manifest_of(b));
    } else {
        lemma_manifest_concat(a.drop_first(), b);
        assert((a + b).drop_first() =~= a.drop_first() + b);
        assert((a + b)[0] == a[0]);
        assert(edit_frame(a[0]) + (manifest_of(a.drop_first()) + manifest_of(b)) =~= manifest_of(a)
            + manifest_of(b));
    }
}

/// An edit of which a byte behind its length was changed is noticed and stops recovery:
/// what came before it is returned, and nothing after it.
pub proof fn law_changed_byte_stops_recovery(
    es: Seq<Edit>,
    e: Edit,
    i: int,
    x: u8,
    rest: Seq<u8>,
)
    requires
        edits_fit(es),
        edit_fits(e),
        4 <= i < edit_frame(e).len(),
        x != edit_frame(e)[i],
    ensures
        recovered_edits(manifest_of(es) + edit_frame(e).update(i, x) + rest) == es,
{
    let p = edit_payload(e);
    let f = edit_frame(e);
    let crc = crc32(p);
    let n = p.len() as int;
    let s = f.update(i, x) + rest;
    lemma_pow256_values();
    lemma_decode_edit(e);
    lemma_le_round_trip(n as nat, 4);
    lemma_le_round_trip(crc as nat, 4);
    let c = le_bytes(crc as nat, 4);
    assert(f =~= lp_le(p, 4) + c);
    assert(parse_edit_frame(s) is None) by {
        if i < 4 + n {
            let q = p.update(i - 4, x);
            assert(f[i] == p[i - 4]);
            assert(s =~= lp_le(q, 4) + (c + rest));
            lemma_take_lp_le(q, 4, c + rest);
            lemma_take_le(crc as nat, 4, rest);
            law_changed_byte_changes_checksum(p, i - 4, x);
        } else {
            let m = i - 4 - n;
            let bad = c.update(m, x);
            assert(f[i] == c[m]);
            assert(s =~= lp_le(p, 4) + (bad + rest));
            lemma_take_lp_le(p, 4, bad + rest);
            lemma_take_n(bad, rest);
            if le_value(bad) == crc {
                lemma_le_value_round_trip(bad);
                assert(bad[m] == c[m]);
            }
        }
    }
    lemma_recover_manifest(es, s);
    assert(manifest_of(es) + f.update(i, x) + rest =~= manifest_of(es) + s);
    assert(es + recovered_edits(s) =~= es);
}

/// A record that was cut short by a crash is dropped, and the state before it
/// is what recovery finds.
pub proof fn law_torn_edit_is_dropped(es: Seq<Edit>, e: Edit, cut: nat)
    requires
        edits_fit(es),
        edit_fits(e),
        cut < edit_frame(e).len(),
    ensures
        recovered_edits(manifest_of(es) + edit_frame(e).take(cut as int)) == es,
{
    let p = edit_payload(e);
    let f = edit_frame(e);
    let c = f.take(cut as int);
    lemma_decode_edit(e);
    lemma_pow256_values();
    lemma_le_round_trip(p.len(), 4);
    lemma_le_round_trip(crc32(p) as nat, 4);
    if cut >= 4 {
        let head = le_bytes(p.len(), 4);
        if cut < 4 + p.len() {
            let rest = p.take(cut - 4);
            assert(c =~= head + rest);
            lemma_take_n(head, rest);
        } else {
            let rest = le_bytes(crc32(p) as nat, 4).take(cut - 4 - p.len());
            assert(c =~= lp_le(p, 4) + rest);
            lemma_take_lp_le(p, 4, rest);
        }
    }
    assert(parse_edit_frame(c) is None);
    lemma_recover_manifest(es, c);
    assert(es + Seq::<Edit>::empty() =~= es);
}

// ---- replay --------------------------------------------------------------------

/// The column families that a sequence of edits creates, in that order.
pub open spec fn families_of(es: Seq<Edit>) -> Seq<Seq<char>>
    decreases es.len(),
{
    if es.len() == 0 {
        Seq::empty()
    } else {
        let before = families_of(es.drop_last());
        match es.last() {
            Edit::CreateCF { name } => if before.contains(name) {
                before
            } else {
                before.push(name)
            },
            _ => before,
        }
    }
}

/// A list of files without those called `name`.
pub open spec fn without(files: Seq<(u32, Seq<char>)>, name: Seq<char>) -> Seq<(u32, Seq<char>)>
    decreases files.len(),
{
    if files.len() == 0 {
        Seq::empty()
    } else {
        let before = without(files.drop_last(), name);
        if files.last().1 == name {
            before
        } else {
            before.push(files.last())
        }
    }
}

/// The files of a family after one edit.
pub open spec fn files_step(
    before: Seq<(u32, Seq<char>)>,
    e: Edit,
    family: Seq<char>,
) -> Seq<(u32, Seq<char>)> {
    match e {
        Edit::AddFile { cf, level, filename } => if cf == family {
            before.push((level, filename))
        } else {
            before
        },
        Edit::RemoveFile { cf, filename } => if cf == family {
            without(before, filename)
        } else {
            before
        },
        _ => before,
    }
}

/// The live files of a family after a sequence of edits, in the order in which
/// they were added.
pub open spec fn files_of(es: Seq<Edit>, family: Seq<char>) -> Seq<(u32, Seq<char>)>
    decreases es.len(),
{
    if es.len() == 0 {
        Seq::empty()
    } else {
        files_step(files_of(es.drop_last(), family), es.last(), family)
    }
}

// ---- encoding and decoding -------------------------------------------------------

fn put_name(out: &mut Vec<u8>, name: &String)
    ensures
        final(out)@ == old(out)@ + name_bytes(name@),
{
    put_lp_le(out, name.as_str().as_bytes(), 2);
}

/// The payload of a record.
pub fn encode(record: &ManifestRecord) -> (p: Vec<u8>)
    ensures
        p@ == edit_payload(record@),
{
    proof {
        reveal(edit_payload);
    }
    let mut p: Vec<u8> = Vec::new();
    match record {
        ManifestRecord::CreateCF { name } => {
            p.push(1);
            put_name(&mut p, name);
        },
        ManifestRecord::AddFile { cf, level, filename } => {
            p.push(2);
            p.push((*level % 256) as u8);
            put_name(&mut p, cf);
            put_name(&mut p, filename);
        },
        ManifestRecord::RemoveFile { cf, filename } => {
            p.push(3);
            put_name(&mut p, cf);
            put_name(&mut p, filename);
        },
    }
    assert(p@ =~= edit_payload(record@));
    p
}

/// Put a length in front of a payload and a checksum behind it.
pub fn frame_payload(p: &Vec<u8>, crc: u32) -> (f: Vec<u8>)
    ensures
        f@ == framed(p@, crc),
{
    let mut f: Vec<u8> = Vec::new();
    put_lp_le(&mut f, p.as_slice(), 4);
    put_le(&mut f, crc as u64, 4);
    assert(f@ =~= framed(p@, crc));
    f
}

fn read_name(data: &[u8], pos: usize) -> (r: Option<(String, usize)>)
    requires
        pos <= data@.len(),
    ensures
        match r {
            Some((name, end)) => {
                &&& end <= data@.len()
                &&& take_name(data@.skip(pos as int)) == Some((name@, data@.skip(end as int)))
            },
            None => take_name(data@.skip(pos as int)) is None,
        },
{
    match read_lp_le(data, pos, 2) {
        Some((b, end)) => match utf8_text(b) {
            Some(name) => Some((name, end)),
            None => None,
        },
        None => None,
    }
}

/// The record that a payload holds, if it is one.
pub fn decode(payload: &[u8]) -> (r: Option<ManifestRecord>)
    ensures
        match r {
            Some(rec) => decode_edit(payload@) == Some(rec@),
            None => decode_edit(payload@) is None,
        },
{
    proof {
        reveal(decode_edit);
    }
    if payload.len() == 0 {
        return None;
    }
    let tag: u8 = payload[0];
    if tag == 1 {
        match read_name(payload, 1) {
            Some((name, _)) => Some(ManifestRecord::CreateCF { name }),
            None => None,
        }
    } else if tag == 2 {
        if payload.len() == 1 {
            return None;
        }
        let level: u32 = payload[1] as u32;
        match read_name(payload, 2) {
            Some((cf, at)) => match read_name(payload, at) {
                Some((filename, _)) => Some(ManifestRecord::AddFile { cf, level, filename }),
                None => None,
            },
            None => None,
        }
    } else if tag == 3 {
        match read_name(payload, 1) {
            Some((cf, at)) => match read_name(payload, at) {
                Some((filename, _)) => Some(ManifestRecord::RemoveFile { cf, filename }),
                None => None,
            },
            None => None,
        }
    } else {
        None
    }
}

// ---- state ---------------------------------------------------------------------

/// Names as mathematical values.
pub open spec fn names(v: Seq<String>) -> Seq<Seq<char>> {
    v.map_values(|s: String| s@)
}

/// A list of files as mathematical values.
pub open spec fn file_list(v: Seq<(u32, String)>) -> Seq<(u32, Seq<char>)> {
    v.map_values(|f: (u32, String)| (f.0, f.1@))
}

/// The files listed for a family; none if it is not mentioned.
pub open spec fn listed(
    v: Seq<(String, Vec<(u32, String)>)>,
    family: Seq<char>,
) -> Seq<(u32, Seq<char>)>
    decreases v.len(),
{
    if v.len() == 0 {
        Seq::empty()
    } else if v.last().0@ == family {
        file_list(v.last().1@)
    } else {
        listed(v.drop_last(), family)
    }
}

/// No family is listed twice.
pub open spec fn listed_once(v: Seq<(String, Vec<(u32, String)>)>) -> bool {
    forall|i: int, j: int| 0 <= i < j < v.len() ==> (#[trigger] v[i]).0@ != (#[trigger] v[j]).0@
}

/// A family is not mentioned.
pub open spec fn unlisted(v: Seq<(String, Vec<(u32, String)>)>, family: Seq<char>) -> bool {
    forall|i: int| 0 <= i < v.len() ==> (#[trigger] v[i]).0@ != family
}

proof fn lemma_listed_at(v: Seq<(String, Vec<(u32, String)>)>, i: int)
    requires
        listed_once(v),
        0 <= i < v.len(),
    ensures
        listed(v, v[i].0@) == file_list(v[i].1@),
    decreases v.len(),
{
    if i < v.len() - 1 {
        assert(v[i].0@ != v[v.len() - 1].0@);
        let less = v.drop_last();
        assert(less[i] == v[i]);
        assert forall|a: int, b: int| 0 <= a < b < less.len() implies #[trigger] less[a].0@
            != #[trigger] less[b].0@ by {
            assert(less[a] == v[a] && less[b] == v[b]);
        }
        lemma_listed_at(less, i);
    }
}

proof fn lemma_not_listed(v: Seq<(String, Vec<(u32, String)>)>, family: Seq<char>)
    requires
        unlisted(v, family),
    ensures
        listed(v, family) == Seq::<(u32, Seq<char>)>::empty(),
    decreases v.len(),
{
    if v.len() > 0 {
        assert(v[v.len() - 1].0@ != family);
        let less = v.drop_last();
        assert forall|i: int| 0 <= i < less.len() implies (#[trigger] less[i]).0@ != family by {
            assert(less[i] == v[i]);
        }
        lemma_not_listed(less, family);
    }
}

proof fn lemma_listed_same(
    v: Seq<(String, Vec<(u32, String)>)>,
    w: Seq<(String, Vec<(u32, String)>)>,
    family: Seq<char>,
)
    requires
        v.len() == w.len(),
        forall|i: int| 0 <= i < v.len() ==> (#[trigger] v[i]).0@ == w[i].0@,
        forall|i: int| 0 <= i < v.len() && (#[trigger] v[i]).0@ == family ==> v[i] == w[i],
    ensures
        listed(v, family) == listed(w, family),
    decreases v.len(),
{
    if v.len() > 0 {
        let a = v.drop_last();
        let b = w.drop_last();
        let last = v[v.len() - 1];
        assert forall|i: int| 0 <= i < a.len() implies (#[trigger] a[i]).0@ == b[i].0@ by {
            assert(a[i] == v[i] && b[i] == w[i]);
        }
        assert forall|i: int| 0 <= i < a.len() && (#[trigger] a[i]).0@ == family implies a[i]
            == b[i] by {
            assert(a[i] == v[i] && b[i] == w[i]);
        }
        lemma_listed_same(a, b, family);
    }
}

/// Which column families there are and which files are live.
pub struct ManifestState {
    /// The families, in the order in which they were created.
    pub cfs: Vec<String>,
    /// For each family that has had files, its live ones with their levels.
    pub files: Vec<(String, Vec<(u32, String)>)>,
}

impl ManifestState {
    /// No family is mentioned twice.
    pub open spec fn wf(&self) -> bool {
        listed_once(self.files@)
    }

    /// This is the state after `es`.
    pub open spec fn is_after(&self, es: Seq<Edit>) -> bool {
        &&& names(self.cfs@) == families_of(es)
        &&& forall|family: Seq<char>| #[trigger]
            listed(self.files@, family) == files_of(es, family)
    }

    /// Nothing was created yet.
    pub fn new() -> (r: ManifestState)
        ensures
            r.wf(),
            r.is_after(Seq::<Edit>::empty()),
    {
        let r: ManifestState = ManifestState { cfs: Vec::new(), files: Vec::new() };
        assert(names(r.cfs@) =~= Seq::<Seq<char>>::empty());
        r
    }

    /// What is listed for the family at a position.
    pub proof fn lemma_listed(&self, i: int)
        requires
            self.wf(),
            0 <= i < self.files@.len(),
        ensures
            listed(self.files@, self.files@[i].0@) == file_list(self.files@[i].1@),
    {
        lemma_listed_at(self.files@, i);
    }

    /// Nothing is listed for a family that is not mentioned.
    pub proof fn lemma_listed_or_not(&self, family: Seq<char>)
        ensures
            (exists|i: int| 0 <= i < self.files@.len() && (#[trigger] self.files@[i]).0@ == family)
                || listed(self.files@, family) == Seq::<(u32, Seq<char>)>::empty(),
    {
        if unlisted(self.files@, family) {
            lemma_not_listed(self.files@, family);
        }
    }

    /// Whether there is a family called `name`.
    pub fn has_cf(&self, name: &String) -> (r: bool)
        ensures
            r == names(self.cfs@).contains(name@),
    {
        let mut i: usize = 0;
        while i < self.cfs.len()
            invariant
                i <= self.cfs@.len(),
                forall|j: int| 0 <= j < i ==> #[trigger] self.cfs@[j]@ != name@,
            decreases self.cfs@.len() - i,
        {
            if self.cfs[i] == *name {
                assert(names(self.cfs@)[i as int] == name@);
                return true;
            }
            i = i + 1;
        }
        proof {
            if names(self.cfs@).contains(name@) {
                let j = choose|j: int|
                    0 <= j < names(self.cfs@).len() && names(self.cfs@)[j] == name@;
                assert(self.cfs@[j]@ == name@);
            }
        }
        false
    }

    /// The position of a family in the list of files.
    fn find(&self, family: &String) -> (r: Option<usize>)
        ensures
            match r {
                Some(i) => i < self.files@.len() && self.files@[i as int].0@ == family@,
                None => unlisted(self.files@, family@),
            },
    {
        let mut i: usize = 0;
        while i < self.files.len()
            invariant
                i <= self.files@.len(),
                forall|j: int| 0 <= j < i ==> (#[trigger] self.files@[j]).0@ != family@,
            decreases self.files@.len() - i,
        {
            if self.files[i].0 == *family {
                return Some(i);
            }
            i = i + 1;
        }
        None
    }

    /// The live files of a family.
    pub fn files_in(&self, family: &String) -> (r: Vec<(u32, String)>)
        requires
            self.wf(),
        ensures
            file_list(r@) == listed(self.files@, family@),
    {
        match self.find(family) {
            Some(i) => {
                proof {
                    lemma_listed_at(self.files@, i as int);
                }
                copy_files(&self.files[i].1)
            },
            None => {
                proof {
                    lemma_not_listed(self.files@, family@);
                }
                let r: Vec<(u32, String)> = Vec::new();
                assert(file_list(r@) =~= Seq::<(u32, Seq<char>)>::empty());
                r
            },
        }
    }

    /// Put a new list of files in the place of that of one family.
    fn replace(&mut self, i: usize, list: Vec<(u32, String)>)
        requires
            old(self).wf(),
            i < old(self).files@.len(),
        ensures
            final(self).wf(),
            final(self).cfs == old(self).cfs,
            forall|family: Seq<char>| #[trigger]
                listed(final(self).files@, family) == (if family == old(
                    self,
                ).files@[i as int].0@ {
                    file_list(list@)
                } else {
                    listed(old(self).files@, family)
                }),
    {
        let ghost before = self.files@;
        let ghost the_list = list;
        let name: String = self.files[i].0.clone();
        self.files[i] = (name, list);
        proof {
            let after = self.files@;
            assert forall|a: int, b: int| 0 <= a < b < after.len() implies #[trigger] after[a].0@
                != #[trigger] after[b].0@ by {
                assert(before[a].0@ != before[b].0@);
            }
            assert forall|family: Seq<char>| #[trigger] listed(after, family) == (if family
                == before[i as int].0@ {
                file_list(the_list@)
            } else {
                listed(before, family)
            }) by {
                if family == before[i as int].0@ {
                    lemma_listed_at(after, i as int);
                } else {
                    lemma_listed_same(before, after, family);
                }
            }
        }
    }

    /// Apply one more record.
    fn apply_record(&mut self, record: ManifestRecord, Ghost(es): Ghost<Seq<Edit>>)
        requires
            old(self).wf(),
            old(self).is_after(es),
        ensures
            final(self).wf(),
            final(self).is_after(es.push(record@)),
    {
        let ghost e = record@;
        let ghost more = es.push(e);
        let ghost before = self.files@;
        proof {
            assert(more.drop_last() =~= es);
            assert(more.last() == e);
        }
        match record {
            ManifestRecord::CreateCF { name } => {
                let ghost old_names = names(self.cfs@);
                if !self.has_cf(&name) {
                    let ghost n = name@;
                    self.cfs.push(name);
                    assert(names(self.cfs@) =~= old_names.push(n));
                }
                assert(self.files@ == before);
                assert(listed_once(self.files@));
                assert forall|family: Seq<char>| #[trigger]
                    listed(self.files@, family) == files_of(more, family) by {
                    assert(listed(before, family) == files_of(es, family));
                }
            },
            ManifestRecord::AddFile { cf, level, filename } => {
                let ghost c = cf@;
                let ghost f = (level, filename@);
                match self.find(&cf) {
                    Some(i) => {
                        let mut list: Vec<(u32, String)> = copy_files(&self.files[i].1);
                        proof {
                            lemma_listed_at(before, i as int);
                        }
                        let ghost old_list = file_list(list@);
                        list.push((level, filename));
                        assert(file_list(list@) =~= old_list.push(f));
                        self.replace(i, list);
                        assert forall|family: Seq<char>| #[trigger]
                            listed(self.files@, family) == files_of(more, family) by {
                            assert(listed(before, family) == files_of(es, family));
                        }
                    },
                    None => {
                        let mut list: Vec<(u32, String)> = Vec::new();
                        list.push((level, filename));
                        assert(file_list(list@) =~= seq![f]);
                        let ghost entry = (cf, list);
                        self.files.push((cf, list));
                        assert forall|a: int, b: int|
                            0 <= a < b < self.files@.len() implies #[trigger] self.files@[a].0@
                            != #[trigger] self.files@[b].0@ by {
                            assert(self.files@[a] == before[a]);
                            if b < before.len() {
                                assert(self.files@[b] == before[b]);
                            }
                        }
                        assert forall|family: Seq<char>| #[trigger]
                            listed(self.files@, family) == files_of(more, family) by {
                            assert(self.files@.drop_last() =~= before);
                            assert(listed(before, family) == files_of(es, family));
                            if family == c {
                                lemma_not_listed(before, c);
                                assert(files_of(es, family).push(f) =~= seq![f]);
                            }
                        }
                    },
                }
            },
            ManifestRecord::RemoveFile { cf, filename } => {
                match self.find(&cf) {
                    Some(i) => {
                        let list: Vec<(u32, String)> = drop_file(&self.files[i].1, &filename);
                        proof {
                            lemma_listed_at(before, i as int);
                        }
                        self.replace(i, list);
                        assert forall|family: Seq<char>| #[trigger]
                            listed(self.files@, family) == files_of(more, family) by {
                            assert(listed(before, family) == files_of(es, family));
                        }
                    },
                    None => {
                        assert forall|family: Seq<char>| #[trigger]
                            listed(self.files@, family) == files_of(more, family) by {
                            assert(listed(before, family) == files_of(es, family));
                            if family == cf@ {
                                lemma_not_listed(before, family);
                            }
                        }
                    },
                }
            },
        }
    }
}

fn copy_files(v: &Vec<(u32, String)>) -> (r: Vec<(u32, String)>)
    ensures
        file_list(r@) == file_list(v@),
{
    let mut r: Vec<(u32, String)> = Vec::new();
    let mut i: usize = 0;
    while i < v.len()
        invariant
            i <= v@.len(),
            r@.len() == i,
            forall|j: int|
                0 <= j < i ==> (#[trigger] r@[j]).0 == v@[j].0 && r@[j].1@ == v@[j].1@,
        decreases v@.len() - i,
    {
        r.push((v[i].0, v[i].1.clone()));
        i = i + 1;
    }
    assert(file_list(r@) =~= file_list(v@));
    r
}

/// A list of files without those called `name`.
pub fn drop_file(v: &Vec<(u32, String)>, name: &String) -> (r: Vec<(u32, String)>)
    ensures
        file_list(r@) == without(file_list(v@), name@),
{
    let ghost all = file_list(v@);
    let mut r: Vec<(u32, String)> = Vec::new();
    let mut i: usize = 0;
    assert(all.take(0) =~= Seq::<(u32, Seq<char>)>::empty());
    assert(file_list(r@) =~= Seq::<(u32, Seq<char>)>::empty());
    while i < v.len()
        invariant
            i <= v@.len(),
            all == file_list(v@),
            file_list(r@) == without(all.take(i as int), name@),
        decreases v@.len() - i,
    {
        let ghost before = file_list(r@);
        proof {
            let t = all.take(i + 1);
            assert(t.drop_last() =~= all.take(i as int));
            assert(t.last() == (v@[i as int].0, v@[i as int].1@));
        }
        if v[i].1 != *name {
            let f: (u32, String) = (v[i].0, v[i].1.clone());
            let ghost x = (f.0, f.1@);
            r.push(f);
            assert(file_list(r@) =~= before.push(x));
        }
        i = i + 1;
    }
    assert(all.take(i as int) =~= all);
    r
}

// ---- the log -------------------------------------------------------------------

/// The manifest: the bytes of its file.
pub struct Manifest {
    log: Vec<u8>,
}

impl View for Manifest {
    type V = Seq<u8>;

    closed spec fn view(&self) -> Seq<u8> {
        self.log@
    }
}

impl Manifest {
    /// Continue the manifest whose file holds `log`.
    pub fn open(log: Vec<u8>) -> (r: Manifest)
        ensures
            r@ == log@,
    {
        Manifest { log }
    }

    /// The bytes of the manifest.
    pub fn bytes(&self) -> (r: &Vec<u8>)
        ensures
            r@ == self@,
    {
        &self.log
    }

    /// Log one record. Returns the bytes that go to the end of the file.
    pub fn append(&mut self, record: &ManifestRecord) -> (f: Vec<u8>)
        ensures
            f@ == edit_frame(record@),
            final(self)@ == old(self)@ + f@,
    {
        let p: Vec<u8> = encode(record);
        let crc: u32 = crc32fast::hash(p.as_slice());
        let f: Vec<u8> = frame_payload(&p, crc);
        put_bytes(&mut self.log, f.as_slice());
        f
    }

    /// Log a sequence of records at once. Returns the bytes that go to the end of
    /// the file.
    pub fn append_all(&mut self, list: &Vec<ManifestRecord>) -> (f: Vec<u8>)
        ensures
            f@ == manifest_of(edit_views(list@)),
            final(self)@ == old(self)@ + f@,
    {
        let ghost all = edit_views(list@);
        let ghost start = self.log@;
        let mut f: Vec<u8> = Vec::new();
        let mut i: usize = 0;
        assert(all.take(0) =~= Seq::<Edit>::empty());
        assert(start + f@ =~= start);
        while i < list.len()
            invariant
                i <= list@.len(),
                all == edit_views(list@),
                f@ == manifest_of(all.take(i as int)),
                self.log@ == start + f@,
            decreases list@.len() - i,
        {
            let ghost before = f@;
            let one: Vec<u8> = self.append(&list[i]);
            put_bytes(&mut f, one.as_slice());
            proof {
                assert(all.take(i + 1) =~= all.take(i as int).push(list@[i as int]@));
                lemma_manifest_push(all.take(i as int), list@[i as int]@);
                assert(self.log@ =~= start + f@);
            }
            i = i + 1;
        }
        assert(all.take(i as int) =~= all);
        f
    }

    /// The records of a manifest file. An absent file is an empty one.
    pub fn read_records(data: &[u8]) -> (out: Vec<ManifestRecord>)
        ensures
            edit_views(out@) == recovered_edits(data@),
    {
        let mut out: Vec<ManifestRecord> = Vec::new();
        let mut pos: usize = 0;
        assert(data@.skip(0) =~= data@);
        assert(edit_views(out@) + recovered_edits(data@) =~= recovered_edits(data@));
        loop
            invariant
                pos <= data@.len(),
                recovered_edits(data@) == edit_views(out@) + recovered_edits(
                    data@.skip(pos as int),
                ),
            ensures
                edit_views(out@) == recovered_edits(data@),
            decreases data@.len() - pos,
        {
            let ghost done = edit_views(out@);
            let (payload, at): (Vec<u8>, usize) = match read_lp_le(data, pos, 4) {
                Some(x) => x,
                None => {
                    assert(done + Seq::<Edit>::empty() =~= done);
                    break;
                },
            };
            let computed: u32 = crc32fast::hash(payload.as_slice());
            let end: usize = match accept_checksum(data, at, computed) {
                Some(end) => end,
                None => {
                    assert(done + Seq::<Edit>::empty() =~= done);
                    break;
                },
            };
            let ghost rest = recovered_edits(data@.skip(end as int));
            match decode(payload.as_slice()) {
                Some(record) => {
                    let ghost e = record@;
                    out.push(record);
                    assert(edit_views(out@) =~= done.push(e));
                    assert(done + (seq![e] + rest) =~= done.push(e) + rest);
                },
                None => {
                    assert(Seq::<Edit>::empty() + rest =~= rest);
                },
            }
            pos = end;
        }
        out
    }

    /// Replay the records of a manifest file. An absent file is an empty one.
    pub fn recover(data: &[u8]) -> (state: ManifestState)
        ensures
            state.wf(),
            state.is_after(recovered_edits(data@)),
    {
        let mut state: ManifestState = ManifestState::new();
        let mut left: Vec<ManifestRecord> = Self::read_records(data);
        let ghost es = edit_views(left@);
        let ghost n = left@.len() as int;
        reverse(&mut left);
        assert(es.take(0) =~= Seq::<Edit>::empty());
        while left.len() > 0
            invariant
                n == es.len(),
                left@.len() <= n,
                forall|i: int| 0 <= i < left@.len() ==> (#[trigger] left@[i])@ == es[n - 1 - i],
                state.wf(),
                state.is_after(es.take(n - left@.len())),
            decreases left@.len(),
        {
            let ghost done = es.take(n - left@.len());
            match left.pop() {
                Some(record) => {
                    assert(es.take(n - left@.len()) =~= done.push(record@));
                    state.apply_record(record, Ghost(done));
                },
                None => {},
            }
        }
        assert(es.take(n) =~= es);
        state
    }
}

proof fn lemma_decoded_fits(p: Seq<u8>)
    ensures
        decode_edit(p) matches Some(e) ==> edit_fits(e),
{
    reveal(decode_edit);
    if decode_edit(p) is Some {
        if p[0] == 2 {
            lemma_taken_name_fits(p.skip(2));
            lemma_taken_name_fits((take_name(p.skip(2))->0).1);
        } else {
            lemma_taken_name_fits(p.skip(1));
            lemma_taken_name_fits((take_name(p.skip(1))->0).1);
        }
    }
}

proof fn lemma_taken_name_fits(s: Seq<u8>)
    ensures
        take_name(s) matches Some((name, _)) ==> name_fits(name),
{
    if let Some((b, rest)) = take_lp_le(s, 2) {
        lemma_take_lp_le_splits(s, 2);
        lemma_pow256_values();
        if valid_utf8(b) {
            decode_utf8_encode_utf8(b);
        }
    }
}

/// Whatever recovery reads can be written.
pub proof fn lemma_recovered_edits_fit(s: Seq<u8>)
    ensures
        edits_fit(recovered_edits(s)),
    decreases s.len(),
{
    lemma_edit_frame_shrinks(s);
    if let Some((p, tail)) = parse_edit_frame(s) {
        lemma_recovered_edits_fit(tail);
        lemma_decoded_fits(p);
        let all = recovered_edits(s);
        let rest = recovered_edits(tail);
        let n = one_or_none(decode_edit(p)).len();
        assert forall|i: int| 0 <= i < all.len() implies edit_fits(#[trigger] all[i]) by {
            if i >= n {
                assert(all[i] == rest[i - n]);
            }
        }
    }
}

// ---- laws ----------------------------------------------------------------------

/// The bytes of an edit: its tag, for a new file its level, and the names, each behind the
/// length of its UTF-8 bytes; and in the manifest the length of all that in front and its
/// checksum behind.
pub proof fn law_bytes_of_edits(cf: Seq<char>, level: u32, file: Seq<char>, e: Edit)
    requires
        level < 256,
    ensures
        ({
            let c = le_bytes(encode_utf8(cf).len(), 2) + encode_utf8(cf);
            let f = le_bytes(encode_utf8(file).len(), 2) + encode_utf8(file);
            &&& edit_payload(Edit::CreateCF { name: cf }) == seq![1u8] + c
            &&& edit_payload(Edit::AddFile { cf, level, filename: file }) == seq![2u8, level as u8]
                + c + f
            &&& edit_payload(Edit::RemoveFile { cf, filename: file }) == seq![3u8] + c + f
        }),
        edit_frame(e) == le_bytes(edit_payload(e).len(), 4) + edit_payload(e) + le_bytes(
            crc32(edit_payload(e)) as nat,
            4,
        ),
{
    reveal(edit_payload);
    let c = le_bytes(encode_utf8(cf).len(), 2) + encode_utf8(cf);
    let f = le_bytes(encode_utf8(file).len(), 2) + encode_utf8(file);
    assert(edit_payload(Edit::AddFile { cf, level, filename: file }) =~= seq![2u8, level as u8] + c
        + f);
    assert(edit_payload(Edit::RemoveFile { cf, filename: file }) =~= seq![3u8] + c + f);
}

/// A family is there from the edit that creates it on, and no other edit makes or drops one.
/// The families are in the order in which they were created.
pub proof fn law_families_are_the_created_ones(es: Seq<Edit>, name: Seq<char>, e: Edit)
    ensures
        families_of(Seq::empty()) == Seq::<Seq<char>>::empty(),
        families_of(es).contains(name) ==> families_of(es.push(Edit::CreateCF { name }))
            == families_of(es),
        !families_of(es).contains(name) ==> families_of(es.push(Edit::CreateCF { name }))
            == families_of(es).push(name),
        !(e is CreateCF) ==> families_of(es.push(e)) == families_of(es),
{
    assert(es.push(Edit::CreateCF { name }).drop_last() =~= es);
    assert(es.push(e).drop_last() =~= es);
}

/// A file is live from the edit that adds it on, behind those that were added before, until
/// one removes it; other families, and other files, are left as they are.
pub proof fn law_files_are_added_and_removed(
    es: Seq<Edit>,
    cf: Seq<char>,
    level: u32,
    file: Seq<char>,
    family: Seq<char>,
)
    ensures
        files_of(Seq::empty(), family) == Seq::<(u32, Seq<char>)>::empty(),
        files_of(es.push(Edit::CreateCF { name: cf }), family) == files_of(es, family),
        files_of(es.push(Edit::AddFile { cf, level, filename: file }), cf) == files_of(es, cf).push(
            (level, file),
        ),
        files_of(es.push(Edit::RemoveFile { cf, filename: file }), cf) == files_of(es, cf).filter(
            |f: (u32, Seq<char>)| f.1 != file,
        ),
        family != cf ==> files_of(es.push(Edit::AddFile { cf, level, filename: file }), family)
            == files_of(es, family),
        family != cf ==> files_of(es.push(Edit::RemoveFile { cf, filename: file }), family)
            == files_of(es, family),
{
    assert(es.push(Edit::CreateCF { name: cf }).drop_last() =~= es);
    assert(es.push(Edit::AddFile { cf, level, filename: file }).drop_last() =~= es);
    assert(es.push(Edit::RemoveFile { cf, filename: file }).drop_last() =~= es);
    lemma_without_filters(files_of(es, cf), file);
}

proof fn lemma_without_filters(files: Seq<(u32, Seq<char>)>, name: Seq<char>)
    ensures
        without(files, name) == files.filter(|f: (u32, Seq<char>)| f.1 != name),
    decreases files.len(),
{
    reveal(Seq::filter);
    if files.len() > 0 {
        lemma_without_filters(files.drop_last(), name);
    }
}

/// The state that a manifest is recovered to has the families and the live files that its
/// edits leave.
pub proof fn law_recovered_state(
    data: &[u8],
    state: ManifestState,
    family: &String,
    has: bool,
    files: Vec<(u32, String)>,
    i: int,
)
    requires
        call_ensures(Manifest::recover, (data,), state),
        call_ensures(ManifestState::has_cf, (&state, family), has),
        call_ensures(ManifestState::files_in, (&state, family), files),
    ensures
        has == families_of(recovered_edits(data@)).contains(family@),
        files@.len() == files_of(recovered_edits(data@), family@).len(),
        0 <= i < files@.len() ==> files@[i].0 == files_of(recovered_edits(data@), family@)[i].0
            && files@[i].1@ == files_of(recovered_edits(data@), family@)[i].1,
{
    assert(file_list(files@) == files_of(recovered_edits(data@), family@));
    assert(file_list(files@).len() == files@.len());
    if 0 <= i < files@.len() {
        assert(file_list(files@)[i] == (files@[i].0, files@[i].1@));
    }
}

/// A payload that begins with none of the three tags, or with nothing, holds no edit.
pub proof fn law_other_payloads_hold_no_edit(p: Seq<u8>)
    requires
        p.len() == 0 || p[0] == 0 || p[0] > 3,
    ensures
        decode_edit(p) is None,
{
    reveal(decode_edit);
}

/// A name can be written if it has less than 65536 bytes.
pub proof fn law_which_names_fit(name: Seq<char>)
    ensures
        encode_utf8(name).len() < 65_536 <==> name_fits(name),
{
}

} // verus!
