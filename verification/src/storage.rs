//! The files of a database, and the operations on them that the engine asks for.

use crate::bytes::{copy_bytes, put_bytes};
use crate::compaction::reverse;
use crate::sorted_map::assoc;
use vstd::prelude::*;
use vstd::string::*;

verus! {

/// Which file of a database is meant.
#[derive(Debug)]
pub enum FileName {
    /// The manifest.
    Manifest,
    /// The write-ahead log of a column family.
    Wal { cf: String },
    /// A table file of a column family.
    Table { cf: String, name: String },
}

/// Which file of a database is meant, as a mathematical value.
pub enum FileId {
    Manifest,
    Wal(Seq<char>),
    Table(Seq<char>, Seq<char>),
}

impl View for FileName {
    type V = FileId;

    open spec fn view(&self) -> FileId {
        match *self {
            FileName::Manifest => FileId::Manifest,
            FileName::Wal { cf } => FileId::Wal(cf@),
            FileName::Table { cf, name } => FileId::Table(cf@, name@),
        }
    }
}

impl FileName {
    /// Whether two names mean the same file.
    pub fn same(&self, other: &FileName) -> (r: bool)
        ensures
            r == (self@ == other@),
    {
        match (self, other) {
            (FileName::Manifest, FileName::Manifest) => true,
            (FileName::Wal { cf: a }, FileName::Wal { cf: b }) => *a == *b,
            (FileName::Table { cf: a, name: n }, FileName::Table { cf: b, name: m }) => *a == *b
                && *n == *m,
            _ => false,
        }
    }

    /// A copy of the name.
    pub fn copy(&self) -> (r: FileName)
        ensures
            r@ == self@,
    {
        match self {
            FileName::Manifest => FileName::Manifest,
            FileName::Wal { cf } => FileName::Wal { cf: cf.clone() },
            FileName::Table { cf, name } => FileName::Table { cf: cf.clone(), name: name.clone() },
        }
    }

    /// The path of the file below the directory of the database.
    pub fn path(&self) -> (r: String)
        ensures
            r@ == file_path(self@),
    {
        match self {
            FileName::Manifest => "MANIFEST".to_owned(),
            FileName::Wal { cf } => {
                let mut r: String = cf.clone();
                r.append("/wal.log");
                r
            },
            FileName::Table { cf, name } => {
                let mut r: String = cf.clone();
                r.push('/');
                r.append(name.as_str());
                r
            },
        }
    }
}

/// The path of a file below the directory of the database.
pub open spec fn file_path(f: FileId) -> Seq<char> {
    match f {
        FileId::Manifest => "MANIFEST"@,
        FileId::Wal(cf) => cf + "/wal.log"@,
        FileId::Table(cf, name) => cf.push('/') + name,
    }
}

/// The contents of the files that there are.
pub type Disk = Map<FileId, Seq<u8>>;

/// What a file holds; nothing if it is absent.
pub open spec fn content(d: Disk, f: FileId) -> Seq<u8> {
    if d.contains_key(f) {
        d[f]
    } else {
        Seq::empty()
    }
}

/// An operation on the files of a database.
#[derive(Debug)]
pub enum FileOp {
    /// Make the directory of a column family.
    CreateDir { cf: String },
    /// Append to a file, which is made if it is absent. What is appended to a log may be
    /// cut short by a crash: the record that was cut is dropped. What is appended to the
    /// manifest must not be parted: a compaction takes the merged files out of the list
    /// and adds the new one with one append, and half of it would leave neither.
    Append { file: FileName, data: Vec<u8> },
    /// Append to several files, each of which is made if it is absent. This must not be
    /// parted either: a crash leaves all of it or nothing. So a batch is logged.
    AppendAll { parts: Vec<(FileName, Vec<u8>)> },
    /// Replace a file or make it, at one stroke.
    Write { file: FileName, data: Vec<u8> },
    /// Delete a file.
    Remove { file: FileName },
}

/// An operation on the files of a database, as a mathematical value.
pub enum Op {
    CreateDir(Seq<char>),
    Append(FileId, Seq<u8>),
    AppendAll(Seq<(FileId, Seq<u8>)>),
    Write(FileId, Seq<u8>),
    Remove(FileId),
}

impl View for FileOp {
    type V = Op;

    open spec fn view(&self) -> Op {
        match *self {
            FileOp::CreateDir { cf } => Op::CreateDir(cf@),
            FileOp::Append { file, data } => Op::Append(file@, data@),
            FileOp::AppendAll { parts } => Op::AppendAll(files_view(parts@)),
            FileOp::Write { file, data } => Op::Write(file@, data@),
            FileOp::Remove { file } => Op::Remove(file@),
        }
    }
}

/// The files after data was appended to some of them, one after the other.
pub open spec fn append_parts(d: Disk, parts: Seq<(FileId, Seq<u8>)>) -> Disk
    decreases parts.len(),
{
    if parts.len() == 0 {
        d
    } else {
        let before = append_parts(d, parts.drop_last());
        before.insert(parts.last().0, content(before, parts.last().0) + parts.last().1)
    }
}

/// One append for each part.
pub open spec fn appends_of(parts: Seq<(FileId, Seq<u8>)>) -> Seq<Op> {
    parts.map_values(|p: (FileId, Seq<u8>)| Op::Append(p.0, p.1))
}

/// The files after an operation.
pub open spec fn apply_op(d: Disk, op: Op) -> Disk {
    match op {
        Op::CreateDir(_) => d,
        Op::Append(f, data) => d.insert(f, content(d, f) + data),
        Op::AppendAll(parts) => append_parts(d, parts),
        Op::Write(f, data) => d.insert(f, data),
        Op::Remove(f) => d.remove(f),
    }
}

/// The files after a sequence of operations.
pub open spec fn apply_ops(d: Disk, ops: Seq<Op>) -> Disk
    decreases ops.len(),
{
    if ops.len() == 0 {
        d
    } else {
        apply_op(apply_ops(d, ops.drop_last()), ops.last())
    }
}

/// Operations as mathematical values.
pub open spec fn op_views(v: Seq<FileOp>) -> Seq<Op> {
    v.map_values(|op: FileOp| op@)
}

/// One more operation comes last.
pub proof fn lemma_apply_push(d: Disk, ops: Seq<Op>, op: Op)
    ensures
        apply_ops(d, ops.push(op)) == apply_op(apply_ops(d, ops), op),
{
    assert(ops.push(op).drop_last() =~= ops);
}

/// Appending to files at once or one after the other leaves the same.
pub proof fn lemma_append_parts(d: Disk, base: Seq<Op>, parts: Seq<(FileId, Seq<u8>)>)
    ensures
        apply_ops(d, base + appends_of(parts)) == apply_ops(d, base.push(Op::AppendAll(parts))),
    decreases parts.len(),
{
    lemma_apply_push(d, base, Op::AppendAll(parts));
    if parts.len() == 0 {
        assert(base + appends_of(parts) =~= base);
    } else {
        let less = parts.drop_last();
        let last = parts.last();
        lemma_append_parts(d, base, less);
        lemma_apply_push(d, base, Op::AppendAll(less));
        assert(base + appends_of(parts) =~= (base + appends_of(less)).push(
            Op::Append(last.0, last.1),
        ));
        lemma_apply_push(d, base + appends_of(less), Op::Append(last.0, last.1));
    }
}

/// The files of a database, held in memory.
pub struct Storage {
    files: Vec<(FileName, Vec<u8>)>,
}

/// The files of a list, of which the last of a name counts.
pub open spec fn files_view(v: Seq<(FileName, Vec<u8>)>) -> Seq<(FileId, Seq<u8>)> {
    v.map_values(|f: (FileName, Vec<u8>)| (f.0@, f.1@))
}

impl View for Storage {
    type V = Disk;

    closed spec fn view(&self) -> Disk {
        assoc(files_view(self.files@))
    }
}

impl Storage {
    /// No files at all.
    pub fn new() -> (r: Storage)
        ensures
            r@ == Map::<FileId, Seq<u8>>::empty(),
    {
        let r: Storage = Storage { files: Vec::new() };
        assert(files_view(r.files@) =~= Seq::<(FileId, Seq<u8>)>::empty());
        r
    }

    /// What a file holds, if it is there.
    pub fn read(&self, file: &FileName) -> (r: Option<&Vec<u8>>)
        ensures
            match r {
                Some(data) => self@.contains_key(file@) && self@[file@] == data@,
                None => !self@.contains_key(file@),
            },
    {
        let ghost all = files_view(self.files@);
        let mut i: usize = self.files.len();
        assert(all.take(all.len() as int) =~= all);
        while i > 0
            invariant
                i <= self.files@.len(),
                all == files_view(self.files@),
                self@ == assoc(all),
                assoc(all).contains_key(file@) == assoc(all.take(i as int)).contains_key(file@),
                assoc(all).contains_key(file@) ==> assoc(all)[file@] == assoc(
                    all.take(i as int),
                )[file@],
            decreases i,
        {
            i = i - 1;
            proof {
                let t = all.take(i + 1);
                assert(t.drop_last() =~= all.take(i as int));
                assert(t.last() == (self.files@[i as int].0@, self.files@[i as int].1@));
            }
            if self.files[i].0.same(file) {
                return Some(&self.files[i].1);
            }
        }
        assert(all.take(0) =~= Seq::<(FileId, Seq<u8>)>::empty());
        None
    }

    /// A copy of what a file holds; nothing if it is absent.
    pub fn read_or_empty(&self, file: &FileName) -> (r: Vec<u8>)
        ensures
            r@ == content(self@, file@),
    {
        match self.read(file) {
            Some(data) => copy_bytes(data.as_slice()),
            None => {
                let r: Vec<u8> = Vec::new();
                assert(r@ =~= Seq::<u8>::empty());
                r
            },
        }
    }

    /// Delete a file.
    pub fn remove(&mut self, file: &FileName)
        ensures
            final(self)@ == old(self)@.remove(file@),
    {
        let ghost all = files_view(self.files@);
        let mut kept: Vec<(FileName, Vec<u8>)> = Vec::new();
        let n: usize = self.files.len();
        let mut i: usize = 0;
        assert(all.take(0) =~= Seq::<(FileId, Seq<u8>)>::empty());
        assert(files_view(kept@) =~= Seq::<(FileId, Seq<u8>)>::empty());
        assert(assoc(files_view(kept@)) =~= assoc(all.take(0)).remove(file@));
        while i < n
            invariant
                i <= n,
                n == self.files@.len(),
                self.files == old(self).files,
                all == files_view(self.files@),
                assoc(files_view(kept@)) == assoc(all.take(i as int)).remove(file@),
            decreases n - i,
        {
            let ghost before = files_view(kept@);
            proof {
                let t = all.take(i + 1);
                assert(t.drop_last() =~= all.take(i as int));
                assert(t.last() == (self.files@[i as int].0@, self.files@[i as int].1@));
            }
            if !self.files[i].0.same(file) {
                let f: (FileName, Vec<u8>) = (
                    self.files[i].0.copy(),
                    copy_bytes(self.files[i].1.as_slice()),
                );
                let ghost x = (f.0@, f.1@);
                kept.push(f);
                proof {
                    assert(files_view(kept@) =~= before.push(x));
                    assert(before.push(x).drop_last() =~= before);
                    assert(assoc(files_view(kept@)) =~= assoc(all.take(i + 1)).remove(file@));
                }
            } else {
                assert(assoc(files_view(kept@)) =~= assoc(all.take(i + 1)).remove(file@));
            }
            i = i + 1;
        }
        assert(all.take(n as int) =~= all);
        self.files = kept;
    }

    /// Replace a file or make it.
    pub fn write(&mut self, file: FileName, data: Vec<u8>)
        ensures
            final(self)@ == old(self)@.insert(file@, data@),
    {
        let ghost before = self@;
        let ghost f = file@;
        let ghost d = data@;
        self.remove(&file);
        let ghost rest = files_view(self.files@);
        self.files.push((file, data));
        proof {
            assert(files_view(self.files@) =~= rest.push((f, d)));
            assert(rest.push((f, d)).drop_last() =~= rest);
            assert(self@ =~= before.insert(f, d));
        }
    }

    /// Append to a file, which is made if it is absent.
    fn append(&mut self, file: FileName, data: Vec<u8>)
        ensures
            final(self)@ == old(self)@.insert(file@, content(old(self)@, file@) + data@),
    {
        let mut all: Vec<u8> = self.read_or_empty(&file);
        put_bytes(&mut all, data.as_slice());
        self.write(file, all);
    }

    /// Perform one operation.
    pub fn apply(&mut self, op: FileOp)
        ensures
            final(self)@ == apply_op(old(self)@, op@),
    {
        match op {
            FileOp::CreateDir { cf: _ } => {},
            FileOp::Append { file, data } => {
                self.append(file, data);
            },
            FileOp::AppendAll { parts } => {
                let ghost all = files_view(parts@);
                let mut rest: Vec<(FileName, Vec<u8>)> = parts;
                reverse(&mut rest);
                let ghost n = rest@.len();
                assert(all.take(0) =~= Seq::<(FileId, Seq<u8>)>::empty());
                while rest.len() > 0
                    invariant
                        all.len() == n,
                        rest@.len() <= n,
                        forall|i: int|
                            0 <= i < rest@.len() ==> ((#[trigger] rest@[i]).0@, rest@[i].1@)
                                == all[n - 1 - i],
                        self@ == append_parts(old(self)@, all.take(n - rest@.len())),
                    decreases rest@.len(),
                {
                    let ghost i = n - rest@.len();
                    match rest.pop() {
                        Some((file, data)) => {
                            proof {
                                let t = all.take(i + 1);
                                assert(t.drop_last() =~= all.take(i));
                                assert(t.last() == (file@, data@));
                            }
                            self.append(file, data);
                        },
                        None => {},
                    }
                }
                assert(all.take(n as int) =~= all);
            },
            FileOp::Write { file, data } => {
                self.write(file, data);
            },
            FileOp::Remove { file } => {
                self.remove(&file);
            },
        }
    }

    /// Perform a sequence of operations.
    pub fn apply_all(&mut self, ops: Vec<FileOp>)
        ensures
            final(self)@ == apply_ops(old(self)@, op_views(ops@)),
    {
        let ghost all = op_views(ops@);
        let mut rest: Vec<FileOp> = ops;
        reverse(&mut rest);
        let ghost n = rest@.len();
        assert(all.take(0) =~= Seq::<Op>::empty());
        while rest.len() > 0
            invariant
                all.len() == n,
                rest@.len() <= n,
                forall|i: int| 0 <= i < rest@.len() ==> (#[trigger] rest@[i])@ == all[n - 1 - i],
                self@ == apply_ops(old(self)@, all.take(n - rest@.len())),
            decreases rest@.len(),
        {
            let ghost i = n - rest@.len();
            match rest.pop() {
                Some(op) => {
                    proof {
                        let t = all.take(i + 1);
                        assert(t.drop_last() =~= all.take(i));
                        assert(t.last() == op@);
                    }
                    self.apply(op);
                },
                None => {},
            }
        }
        assert(all.take(n as int) =~= all);
    }
}

// ---- laws ----------------------------------------------------------------------

/// What an operation leaves in a file: appending puts the data behind what is there, writing
/// puts it in its place, removing leaves no file; and every other file is as it was.
pub proof fn law_operations_change_one_file(d: Disk, f: FileId, data: Seq<u8>, cf: Seq<char>, g: FileId)
    ensures
        apply_op(d, Op::CreateDir(cf)) == d,
        d.contains_key(f) ==> apply_op(d, Op::Append(f, data))[f] == d[f] + data,
        !d.contains_key(f) ==> apply_op(d, Op::Append(f, data))[f] == data,
        apply_op(d, Op::Append(f, data)).contains_key(f),
        apply_op(d, Op::Write(f, data)).contains_key(f),
        apply_op(d, Op::Write(f, data))[f] == data,
        !apply_op(d, Op::Remove(f)).contains_key(f),
        g != f ==> {
            &&& apply_op(d, Op::Append(f, data)).contains_key(g) == d.contains_key(g)
            &&& apply_op(d, Op::Write(f, data)).contains_key(g) == d.contains_key(g)
            &&& apply_op(d, Op::Remove(f)).contains_key(g) == d.contains_key(g)
            &&& d.contains_key(g) ==> apply_op(d, Op::Append(f, data))[g] == d[g]
            &&& d.contains_key(g) ==> apply_op(d, Op::Write(f, data))[g] == d[g]
            &&& d.contains_key(g) ==> apply_op(d, Op::Remove(f))[g] == d[g]
        },
{
    assert(Seq::<u8>::empty() + data =~= data);
}

/// Appending to several files is appending to one after the other, and operations take
/// effect in their order.
pub proof fn law_operations_follow_each_other(
    d: Disk,
    parts: Seq<(FileId, Seq<u8>)>,
    part: (FileId, Seq<u8>),
    ops: Seq<Op>,
    op: Op,
)
    ensures
        apply_op(d, Op::AppendAll(Seq::empty())) == d,
        apply_op(d, Op::AppendAll(parts.push(part))) == apply_op(
            apply_op(d, Op::AppendAll(parts)),
            Op::Append(part.0, part.1),
        ),
        apply_ops(d, Seq::empty()) == d,
        apply_ops(d, ops.push(op)) == apply_op(apply_ops(d, ops), op),
{
    assert(parts.push(part).drop_last() =~= parts);
    assert(ops.push(op).drop_last() =~= ops);
}

/// Where the files of a database are: the manifest at the top, and the log and the tables of
/// a family in its directory.
pub proof fn law_paths_of_files(cf: Seq<char>, name: Seq<char>)
    ensures
        file_path(FileId::Manifest) == "MANIFEST"@,
        file_path(FileId::Wal(cf)) == cf + "/"@ + "wal.log"@,
        file_path(FileId::Table(cf, name)) == cf + "/"@ + name,
{
    reveal_strlit("/");
    reveal_strlit("wal.log");
    reveal_strlit("/wal.log");
    assert(cf + "/wal.log"@ =~= cf + "/"@ + "wal.log"@);
    assert(cf.push('/') + name =~= cf + "/"@ + name);
}

} // verus!
