//! Committing the records of several writers with one flush of the log.
//!
//! A writer adds its record to the ones that wait and gets a ticket. Then it tries to
//! lead: the first one to do so takes all the records that wait and writes them at
//! once. A writer whose ticket is below the current generation finds that its record
//! was among those of another.

use crate::bytes::put_bytes;
use crate::compaction::reverse;
use crate::wal::{all_fit, encode_record, frame, law_recovery_returns_what_was_logged,
    lemma_log_push, lemma_recover_log, log_of, records, recovered, Record, WalRecord};
use vstd::prelude::*;

verus! {

/// A log that several writers share. What was handed out to be written is not kept.
pub struct GroupCommitWal {
    waiting: Vec<WalRecord>,
    generation: u64,
    log: Ghost<Seq<u8>>,
}

impl GroupCommitWal {
    /// The records that wait to be written.
    pub closed spec fn pending(&self) -> Seq<Record> {
        records(self.waiting@)
    }

    /// How often records were taken to be written.
    pub closed spec fn generation(&self) -> u64 {
        self.generation
    }

    /// The bytes that were added to the log since it was opened.
    pub closed spec fn log(&self) -> Seq<u8> {
        self.log@
    }

    /// Continue a log.
    pub fn open() -> (r: GroupCommitWal)
        ensures
            r.pending() == Seq::<Record>::empty(),
            r.generation() == 0,
            r.log() == Seq::<u8>::empty(),
    {
        let r: GroupCommitWal = GroupCommitWal {
            waiting: Vec::new(),
            generation: 0,
            log: Ghost(Seq::empty()),
        };
        assert(r.pending() =~= Seq::<Record>::empty());
        r
    }

    /// How often what waited was written.
    pub fn flush_count(&self) -> (r: u64)
        ensures
            r == self.generation(),
    {
        self.generation
    }

    /// Add a record to those that wait. Returns the ticket of the writer.
    pub fn enqueue(&mut self, record: WalRecord) -> (ticket: u64)
        ensures
            ticket == old(self).generation(),
            final(self).generation() == old(self).generation(),
            final(self).pending() == old(self).pending().push(record@),
            final(self).log() == old(self).log(),
            follows(old(self), final(self)),
    {
        let ghost before = self.pending();
        let ghost r = record@;
        self.waiting.push(record);
        proof {
            assert(self.pending() =~= before.push(r));
            lemma_log_push(before, r);
            assert(old(self).log() + log_of(before) + frame(r) =~= self.log() + log_of(
                self.pending(),
            ));
        }
        self.generation
    }

    /// Try to lead: take all the records that wait. Returns the bytes to be written
    /// and flushed, or `None` if the writer's record was taken by another.
    pub fn lead(&mut self, ticket: u64) -> (r: Option<Vec<u8>>)
        requires
            old(self).generation() < u64::MAX,
        ensures
            match r {
                Some(data) => {
                    &&& old(self).generation() <= ticket
                    &&& data@ == log_of(old(self).pending())
                    &&& final(self).log() == old(self).log() + data@
                    &&& final(self).pending() == Seq::<Record>::empty()
                    &&& final(self).generation() == old(self).generation() + 1
                },
                None => ticket < old(self).generation() && *final(self) == *old(self),
            },
            follows(old(self), final(self)),
    {
        if self.generation > ticket {
            return None;
        }
        let ghost before = *self;
        let ghost rs = self.pending();
        let mut left: Vec<WalRecord> = Vec::new();
        std::mem::swap(&mut left, &mut self.waiting);
        let ghost n = left@.len() as int;
        reverse(&mut left);
        let mut data: Vec<u8> = Vec::new();
        assert(rs.take(0) =~= Seq::<Record>::empty());
        assert(data@ =~= Seq::<u8>::empty());
        while left.len() > 0
            invariant
                n == rs.len(),
                left@.len() <= n,
                forall|i: int| 0 <= i < left@.len() ==> (#[trigger] left@[i])@ == rs[n - 1 - i],
                data@ == log_of(rs.take(n - left@.len())),
                self.log == before.log,
                self.waiting@.len() == 0,
                self.generation == before.generation,
            decreases left@.len(),
        {
            let ghost done = rs.take(n - left@.len());
            match left.pop() {
                Some(rec) => {
                    let ghost r = rec@;
                    proof {
                        assert(rs.take(n - left@.len()) =~= done.push(r));
                        lemma_log_push(done, r);
                    }
                    let f: Vec<u8> = encode_record(&rec);
                    put_bytes(&mut data, f.as_slice());
                },
                None => {},
            }
        }
        assert(rs.take(n) =~= rs);
        self.generation = self.generation + 1;
        self.log = Ghost(self.log@ + data@);
        proof {
            assert(self.pending() =~= Seq::<Record>::empty());
            assert(log_of(Seq::<Record>::empty()) =~= Seq::<u8>::empty());
            assert(self.log() + log_of(self.pending()) =~= self.log());
        }
        Some(data)
    }

    /// Write a record and all that wait with it. Returns the bytes that go to the end
    /// of the file.
    pub fn submit(&mut self, record: WalRecord) -> (data: Vec<u8>)
        requires
            old(self).generation() < u64::MAX,
        ensures
            data@ == log_of(old(self).pending().push(record@)),
            final(self).log() == old(self).log() + data@,
            final(self).pending() == Seq::<Record>::empty(),
            final(self).generation() == old(self).generation() + 1,
            follows(old(self), final(self)),
    {
        let ghost before = *self;
        let ticket: u64 = self.enqueue(record);
        let ghost mid = *self;
        let r: Option<Vec<u8>> = self.lead(ticket);
        proof {
            lemma_follows(&before, &mid, self);
        }
        match r {
            Some(data) => data,
            None => {
                assert(false);
                Vec::new()
            },
        }
    }
}

/// One state of the log came from another by the steps of writers: what was in the
/// log or waited then is there or waits still, in the same place; and what waited
/// then is in the log once the generation has moved on.
pub open spec fn follows(a: &GroupCommitWal, b: &GroupCommitWal) -> bool {
    let had = a.log() + log_of(a.pending());
    &&& a.generation() <= b.generation()
    &&& had.is_prefix_of(b.log() + log_of(b.pending()))
    &&& a.generation() < b.generation() ==> had.is_prefix_of(b.log())
    &&& a.log().is_prefix_of(b.log())
}

/// Steps after steps.
pub proof fn lemma_follows(a: &GroupCommitWal, b: &GroupCommitWal, c: &GroupCommitWal)
    requires
        follows(a, b),
        follows(b, c),
    ensures
        follows(a, c),
{
    let x = a.log() + log_of(a.pending());
    let y = b.log() + log_of(b.pending());
    let z = c.log() + log_of(c.pending());
    lemma_prefix(x, y, z);
    lemma_prefix(a.log(), b.log(), c.log());
    if a.generation() < c.generation() {
        if b.generation() < c.generation() {
            lemma_prefix(x, y, c.log());
        } else {
            lemma_prefix(x, b.log(), c.log());
        }
    }
}

proof fn lemma_prefix(x: Seq<u8>, y: Seq<u8>, z: Seq<u8>)
    requires
        x.is_prefix_of(y),
        y.is_prefix_of(z),
    ensures
        x.is_prefix_of(z),
{
    assert forall|i: int| 0 <= i < x.len() implies x[i] == z[i] by {
        assert(x[i] == y.subrange(0, x.len() as int)[i]);
        assert(y[i] == z.subrange(0, y.len() as int)[i]);
    }
    assert(x =~= z.subrange(0, x.len() as int));
}

/// A writer that finds the generation past its ticket has its record in the log: the
/// bytes of what waited when it got the ticket, its own record the last of them, are
/// part of it.
pub proof fn law_follower_is_logged(
    at_ticket: &GroupCommitWal,
    later: &GroupCommitWal,
    ticket: u64,
)
    requires
        follows(at_ticket, later),
        ticket == at_ticket.generation(),
        ticket < later.generation(),
    ensures
        (at_ticket.log() + log_of(at_ticket.pending())).is_prefix_of(later.log()),
{
}

/// From a log that was intact when it was opened, what it held, what was committed to it
/// before and what is committed now is recovered, in the order in which it was added.
pub proof fn law_commit_then_recover(
    held: Seq<Record>,
    before: &GroupCommitWal,
    after: &GroupCommitWal,
    earlier: Seq<Record>,
)
    requires
        before.log() == log_of(earlier),
        all_fit(held),
        all_fit(earlier),
        all_fit(before.pending()),
        after.log() == before.log() + log_of(before.pending()),
    ensures
        recovered(log_of(held) + after.log()) == held + earlier + before.pending(),
{
    lemma_recover_log(held, after.log());
    lemma_recover_log(earlier, log_of(before.pending()));
    law_recovery_returns_what_was_logged(before.pending());
    assert(held + (earlier + before.pending()) =~= held + earlier + before.pending());
}

} // verus!
