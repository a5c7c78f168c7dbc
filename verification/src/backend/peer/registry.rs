//! Registering chunks in the index, renewing the registrations, and finding those that are lost.

use crate::backend::chunkdb::{
    batches_read, in_byte_order, in_stored_form, law_whole_listing_is_complete, list_on, listed,
    starts_behind,
};
use crate::backend::peer::discovery::texts;
use crate::backend::peer::index::{IndexTracker, MAX_CHUNK_OWNERS, REDIS_REGISTER_BATCH_SIZE};
use crate::backend::writer::{stored_forms, to_stored};
use crate::checksum::{
    law_stored_form_injective, loaded_form, method_known, stored_form, CheckSum, CheckSumOnDisk,
};
use vstd::prelude::*;

verus! {

/// This many chunks are read from the database at a time, to register them.
pub const INDEX_SYNC_BATCH_SIZE: usize = 1000;

/// This many chunks are looked at in one repair.
pub const INDEX_REPAIR_BATCH_SIZE: usize = 256;

/// The chunks that the index kept: those for which it answered one.
pub open spec fn kept_chunks(checksums: Seq<CheckSum>, results: Seq<i32>) -> Seq<CheckSumOnDisk>
    decreases checksums.len(),
{
    if checksums.len() == 0 || results.len() == 0 {
        Seq::empty()
    } else {
        let rest = kept_chunks(checksums.skip(1), results.skip(1));
        if results[0] == 1 {
            seq![stored_form(checksums[0])] + rest
        } else {
            rest
        }
    }
}

/// No more chunks are kept than were handed in.
proof fn lemma_kept_len(checksums: Seq<CheckSum>, results: Seq<i32>)
    ensures
        kept_chunks(checksums, results).len() <= checksums.len(),
    decreases checksums.len(),
{
    if checksums.len() > 0 && results.len() > 0 {
        lemma_kept_len(checksums.skip(1), results.skip(1));
    }
}

/// The end of the batch that starts at `pos`.
pub open spec fn batch_end(pos: int, len: int) -> int {
    if pos + REDIS_REGISTER_BATCH_SIZE <= len {
        pos + REDIS_REGISTER_BATCH_SIZE
    } else {
        len
    }
}

/// How a registration went.
#[derive(Debug, Clone, Copy, Eq, PartialEq, Structural)]
pub struct RegisterSummary {
    /// How many chunks the index kept.
    pub registered: usize,
    /// How many it dropped, because other nodes own them.
    pub dropped: usize,
    /// Whether it dropped a quarter or more.
    pub many_dropped: bool,
}

/// A registration of chunks, in batches.
#[derive(Debug)]
pub struct RegisterRun {
    checksums: Vec<CheckSum>,
    pos: usize,
    retained: Vec<CheckSumOnDisk>,
}

impl RegisterRun {
    /// The chunks to register.
    pub closed spec fn checksums(self) -> Seq<CheckSum> {
        self.checksums@
    }

    /// How many of them were sent.
    pub closed spec fn pos(self) -> nat {
        self.pos as nat
    }

    /// Those that the index kept.
    pub closed spec fn retained(self) -> Seq<CheckSumOnDisk> {
        self.retained@
    }

    pub open spec fn wf(self) -> bool {
        &&& self.pos() <= self.checksums().len() <= usize::MAX
        &&& self.retained().len() <= self.pos()
    }

    /// A registration of which nothing was sent.
    pub fn new(checksums: Vec<CheckSum>) -> (r: RegisterRun)
        ensures
            r.wf(),
            r.checksums() == checksums@,
            r.pos() == 0,
            r.retained() == Seq::<CheckSumOnDisk>::empty(),
    {
        assert(checksums.len() == checksums@.len());
        RegisterRun { checksums, pos: 0, retained: Vec::new() }
    }

    /// The batch to send next.
    pub fn next_batch(&self) -> (r: Option<&[CheckSum]>)
        requires
            self.wf(),
        ensures
            match r {
                None => self.pos() == self.checksums().len(),
                Some(batch) => {
                    &&& self.pos() < self.checksums().len()
                    &&& batch@ == self.checksums().subrange(
                        self.pos() as int,
                        batch_end(self.pos() as int, self.checksums().len() as int),
                    )
                },
            },
    {
        assert(self.checksums.len() == self.checksums@.len());
        if self.pos >= self.checksums.len() {
            return None;
        }
        let end: usize = self.end();
        Some(&self.checksums[self.pos..end])
    }

    fn end(&self) -> (r: usize)
        requires
            self.wf(),
        ensures
            r == batch_end(self.pos() as int, self.checksums().len() as int),
    {
        assert(self.checksums.len() == self.checksums@.len());
        if self.checksums.len() - self.pos >= REDIS_REGISTER_BATCH_SIZE {
            self.pos + REDIS_REGISTER_BATCH_SIZE
        } else {
            self.checksums.len()
        }
    }

    /// Takes what the index answered to the batch that was sent.
    pub fn answered(&mut self, results: &[i32])
        requires
            old(self).wf(),
        ensures
            final(self).wf(),
            final(self).checksums() == old(self).checksums(),
            final(self).pos() == batch_end(
                old(self).pos() as int,
                old(self).checksums().len() as int,
            ),
            final(self).retained() == old(self).retained() + kept_chunks(
                old(self).checksums().subrange(
                    old(self).pos() as int,
                    batch_end(old(self).pos() as int, old(self).checksums().len() as int),
                ),
                results@,
            ),
    {
        let end: usize = self.end();
        let start: usize = self.pos;
        let ghost batch = self.checksums@.subrange(start as int, end as int);
        let ghost held = self.retained@;
        let ghost all = kept_chunks(batch, results@);
        proof {
            lemma_kept_len(batch, results@);
            assert(batch.skip(0) =~= batch);
            assert(results@.skip(0) =~= results@);
            assert(held + all =~= self.retained@ + all);
        }
        let mut i: usize = 0;
        while start + i < end && i < results.len()
            invariant
                self.checksums@ == old(self).checksums@,
                start <= end <= self.checksums@.len(),
                start + i <= end,
                i <= results@.len(),
                batch == self.checksums@.subrange(start as int, end as int),
                self.retained@.len() <= held.len() + i,
                held.len() <= start,
                held + all == self.retained@ + kept_chunks(
                    batch.skip(i as int),
                    results@.skip(i as int),
                ),
            decreases end - start - i,
        {
            proof {
                assert(batch.skip(i as int).skip(1) =~= batch.skip(i + 1));
                assert(results@.skip(i as int).skip(1) =~= results@.skip(i + 1));
                assert(batch.skip(i as int)[0] == self.checksums@[start + i]);
            }
            if results[i] == 1 {
                self.retained.push(CheckSumOnDisk::from(self.checksums[start + i]));
            }
            i = i + 1;
        }
        assert(kept_chunks(batch.skip(i as int), results@.skip(i as int)) =~= Seq::<
            CheckSumOnDisk,
        >::empty());
        assert(held + all =~= self.retained@);
        assert(self.checksums.len() == self.checksums@.len());
        self.pos = end;
    }

    /// Notes the chunks that the index kept as registered.
    pub fn finish(self, tracker: &mut IndexTracker) -> (r: RegisterSummary)
        requires
            self.wf(),
            self.pos() == self.checksums().len(),
            old(tracker).wf(),
        ensures
            final(tracker).wf(),
            final(tracker)@ == old(tracker)@.union(self.retained().to_set()),
            r.registered == self.retained().len(),
            r.dropped == self.checksums().len() - self.retained().len(),
            r.many_dropped == (r.dropped * 4 >= self.checksums().len()),
    {
        let registered: usize = self.retained.len();
        let total: usize = self.checksums.len();
        assert(registered <= total);
        let dropped: usize = total - registered;
        tracker.insert_many(self.retained.as_slice());
        let quarter: usize = total / 4;
        let many_dropped: bool = if total % 4 == 0 {
            dropped >= quarter
        } else {
            dropped > quarter
        };
        RegisterSummary { registered, dropped, many_dropped }
    }
}

/// Notes that chunks were taken out of the index.
pub fn unregistered(tracker: &mut IndexTracker, checksums: &[CheckSum])
    requires
        old(tracker).wf(),
    ensures
        final(tracker).wf(),
        final(tracker)@ == old(tracker)@.difference(stored_forms(checksums@).to_set()),
{
    let stored: Vec<CheckSumOnDisk> = to_stored(checksums);
    tracker.remove_many(stored.as_slice());
}

/// Whether a node is among the owners of a chunk.
pub open spec fn owns(owners: Seq<String>, own: Seq<char>) -> bool {
    texts(owners).contains(own)
}

/// The chunks that are registered for this node already.
pub open spec fn owned_chunks(
    checksums: Seq<CheckSum>,
    owner_sets: Seq<Vec<String>>,
    own: Seq<char>,
) -> Seq<CheckSumOnDisk>
    decreases checksums.len(),
{
    if checksums.len() == 0 || owner_sets.len() != checksums.len() {
        Seq::empty()
    } else {
        let before = owned_chunks(checksums.drop_last(), owner_sets.drop_last(), own);
        if owns(owner_sets.last()@, own) {
            before.push(stored_form(checksums.last()))
        } else {
            before
        }
    }
}

/// The chunks that this node should register: those with fewer owners than there may be.
pub open spec fn unowned_chunks(
    checksums: Seq<CheckSum>,
    owner_sets: Seq<Vec<String>>,
    own: Seq<char>,
) -> Seq<CheckSum>
    decreases checksums.len(),
{
    if checksums.len() == 0 || owner_sets.len() != checksums.len() {
        Seq::empty()
    } else {
        let before = unowned_chunks(checksums.drop_last(), owner_sets.drop_last(), own);
        let owners = owner_sets.last()@;
        if !owns(owners, own) && owners.len() < MAX_CHUNK_OWNERS {
            before.push(checksums.last())
        } else {
            before
        }
    }
}

/// Whether a text is in a list.
fn names(owners: &Vec<String>, own: &str) -> (r: bool)
    ensures
        r == owns(owners@, own@),
{
    let mine: String = own.to_owned();
    let mut i: usize = 0;
    while i < owners.len()
        invariant
            i <= owners@.len(),
            mine@ == own@,
            forall|j: int| 0 <= j < i ==> (#[trigger] owners@[j])@ != own@,
        decreases owners@.len() - i,
    {
        if owners[i] == mine {
            assert(texts(owners@)[i as int] == own@);
            return true;
        }
        i = i + 1;
    }
    proof {
        if owns(owners@, own@) {
            let k = choose|k: int| 0 <= k < texts(owners@).len() && texts(owners@)[k] == own@;
            assert(owners@[k]@ == own@);
        }
    }
    false
}

/// Tells the chunks that are registered for this node from those that it should register.
/// Where the index answered for fewer chunks than it was asked for, or for more, those at the
/// front count.
pub fn split_by_owner(checksums: &[CheckSum], owner_sets: &[Vec<String>], own: &str) -> (r: (
    Vec<CheckSumOnDisk>,
    Vec<CheckSum>,
))
    ensures
        ({
            let n = if checksums@.len() <= owner_sets@.len() {
                checksums@.len() as int
            } else {
                owner_sets@.len() as int
            };
            &&& r.0@ == owned_chunks(checksums@.take(n), owner_sets@.take(n), own@)
            &&& r.1@ == unowned_chunks(checksums@.take(n), owner_sets@.take(n), own@)
            &&& r.0@.len() + r.1@.len() <= checksums@.len()
        }),
{
    let mut known: Vec<CheckSumOnDisk> = Vec::new();
    let mut missing: Vec<CheckSum> = Vec::new();
    let mut i: usize = 0;
    while i < checksums.len() && i < owner_sets.len()
        invariant
            i <= checksums@.len(),
            i <= owner_sets@.len(),
            known@.len() + missing@.len() <= i,
            known@ == owned_chunks(checksums@.take(i as int), owner_sets@.take(i as int), own@),
            missing@ == unowned_chunks(checksums@.take(i as int), owner_sets@.take(i as int), own@),
        decreases checksums@.len() - i,
    {
        assert(checksums@.take(i + 1).drop_last() =~= checksums@.take(i as int));
        assert(owner_sets@.take(i + 1).drop_last() =~= owner_sets@.take(i as int));
        if names(&owner_sets[i], own) {
            known.push(CheckSumOnDisk::from(checksums[i]));
        } else if owner_sets[i].len() < MAX_CHUNK_OWNERS {
            missing.push(checksums[i]);
        }
        i = i + 1;
    }
    (known, missing)
}

/// A chunk that this node does not own and that has room for another owner is registered; one
/// that has enough owners is left alone.
pub proof fn law_full_chunks_are_left_alone(
    checksums: Seq<CheckSum>,
    owner_sets: Seq<Vec<String>>,
    own: Seq<char>,
    i: int,
)
    requires
        checksums.len() == owner_sets.len(),
        checksums.no_duplicates(),
        0 <= i < checksums.len(),
    ensures
        unowned_chunks(checksums, owner_sets, own).contains(checksums[i]) <==> (!owns(
            owner_sets[i]@,
            own,
        ) && owner_sets[i]@.len() < 3),
    decreases checksums.len(),
{
    let rest = checksums.drop_last();
    let rest_owners = owner_sets.drop_last();
    let before = unowned_chunks(rest, rest_owners, own);
    let all = unowned_chunks(checksums, owner_sets, own);
    let cs = checksums[i];
    let last = checksums.last();
    if i < rest.len() {
        law_full_chunks_are_left_alone(rest, rest_owners, own, i);
        assert(rest[i] == cs);
        assert(last != cs);
        if all.contains(cs) {
            let k = choose|k: int| 0 <= k < all.len() && all[k] == cs;
            assert(before[k] == cs);
        }
        if before.contains(cs) {
            let k = choose|k: int| 0 <= k < before.len() && before[k] == cs;
            assert(all[k] == cs);
        }
    } else {
        lemma_unowned_from(rest, rest_owners, own);
        if before.contains(cs) {
            let k = choose|k: int| 0 <= k < before.len() && before[k] == cs;
            assert(rest.contains(before[k]));
            let j = choose|j: int| 0 <= j < rest.len() && rest[j] == cs;
            assert(checksums[j] == checksums[i]);
        }
        if all.len() > before.len() {
            assert(all[before.len() as int] == cs);
        }
    }
}

/// What is to be registered comes from what was looked at.
proof fn lemma_unowned_from(
    checksums: Seq<CheckSum>,
    owner_sets: Seq<Vec<String>>,
    own: Seq<char>,
)
    requires
        checksums.len() == owner_sets.len(),
    ensures
        forall|k: int|
            0 <= k < unowned_chunks(checksums, owner_sets, own).len() ==> checksums.contains(
                #[trigger] unowned_chunks(checksums, owner_sets, own)[k],
            ),
    decreases checksums.len(),
{
    if checksums.len() > 0 {
        let rest = checksums.drop_last();
        let rest_owners = owner_sets.drop_last();
        lemma_unowned_from(rest, rest_owners, own);
        let before = unowned_chunks(rest, rest_owners, own);
        let all = unowned_chunks(checksums, owner_sets, own);
        assert forall|k: int| 0 <= k < all.len() implies checksums.contains(#[trigger] all[k]) by {
            if k < before.len() {
                assert(all[k] == before[k]);
                let j = choose|j: int| 0 <= j < rest.len() && rest[j] == before[k];
                assert(checksums[j] == all[k]);
            } else {
                assert(checksums[checksums.len() - 1] == all[k]);
            }
        }
    }
}

/// What a sweep over the database is told.
#[derive(Debug)]
pub enum SweepEvent {
    /// It may start.
    Start,
    /// These chunks were read.
    Read(Vec<CheckSum>),
    /// The index took the chunks, and this many of them count.
    Taken(usize),
    /// What was asked for failed.
    Failed,
}

/// What a sweep asks for next.
#[derive(Debug)]
pub enum SweepAction {
    /// Read the next chunks behind a checksum, this many.
    Read(Option<CheckSum>, usize),
    /// Hand chunks to the index.
    HandOver(Vec<CheckSum>),
    /// Stop: all chunks were handed over, and this many counted.
    Done(usize),
    /// Stop: something failed after this many counted.
    GiveUp(usize),
}

/// Where a sweep stands.
#[derive(Debug, Clone, Copy, Eq, PartialEq, Structural)]
pub enum SweepStage {
    Ready,
    Reading,
    Handing,
    Over,
}

/// The rule of a sweep: what it asks for next, and where it then stands. `cursor` is the last
/// checksum that was read, `total` how many chunks counted.
pub open spec fn sweep_rule(
    stage: SweepStage,
    cursor: Option<CheckSum>,
    total: usize,
    event: SweepEvent,
    next: SweepStage,
    next_cursor: Option<CheckSum>,
    next_total: usize,
    action: SweepAction,
) -> bool {
    match (stage, event) {
        (SweepStage::Ready, SweepEvent::Start) => {
            &&& next == SweepStage::Reading
            &&& next_cursor == cursor
            &&& next_total == total
            &&& action == SweepAction::Read(cursor, INDEX_SYNC_BATCH_SIZE)
        },
        (SweepStage::Reading, SweepEvent::Read(batch)) => if batch@.len() == 0 {
            &&& next == SweepStage::Over
            &&& next_cursor == cursor
            &&& next_total == total
            &&& action == SweepAction::Done(total)
        } else {
            &&& next == SweepStage::Handing
            &&& next_cursor == Some(batch@.last())
            &&& next_total == total
            &&& action == SweepAction::HandOver(batch)
        },
        (SweepStage::Handing, SweepEvent::Taken(count)) if total + count <= usize::MAX => {
            &&& next == SweepStage::Reading
            &&& next_cursor == cursor
            &&& next_total == total + count
            &&& action == SweepAction::Read(cursor, INDEX_SYNC_BATCH_SIZE)
        },
        _ => {
            &&& next == SweepStage::Over
            &&& next_cursor == cursor
            &&& next_total == total
            &&& action == SweepAction::GiveUp(total)
        },
    }
}

/// Hands every chunk of the database to the index, batch by batch.
#[derive(Debug)]
pub struct IndexSweep {
    stage: SweepStage,
    cursor: Option<CheckSum>,
    total: usize,
}

impl IndexSweep {
    pub closed spec fn stage(self) -> SweepStage {
        self.stage
    }

    pub closed spec fn cursor(self) -> Option<CheckSum> {
        self.cursor
    }

    pub closed spec fn total(self) -> usize {
        self.total
    }

    /// A sweep that has not started.
    pub fn new() -> (r: IndexSweep)
        ensures
            r.stage() == SweepStage::Ready,
            r.cursor() is None,
            r.total() == 0,
    {
        IndexSweep { stage: SweepStage::Ready, cursor: None, total: 0 }
    }

    /// Takes what happened, and returns what to do next. A failure ends the sweep, and so does
    /// an event that was not asked for.
    pub fn on_event(&mut self, event: SweepEvent) -> (r: SweepAction)
        ensures
            sweep_rule(
                old(self).stage(),
                old(self).cursor(),
                old(self).total(),
                event,
                final(self).stage(),
                final(self).cursor(),
                final(self).total(),
                r,
            ),
    {
        match (self.stage, event) {
            (SweepStage::Ready, SweepEvent::Start) => {
                self.stage = SweepStage::Reading;
                SweepAction::Read(self.cursor, INDEX_SYNC_BATCH_SIZE)
            },
            (SweepStage::Reading, SweepEvent::Read(batch)) => {
                if batch.len() == 0 {
                    self.stage = SweepStage::Over;
                    return SweepAction::Done(self.total);
                }
                self.cursor = Some(batch[batch.len() - 1]);
                self.stage = SweepStage::Handing;
                SweepAction::HandOver(batch)
            },
            (SweepStage::Handing, SweepEvent::Taken(count)) => {
                if count > usize::MAX - self.total {
                    self.stage = SweepStage::Over;
                    return SweepAction::GiveUp(self.total);
                }
                self.total = self.total + count;
                self.stage = SweepStage::Reading;
                SweepAction::Read(self.cursor, INDEX_SYNC_BATCH_SIZE)
            },
            _ => {
                self.stage = SweepStage::Over;
                SweepAction::GiveUp(self.total)
            },
        }
    }
}

/// A sweep is done only when the database had no more chunks, and what it reads next always
/// lies behind what it handed over last.
pub proof fn law_sweep_reads_to_the_end(
    stage: SweepStage,
    cursor: Option<CheckSum>,
    total: usize,
    event: SweepEvent,
    next: SweepStage,
    next_cursor: Option<CheckSum>,
    next_total: usize,
    action: SweepAction,
)
    requires
        sweep_rule(stage, cursor, total, event, next, next_cursor, next_total, action),
    ensures
        action is Done ==> event is Read && event->Read_0@.len() == 0,
        action is HandOver ==> next_cursor == Some(action->HandOver_0@.last()),
        action is Read ==> action->Read_0 == next_cursor,
{
}

/// A sweep gives up only where something failed or came that was not asked for: chunks that it
/// reads it hands over as they are, and once the index has taken them, however many of them count,
/// it reads on behind the last of them. What it reports is how many counted.
pub proof fn law_sweep_goes_on(
    sweep0: &mut IndexSweep,
    before: SweepEvent,
    cursor: Option<CheckSum>,
    n: usize,
    sweep1: &mut IndexSweep,
    batch: Vec<CheckSum>,
    hand: SweepAction,
    sweep2: &mut IndexSweep,
    count: usize,
    read: SweepAction,
    sweep3: &mut IndexSweep,
    none: Vec<CheckSum>,
    last: SweepAction,
)
    requires
        call_ensures(IndexSweep::on_event, (sweep0, before), SweepAction::Read(cursor, n)),
        *old(sweep1) == *final(sweep0),
        batch@.len() > 0,
        call_ensures(IndexSweep::on_event, (sweep1, SweepEvent::Read(batch)), hand),
        *old(sweep2) == *final(sweep1),
        old(sweep2).total() + count <= usize::MAX,
        call_ensures(IndexSweep::on_event, (sweep2, SweepEvent::Taken(count)), read),
        *old(sweep3) == *final(sweep2),
        none@.len() == 0,
        call_ensures(IndexSweep::on_event, (sweep3, SweepEvent::Read(none)), last),
    ensures
        hand == SweepAction::HandOver(batch),
        read == SweepAction::Read(Some(batch@.last()), n),
        final(sweep2).total() == final(sweep0).total() + count,
        last == SweepAction::Done((final(sweep0).total() + count) as usize),
{
}

/// A moment of a sweep: where it stands and what it asks for.
pub ghost struct SweepMoment {
    pub stage: SweepStage,
    pub cursor: Option<CheckSum>,
    pub total: usize,
    pub action: SweepAction,
}

/// Whether the stored checksums behind a cursor start at `p`; without a cursor, all of them do.
pub open spec fn place_behind(
    keys: Seq<CheckSumOnDisk>,
    cursor: Option<CheckSum>,
    p: int,
) -> bool {
    match cursor {
        None => p == 0,
        Some(cs) => starts_behind(keys, stored_form(cs), p),
    }
}

/// Whether an event says that what a sweep asked for was done, by a database that stores `keys`
/// and an index that lets any number of chunks count.
pub open spec fn sweep_answered(
    keys: Seq<CheckSumOnDisk>,
    action: SweepAction,
    event: SweepEvent,
) -> bool {
    match action {
        SweepAction::Read(cursor, n) => {
            &&& event is Read
            &&& exists|p: int| #[trigger]
                place_behind(keys, cursor, p) && event->Read_0@ == list_on(
                    n as nat,
                    Seq::empty(),
                    keys.skip(p),
                )
        },
        SweepAction::HandOver(_) => event is Taken,
        SweepAction::Done(_) => false,
        SweepAction::GiveUp(_) => false,
    }
}

/// Whether `run` are moments of a sweep that follow each other, with `events` between them.
pub open spec fn sweep_steps(
    keys: Seq<CheckSumOnDisk>,
    run: Seq<SweepMoment>,
    events: Seq<SweepEvent>,
) -> bool {
    &&& run.len() == events.len() + 1
    &&& forall|k: int|
        0 <= k < events.len() ==> {
            let (m, n) = (run[k], run[k + 1]);
            &&& sweep_answered(keys, m.action, #[trigger] events[k])
            &&& sweep_rule(
                m.stage,
                m.cursor,
                m.total,
                events[k],
                n.stage,
                n.cursor,
                n.total,
                n.action,
            )
        }
}

/// The batches that a sweep hands over.
pub open spec fn handed_over(run: Seq<SweepMoment>) -> Seq<Seq<CheckSum>>
    decreases run.len(),
{
    if run.len() == 0 {
        Seq::empty()
    } else if run[0].action is HandOver {
        seq![run[0].action->HandOver_0@] + handed_over(run.drop_first())
    } else {
        handed_over(run.drop_first())
    }
}

/// How many chunks counted.
pub open spec fn counted(events: Seq<SweepEvent>) -> nat
    decreases events.len(),
{
    if events.len() == 0 {
        0
    } else {
        (if events[0] is Taken {
            events[0]->Taken_0 as nat
        } else {
            0
        }) + counted(events.drop_first())
    }
}

/// Whether every chunk of a batch counts.
pub open spec fn all_counted(run: Seq<SweepMoment>, events: Seq<SweepEvent>) -> bool {
    forall|k: int|
        0 <= k < events.len() && (#[trigger] events[k]) is Taken ==> run[k].action is HandOver
            && events[k]->Taken_0 == run[k].action->HandOver_0@.len()
}

/// What a sweep hands over from a moment on at which it reads.
proof fn lemma_sweep_from(
    keys: Seq<CheckSumOnDisk>,
    run: Seq<SweepMoment>,
    events: Seq<SweepEvent>,
)
    requires
        sweep_steps(keys, run, events),
        run[0].stage == SweepStage::Reading,
        run[0].action == SweepAction::Read(run[0].cursor, 1000),
        run[0].total + counted(events) <= usize::MAX,
        run.last().action is Done || run.last().action is GiveUp,
    ensures
        exists|p: int| #[trigger]
            place_behind(keys, run[0].cursor, p) && batches_read(
                1000,
                keys,
                p,
                handed_over(run).push(Seq::empty()),
            ),
        run.last().action == SweepAction::Done((run[0].total + counted(events)) as usize),
        all_counted(run, events) ==> counted(events) == handed_over(run).flatten().len(),
    decreases events.len(),
{
    reveal_with_fuel(handed_over, 3);
    reveal_with_fuel(counted, 3);
    assert(events.len() > 0);
    let batch = events[0]->Read_0@;
    assert(sweep_answered(keys, run[0].action, events[0]));
    let p = choose|p: int| #[trigger]
        place_behind(keys, run[0].cursor, p) && batch == list_on(1000, Seq::empty(), keys.skip(p));
    let run1 = run.drop_first();
    let events1 = events.drop_first();
    assert(run1[0] == run[1]);
    assert(Seq::<Seq<CheckSum>>::empty().flatten() =~= Seq::<CheckSum>::empty());
    let none = Seq::<Seq<CheckSum>>::empty();
    let end = Seq::<CheckSum>::empty();
    if batch.len() == 0 {
        if events.len() > 1 {
            assert(sweep_answered(keys, run[1].action, events[1]));
        }
        assert(run1.drop_first() =~= Seq::<SweepMoment>::empty());
        assert(events1 =~= Seq::<SweepEvent>::empty());
        assert(handed_over(run1) =~= none);
        assert(handed_over(run) =~= none);
        assert(batch =~= end);
        assert(batches_read(1000, keys, p, none.push(end)));
    } else {
        assert(run[1].action is HandOver);
        assert(events.len() > 1);
        assert(sweep_answered(keys, run[1].action, events[1]));
        assert(events1[0] == events[1]);
        let count = events[1]->Taken_0;
        let run2 = run1.drop_first();
        let events2 = events1.drop_first();
        assert(counted(events) == count + counted(events2));
        assert(run2[0] == run[2]);
        assert forall|k: int| 0 <= k < events2.len() implies {
            let (m, n) = (run2[k], run2[k + 1]);
            &&& sweep_answered(keys, m.action, #[trigger] events2[k])
            &&& sweep_rule(
                m.stage,
                m.cursor,
                m.total,
                events2[k],
                n.stage,
                n.cursor,
                n.total,
                n.action,
            )
        } by {
            assert(events2[k] == events[k + 2]);
            assert(run2[k] == run[k + 2] && run2[k + 1] == run[k + 3]);
        }
        lemma_sweep_from(keys, run2, events2);
        let rest = handed_over(run2);
        let all = handed_over(run);
        assert(all =~= seq![batch] + rest);
        let q = choose|q: int| #[trigger]
            place_behind(keys, run2[0].cursor, q) && batches_read(1000, keys, q, rest.push(end));
        assert(run2[0].cursor == Some(batch.last()));
        assert(starts_behind(keys, stored_form(batch.last()), q));
        assert(all.push(end).drop_first() =~= rest.push(end));
        assert(batches_read(1000, keys, p, all.push(end)));
        assert(run.last() == run2.last());
        assert(all.drop_first() =~= rest);
        assert(all.flatten() == batch + rest.flatten());
        if all_counted(run, events) {
            assert(events[1] is Taken);
            assert(count == batch.len());
            assert forall|k: int| 0 <= k < events2.len() && (#[trigger] events2[k]) is Taken implies
                run2[k].action is HandOver && events2[k]->Taken_0
                == run2[k].action->HandOver_0@.len() by {
                assert(events2[k] == events[k + 2]);
                assert(run2[k] == run[k + 2]);
            }
        }
    }
}

/// A sweep over a database of any size hands over every chunk once, in the order in which they are
/// stored, where nothing fails; and it ends with how many of them counted, which is their number
/// where all do.
pub proof fn law_sweep_hands_over_every_chunk(
    keys: Seq<CheckSumOnDisk>,
    run: Seq<SweepMoment>,
    events: Seq<SweepEvent>,
)
    requires
        in_byte_order(keys),
        in_stored_form(keys),
        run.len() > 0,
        sweep_rule(
            SweepStage::Ready,
            None,
            0,
            SweepEvent::Start,
            run[0].stage,
            run[0].cursor,
            run[0].total,
            run[0].action,
        ),
        sweep_steps(keys, run, events),
        counted(events) <= usize::MAX,
        run.last().action is Done || run.last().action is GiveUp,
    ensures
        run.last().action == SweepAction::Done(counted(events) as usize),
        ({
            let all = handed_over(run).flatten();
            &&& all.no_duplicates()
            &&& forall|i: int|
                0 <= i < keys.len() && method_known(#[trigger] keys[i]) ==> all.contains(
                    loaded_form(keys[i]),
                )
            &&& forall|k: int|
                0 <= k < all.len() ==> method_known(stored_form(#[trigger] all[k]))
                    && keys.contains(stored_form(all[k]))
            &&& all_counted(run, events) ==> counted(events) == all.len()
        }),
{
    lemma_sweep_from(keys, run, events);
    let handed = handed_over(run);
    let end = Seq::<CheckSum>::empty();
    let p = choose|p: int| #[trigger]
        place_behind(keys, run[0].cursor, p) && batches_read(1000, keys, p, handed.push(end));
    law_whole_listing_is_complete(1000, keys, handed.push(end));
    handed.lemma_flatten_push(end);
    assert(handed.push(end).flatten() =~= handed.flatten());
}

/// Takes the chunks that were read for a repair, and moves the place where the next one
/// starts: behind them, or at the front where there were none. Returns whether the index is to
/// be asked about them.
pub fn repair_read(cursor: &mut Option<CheckSum>, batch: &[CheckSum]) -> (r: bool)
    ensures
        r == (batch@.len() > 0),
        *final(cursor) == if batch@.len() > 0 {
            Some(batch@.last())
        } else {
            None::<CheckSum>
        },
{
    if batch.len() == 0 {
        *cursor = None;
        return false;
    }
    *cursor = Some(batch[batch.len() - 1]);
    true
}

/// A registration sends every chunk once, in order, in batches: the next batch holds the chunks that
/// come next, it is not empty, and there is none only where all were sent.
pub proof fn law_registration_sends_every_chunk(
    at: &RegisterRun,
    batch: Option<&[CheckSum]>,
    run: &mut RegisterRun,
    results: &[i32],
)
    requires
        at.wf(),
        call_ensures(RegisterRun::next_batch, (at,), batch),
        *old(run) == *at,
        call_ensures(RegisterRun::answered, (run, results), ()),
    ensures
        final(run).wf(),
        final(run).checksums() == at.checksums(),
        batch is None <==> at.pos() == at.checksums().len(),
        batch matches Some(sent) ==> {
            &&& 0 < sent@.len() <= 1000
            &&& at.checksums().take(at.pos() as int) + sent@ == at.checksums().take(
                final(run).pos() as int,
            )
            &&& final(run).pos() < at.checksums().len() ==> sent@.len() == 1000
        },
{
    assert(call_requires(RegisterRun::next_batch, (at,)));
    if let Some(sent) = batch {
        assert(at.checksums().take(at.pos() as int) + sent@ =~= at.checksums().take(
            final(run).pos() as int,
        ));
    }
}

/// Whether the index answered one for a chunk that is stored as `cs`.
spec fn index_took(
    checksums: Seq<CheckSum>,
    results: Seq<i32>,
    n: int,
    cs: CheckSumOnDisk,
) -> bool {
    exists|i: int| 0 <= i < n && results[i] == 1 && stored_form(#[trigger] checksums[i]) == cs
}

/// The chunks that the index kept are those for which it answered one, as many as there are such
/// answers.
proof fn lemma_kept_chunks(checksums: Seq<CheckSum>, results: Seq<i32>, n: int)
    requires
        n <= checksums.len(),
        n <= results.len(),
        n == checksums.len() || n == results.len(),
    ensures
        kept_chunks(checksums, results).len() == results.take(n).filter(|x: i32| x == 1).len(),
        forall|i: int|
            0 <= i < n && results[i] == 1 ==> kept_chunks(checksums, results).contains(
                stored_form(#[trigger] checksums[i]),
            ),
        forall|k: int|
            0 <= k < kept_chunks(checksums, results).len() ==> index_took(
                checksums,
                results,
                n,
                #[trigger] kept_chunks(checksums, results)[k],
            ),
    decreases checksums.len(),
{
    let ones = |x: i32| x == 1;
    reveal_with_fuel(Seq::filter, 2);
    if n == 0 {
        assert(results.take(0) =~= Seq::<i32>::empty());
    } else {
        let (cs, rs) = (checksums.skip(1), results.skip(1));
        lemma_kept_chunks(cs, rs, n - 1);
        let rest = kept_chunks(cs, rs);
        let all = kept_chunks(checksums, results);
        let d: int = if results[0] == 1 {
            1
        } else {
            0
        };
        assert(results.take(n) =~= seq![results[0]] + rs.take(n - 1));
        Seq::filter_distributes_over_add(seq![results[0]], rs.take(n - 1), ones);
        assert(seq![results[0]].drop_last() =~= Seq::<i32>::empty());
        assert(seq![results[0]].filter(ones).len() == d);
        assert forall|i: int| 0 <= i < n && results[i] == 1 implies all.contains(
            stored_form(#[trigger] checksums[i]),
        ) by {
            if i == 0 {
                assert(all[0] == stored_form(checksums[0]));
            } else {
                assert(cs[i - 1] == checksums[i]);
                let q = rest.index_of(stored_form(cs[i - 1]));
                assert(all[q + d] == rest[q]);
            }
        }
        assert forall|k: int| 0 <= k < all.len() implies index_took(
            checksums,
            results,
            n,
            #[trigger] all[k],
        ) by {
            if k < d {
                assert(stored_form(checksums[0]) == all[k]);
            } else {
                assert(rest[k - d] == all[k]);
                let j = choose|j: int|
                    0 <= j < n - 1 && rs[j] == 1 && stored_form(#[trigger] cs[j]) == rest[k - d];
                assert(checksums[j + 1] == cs[j]);
                assert(stored_form(checksums[j + 1]) == all[k]);
            }
        }
    }
}

/// What a registration holds of a batch are the chunks that the index kept: those for which it
/// answered one, and no other. Each counts.
pub proof fn law_kept_chunks_are_those_the_index_took(
    at: &RegisterRun,
    batch: Option<&[CheckSum]>,
    run: &mut RegisterRun,
    results: &[i32],
    cs: CheckSumOnDisk,
)
    requires
        at.wf(),
        call_ensures(RegisterRun::next_batch, (at,), batch),
        batch is Some,
        results@.len() == batch->Some_0@.len(),
        *old(run) == *at,
        call_ensures(RegisterRun::answered, (run, results), ()),
    ensures
        ({
            let sent = batch->Some_0@;
            &&& at.retained().is_prefix_of(final(run).retained())
            &&& final(run).retained().len() == at.retained().len() + results@.filter(
                |x: i32| x == 1,
            ).len()
            &&& final(run).retained().contains(cs) <==> at.retained().contains(cs) || exists|
                i: int,
            |
                0 <= i < sent.len() && results@[i] == 1 && stored_form(#[trigger] sent[i]) == cs
        }),
{
    assert(call_requires(RegisterRun::next_batch, (at,)));
    let sent = batch->Some_0@;
    let kept = kept_chunks(sent, results@);
    let (was, now) = (at.retained(), final(run).retained());
    lemma_kept_chunks(sent, results@, sent.len() as int);
    assert(results@.take(sent.len() as int) =~= results@);
    assert(now == was + kept);
    if now.contains(cs) {
        let k = now.index_of(cs);
        if k < was.len() {
            assert(was[k] == cs);
        } else {
            assert(kept[k - was.len()] == cs);
            assert(index_took(sent, results@, sent.len() as int, cs));
        }
    }
    if was.contains(cs) {
        let k = was.index_of(cs);
        assert(now[k] == cs);
    }
    if exists|i: int|
        0 <= i < sent.len() && results@[i] == 1 && stored_form(#[trigger] sent[i]) == cs {
        let i = choose|i: int|
            0 <= i < sent.len() && results@[i] == 1 && stored_form(#[trigger] sent[i]) == cs;
        let k = kept.index_of(cs);
        assert(now[was.len() + k] == cs);
    }
}

/// A registration that has sent everything makes the tracker know the chunks that the index kept
/// and no other new one, and accounts for each chunk: it was kept or dropped. It says so where a
/// quarter or more was dropped.
pub proof fn law_registration_accounts_for_every_chunk(
    run: RegisterRun,
    tracker: &mut IndexTracker,
    summary: RegisterSummary,
    later: &IndexTracker,
    checksum: &CheckSum,
    known: bool,
)
    requires
        run.wf(),
        run.pos() == run.checksums().len(),
        old(tracker).wf(),
        call_ensures(RegisterRun::finish, (run, tracker), summary),
        *later == *final(tracker),
        call_ensures(IndexTracker::contains, (later, checksum), known),
    ensures
        summary.registered + summary.dropped == run.checksums().len(),
        summary.registered == run.retained().len(),
        summary.many_dropped <==> 4 * summary.dropped >= run.checksums().len(),
        known <==> old(tracker)@.contains(stored_form(*checksum)) || run.retained().contains(
            stored_form(*checksum),
        ),
{
    assert(call_requires(IndexTracker::contains, (later, checksum)));
    assert(run.retained().to_set().contains(stored_form(*checksum)) <==> run.retained().contains(
        stored_form(*checksum),
    ));
}

/// A chunk that was taken out of the index is known as registered no more, and every other one as
/// before.
pub proof fn law_unregistered_chunks_are_forgotten(
    tracker: &mut IndexTracker,
    gone: &[CheckSum],
    later: &IndexTracker,
    checksum: &CheckSum,
    known: bool,
)
    requires
        old(tracker).wf(),
        call_ensures(unregistered, (tracker, gone), ()),
        *later == *final(tracker),
        call_ensures(IndexTracker::contains, (later, checksum), known),
    ensures
        known <==> old(tracker)@.contains(stored_form(*checksum)) && !gone@.contains(*checksum),
{
    assert(call_requires(IndexTracker::contains, (later, checksum)));
    let cs = stored_form(*checksum);
    let forms = stored_forms(gone@);
    if gone@.contains(*checksum) {
        let k = gone@.index_of(*checksum);
        assert(forms[k] == cs);
        assert(forms.to_set().contains(cs));
    }
    if forms.to_set().contains(cs) {
        let k = forms.index_of(cs);
        law_stored_form_injective(gone@[k], *checksum);
        assert(gone@[k] == *checksum);
    }
}

/// The chunks that are registered for this node come from what was looked at.
proof fn lemma_owned_from(
    checksums: Seq<CheckSum>,
    owner_sets: Seq<Vec<String>>,
    own: Seq<char>,
    cs: CheckSumOnDisk,
)
    requires
        checksums.len() == owner_sets.len(),
    ensures
        owned_chunks(checksums, owner_sets, own).contains(cs) <==> exists|i: int|
            0 <= i < checksums.len() && owns(owner_sets[i]@, own) && stored_form(
                #[trigger] checksums[i],
            ) == cs,
    decreases checksums.len(),
{
    if checksums.len() > 0 {
        let (rest, sets) = (checksums.drop_last(), owner_sets.drop_last());
        let before = owned_chunks(rest, sets, own);
        let all = owned_chunks(checksums, owner_sets, own);
        lemma_owned_from(rest, sets, own, cs);
        if all.contains(cs) {
            let k = all.index_of(cs);
            if k < before.len() {
                assert(before[k] == cs);
                let i = choose|i: int|
                    0 <= i < rest.len() && owns(sets[i]@, own) && stored_form(#[trigger] rest[i])
                        == cs;
                assert(stored_form(checksums[i]) == cs);
            } else {
                assert(stored_form(checksums[checksums.len() - 1]) == cs);
            }
        }
        if exists|i: int|
            0 <= i < checksums.len() && owns(owner_sets[i]@, own) && stored_form(
                #[trigger] checksums[i],
            ) == cs {
            let i = choose|i: int|
                0 <= i < checksums.len() && owns(owner_sets[i]@, own) && stored_form(
                    #[trigger] checksums[i],
                ) == cs;
            if i < rest.len() {
                assert(stored_form(rest[i]) == cs);
                let k = before.index_of(cs);
                assert(all[k] == cs);
            } else {
                assert(all[all.len() - 1] == cs);
            }
        }
    }
}

/// Each chunk that the index answered for is known as registered where this node is among its
/// owners, is to be registered where it is not and there is room for another owner, and is left
/// alone where there are three others.
pub proof fn law_every_chunk_is_sorted_by_its_owners(
    checksums: &[CheckSum],
    owner_sets: &[Vec<String>],
    own: &str,
    r: (Vec<CheckSumOnDisk>, Vec<CheckSum>),
    i: int,
)
    requires
        checksums@.len() == owner_sets@.len(),
        checksums@.no_duplicates(),
        0 <= i < checksums@.len(),
        call_ensures(split_by_owner, (checksums, owner_sets, own), r),
    ensures
        ({
            let owners = owner_sets@[i]@;
            let mine = exists|k: int| 0 <= k < owners.len() && (#[trigger] owners[k])@ == own@;
            &&& r.0@.contains(stored_form(checksums@[i])) <==> mine
            &&& r.1@.contains(checksums@[i]) <==> !mine && owners.len() < 3
        }),
{
    let n = checksums@.len() as int;
    let owners = owner_sets@[i]@;
    assert(checksums@.take(n) =~= checksums@);
    assert(owner_sets@.take(n) =~= owner_sets@);
    law_full_chunks_are_left_alone(checksums@, owner_sets@, own@, i);
    let cs = stored_form(checksums@[i]);
    lemma_owned_from(checksums@, owner_sets@, own@, cs);
    if owns(owners, own@) {
        let k = texts(owners).index_of(own@);
        assert(owners[k]@ == own@);
    }
    if exists|k: int| 0 <= k < owners.len() && (#[trigger] owners[k])@ == own@ {
        let k = choose|k: int| 0 <= k < owners.len() && (#[trigger] owners[k])@ == own@;
        assert(texts(owners)[k] == own@);
    }
    if r.0@.contains(cs) {
        let j = choose|j: int|
            0 <= j < n && owns(owner_sets@[j]@, own@) && stored_form(#[trigger] checksums@[j])
                == cs;
        law_stored_form_injective(checksums@[j], checksums@[i]);
    }
}

/// Repairs go through the database in turn: the next one starts behind the last chunk of this one,
/// and at the front again where there was none left.
pub proof fn law_repairs_go_in_turn(
    cursor: &mut Option<CheckSum>,
    batch: &[CheckSum],
    ask: bool,
)
    requires
        call_ensures(repair_read, (cursor, batch), ask),
    ensures
        ask <==> batch@.len() > 0,
        *final(cursor) is Some <==> batch@.len() > 0,
        batch@.len() > 0 ==> (*final(cursor))->Some_0 == batch@[batch@.len() - 1],
{
}

/// A sweep takes the step that its rule says, from its start on: nothing else is asked for.
pub proof fn law_sweep_follows_its_rule(
    begun: IndexSweep,
    sweep: &mut IndexSweep,
    event: SweepEvent,
    action: SweepAction,
)
    requires
        call_ensures(IndexSweep::new, (), begun),
        call_ensures(IndexSweep::on_event, (sweep, event), action),
    ensures
        begun.stage() is Ready,
        begun.cursor() is None,
        begun.total() == 0,
        sweep_rule(
            old(sweep).stage(),
            old(sweep).cursor(),
            old(sweep).total(),
            event,
            final(sweep).stage(),
            final(sweep).cursor(),
            final(sweep).total(),
            action,
        ),
{
}

/// Whether an event tells of what a sweep asked for.
pub open spec fn sweep_awaits(action: SweepAction, event: SweepEvent) -> bool {
    match action {
        SweepAction::Read(..) => event is Read,
        SweepAction::HandOver(_) => event is Taken,
        SweepAction::Done(_) => false,
        SweepAction::GiveUp(_) => false,
    }
}

/// A sweep for which something failed, or that is told what it did not ask for, gives up with what
/// counted before.
pub proof fn law_failed_sweep_gives_up(
    sweep0: &mut IndexSweep,
    before: SweepEvent,
    action: SweepAction,
    sweep1: &mut IndexSweep,
    event: SweepEvent,
    next: SweepAction,
)
    requires
        call_ensures(IndexSweep::on_event, (sweep0, before), action),
        *old(sweep1) == *final(sweep0),
        call_ensures(IndexSweep::on_event, (sweep1, event), next),
    ensures
        !sweep_awaits(action, event) ==> next == SweepAction::GiveUp(final(sweep0).total()),
        sweep_awaits(action, event) && next is GiveUp ==> event is Taken && final(sweep0).total()
            + event->Taken_0 > usize::MAX,
        action is Done ==> action == SweepAction::Done(final(sweep0).total()),
        action is GiveUp ==> action == SweepAction::GiveUp(final(sweep0).total()),
{
}

/// A registration starts with the first of its chunks, and with none kept.
pub proof fn law_new_registration_starts_at_the_front(
    checksums: Vec<CheckSum>,
    run: RegisterRun,
    at: &RegisterRun,
    batch: Option<&[CheckSum]>,
)
    requires
        checksums@.len() <= usize::MAX,
        call_ensures(RegisterRun::new, (checksums,), run),
        *at == run,
        call_ensures(RegisterRun::next_batch, (at,), batch),
    ensures
        run.retained().len() == 0,
        batch is None <==> checksums@.len() == 0,
        batch matches Some(b) ==> b@.len() > 0 && b@.is_prefix_of(checksums@),
        0 < checksums@.len() <= 1000 ==> batch is Some && batch->Some_0@ == checksums@,
{
    assert(call_requires(RegisterRun::next_batch, (at,)));
    if 0 < checksums@.len() <= 1000 {
        assert(batch->Some_0@ =~= checksums@);
    }
}

/// A chunk that the index did not answer for is neither known as registered nor to be registered.
pub proof fn law_unanswered_chunks_are_left_out(
    checksums: &[CheckSum],
    owner_sets: &[Vec<String>],
    own: &str,
    r: (Vec<CheckSumOnDisk>, Vec<CheckSum>),
    i: int,
)
    requires
        checksums@.no_duplicates(),
        owner_sets@.len() <= i < checksums@.len(),
        call_ensures(split_by_owner, (checksums, owner_sets, own), r),
    ensures
        !r.0@.contains(stored_form(checksums@[i])),
        !r.1@.contains(checksums@[i]),
{
    let n = owner_sets@.len() as int;
    let front = checksums@.take(n);
    let sets = owner_sets@.take(n);
    let cs = stored_form(checksums@[i]);
    lemma_owned_from(front, sets, own@, cs);
    lemma_unowned_from(front, sets, own@);
    if r.0@.contains(cs) {
        let j = choose|j: int|
            0 <= j < n && owns(sets[j]@, own@) && stored_form(#[trigger] front[j]) == cs;
        law_stored_form_injective(front[j], checksums@[i]);
        assert(front[j] == checksums@[j]);
    }
    if r.1@.contains(checksums@[i]) {
        let k = r.1@.index_of(checksums@[i]);
        assert(front.contains(r.1@[k]));
        let j = front.index_of(checksums@[i]);
        assert(front[j] == checksums@[j]);
    }
}

} // verus!
