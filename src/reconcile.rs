//! Matching local records against a snapshot of the remote deck.
//!
//! Each local record is compared with every remote record in snapshot order.
//! A record whose trimmed terms equal a remote record's is settled, and adopts
//! that record's identifier if it had none; a record that shares a nonzero
//! identifier with a remote record of other content must overwrite it remotely.
//! A record's outcome depends on that record and the snapshot alone.
use vstd::prelude::*;
use crate::record::{LocalRecord, NoteView, RemoteRecord, local_views, remote_views};
use crate::text::{same_chars, trim, trimmed};

verus! {

/// The two records hold the same terms once trimmed.
pub open spec fn same_content(n: NoteView, r: NoteView) -> bool {
    trim(n.front) == trim(r.front) && trim(n.back) == trim(r.back)
}

/// The identifier that `n` holds once the first `i` remote records were scanned.
pub open spec fn identifier_after(n: NoteView, remote: Seq<NoteView>, i: int) -> i64
    decreases i,
{
    if i <= 0 {
        n.identifier
    } else {
        let prev = identifier_after(n, remote, i - 1);
        if prev == 0 && same_content(n, remote[i - 1]) {
            remote[i - 1].identifier
        } else {
            prev
        }
    }
}

/// Remote record `i` holds the identifier of `n` (when it is reached) with other content.
pub open spec fn update_hit(n: NoteView, remote: Seq<NoteView>, i: int) -> bool {
    !same_content(n, remote[i]) && identifier_after(n, remote, i) != 0 && identifier_after(
        n,
        remote,
        i,
    ) == remote[i].identifier
}

/// How many of the first `i` remote records mark `n` for a remote update.
pub open spec fn update_hits(n: NoteView, remote: Seq<NoteView>, i: int) -> nat
    decreases i,
{
    if i <= 0 {
        0
    } else {
        update_hits(n, remote, i - 1) + if update_hit(n, remote, i - 1) {
            1nat
        } else {
            0nat
        }
    }
}

/// Some remote record holds the same content as `n`.
pub open spec fn settles(n: NoteView, remote: Seq<NoteView>) -> bool {
    exists|k: int| 0 <= k < remote.len() && same_content(n, remote[k])
}

/// How a local record relates to the remote deck.
#[derive(PartialEq, Eq, Structural, Clone, Copy, Debug)]
pub enum MatchOutcome {
    /// The deck holds the same content; nothing to send.
    Unchanged,
    /// The deck holds this identifier with other content; the local content wins.
    UpdatedRemotely,
    /// No identifier and no remote twin: the record is to be created.
    New,
    /// An identifier that the deck does not hold, and content it does not hold either.
    Conflict,
}

pub open spec fn outcome(n: NoteView, remote: Seq<NoteView>) -> MatchOutcome {
    if update_hits(n, remote, remote.len() as int) > 0 {
        MatchOutcome::UpdatedRemotely
    } else if settles(n, remote) {
        MatchOutcome::Unchanged
    } else if n.identifier == 0 {
        MatchOutcome::New
    } else {
        MatchOutcome::Conflict
    }
}

/// `n` with the identifier it holds after the whole snapshot was scanned.
pub open spec fn resolved(n: NoteView, remote: Seq<NoteView>) -> NoteView {
    NoteView { identifier: identifier_after(n, remote, remote.len() as int), ..n }
}

/// Some remote record would mark `n` for an update twice.
pub open spec fn repeatedly_updated(n: NoteView, remote: Seq<NoteView>) -> bool {
    update_hits(n, remote, remote.len() as int) > 1
}

/// The indices `j` with `outs[j] == o`, in increasing order.
pub open spec fn positions(outs: Seq<MatchOutcome>, o: MatchOutcome) -> Seq<usize>
    decreases outs.len(),
{
    if outs.len() == 0 {
        seq![]
    } else if outs.last() == o {
        positions(outs.drop_last(), o).push((outs.len() - 1) as usize)
    } else {
        positions(outs.drop_last(), o)
    }
}

/// A failure that ends the whole run.
#[derive(PartialEq, Eq, Structural, Clone, Copy, Debug)]
pub enum ReconcileError {
    /// A local record would overwrite remote records more than once.
    RepeatedUpdate,
    /// The deck did not return exactly one identifier per record created.
    CreateCountMismatch,
}

/// The outcome of one record, with its resolved identifier.
pub fn classify(n: &LocalRecord, remote: &Vec<RemoteRecord>) -> (r: Result<
    (i64, MatchOutcome),
    ReconcileError,
>)
    ensures
        r is Err <==> repeatedly_updated(n@, remote_views(remote@)),
        r matches Err(e) ==> e == ReconcileError::RepeatedUpdate,
        r matches Ok(p) ==> p.0 == resolved(n@, remote_views(remote@)).identifier && p.1
            == outcome(n@, remote_views(remote@)),
{
    let ghost rv = remote_views(remote@);
    let front = trimmed(&n.front);
    let back = trimmed(&n.back);
    let mut id: i64 = n.identifier;
    let mut hits: usize = 0;
    let mut settled: bool = false;
    let mut i: usize = 0;
    while i < remote.len()
        invariant
            rv == remote_views(remote@),
            i <= remote.len(),
            front@ == trim(n@.front),
            back@ == trim(n@.back),
            id == identifier_after(n@, rv, i as int),
            hits == update_hits(n@, rv, i as int),
            hits <= 1,
            settled == exists|k: int| 0 <= k < i && same_content(n@, rv[k]),
        decreases remote.len() - i,
    {
        let r = &remote[i];
        assert(rv[i as int] == r@);
        let same = same_chars(&front, &trimmed(&r.front)) && same_chars(&back, &trimmed(&r.back));
        assert(same == same_content(n@, rv[i as int]));
        if same {
            if id == 0 {
                id = r.identifier;
            }
            settled = true;
        } else if id != 0 && id == r.identifier {
            if hits == 1 {
                assert(update_hits(n@, rv, i + 1) == 2);
                assert forall|j: int| i + 1 <= j implies update_hits(n@, rv, j) >= 2 by {
                    lemma_update_hits_grow(n@, rv, i + 1, j);
                }
                return Err(ReconcileError::RepeatedUpdate);
            }
            hits = hits + 1;
        }
        i = i + 1;
    }
    Ok((id, if hits > 0 {
        MatchOutcome::UpdatedRemotely
    } else if settled {
        MatchOutcome::Unchanged
    } else if n.identifier == 0 {
        MatchOutcome::New
    } else {
        MatchOutcome::Conflict
    }))
}

proof fn lemma_update_hits_grow(n: NoteView, remote: Seq<NoteView>, i: int, j: int)
    requires
        i <= j,
    ensures
        update_hits(n, remote, i) <= update_hits(n, remote, j),
    decreases j - i,
{
    if i < j {
        lemma_update_hits_grow(n, remote, i, j - 1);
    }
}

/// The outcome of every local record of a snapshot comparison.
pub struct Plan {
    /// The local records, with their resolved identifiers.
    pub records: Vec<LocalRecord>,
    /// `outcomes[j]` is the outcome of `records[j]`.
    pub outcomes: Vec<MatchOutcome>,
    /// Indices of the records to create, in file order.
    pub to_create: Vec<usize>,
    /// Indices of the records whose remote copy is to be overwritten, in file order.
    pub to_update: Vec<usize>,
}

/// The plan for `local` against `remote`.
pub open spec fn planned(p: Plan, local: Seq<NoteView>, remote: Seq<NoteView>) -> bool {
    &&& local_views(p.records@) == local.map_values(|n: NoteView| resolved(n, remote))
    &&& p.outcomes@ == local.map_values(|n: NoteView| outcome(n, remote))
    &&& p.to_create@ == positions(p.outcomes@, MatchOutcome::New)
    &&& p.to_update@ == positions(p.outcomes@, MatchOutcome::UpdatedRemotely)
}

/// Classifies every local record against the snapshot `remote`.
pub fn reconcile(local: &Vec<LocalRecord>, remote: &Vec<RemoteRecord>) -> (r: Result<
    Plan,
    ReconcileError,
>)
    ensures
        r is Err <==> exists|j: int|
            0 <= j < local.len() && repeatedly_updated(#[trigger] local@[j]@, remote_views(remote@)),
        r matches Err(e) ==> e == ReconcileError::RepeatedUpdate,
        r matches Ok(p) ==> planned(p, local_views(local@), remote_views(remote@))
            && p.well_formed(),
{
    let ghost rv = remote_views(remote@);
    let ghost lv = local_views(local@);
    let mut records: Vec<LocalRecord> = Vec::new();
    let mut outcomes: Vec<MatchOutcome> = Vec::new();
    let mut to_create: Vec<usize> = Vec::new();
    let mut to_update: Vec<usize> = Vec::new();
    let mut j: usize = 0;
    while j < local.len()
        invariant
            rv == remote_views(remote@),
            lv == local_views(local@),
            j <= local.len(),
            forall|k: int| 0 <= k < j ==> !repeatedly_updated(#[trigger] local@[k]@, rv),
            local_views(records@) == lv.subrange(0, j as int).map_values(
                |n: NoteView| resolved(n, rv),
            ),
            outcomes@ == lv.subrange(0, j as int).map_values(|n: NoteView| outcome(n, rv)),
            to_create@ == positions(outcomes@, MatchOutcome::New),
            to_update@ == positions(outcomes@, MatchOutcome::UpdatedRemotely),
        decreases local.len() - j,
    {
        let n = &local[j];
        assert(lv[j as int] == n@);
        match classify(n, remote) {
            Err(e) => {
                return Err(e);
            },
            Ok((id, o)) => {
                let ghost old_outcomes = outcomes@;
                let ghost old_records = records@;
                let mut rec = n.copy();
                rec.identifier = id;
                assert(rec@ == resolved(n@, rv));
                let ghost rec_view = rec@;
                records.push(rec);
                assert(local_views(records@) =~= local_views(old_records).push(rec_view));
                outcomes.push(o);
                assert(outcomes@.drop_last() == old_outcomes);
                if o == MatchOutcome::New {
                    to_create.push(j);
                } else if o == MatchOutcome::UpdatedRemotely {
                    to_update.push(j);
                }
                assert(lv.subrange(0, j + 1).drop_last() =~= lv.subrange(0, j as int));
                assert(local_views(records@) =~= lv.subrange(0, j + 1).map_values(
                    |n: NoteView| resolved(n, rv),
                ));
                assert(outcomes@ =~= lv.subrange(0, j + 1).map_values(
                    |n: NoteView| outcome(n, rv),
                ));
            },
        }
        j = j + 1;
    }
    assert(lv.subrange(0, local.len() as int) =~= lv);
    Ok(Plan { records, outcomes, to_create, to_update })
}

/// `notes` with `ids[k]` written as the identifier of `notes[at[k]]`, for each `k`.
pub open spec fn with_identifiers(notes: Seq<NoteView>, at: Seq<usize>, ids: Seq<i64>) -> Seq<
    NoteView,
>
    decreases at.len(),
{
    if at.len() == 0 {
        notes
    } else {
        let prev = with_identifiers(notes, at.drop_last(), ids);
        let j = at.last() as int;
        let k = at.len() - 1;
        if j < prev.len() && k < ids.len() {
            prev.update(j, NoteView { identifier: ids[k], ..prev[j] })
        } else {
            prev
        }
    }
}

pub proof fn lemma_positions_in_range(outs: Seq<MatchOutcome>, o: MatchOutcome)
    requires
        outs.len() <= usize::MAX,
    ensures
        forall|k: int|
            0 <= k < positions(outs, o).len() ==> #[trigger] positions(outs, o)[k] < outs.len()
                && outs[positions(outs, o)[k] as int] == o,
    decreases outs.len(),
{
    if outs.len() > 0 {
        let prev = outs.drop_last();
        lemma_positions_in_range(prev, o);
        assert forall|k: int| 0 <= k < positions(prev, o).len() implies outs[positions(prev, o)[k] as int] == o by {
            assert(outs[positions(prev, o)[k] as int] == prev[positions(prev, o)[k] as int]);
        }
        let all = positions(outs, o);
        assert forall|k: int| 0 <= k < all.len() implies #[trigger] all[k] < outs.len()
            && outs[all[k] as int] == o by {
            if k < positions(prev, o).len() {
                assert(all[k] == positions(prev, o)[k]);
            } else {
                assert(all[k] == (outs.len() - 1) as usize);
            }
        }
    }
}

impl Plan {
    pub open spec fn well_formed(&self) -> bool {
        &&& self.records.len() == self.outcomes.len()
        &&& self.to_create@ == positions(self.outcomes@, MatchOutcome::New)
        &&& self.to_update@ == positions(self.outcomes@, MatchOutcome::UpdatedRemotely)
    }

    /// Gives the records created remotely the identifiers that the deck returned,
    /// the `k`-th identifier to the `k`-th record created.
    pub fn assign_created(&mut self, ids: &Vec<i64>) -> (r: Result<(), ReconcileError>)
        requires
            old(self).well_formed(),
        ensures
            r is Err <==> ids.len() != old(self).to_create.len(),
            r matches Err(e) ==> e == ReconcileError::CreateCountMismatch,
            r is Err ==> local_views(final(self).records@) == local_views(old(self).records@),
            r is Ok ==> local_views(final(self).records@) == with_identifiers(
                local_views(old(self).records@),
                old(self).to_create@,
                ids@,
            ),
            final(self).outcomes@ == old(self).outcomes@,
            final(self).to_create@ == old(self).to_create@,
            final(self).to_update@ == old(self).to_update@,
            final(self).well_formed(),
    {
        if ids.len() != self.to_create.len() {
            return Err(ReconcileError::CreateCountMismatch);
        }
        let ghost start = local_views(self.records@);
        proof {
            lemma_positions_in_range(self.outcomes@, MatchOutcome::New);
        }
        let mut k: usize = 0;
        while k < self.to_create.len()
            invariant
                self.well_formed(),
                ids.len() == self.to_create.len(),
                forall|m: int|
                    0 <= m < self.to_create.len() ==> #[trigger] self.to_create@[m]
                        < self.records.len(),
                self.outcomes@ == old(self).outcomes@,
                self.to_create@ == old(self).to_create@,
                self.to_update@ == old(self).to_update@,
                k <= self.to_create.len(),
                local_views(self.records@) == with_identifiers(
                    start,
                    self.to_create@.subrange(0, k as int),
                    ids@,
                ),
            decreases self.to_create.len() - k,
        {
            let j = self.to_create[k];
            assert(self.to_create@[k as int] < self.records.len());
            let ghost before = self.records@;
            let mut rec = self.records[j].copy();
            rec.identifier = ids[k];
            let ghost rec_view = rec@;
            self.records.set(j, rec);
            let ghost at = self.to_create@.subrange(0, k + 1);
            assert(at.drop_last() =~= self.to_create@.subrange(0, k as int));
            assert(local_views(self.records@) =~= local_views(before).update(j as int, rec_view));
            k = k + 1;
        }
        assert(self.to_create@.subrange(0, k as int) =~= self.to_create@);
        Ok(())
    }
}

} // verus!
