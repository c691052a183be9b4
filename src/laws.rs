//! Properties of a synchronisation run, stated over the models and proved.
use vstd::prelude::*;
use crate::parse::{LineView, accepted, claims, line_view, rejections, Rejection, LineError};
use crate::reconcile::{
    MatchOutcome, identifier_after, outcome, positions, repeatedly_updated, resolved,
    same_content, settles, update_hit, update_hits,
};
use crate::record::NoteView;
use crate::rewrite::{with_identifier, written_back};
use crate::roundtrip::lemma_rewritten_line_reads_back;

verus! {

/// No two notes of a snapshot share an identifier, as in any state of the store.
pub open spec fn unique_identifiers(remote: Seq<NoteView>) -> bool {
    forall|i: int, j: int|
        0 <= i < remote.len() && 0 <= j < remote.len() && #[trigger] remote[i].identifier
            == #[trigger] remote[j].identifier ==> i == j
}

/// A deck snapshot as the store hands it out: identifiers nonzero and unique.
pub open spec fn valid_snapshot(remote: Seq<NoteView>) -> bool {
    &&& forall|i: int| 0 <= i < remote.len() ==> #[trigger] remote[i].identifier != 0
    &&& unique_identifiers(remote)
}

/// The deck holds `n` under its identifier, with the same content.
pub open spec fn in_sync(n: NoteView, remote: Seq<NoteView>) -> bool {
    n.identifier != 0 && exists|k: int|
        0 <= k < remote.len() && remote[k].identifier == n.identifier && same_content(
            n,
            remote[k],
        )
}

/// `f` is the first remote record with the same content as `n`.
pub open spec fn is_first_twin(n: NoteView, remote: Seq<NoteView>, f: int) -> bool {
    0 <= f < remote.len() && same_content(n, remote[f]) && forall|k: int|
        0 <= k < f ==> !same_content(n, remote[k])
}

proof fn lemma_identifier_kept(n: NoteView, remote: Seq<NoteView>, i: int)
    requires
        n.identifier != 0,
    ensures
        identifier_after(n, remote, i) == n.identifier,
    decreases i,
{
    if i > 0 {
        lemma_identifier_kept(n, remote, i - 1);
    }
}

proof fn lemma_no_hits(n: NoteView, remote: Seq<NoteView>, i: int)
    requires
        forall|k: int| 0 <= k < i ==> !update_hit(n, remote, k),
    ensures
        update_hits(n, remote, i) == 0,
    decreases i,
{
    if i > 0 {
        lemma_no_hits(n, remote, i - 1);
    }
}

proof fn lemma_one_hit(n: NoteView, remote: Seq<NoteView>, i: int, h: int)
    requires
        0 <= h,
        update_hit(n, remote, h),
        forall|k: int| 0 <= k < i && k != h ==> !update_hit(n, remote, k),
    ensures
        update_hits(n, remote, i) == if h < i {
            1nat
        } else {
            0nat
        },
    decreases i,
{
    if i > 0 {
        lemma_one_hit(n, remote, i - 1, h);
    }
}

/// A record that the deck already holds, under its identifier and with the same
/// content, is left unchanged: it keeps its identifier and is neither created
/// nor sent as an update.
pub proof fn lemma_in_sync_unchanged(n: NoteView, remote: Seq<NoteView>)
    requires
        unique_identifiers(remote),
        in_sync(n, remote),
    ensures
        outcome(n, remote) == MatchOutcome::Unchanged,
        resolved(n, remote) == n,
        !repeatedly_updated(n, remote),
{
    let k = choose|k: int|
        0 <= k < remote.len() && remote[k].identifier == n.identifier && same_content(
            n,
            remote[k],
        );
    assert forall|i: int| 0 <= i < remote.len() implies !update_hit(n, remote, i) by {
        lemma_identifier_kept(n, remote, i);
        if update_hit(n, remote, i) {
            assert(remote[i].identifier == remote[k].identifier);
        }
    }
    lemma_no_hits(n, remote, remote.len() as int);
    lemma_identifier_kept(n, remote, remote.len() as int);
    assert(settles(n, remote));
}

proof fn lemma_identifier_healed(n: NoteView, remote: Seq<NoteView>, f: int, i: int)
    requires
        valid_snapshot(remote),
        n.identifier == 0,
        is_first_twin(n, remote, f),
        i <= remote.len(),
    ensures
        identifier_after(n, remote, i) == if i <= f {
            0
        } else {
            remote[f].identifier
        },
    decreases i,
{
    if i > 0 {
        lemma_identifier_healed(n, remote, f, i - 1);
    }
}

/// A record without an identifier whose content the deck holds adopts the
/// identifier of the first remote record with that content, and is not created.
pub proof fn lemma_healing(n: NoteView, remote: Seq<NoteView>, f: int)
    requires
        valid_snapshot(remote),
        n.identifier == 0,
        is_first_twin(n, remote, f),
    ensures
        outcome(n, remote) == MatchOutcome::Unchanged,
        resolved(n, remote).identifier == remote[f].identifier,
        !repeatedly_updated(n, remote),
{
    assert forall|i: int| 0 <= i < remote.len() implies !update_hit(n, remote, i) by {
        lemma_identifier_healed(n, remote, f, i);
        if update_hit(n, remote, i) {
            assert(remote[i].identifier == remote[f].identifier);
        }
    }
    lemma_no_hits(n, remote, remote.len() as int);
    lemma_identifier_healed(n, remote, f, remote.len() as int);
}

/// A record whose identifier the deck holds with other content is sent as an
/// update, exactly once, and not created.
pub proof fn lemma_changed_content_updates(n: NoteView, remote: Seq<NoteView>, h: int)
    requires
        unique_identifiers(remote),
        n.identifier != 0,
        0 <= h < remote.len(),
        remote[h].identifier == n.identifier,
        !same_content(n, remote[h]),
    ensures
        outcome(n, remote) == MatchOutcome::UpdatedRemotely,
        resolved(n, remote) == n,
        !repeatedly_updated(n, remote),
{
    lemma_identifier_kept(n, remote, h);
    assert forall|k: int| 0 <= k < remote.len() && k != h implies !update_hit(n, remote, k) by {
        lemma_identifier_kept(n, remote, k);
    }
    lemma_one_hit(n, remote, remote.len() as int, h);
    lemma_identifier_kept(n, remote, remote.len() as int);
}

proof fn lemma_positions_absent(outs: Seq<MatchOutcome>, o: MatchOutcome)
    requires
        forall|j: int| 0 <= j < outs.len() ==> outs[j] != o,
    ensures
        positions(outs, o).len() == 0,
    decreases outs.len(),
{
    if outs.len() > 0 {
        lemma_positions_absent(outs.drop_last(), o);
    }
}

proof fn lemma_nothing_written(lines: Seq<Seq<char>>, notes: Seq<NoteView>)
    ensures
        written_back(lines, notes, notes) == lines,
    decreases notes.len(),
{
    if notes.len() > 0 {
        lemma_nothing_written(lines, notes.drop_last());
    }
}

/// Running again on an already patched file against an unchanged deck does
/// nothing: when every record read from the file is held by the deck under its
/// identifier with the same content, no record is created or updated, every
/// identifier stays, and writing back changes no line.
pub proof fn lemma_idempotent(lines: Seq<Seq<char>>, remote: Seq<NoteView>)
    requires
        unique_identifiers(remote),
        forall|j: int| 0 <= j < accepted(lines).len() ==> in_sync(#[trigger] accepted(lines)[j], remote),
    ensures
        forall|j: int| 0 <= j < accepted(lines).len() ==> !repeatedly_updated(#[trigger] accepted(lines)[j], remote),
        positions(accepted(lines).map_values(|n: NoteView| outcome(n, remote)), MatchOutcome::New).len() == 0,
        positions(accepted(lines).map_values(|n: NoteView| outcome(n, remote)), MatchOutcome::UpdatedRemotely).len() == 0,
        accepted(lines).map_values(|n: NoteView| resolved(n, remote)) == accepted(lines),
        written_back(lines, accepted(lines), accepted(lines).map_values(|n: NoteView| resolved(n, remote))) == lines,
{
    let local = accepted(lines);
    let outs = local.map_values(|n: NoteView| outcome(n, remote));
    assert forall|j: int| 0 <= j < local.len() implies outs[j] == MatchOutcome::Unchanged && !repeatedly_updated(#[trigger] local[j], remote) && resolved(local[j], remote) == local[j] by {
        lemma_in_sync_unchanged(local[j], remote);
    }
    lemma_positions_absent(outs, MatchOutcome::New);
    lemma_positions_absent(outs, MatchOutcome::UpdatedRemotely);
    assert(local.map_values(|n: NoteView| resolved(n, remote)) =~= local);
    lemma_nothing_written(lines, local);
}

/// No two records read from a file share a nonzero identifier.
pub proof fn lemma_accepted_identifiers_distinct(lines: Seq<Seq<char>>)
    ensures
        forall|i: int, j: int|
            0 <= i < j < accepted(lines).len() && accepted(lines)[i].identifier != 0
                ==> #[trigger] accepted(lines)[i].identifier != #[trigger] accepted(
                lines,
            )[j].identifier,
    decreases lines.len(),
{
    if lines.len() > 0 {
        let prev = accepted(lines.drop_last());
        lemma_accepted_identifiers_distinct(lines.drop_last());
        let all = accepted(lines);
        assert forall|i: int, j: int|
            0 <= i < j < all.len() && all[i].identifier != 0 implies #[trigger] all[i].identifier
            != #[trigger] all[j].identifier by {
            assert(all[i] == prev[i]);
            if j < prev.len() {
                assert(all[j] == prev[j]);
            }
        }
    }
}

proof fn lemma_claim_kept(lines: Seq<Seq<char>>, x: i64, i: int)
    requires
        0 <= i < lines.len(),
        claims(accepted(lines.subrange(0, i)), x),
    ensures
        claims(accepted(lines.subrange(0, i + 1)), x),
{
    let l1 = lines.subrange(0, i + 1);
    assert(l1.drop_last() =~= lines.subrange(0, i));
    let prev = accepted(lines.subrange(0, i));
    let k = choose|k: int| 0 <= k < prev.len() && prev[k].identifier == x;
    assert(accepted(l1)[k] == prev[k]);
}

proof fn lemma_claim_kept_to(lines: Seq<Seq<char>>, x: i64, i: int, j: int)
    requires
        0 <= i <= j <= lines.len(),
        claims(accepted(lines.subrange(0, i)), x),
    ensures
        claims(accepted(lines.subrange(0, j)), x),
    decreases j - i,
{
    if i < j {
        lemma_claim_kept(lines, x, i);
        lemma_claim_kept_to(lines, x, i + 1, j);
    }
}

proof fn lemma_rejection_kept_to(lines: Seq<Seq<char>>, r: Rejection, i: int, j: int)
    requires
        0 <= i <= j <= lines.len(),
        rejections(lines.subrange(0, i)).contains(r),
    ensures
        rejections(lines.subrange(0, j)).contains(r),
    decreases j - i,
{
    if i < j {
        let l1 = lines.subrange(0, i + 1);
        assert(l1.drop_last() =~= lines.subrange(0, i));
        let prev = rejections(lines.subrange(0, i));
        let k = choose|k: int| 0 <= k < prev.len() && prev[k] == r;
        assert(rejections(l1)[k] == prev[k]);
        lemma_rejection_kept_to(lines, r, i + 1, j);
    }
}

/// Two lines that claim the same nonzero identifier: exactly one record with
/// that identifier is accepted, and the later line is reported as a duplicate.
pub proof fn lemma_duplicate_rejected(lines: Seq<Seq<char>>, a: int, b: int)
    requires
        0 <= a < b < lines.len(),
        line_view(lines[a]) is Entry,
        line_view(lines[b]) is Entry,
        line_view(lines[a])->Entry_0.identifier != 0,
        line_view(lines[a])->Entry_0.identifier == line_view(lines[b])->Entry_0.identifier,
    ensures
        exists|k: int|
            0 <= k < accepted(lines).len() && accepted(lines)[k].identifier == line_view(
                lines[a],
            )->Entry_0.identifier,
        forall|k1: int, k2: int|
            0 <= k1 < accepted(lines).len() && 0 <= k2 < accepted(lines).len()
                && accepted(lines)[k1].identifier == line_view(lines[a])->Entry_0.identifier
                && accepted(lines)[k2].identifier == line_view(lines[a])->Entry_0.identifier
                ==> k1 == k2,
        rejections(lines).contains(
            Rejection { line: (b + 1) as usize, error: LineError::DuplicateIdentifier },
        ),
{
    let x = line_view(lines[a])->Entry_0.identifier;
    let la = lines.subrange(0, a + 1);
    assert(la.drop_last() =~= lines.subrange(0, a));
    assert(la.last() == lines[a]);
    let pa = accepted(lines.subrange(0, a));
    if !claims(pa, x) {
        assert(accepted(la) == pa.push(line_view(lines[a])->Entry_0));
        assert(accepted(la)[pa.len() as int].identifier == x);
    }
    assert(claims(accepted(la), x));
    lemma_claim_kept_to(lines, x, a + 1, b);
    let lb = lines.subrange(0, b + 1);
    assert(lb.drop_last() =~= lines.subrange(0, b));
    assert(lb.last() == lines[b]);
    let r = Rejection { line: (b + 1) as usize, error: LineError::DuplicateIdentifier };
    assert(rejections(lb).last() == r);
    assert(rejections(lb).contains(r));
    lemma_rejection_kept_to(lines, r, b + 1, lines.len() as int);
    lemma_claim_kept_to(lines, x, b, lines.len() as int);
    assert(lines.subrange(0, lines.len() as int) =~= lines);
    lemma_accepted_identifiers_distinct(lines);
    let all = accepted(lines);
    assert forall|k1: int, k2: int|
        0 <= k1 < all.len() && 0 <= k2 < all.len() && all[k1].identifier == x
            && all[k2].identifier == x implies k1 == k2 by {
        if k1 < k2 {
            assert(all[k1].identifier != all[k2].identifier);
        } else if k2 < k1 {
            assert(all[k2].identifier != all[k1].identifier);
        }
    }
}

/// A record created in one run keeps its identifier in the next: its line,
/// written back with the identifier that the deck returned, reads as the same
/// record with that identifier, and against a deck that holds it the record
/// is left unchanged rather than created again.
pub proof fn lemma_created_record_stable(s: Seq<char>, id: i64, remote: Seq<NoteView>, i: int)
    requires
        line_view(s) is Entry,
        id > 0,
        unique_identifiers(remote),
        0 <= i < remote.len(),
        remote[i] == (NoteView { identifier: id, ..line_view(s)->Entry_0 }),
    ensures
        line_view(with_identifier(s, id as nat)) == LineView::Entry(
            NoteView { identifier: id, ..line_view(s)->Entry_0 },
        ),
        outcome(NoteView { identifier: id, ..line_view(s)->Entry_0 }, remote)
            == MatchOutcome::Unchanged,
        resolved(NoteView { identifier: id, ..line_view(s)->Entry_0 }, remote).identifier == id,
{
    lemma_rewritten_line_reads_back(s, id);
    let n = NoteView { identifier: id, ..line_view(s)->Entry_0 };
    assert(same_content(n, remote[i]));
    assert(in_sync(n, remote));
    lemma_in_sync_unchanged(n, remote);
}

} // verus!
