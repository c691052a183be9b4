//! Reading the local file: each line is free text, a record, or a rejected line.
use vstd::prelude::*;
use crate::record::{LocalRecord, NoteView, line_texts, local_views};
use crate::text::{
    decimal_identifier, find, find_only, first_occurrence, occurs, occurs_once, only_occurrence,
    parse_identifier, slice, trim, trimmed,
};

verus! {

/// Why a line that looks like a record was not accepted.
#[derive(PartialEq, Eq, Structural, Clone, Copy, Debug)]
pub enum LineError {
    /// The identifier marker is not followed by a positive decimal number.
    MalformedIdentifier,
    /// The pair text holds the delimiter zero times or more than once.
    DelimiterCount,
    /// One of the two terms is empty once trimmed.
    EmptyField,
    /// The identifier was already claimed by an earlier accepted line.
    DuplicateIdentifier,
}

/// A rejected line: its number in the file (counting from 1) and the reason.
#[derive(PartialEq, Eq, Structural, Clone, Copy, Debug)]
pub struct Rejection {
    pub line: usize,
    pub error: LineError,
}

/// What one line says on its own.
pub enum LineView {
    Free,
    Entry(NoteView),
    Bad(LineError),
}

/// The result of reading one line.
pub enum LineRead {
    /// No pair delimiter: a comment or a blank line.
    Free,
    Entry(LocalRecord),
    Bad(LineError),
}

impl View for LineRead {
    type V = LineView;

    open spec fn view(&self) -> LineView {
        match self {
            LineRead::Free => LineView::Free,
            LineRead::Entry(r) => LineView::Entry(r@),
            LineRead::Bad(e) => LineView::Bad(*e),
        }
    }
}

/// The literal `::` between the two terms.
pub open spec fn pair_delimiter() -> Seq<char> {
    seq![':', ':']
}

/// The literal `#id:` in front of a record's identifier.
pub open spec fn identifier_marker() -> Seq<char> {
    seq!['#', 'i', 'd', ':']
}

/// The part of a line before its identifier marker (the whole line if it has none).
pub open spec fn pair_text(s: Seq<char>) -> Seq<char> {
    if occurs(s, identifier_marker()) {
        s.subrange(0, first_occurrence(s, identifier_marker()))
    } else {
        s
    }
}

/// The identifier that a line claims: `Some(0)` without a marker, `None` if malformed.
pub open spec fn claimed_identifier(s: Seq<char>) -> Option<i64> {
    if occurs(s, identifier_marker()) {
        decimal_identifier(s.subrange(first_occurrence(s, identifier_marker()) + 4, s.len() as int))
    } else {
        Some(0)
    }
}

/// The meaning of one line of the file, taken alone.
#[verifier::opaque]
pub open spec fn line_view(s: Seq<char>) -> LineView {
    if !occurs(s, pair_delimiter()) {
        LineView::Free
    } else if claimed_identifier(s) is None {
        LineView::Bad(LineError::MalformedIdentifier)
    } else if !occurs_once(pair_text(s), pair_delimiter()) {
        LineView::Bad(LineError::DelimiterCount)
    } else {
        let p = pair_text(s);
        let k = only_occurrence(p, pair_delimiter());
        let front = trim(p.subrange(0, k));
        let back = trim(p.subrange(k + 2, p.len() as int));
        if front.len() == 0 || back.len() == 0 {
            LineView::Bad(LineError::EmptyField)
        } else {
            LineView::Entry(NoteView { front, back, identifier: claimed_identifier(s)->0 })
        }
    }
}

/// Some record of `notes` already holds the nonzero identifier `id`.
pub open spec fn claims(notes: Seq<NoteView>, id: i64) -> bool {
    id != 0 && exists|k: int| 0 <= k < notes.len() && notes[k].identifier == id
}

/// The records accepted from `lines`, in file order.
pub open spec fn accepted(lines: Seq<Seq<char>>) -> Seq<NoteView>
    decreases lines.len(),
{
    if lines.len() == 0 {
        seq![]
    } else {
        let prev = accepted(lines.drop_last());
        match line_view(lines.last()) {
            LineView::Entry(n) => if claims(prev, n.identifier) {
                prev
            } else {
                prev.push(n)
            },
            _ => prev,
        }
    }
}

/// The lines of `lines` that were rejected, in file order.
pub open spec fn rejections(lines: Seq<Seq<char>>) -> Seq<Rejection>
    decreases lines.len(),
{
    if lines.len() == 0 {
        seq![]
    } else {
        let prev = rejections(lines.drop_last());
        let here = lines.len() as usize;
        match line_view(lines.last()) {
            LineView::Entry(n) => if claims(accepted(lines.drop_last()), n.identifier) {
                prev.push(Rejection { line: here, error: LineError::DuplicateIdentifier })
            } else {
                prev
            },
            LineView::Bad(e) => prev.push(Rejection { line: here, error: e }),
            LineView::Free => prev,
        }
    }
}

fn delimiter_chars() -> (r: Vec<char>)
    ensures
        r@ == pair_delimiter(),
{
    let r = vec![':', ':'];
    assert(r@ =~= pair_delimiter());
    r
}

fn marker_chars() -> (r: Vec<char>)
    ensures
        r@ == identifier_marker(),
{
    let r = vec!['#', 'i', 'd', ':'];
    assert(r@ =~= identifier_marker());
    r
}

/// Reads one line of the file.
pub fn read_line(line: &Vec<char>) -> (r: LineRead)
    ensures
        r@ == line_view(line@),
{
    proof {
        reveal(line_view);
    }
    let delimiter = delimiter_chars();
    let marker = marker_chars();
    if find(line, &delimiter).is_none() {
        return LineRead::Free;
    }
    let pair: Vec<char>;
    let identifier: i64;
    match find(line, &marker) {
        None => {
            pair = slice(line, 0, line.len());
            assert(pair@ =~= line@);
            identifier = 0;
        },
        Some(i) => {
            let rest = slice(line, i + 4, line.len());
            match parse_identifier(&rest) {
                None => {
                    return LineRead::Bad(LineError::MalformedIdentifier);
                },
                Some(v) => {
                    pair = slice(line, 0, i);
                    identifier = v;
                },
            }
        },
    }
    assert(pair@ == pair_text(line@));
    assert(claimed_identifier(line@) == Some(identifier));
    match find_only(&pair, &delimiter) {
        None => LineRead::Bad(LineError::DelimiterCount),
        Some(k) => {
            let front = trimmed(&slice(&pair, 0, k));
            let back = trimmed(&slice(&pair, k + 2, pair.len()));
            if front.len() == 0 || back.len() == 0 {
                LineRead::Bad(LineError::EmptyField)
            } else {
                LineRead::Entry(LocalRecord { front, back, identifier })
            }
        },
    }
}

/// Whether a record of `records` already holds the nonzero identifier `id`.
pub fn is_claimed(records: &Vec<LocalRecord>, id: i64) -> (r: bool)
    ensures
        r == claims(local_views(records@), id),
{
    if id == 0 {
        return false;
    }
    let mut k: usize = 0;
    while k < records.len()
        invariant
            id != 0,
            k <= records.len(),
            forall|j: int| 0 <= j < k ==> records@[j].identifier != id,
        decreases records.len() - k,
    {
        if records[k].identifier == id {
            let ghost views = local_views(records@);
            assert(views.len() == records.len());
            assert(views[k as int] == records@[k as int]@);
            assert(views[k as int].identifier == id);
            return true;
        }
        k = k + 1;
    }
    false
}

/// The records of a file and its rejected lines.
pub struct ParseReport {
    pub records: Vec<LocalRecord>,
    pub rejected: Vec<Rejection>,
}

/// Reads every line of a file; a bad line is reported and the rest still read.
pub fn parse_lines(lines: &Vec<Vec<char>>) -> (r: ParseReport)
    ensures
        local_views(r.records@) == accepted(line_texts(lines@)),
        r.rejected@ == rejections(line_texts(lines@)),
{
    let mut records: Vec<LocalRecord> = Vec::new();
    let mut rejected: Vec<Rejection> = Vec::new();
    let mut i: usize = 0;
    while i < lines.len()
        invariant
            i <= lines.len(),
            local_views(records@) == accepted(line_texts(lines@).subrange(0, i as int)),
            rejected@ == rejections(line_texts(lines@).subrange(0, i as int)),
        decreases lines.len() - i,
    {
        let ghost before = line_texts(lines@).subrange(0, i as int);
        let ghost upto = line_texts(lines@).subrange(0, i + 1);
        assert(upto.drop_last() =~= before);
        assert(upto.last() == lines@[i as int]@);
        let ghost old_records = records@;
        match read_line(&lines[i]) {
            LineRead::Free => {},
            LineRead::Bad(e) => {
                rejected.push(Rejection { line: i + 1, error: e });
            },
            LineRead::Entry(rec) => {
                if is_claimed(&records, rec.identifier) {
                    rejected.push(Rejection { line: i + 1, error: LineError::DuplicateIdentifier });
                } else {
                    records.push(rec);
                    assert(local_views(records@) =~= local_views(old_records).push(rec@));
                }
            },
        }
        i = i + 1;
    }
    assert(line_texts(lines@).subrange(0, lines.len() as int) =~= line_texts(lines@));
    ParseReport { records, rejected }
}

} // verus!
