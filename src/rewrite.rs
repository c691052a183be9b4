//! Writing identifiers back into the file, one line at a time.
//!
//! A record with an identifier is found by its marker token: `#id:12` not
//! followed by a digit, so it never matches a line that says `#id:120`. A
//! record without one (just created, or healed) is found by reading each line
//! as the parser does: the line must hold exactly the record's terms and no
//! identifier.
use vstd::prelude::*;
use crate::parse::{LineRead, LineView, identifier_marker, line_view, pair_text, read_line};
use crate::record::{LocalRecord, NoteView, line_texts, local_views};
use crate::text::{
    decimal, decimal_chars, find, is_digit, is_space_char, occurs, occurs_at, occurs_here,
    same_chars, slice, trim_back,
};

verus! {

/// Line `s` reads as the record `n`.
pub open spec fn holds(s: Seq<char>, n: NoteView) -> bool {
    line_view(s) == LineView::Entry(n)
}

/// The marker token of identifier `id`: `#id:` and its decimal digits.
pub open spec fn identifier_token(id: nat) -> Seq<char> {
    identifier_marker() + decimal(id)
}

/// The token of `id` stands in `s` at `i`, not followed by another digit.
pub open spec fn token_at(s: Seq<char>, id: nat, i: int) -> bool {
    occurs_at(s, identifier_token(id), i) && (i + identifier_token(id).len() == s.len()
        || !is_digit(s[i + identifier_token(id).len()]))
}

pub open spec fn has_token(s: Seq<char>, id: nat) -> bool {
    exists|i: int| token_at(s, id, i)
}

/// Line `s` is the line of record `n`: the one holding its identifier's token,
/// or, for a record without an identifier, one that reads as the record.
pub open spec fn locates(s: Seq<char>, n: NoteView) -> bool {
    if n.identifier == 0 {
        holds(s, n)
    } else {
        n.identifier > 0 && has_token(s, n.identifier as nat)
    }
}

pub open spec fn has_holder(lines: Seq<Seq<char>>, n: NoteView) -> bool {
    exists|i: int| 0 <= i < lines.len() && locates(lines[i], n)
}

pub open spec fn is_first_holder(lines: Seq<Seq<char>>, n: NoteView, i: int) -> bool {
    0 <= i < lines.len() && locates(lines[i], n) && forall|k: int|
        0 <= k < i ==> !locates(lines[k], n)
}

/// The first line of the record `n` (meaningful where there is one).
pub open spec fn first_holder(lines: Seq<Seq<char>>, n: NoteView) -> int {
    choose|i: int| is_first_holder(lines, n, i)
}

/// The separator written between a record's terms and its identifier marker.
pub open spec fn suffix_gap() -> Seq<char> {
    seq![' ', ' ']
}

/// Line `s` with the canonical suffix for `id`: a line without a marker keeps
/// all its text; in one with a marker, the marker and what follows it, and the
/// whitespace before it, are replaced.
pub open spec fn with_identifier(s: Seq<char>, id: nat) -> Seq<char> {
    if occurs(s, identifier_marker()) {
        trim_back(pair_text(s)) + suffix_gap() + identifier_token(id)
    } else {
        s + suffix_gap() + identifier_token(id)
    }
}

/// `lines` after the record `n` was given the identifier `id`.
pub open spec fn patched(lines: Seq<Seq<char>>, n: NoteView, id: i64) -> Seq<Seq<char>> {
    if id > 0 && has_holder(lines, n) {
        let i = first_holder(lines, n);
        lines.update(i, with_identifier(lines[i], id as nat))
    } else {
        lines
    }
}

/// Why a record's line was left as it was.
#[derive(PartialEq, Eq, Structural, Clone, Copy, Debug)]
pub enum RewriteError {
    /// Identifiers in the file are positive.
    InvalidIdentifier,
    /// No line is the record's line.
    LineNotFound,
}

fn trimmed_end(s: &Vec<char>) -> (r: Vec<char>)
    ensures
        r@ == trim_back(s@),
{
    let mut b: usize = s.len();
    assert(s@.subrange(0, b as int) =~= s@);
    while b > 0 && is_space_char(s[b - 1])
        invariant
            b <= s.len(),
            trim_back(s@) == trim_back(s@.subrange(0, b as int)),
        decreases b,
    {
        assert(s@.subrange(0, b as int).drop_last() =~= s@.subrange(0, b - 1));
        b = b - 1;
    }
    slice(s, 0, b)
}

fn push_all(v: &mut Vec<char>, t: &Vec<char>)
    ensures
        final(v)@ == old(v)@ + t@,
{
    let mut i: usize = 0;
    while i < t.len()
        invariant
            i <= t.len(),
            v@ == old(v)@ + t@.subrange(0, i as int),
        decreases t.len() - i,
    {
        v.push(t[i]);
        assert(t@.subrange(0, i + 1) =~= t@.subrange(0, i as int).push(t@[i as int]));
        assert(v@ =~= old(v)@ + t@.subrange(0, i + 1));
        i = i + 1;
    }
    assert(t@.subrange(0, t.len() as int) =~= t@);
}

/// `line` with its identifier suffix replaced by `  #id:<id>`.
pub fn line_with_identifier(line: &Vec<char>, id: u64) -> (r: Vec<char>)
    ensures
        r@ == with_identifier(line@, id as nat),
{
    let marker = vec!['#', 'i', 'd', ':'];
    assert(marker@ =~= identifier_marker());
    let mut r = match find(line, &marker) {
        None => slice(line, 0, line.len()),
        Some(i) => {
            let pair = slice(line, 0, i);
            assert(pair@ =~= pair_text(line@));
            trimmed_end(&pair)
        },
    };
    assert(line@.subrange(0, line.len() as int) =~= line@);
    let gap = vec![' ', ' '];
    assert(gap@ =~= suffix_gap());
    push_all(&mut r, &gap);
    push_all(&mut r, &token_chars(id));
    r
}

/// The marker token of identifier `id`.
fn token_chars(id: u64) -> (r: Vec<char>)
    ensures
        r@ == identifier_token(id as nat),
{
    let mut r = vec!['#', 'i', 'd', ':'];
    assert(r@ =~= identifier_marker());
    push_all(&mut r, &decimal_chars(id));
    r
}

/// Whether the token of `id` stands in `line`, not followed by another digit.
pub fn line_has_token(line: &Vec<char>, id: u64) -> (r: bool)
    ensures
        r == has_token(line@, id as nat),
{
    let token = token_chars(id);
    let n = token.len();
    let mut i: usize = 0;
    while i < line.len()
        invariant
            token@ == identifier_token(id as nat),
            n == token.len(),
            i <= line.len(),
            forall|k: int| 0 <= k < i ==> !token_at(line@, id as nat, k),
        decreases line.len() - i,
    {
        if occurs_here(line, &token, i) {
            if i + n == line.len() || !('0' <= line[i + n] && line[i + n] <= '9') {
                assert(token_at(line@, id as nat, i as int));
                return true;
            }
        }
        i = i + 1;
    }
    assert forall|k: int| !token_at(line@, id as nat, k) by {
        if 0 <= k < i {
        } else if token_at(line@, id as nat, k) {
            assert(identifier_token(id as nat).len() >= 4);
        }
    }
    false
}

/// Whether `line` reads as the record `n`.
pub fn line_holds(line: &Vec<char>, n: &LocalRecord) -> (r: bool)
    ensures
        r == holds(line@, n@),
{
    match read_line(line) {
        LineRead::Entry(rec) => {
            let same = same_chars(&rec.front, &n.front) && same_chars(&rec.back, &n.back)
                && rec.identifier == n.identifier;
            assert(same == (rec@ == n@));
            same
        },
        _ => false,
    }
}

/// Whether `line` is the line of record `n`.
pub fn line_locates(line: &Vec<char>, n: &LocalRecord) -> (r: bool)
    ensures
        r == locates(line@, n@),
{
    if n.identifier == 0 {
        line_holds(line, n)
    } else if n.identifier > 0 {
        line_has_token(line, n.identifier as u64)
    } else {
        false
    }
}

/// Gives the record `previous` the identifier `id` in the file: the first line
/// of `previous` gets the canonical suffix for `id`; every other line stays as
/// it was.
pub fn patch_identifier(lines: &mut Vec<Vec<char>>, previous: &LocalRecord, id: i64) -> (r: Result<
    usize,
    RewriteError,
>)
    ensures
        line_texts(final(lines)@) == patched(line_texts(old(lines)@), previous@, id),
        r == Err::<usize, RewriteError>(RewriteError::InvalidIdentifier) <==> id <= 0,
        r == Err::<usize, RewriteError>(RewriteError::LineNotFound) <==> id > 0 && !has_holder(
            line_texts(old(lines)@),
            previous@,
        ),
        r matches Ok(i) ==> is_first_holder(line_texts(old(lines)@), previous@, i as int),
{
    let ghost texts = line_texts(lines@);
    if id <= 0 {
        return Err(RewriteError::InvalidIdentifier);
    }
    let mut i: usize = 0;
    while i < lines.len()
        invariant
            id > 0,
            texts == line_texts(lines@),
            texts == line_texts(old(lines)@),
            i <= lines.len(),
            forall|k: int| 0 <= k < i ==> !locates(texts[k], previous@),
        decreases lines.len() - i,
    {
        if line_locates(&lines[i], previous) {
            assert(is_first_holder(texts, previous@, i as int));
            let ghost f = first_holder(texts, previous@);
            assert(is_first_holder(texts, previous@, f));
            assert(f == i);
            let new_line = line_with_identifier(&lines[i], id as u64);
            lines.set(i, new_line);
            assert(line_texts(lines@) =~= texts.update(
                i as int,
                with_identifier(texts[i as int], id as nat),
            ));
            return Ok(i);
        }
        i = i + 1;
    }
    assert(!has_holder(texts, previous@));
    Err(RewriteError::LineNotFound)
}

/// `lines` after every record whose identifier changed from `before[j]` to
/// `after[j]` was patched, in record order.
pub open spec fn written_back(lines: Seq<Seq<char>>, before: Seq<NoteView>, after: Seq<NoteView>) -> Seq<
    Seq<char>,
>
    decreases before.len(),
{
    if before.len() == 0 || before.len() != after.len() {
        lines
    } else {
        let prev = written_back(lines, before.drop_last(), after.drop_last());
        if after.last().identifier != before.last().identifier {
            patched(prev, before.last(), after.last().identifier)
        } else {
            prev
        }
    }
}

/// The indices of the records whose identifier changed but whose line could not be patched.
pub open spec fn unpatched(lines: Seq<Seq<char>>, before: Seq<NoteView>, after: Seq<NoteView>) -> Seq<
    usize,
>
    decreases before.len(),
{
    if before.len() == 0 || before.len() != after.len() {
        seq![]
    } else {
        let prev = unpatched(lines, before.drop_last(), after.drop_last());
        let id = after.last().identifier;
        if id != before.last().identifier && !(id > 0 && has_holder(
            written_back(lines, before.drop_last(), after.drop_last()),
            before.last(),
        )) {
            prev.push((before.len() - 1) as usize)
        } else {
            prev
        }
    }
}

/// Writes into `lines` the identifier of every record that changed from
/// `before[j]` to `after[j]`; returns the indices of those whose line was not found.
pub fn write_back(lines: &mut Vec<Vec<char>>, before: &Vec<LocalRecord>, after: &Vec<LocalRecord>) -> (r: Vec<usize>)
    requires
        before.len() == after.len(),
    ensures
        line_texts(final(lines)@) == written_back(
            line_texts(old(lines)@),
            local_views(before@),
            local_views(after@),
        ),
        r@ == unpatched(line_texts(old(lines)@), local_views(before@), local_views(after@)),
{
    let ghost start = line_texts(lines@);
    let ghost bv = local_views(before@);
    let ghost av = local_views(after@);
    let mut missing: Vec<usize> = Vec::new();
    let mut j: usize = 0;
    while j < before.len()
        invariant
            before.len() == after.len(),
            start == line_texts(old(lines)@),
            bv == local_views(before@),
            av == local_views(after@),
            j <= before.len(),
            line_texts(lines@) == written_back(start, bv.subrange(0, j as int), av.subrange(0, j as int)),
            missing@ == unpatched(start, bv.subrange(0, j as int), av.subrange(0, j as int)),
        decreases before.len() - j,
    {
        let ghost b1 = bv.subrange(0, j + 1);
        let ghost a1 = av.subrange(0, j + 1);
        assert(b1.drop_last() =~= bv.subrange(0, j as int));
        assert(a1.drop_last() =~= av.subrange(0, j as int));
        assert(b1.last() == before@[j as int]@);
        assert(a1.last() == after@[j as int]@);
        let id = after[j].identifier;
        if id != before[j].identifier {
            let ghost prev_texts = line_texts(lines@);
            match patch_identifier(lines, &before[j], id) {
                Ok(i) => {
                    assert(0 <= i < prev_texts.len() && locates(prev_texts[i as int], b1.last()));
                    assert(has_holder(prev_texts, b1.last()));
                },
                Err(e) => {
                    assert(e == RewriteError::InvalidIdentifier || e == RewriteError::LineNotFound);
                    missing.push(j);
                },
            }
        }
        j = j + 1;
    }
    assert(bv.subrange(0, j as int) =~= bv);
    assert(av.subrange(0, j as int) =~= av);
    missing
}

} // verus!
