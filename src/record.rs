//! Records on both sides of a synchronisation, and their mathematical views.
use vstd::prelude::*;
use crate::text::slice;

verus! {

/// What a record says: its two terms and its identifier (`0`: none yet).
pub struct NoteView {
    pub front: Seq<char>,
    pub back: Seq<char>,
    pub identifier: i64,
}

/// A `front::back` pair read from the local file.
pub struct LocalRecord {
    pub front: Vec<char>,
    pub back: Vec<char>,
    pub identifier: i64,
}

/// A note as the remote deck currently stores it.
pub struct RemoteRecord {
    pub identifier: i64,
    pub front: Vec<char>,
    pub back: Vec<char>,
}

impl View for LocalRecord {
    type V = NoteView;

    open spec fn view(&self) -> NoteView {
        NoteView { front: self.front@, back: self.back@, identifier: self.identifier }
    }
}

impl View for RemoteRecord {
    type V = NoteView;

    open spec fn view(&self) -> NoteView {
        NoteView { front: self.front@, back: self.back@, identifier: self.identifier }
    }
}

/// The views of a sequence of local records.
pub open spec fn local_views(v: Seq<LocalRecord>) -> Seq<NoteView> {
    v.map_values(|r: LocalRecord| r@)
}

/// The views of a sequence of remote records.
pub open spec fn remote_views(v: Seq<RemoteRecord>) -> Seq<NoteView> {
    v.map_values(|r: RemoteRecord| r@)
}

/// The contents of a sequence of lines.
pub open spec fn line_texts(v: Seq<Vec<char>>) -> Seq<Seq<char>> {
    v.map_values(|l: Vec<char>| l@)
}

impl LocalRecord {
    pub fn new(front: Vec<char>, back: Vec<char>, identifier: i64) -> (r: LocalRecord)
        ensures
            r@ == (NoteView { front: front@, back: back@, identifier }),
    {
        LocalRecord { front, back, identifier }
    }

    /// An independent record with the same contents.
    pub fn copy(&self) -> (r: LocalRecord)
        ensures
            r@ == self@,
    {
        let front = slice(&self.front, 0, self.front.len());
        let back = slice(&self.back, 0, self.back.len());
        assert(front@ =~= self.front@);
        assert(back@ =~= self.back@);
        LocalRecord { front, back, identifier: self.identifier }
    }
}

impl RemoteRecord {
    pub fn new(identifier: i64, front: Vec<char>, back: Vec<char>) -> (r: RemoteRecord)
        ensures
            r@ == (NoteView { front: front@, back: back@, identifier }),
    {
        RemoteRecord { identifier, front, back }
    }
}

/// The search that selects every note of a deck: `deck:<name>`.
pub open spec fn deck_search(deck: Seq<char>) -> Seq<char> {
    seq!['d', 'e', 'c', 'k', ':'] + deck
}

pub fn deck_query(deck: &Vec<char>) -> (r: Vec<char>)
    ensures
        r@ == deck_search(deck@),
{
    let mut r = vec!['d', 'e', 'c', 'k', ':'];
    let mut i: usize = 0;
    while i < deck.len()
        invariant
            i <= deck.len(),
            r@ == seq!['d', 'e', 'c', 'k', ':'] + deck@.subrange(0, i as int),
        decreases deck.len() - i,
    {
        r.push(deck[i]);
        assert(r@ =~= seq!['d', 'e', 'c', 'k', ':'] + deck@.subrange(0, i + 1));
        i = i + 1;
    }
    assert(deck@.subrange(0, i as int) =~= deck@);
    r
}

} // verus!
