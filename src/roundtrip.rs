//! A line rewritten with an identifier reads back as the same record with that identifier.
use vstd::prelude::*;
use crate::parse::{
    LineView, claimed_identifier, identifier_marker, line_view, pair_delimiter, pair_text,
};
use crate::record::NoteView;
use crate::rewrite::{identifier_token, suffix_gap, with_identifier};
use crate::text::{
    all_digits, decimal, decimal_identifier, digit_char, digits_value, first_occurrence,
    is_first_occurrence, is_only_occurrence, is_space, occurs, occurs_at, occurs_once,
    only_occurrence, trim, trim_back, trim_front,
};

verus! {

pub open spec fn all_space(w: Seq<char>) -> bool {
    forall|i: int| 0 <= i < w.len() ==> is_space(#[trigger] w[i])
}

proof fn lemma_trim_back_spaces(x: Seq<char>, w: Seq<char>)
    requires
        all_space(w),
    ensures
        trim_back(x + w) == trim_back(x),
    decreases w.len(),
{
    if w.len() == 0 {
        assert(x + w =~= x);
    } else {
        assert((x + w).last() == w.last());
        assert((x + w).drop_last() =~= x + w.drop_last());
        lemma_trim_back_spaces(x, w.drop_last());
    }
}

proof fn lemma_trim_front_append(x: Seq<char>, y: Seq<char>, j: int)
    requires
        0 <= j < x.len(),
        !is_space(x[j]),
    ensures
        trim_front(x + y) == trim_front(x) + y,
    decreases x.len(),
{
    assert((x + y)[0] == x[0]);
    if is_space(x[0]) {
        assert((x + y).drop_first() =~= x.drop_first() + y);
        lemma_trim_front_append(x.drop_first(), y, j - 1);
    }
}

proof fn lemma_trim_front_spaces(x: Seq<char>)
    requires
        all_space(x),
    ensures
        trim_front(x) == Seq::<char>::empty(),
    decreases x.len(),
{
    if x.len() > 0 {
        lemma_trim_front_spaces(x.drop_first());
    } else {
        assert(x =~= Seq::<char>::empty());
    }
}

proof fn lemma_trim_trailing_spaces(x: Seq<char>, w: Seq<char>)
    requires
        all_space(w),
    ensures
        trim(x + w) == trim(x),
{
    if exists|j: int| 0 <= j < x.len() && !is_space(x[j]) {
        let j = choose|j: int| 0 <= j < x.len() && !is_space(x[j]);
        lemma_trim_front_append(x, w, j);
        lemma_trim_back_spaces(trim_front(x), w);
    } else {
        assert(all_space(x + w));
        lemma_trim_front_spaces(x + w);
        lemma_trim_front_spaces(x);
    }
}

proof fn lemma_trim_back_prefix(p: Seq<char>)
    ensures
        trim_back(p).len() <= p.len(),
        trim_back(p) == p.subrange(0, trim_back(p).len() as int),
        all_space(p.subrange(trim_back(p).len() as int, p.len() as int)),
    decreases p.len(),
{
    if p.len() > 0 && is_space(p.last()) {
        lemma_trim_back_prefix(p.drop_last());
        let t = trim_back(p).len() as int;
        assert(p.drop_last().subrange(0, t) =~= p.subrange(0, t));
        let tail = p.subrange(t, p.len() as int);
        assert forall|i: int| 0 <= i < tail.len() implies is_space(#[trigger] tail[i]) by {
            if i < tail.len() - 1 {
                assert(tail[i] == p.drop_last().subrange(t, p.len() - 1)[i]);
            }
        }
    } else {
        assert(p.subrange(0, p.len() as int) =~= p);
    }
}

proof fn lemma_decimal_reads_back(n: nat)
    ensures
        decimal(n).len() > 0,
        all_digits(decimal(n)),
        digits_value(decimal(n)) == n,
    decreases n,
{
    let d = digit_char(n % 10);
    assert((d as nat) == ('0' as nat) + n % 10);
    if n >= 10 {
        lemma_decimal_reads_back(n / 10);
        let s = decimal(n);
        assert(s.drop_last() =~= decimal(n / 10));
        assert(s.last() == d);
        assert(n == (n / 10) * 10 + n % 10) by (nonlinear_arith);
        assert(((s.last() as nat) - ('0' as nat)) as nat == n % 10);
        assert(digits_value(s) == digits_value(s.drop_last()) * 10 + n % 10);
        assert forall|i: int| 0 <= i < s.len() implies crate::text::is_digit(#[trigger] s[i]) by {
            if i < s.len() - 1 {
                assert(s[i] == decimal(n / 10)[i]);
            }
        }
    } else {
        assert(decimal(n).drop_last() =~= Seq::<char>::empty());
        assert(decimal(n).last() == d);
        assert(n % 10 == n);
        assert(((decimal(n).last() as nat) - ('0' as nat)) as nat == n);
        assert(digits_value(decimal(n).drop_last()) == 0);
    }
}

proof fn lemma_first_exists(s: Seq<char>, t: Seq<char>, i: int)
    requires
        occurs_at(s, t, i),
    ensures
        is_first_occurrence(s, t, first_occurrence(s, t)),
    decreases i,
{
    if forall|k: int| 0 <= k < i ==> !occurs_at(s, t, k) {
        assert(is_first_occurrence(s, t, i));
    } else {
        let k = choose|k: int| 0 <= k < i && occurs_at(s, t, k);
        lemma_first_exists(s, t, k);
    }
}

proof fn lemma_pair_text_unmarked(s: Seq<char>)
    ensures
        forall|j: int| !occurs_at(pair_text(s), identifier_marker(), j),
{
    let m = identifier_marker();
    let p = pair_text(s);
    if occurs(s, m) {
        let i0 = choose|i: int| occurs_at(s, m, i);
        lemma_first_exists(s, m, i0);
    }
    assert forall|j: int| !occurs_at(p, m, j) by {
        if occurs_at(p, m, j) {
            if occurs(s, m) {
                assert(s.subrange(j, j + 4) =~= p.subrange(j, j + 4));
                assert(occurs_at(s, m, j));
            } else {
                assert(occurs_at(s, m, j));
            }
        }
    }
}

proof fn lemma_delimiter_kept_by_trim(p: Seq<char>, k: int)
    requires
        is_only_occurrence(p, pair_delimiter(), k),
    ensures
        k + 2 <= trim_back(p).len(),
        is_only_occurrence(trim_back(p), pair_delimiter(), k),
{
    let dl = pair_delimiter();
    lemma_trim_back_prefix(p);
    let tb = trim_back(p);
    let t = tb.len() as int;
    let tail = p.subrange(t, p.len() as int);
    assert(p[k] == p.subrange(k, k + 2)[0]);
    assert(p[k + 1] == p.subrange(k, k + 2)[1]);
    if k + 2 > t {
        if k >= t {
            assert(tail[k - t] == p[k]);
        } else {
            assert(tail[k + 1 - t] == p[k + 1]);
        }
    }
    assert forall|i: int| 0 <= i < t implies tb[i] == p[i] by {
        assert(tb[i] == p.subrange(0, t)[i]);
    }
    assert(tb.subrange(k, k + 2) =~= p.subrange(k, k + 2));
    assert forall|j: int| occurs_at(tb, dl, j) implies j == k by {
        assert(tb.subrange(j, j + 2) =~= p.subrange(j, j + 2));
        assert(occurs_at(p, dl, j));
    }
}

proof fn lemma_marker_after_gap(tb: Seq<char>, d: Seq<char>)
    requires
        forall|j: int| !occurs_at(tb, identifier_marker(), j),
    ensures
        occurs(tb + suffix_gap() + identifier_marker() + d, identifier_marker()),
        first_occurrence(tb + suffix_gap() + identifier_marker() + d, identifier_marker())
            == tb.len() + 2,
{
    let m = identifier_marker();
    let l = tb + suffix_gap() + m + d;
    let t = tb.len() as int;
    assert(l[t] == ' ' && l[t + 1] == ' ');
    assert forall|i: int| 0 <= i < t implies l[i] == tb[i] by {
        assert((tb + suffix_gap())[i] == tb[i]);
        assert((tb + suffix_gap() + m)[i] == tb[i]);
    }
    assert(m[0] == '#' && m[1] == 'i' && m[2] == 'd' && m[3] == ':');
    assert(l.subrange(t + 2, t + 6) =~= m);
    assert forall|j: int| 0 <= j < t + 2 implies !occurs_at(l, m, j) by {
        if occurs_at(l, m, j) {
            if j + 4 <= t {
                assert(l.subrange(j, j + 4) =~= tb.subrange(j, j + 4));
                assert(occurs_at(tb, m, j));
            } else {
                let q = if j >= t {
                    j
                } else {
                    t
                };
                assert(l.subrange(j, j + 4)[q - j] == l[q]);
                assert(m[q - j] != ' ');
            }
        }
    }
    assert(is_first_occurrence(l, m, t + 2));
    let f = first_occurrence(l, m);
    assert(is_first_occurrence(l, m, f));
}

proof fn lemma_delimiter_before_gap(tb: Seq<char>, k: int)
    requires
        is_only_occurrence(tb, pair_delimiter(), k),
    ensures
        occurs_once(tb + suffix_gap(), pair_delimiter()),
        only_occurrence(tb + suffix_gap(), pair_delimiter()) == k,
{
    let dl = pair_delimiter();
    let a = tb + suffix_gap();
    let t = tb.len() as int;
    assert(a[t] == ' ');
    assert(dl[0] == ':' && dl[1] == ':');
    assert(a.subrange(k, k + 2) =~= tb.subrange(k, k + 2));
    assert forall|j: int| occurs_at(a, dl, j) implies j == k by {
        if j + 2 <= t {
            assert(a.subrange(j, j + 2) =~= tb.subrange(j, j + 2));
            assert(occurs_at(tb, dl, j));
        } else {
            assert(a.subrange(j, j + 2)[t - j] == a[t]);
        }
    }
    assert(is_only_occurrence(a, dl, k));
    let k2 = only_occurrence(a, dl);
    assert(is_only_occurrence(a, dl, k2));
}

proof fn lemma_entry_from_parts(l: Seq<char>, k: int, id: i64)
    requires
        occurs(l, pair_delimiter()),
        claimed_identifier(l) == Some(id),
        is_only_occurrence(pair_text(l), pair_delimiter(), k),
        trim(pair_text(l).subrange(0, k)).len() > 0,
        trim(pair_text(l).subrange(k + 2, pair_text(l).len() as int)).len() > 0,
    ensures
        line_view(l) == LineView::Entry(
            NoteView {
                front: trim(pair_text(l).subrange(0, k)),
                back: trim(pair_text(l).subrange(k + 2, pair_text(l).len() as int)),
                identifier: id,
            },
        ),
{
    reveal(line_view);
    let k2 = only_occurrence(pair_text(l), pair_delimiter());
    assert(is_only_occurrence(pair_text(l), pair_delimiter(), k2));
}

proof fn lemma_entry_parts(s: Seq<char>)
    requires
        line_view(s) is Entry,
    ensures
        occurs_once(pair_text(s), pair_delimiter()),
        is_only_occurrence(pair_text(s), pair_delimiter(), only_occurrence(pair_text(s), pair_delimiter())),
        line_view(s)->Entry_0.front == trim(pair_text(s).subrange(0, only_occurrence(pair_text(s), pair_delimiter()))),
        line_view(s)->Entry_0.back == trim(pair_text(s).subrange(only_occurrence(pair_text(s), pair_delimiter()) + 2, pair_text(s).len() as int)),
        line_view(s)->Entry_0.front.len() > 0,
        line_view(s)->Entry_0.back.len() > 0,
{
    reveal(line_view);
}

#[verifier::rlimit(80)]
proof fn lemma_rewritten_marker(tb: Seq<char>, id: i64)
    requires
        forall|j: int| !occurs_at(tb, identifier_marker(), j),
        id > 0,
    ensures
        claimed_identifier(tb + suffix_gap() + identifier_marker() + decimal(id as nat)) == Some(
            id,
        ),
        pair_text(tb + suffix_gap() + identifier_marker() + decimal(id as nat)) == tb
            + suffix_gap(),
{
    let d = decimal(id as nat);
    let l = tb + suffix_gap() + identifier_marker() + d;
    let t = tb.len() as int;
    lemma_marker_after_gap(tb, d);
    assert(l.subrange(t + 6, l.len() as int) =~= d);
    lemma_decimal_reads_back(id as nat);
    assert(decimal_identifier(d) == Some(id));
    assert(pair_text(l) =~= tb + suffix_gap());
}

proof fn lemma_rewritten_delimiter(tb: Seq<char>, k: int, id: i64)
    requires
        is_only_occurrence(tb, pair_delimiter(), k),
    ensures
        occurs(tb + suffix_gap() + identifier_marker() + decimal(id as nat), pair_delimiter()),
        is_only_occurrence(tb + suffix_gap(), pair_delimiter(), k),
{
    let l = tb + suffix_gap() + identifier_marker() + decimal(id as nat);
    assert(l.subrange(k, k + 2) =~= tb.subrange(k, k + 2));
    assert(occurs_at(l, pair_delimiter(), k));
    lemma_delimiter_before_gap(tb, k);
    let a = tb + suffix_gap();
    let k2 = only_occurrence(a, pair_delimiter());
    assert(is_only_occurrence(a, pair_delimiter(), k2));
}

proof fn lemma_rewritten_terms(tb: Seq<char>, tail: Seq<char>, k: int)
    requires
        0 <= k,
        k + 2 <= tb.len(),
        all_space(tail),
    ensures
        trim((tb + suffix_gap()).subrange(0, k)) == trim((tb + tail).subrange(0, k)),
        trim((tb + suffix_gap()).subrange(k + 2, tb.len() + 2int)) == trim(
            (tb + tail).subrange(k + 2, (tb + tail).len() as int),
        ),
{
    let g = suffix_gap();
    let t = tb.len() as int;
    let p = tb + tail;
    let a = tb + g;
    assert(a.subrange(0, k) =~= p.subrange(0, k));
    assert(a.subrange(k + 2, t + 2) =~= tb.subrange(k + 2, t) + g);
    assert(p.subrange(k + 2, p.len() as int) =~= tb.subrange(k + 2, t) + tail);
    assert(all_space(g));
    lemma_trim_trailing_spaces(tb.subrange(k + 2, t), g);
    lemma_trim_trailing_spaces(tb.subrange(k + 2, t), tail);
}

proof fn lemma_trim_back_unmarked(p: Seq<char>)
    requires
        forall|j: int| !occurs_at(p, identifier_marker(), j),
    ensures
        forall|j: int| !occurs_at(trim_back(p), identifier_marker(), j),
{
    lemma_trim_back_prefix(p);
    let tb = trim_back(p);
    assert forall|j: int| !occurs_at(tb, identifier_marker(), j) by {
        if occurs_at(tb, identifier_marker(), j) {
            assert(tb.subrange(j, j + 4) =~= p.subrange(j, j + 4));
            assert(occurs_at(p, identifier_marker(), j));
        }
    }
}

#[verifier::rlimit(60)]
proof fn lemma_reads_back_from(p: Seq<char>, tb: Seq<char>, tail: Seq<char>, k: int, id: i64)
    requires
        p == tb + tail,
        is_only_occurrence(tb, pair_delimiter(), k),
        forall|j: int| !occurs_at(tb, identifier_marker(), j),
        all_space(tail),
        id > 0,
        trim(p.subrange(0, k)).len() > 0,
        trim(p.subrange(k + 2, p.len() as int)).len() > 0,
    ensures
        line_view(tb + suffix_gap() + identifier_token(id as nat)) == LineView::Entry(
            NoteView {
                front: trim(p.subrange(0, k)),
                back: trim(p.subrange(k + 2, p.len() as int)),
                identifier: id,
            },
        ),
{
    lemma_rewritten_marker(tb, id);
    lemma_rewritten_delimiter(tb, k, id);
    lemma_rewritten_terms(tb, tail, k);
    let l = tb + suffix_gap() + identifier_marker() + decimal(id as nat);
    assert(tb + suffix_gap() + identifier_token(id as nat) =~= l);
    lemma_entry_from_parts(l, k, id);
}

/// A line that reads as a record, once given a positive identifier, reads as
/// the same record carrying that identifier: what one run writes back, the
/// next run reads again.
#[verifier::rlimit(60)]
pub proof fn lemma_rewritten_line_reads_back(s: Seq<char>, id: i64)
    requires
        line_view(s) is Entry,
        id > 0,
    ensures
        line_view(with_identifier(s, id as nat)) == LineView::Entry(
            NoteView { identifier: id, ..line_view(s)->Entry_0 },
        ),
{
    let m = identifier_marker();
    let dl = pair_delimiter();
    let p = pair_text(s);
    let k = only_occurrence(p, dl);
    lemma_entry_parts(s);
    lemma_pair_text_unmarked(s);
    if occurs(s, m) {
        lemma_delimiter_kept_by_trim(p, k);
        lemma_trim_back_prefix(p);
        let tb = trim_back(p);
        let t = tb.len() as int;
        let tail = p.subrange(t, p.len() as int);
        assert(p =~= tb + tail);
        lemma_trim_back_unmarked(p);
        lemma_reads_back_from(p, tb, tail, k, id);
    } else {
        let tail = Seq::<char>::empty();
        assert(p =~= p + tail);
        lemma_reads_back_from(p, p, tail, k, id);
    }
}

/// A line that already ends in the canonical suffix of `id`, after text with no
/// marker and no trailing whitespace, is left exactly as it is when given `id`
/// again: re-running on a patched file changes no line.
pub proof fn lemma_same_identifier_keeps_line(p: Seq<char>, id: i64)
    requires
        forall|j: int| !occurs_at(p, identifier_marker(), j),
        trim_back(p) == p,
        id > 0,
    ensures
        with_identifier(p + suffix_gap() + identifier_token(id as nat), id as nat) == p
            + suffix_gap() + identifier_token(id as nat),
{
    let d = decimal(id as nat);
    let l = p + suffix_gap() + identifier_marker() + d;
    assert(p + suffix_gap() + identifier_token(id as nat) =~= l);
    lemma_marker_after_gap(p, d);
    assert(pair_text(l) =~= p + suffix_gap());
    assert(all_space(suffix_gap()));
    lemma_trim_back_spaces(p, suffix_gap());
}

} // verus!
