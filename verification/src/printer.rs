//! Grouping, ordering and rendering of classified matches.
//!
//! The run-wide match list is partitioned by file, the files are put in
//! byte-lexicographic path order, and each file's matches are stably sorted
//! by start offset.  Each visible match is then rendered, either as one
//! compact line or as a multi-line annotated excerpt, into a list of
//! coloured output chunks; the run's verdict is computed from the whole
//! match list, never from what happens to be visible.

use vstd::prelude::*;

verus! {

use crate::lint::{Checked, CheckedState, CheckedView, views_of};
use crate::locate::{count_lf, last_lf, line_end, line_start, lemma_count_lf_bounds,
    lemma_last_lf_bounds, lemma_line_end_bounds, lemma_line_start_bounds, lemma_line_start_form,
    locate};
use vstd::string::StrSliceExecFns;
use vstd::utf8::encode_utf8;

/// The colours the renderer assigns to output chunks.
#[derive(Debug, PartialEq, Eq, Structural, Clone, Copy)]
pub enum Color {
    Black,
    Red,
    Green,
    Yellow,
    Blue,
    Magenta,
    Cyan,
    White,
    BrightBlack,
    BrightRed,
    BrightGreen,
    BrightYellow,
    BrightBlue,
    BrightMagenta,
    BrightCyan,
    BrightWhite,
    Reset,
}

/// One run of output bytes in one colour.
#[derive(Debug, PartialEq)]
pub struct Chunk {
    pub text: Vec<u8>,
    pub color: Color,
}

/// The mathematical value of a `Chunk`.
#[verifier::ext_equal]
pub ghost struct ChunkView {
    pub text: Seq<u8>,
    pub color: Color,
}

impl View for Chunk {
    type V = ChunkView;

    open spec fn view(&self) -> ChunkView {
        ChunkView { text: self.text@, color: self.color }
    }
}

pub open spec fn chunk_views(s: Seq<Chunk>) -> Seq<ChunkView> {
    s.map_values(|c: Chunk| c@)
}

pub open spec fn has_fail(s: Seq<CheckedView>) -> bool {
    exists|i: int| 0 <= i < s.len() && (#[trigger] s[i]).state == CheckedState::Fail
}

/// True exactly when no match anywhere in the list is a `Fail`.
/// Visibility filtering affects only display, never this result.
pub fn overall_pass(checked: &Vec<Checked>) -> (r: bool)
    ensures
        r == !has_fail(views_of(checked@)),
{
    let mut i: usize = 0;
    let mut fail = false;
    while i < checked.len()
        invariant
            i <= checked@.len(),
            fail == has_fail(views_of(checked@).take(i as int)),
        decreases checked@.len() - i,
    {
        proof {
            let cv = views_of(checked@);
            assert(cv.take(i as int + 1).drop_last() =~= cv.take(i as int));
            assert(cv.take(i as int + 1).last() == cv[i as int]);
        }
        if matches!(checked[i].state, CheckedState::Fail) {
            fail = true;
        }
        i += 1;
    }
    proof {
        assert(views_of(checked@).take(checked@.len() as int) =~= views_of(checked@));
    }
    !fail
}

// ------------------------------------------------------------------
// Byte-lexicographic order on paths
// ------------------------------------------------------------------

/// Lexicographic less-or-equal on the byte suffixes of `a` and `b` from
/// index `i` on.
pub open spec fn bytes_le_from(a: Seq<u8>, b: Seq<u8>, i: int) -> bool
    decreases a.len() - i,
{
    if i >= a.len() {
        true
    } else if i >= b.len() {
        false
    } else if a[i] < b[i] {
        true
    } else if a[i] > b[i] {
        false
    } else {
        bytes_le_from(a, b, i + 1)
    }
}

/// Lexicographic less-or-equal on byte sequences.
pub open spec fn bytes_le(a: Seq<u8>, b: Seq<u8>) -> bool {
    bytes_le_from(a, b, 0)
}

pub proof fn lemma_bytes_le_total(a: Seq<u8>, b: Seq<u8>, i: int)
    ensures
        bytes_le_from(a, b, i) || bytes_le_from(b, a, i),
    decreases a.len() - i,
{
    if i < a.len() && i < b.len() && a[i] == b[i] {
        lemma_bytes_le_total(a, b, i + 1);
    }
}

pub proof fn lemma_bytes_le_trans(a: Seq<u8>, b: Seq<u8>, c: Seq<u8>, i: int)
    requires
        bytes_le_from(a, b, i),
        bytes_le_from(b, c, i),
    ensures
        bytes_le_from(a, c, i),
    decreases a.len() - i,
{
    if i < a.len() {
        if a[i] == b[i] && b[i] == c[i] {
            lemma_bytes_le_trans(a, b, c, i + 1);
        }
    }
}

/// Compares two paths in byte-lexicographic order.
fn str_le(a: &String, b: &String) -> (r: bool)
    ensures
        r == bytes_le(encode_utf8(a@), encode_utf8(b@)),
{
    let av = a.as_str().as_bytes_vec();
    let bv = b.as_str().as_bytes_vec();
    let mut i: usize = 0;
    while i < av.len() && i < bv.len() && av[i] == bv[i]
        invariant
            i <= av@.len(),
            i <= bv@.len(),
            av@ == encode_utf8(a@),
            bv@ == encode_utf8(b@),
            bytes_le_from(av@, bv@, 0) == bytes_le_from(av@, bv@, i as int),
        decreases av@.len() - i,
    {
        i += 1;
    }
    if i >= av.len() {
        true
    } else if i >= bv.len() {
        false
    } else {
        av[i] < bv[i]
    }
}

// ------------------------------------------------------------------
// Grouping by path and ordering
// ------------------------------------------------------------------

/// The sub-sequence of `s` whose matches lie in the file `p`, in order.
pub open spec fn filter_path(s: Seq<CheckedView>, p: Seq<char>) -> Seq<CheckedView>
    decreases s.len(),
{
    if s.len() == 0 {
        Seq::empty()
    } else {
        let rest = filter_path(s.drop_last(), p);
        if s.last().path == p {
            rest.push(s.last())
        } else {
            rest
        }
    }
}

/// Stable insertion of `c` into `s` by ascending `beg`: `c` goes after
/// every element whose `beg` does not exceed its own.
pub open spec fn insert_by_beg(s: Seq<CheckedView>, c: CheckedView) -> Seq<CheckedView>
    decreases s.len(),
{
    if s.len() == 0 {
        seq![c]
    } else if s.last().beg <= c.beg {
        s.push(c)
    } else {
        insert_by_beg(s.drop_last(), c).push(s.last())
    }
}

/// Stable sort by ascending `beg`: ties keep their original order.
pub open spec fn sort_by_beg(s: Seq<CheckedView>) -> Seq<CheckedView>
    decreases s.len(),
{
    if s.len() == 0 {
        Seq::empty()
    } else {
        insert_by_beg(sort_by_beg(s.drop_last()), s.last())
    }
}

pub open spec fn begs_sorted(s: Seq<CheckedView>) -> bool {
    forall|i: int, j: int|
        0 <= i < j < s.len() ==> (#[trigger] s[i]).beg <= (#[trigger] s[j]).beg
}

proof fn lemma_insert_by_beg_bound(s: Seq<CheckedView>, c: CheckedView, b: int)
    requires
        forall|k: int| 0 <= k < s.len() ==> (#[trigger] s[k]).beg <= b,
        c.beg <= b,
    ensures
        forall|k: int|
            0 <= k < insert_by_beg(s, c).len() ==> (#[trigger] insert_by_beg(s, c)[k]).beg <= b,
    decreases s.len(),
{
    if s.len() > 0 && s.last().beg > c.beg {
        lemma_insert_by_beg_bound(s.drop_last(), c, b);
    }
}

proof fn lemma_insert_by_beg_sorted(s: Seq<CheckedView>, c: CheckedView)
    requires
        begs_sorted(s),
    ensures
        begs_sorted(insert_by_beg(s, c)),
    decreases s.len(),
{
    if s.len() > 0 {
        if s.last().beg <= c.beg {
            assert(begs_sorted(s.push(c)));
        } else {
            assert(begs_sorted(s.drop_last()));
            lemma_insert_by_beg_sorted(s.drop_last(), c);
            lemma_insert_by_beg_bound(s.drop_last(), c, s.last().beg);
            assert(begs_sorted(insert_by_beg(s.drop_last(), c).push(s.last())));
        }
    }
}

/// A stably sorted match list is in ascending `beg` order: together with
/// the contract of `collect_by_path` this says that matches are presented
/// grouped by file in sorted path order and, within a file, by ascending
/// start offset, whatever order the evaluator emitted them in.
pub proof fn lemma_sort_by_beg_sorted(s: Seq<CheckedView>)
    ensures
        begs_sorted(sort_by_beg(s)),
    decreases s.len(),
{
    if s.len() > 0 {
        lemma_sort_by_beg_sorted(s.drop_last());
        lemma_insert_by_beg_sorted(sort_by_beg(s.drop_last()), s.last());
    }
}

pub open spec fn path_occurs(s: Seq<CheckedView>, p: Seq<char>) -> bool {
    exists|k: int| 0 <= k < s.len() && (#[trigger] s[k]).path == p
}

proof fn lemma_filter_path_absent(s: Seq<CheckedView>, p: Seq<char>)
    requires
        forall|k: int| 0 <= k < s.len() ==> (#[trigger] s[k]).path != p,
    ensures
        filter_path(s, p) == Seq::<CheckedView>::empty(),
    decreases s.len(),
{
    if s.len() > 0 {
        lemma_filter_path_absent(s.drop_last(), p);
    }
}

proof fn lemma_insert_by_beg_at(s: Seq<CheckedView>, c: CheckedView, j: int)
    requires
        0 <= j <= s.len(),
        forall|k: int| j <= k < s.len() ==> (#[trigger] s[k]).beg > c.beg,
        j > 0 ==> s[j - 1].beg <= c.beg,
    ensures
        insert_by_beg(s, c) =~= s.insert(j, c),
    decreases s.len(),
{
    if s.len() == 0 {
        assert(insert_by_beg(s, c) =~= s.insert(0, c));
    } else if j == s.len() {
        assert(s.last().beg <= c.beg);
        assert(insert_by_beg(s, c) =~= s.insert(j, c));
    } else {
        assert(s.last().beg > c.beg);
        lemma_insert_by_beg_at(s.drop_last(), c, j);
        assert(insert_by_beg(s, c) == insert_by_beg(s.drop_last(), c).push(s.last()));
        assert(insert_by_beg(s.drop_last(), c) =~= s.drop_last().insert(j, c));
        assert(s.drop_last().insert(j, c).push(s.last()) =~= s.insert(j, c));
    }
}

/// Copies one classified match.
fn dup_checked(c: &Checked) -> (r: Checked)
    ensures
        r == *c,
{
    Checked {
        path: c.path.clone(),
        beg: c.beg,
        end: c.end,
        state: c.state,
        name: c.name.clone(),
        hint: c.hint.clone(),
    }
}

/// Inserts `c` into a vector already sorted by ascending `beg`, after every
/// element whose `beg` does not exceed its own.
fn insert_sorted(v: &mut Vec<Checked>, c: Checked)
    ensures
        views_of(final(v)@) == insert_by_beg(views_of(old(v)@), c@),
{
    let mut j: usize = v.len();
    while j > 0 && v[j - 1].beg > c.beg
        invariant
            j <= v@.len(),
            forall|k: int| j <= k < v@.len() ==> (#[trigger] v@[k]).beg > c.beg,
        decreases j,
    {
        j -= 1;
    }
    proof {
        lemma_insert_by_beg_at(views_of(v@), c@, j as int);
    }
    v.insert(j, c);
    proof {
        assert(views_of(old(v)@.insert(j as int, c)) =~= views_of(old(v)@).insert(j as int, c@));
    }
}

/// Rebuilds one file's matches in ascending `beg` order, ties keeping
/// their original order.
fn sort_group(v: Vec<Checked>) -> (r: Vec<Checked>)
    ensures
        views_of(r@) == sort_by_beg(views_of(v@)),
{
    let mut r: Vec<Checked> = Vec::new();
    let mut i: usize = 0;
    while i < v.len()
        invariant
            i <= v@.len(),
            views_of(r@) == sort_by_beg(views_of(v@).take(i as int)),
        decreases v@.len() - i,
    {
        let c = dup_checked(&v[i]);
        insert_sorted(&mut r, c);
        proof {
            let cv = views_of(v@);
            assert(cv.take(i as int + 1).drop_last() =~= cv.take(i as int));
            assert(cv.take(i as int + 1).last() == cv[i as int]);
        }
        i += 1;
    }
    proof {
        assert(views_of(v@).take(v@.len() as int) =~= views_of(v@));
    }
    r
}

pub open spec fn key_bytes(p: (String, Vec<Checked>)) -> Seq<u8> {
    encode_utf8(p.0@)
}

pub open spec fn keys_sorted(s: Seq<(String, Vec<Checked>)>) -> bool {
    forall|a: int, b: int|
        0 <= a < b < s.len() ==> bytes_le(key_bytes(#[trigger] s[a]), key_bytes(#[trigger] s[b]))
}

/// Inserts a pair into a vector of pairs kept in byte-lexicographic key
/// order, before the first key that exceeds its own.
fn insert_pair(out: &mut Vec<(String, Vec<Checked>)>, pair: (String, Vec<Checked>))
    requires
        keys_sorted(old(out)@),
    ensures
        keys_sorted(final(out)@),
        exists|j: int| 0 <= j <= old(out)@.len() && final(out)@ == old(out)@.insert(j, pair),
{
    let mut j: usize = 0;
    while j < out.len() && str_le(&out[j].0, &pair.0)
        invariant
            j <= out@.len(),
            forall|a: int|
                0 <= a < j ==> bytes_le(key_bytes(#[trigger] out@[a]), key_bytes(pair)),
        decreases out@.len() - j,
    {
        j += 1;
    }
    proof {
        assert forall|b: int| j <= b < out@.len() implies bytes_le(
            key_bytes(pair),
            key_bytes(out@[b]),
        ) by {
            lemma_bytes_le_total(encode_utf8(out@[j as int].0@), encode_utf8(pair.0@), 0);
            if b > j {
                lemma_bytes_le_trans(
                    encode_utf8(pair.0@),
                    encode_utf8(out@[j as int].0@),
                    encode_utf8(out@[b].0@),
                    0,
                );
            }
        }
    }
    let ghost pre = out@;
    out.insert(j, pair);
    proof {
        assert forall|a: int, b: int| 0 <= a < b < out@.len() implies bytes_le(
            key_bytes(#[trigger] out@[a]),
            key_bytes(#[trigger] out@[b]),
        ) by {
            let s = pre.insert(j as int, pair);
            assert(out@ == s);
            if a < j && b < j {
                assert(out@[a] == pre[a] && out@[b] == pre[b]);
            } else if a < j && b == j {
                assert(out@[a] == pre[a] && out@[b] == pair);
            } else if a < j && b > j {
                assert(out@[a] == pre[a] && out@[b] == pre[b - 1]);
            } else if a == j && b > j {
                assert(out@[a] == pair && out@[b] == pre[b - 1]);
            } else {
                assert(out@[a] == pre[a - 1] && out@[b] == pre[b - 1]);
            }
        }
        assert(out@ == pre.insert(j as int, pair));
    }
}

/// Partitions a run's matches by file, orders the files by path and each
/// file's matches stably by start offset.
///
/// Each output group holds exactly the input matches of its path, stably
/// sorted by `beg`; the groups come in byte-lexicographic path order with
/// pairwise distinct paths; and the groups' paths are exactly the paths
/// that occur in the input.
pub fn collect_by_path(checked: Vec<Checked>) -> (r: Vec<(String, Vec<Checked>)>)
    ensures
        forall|i: int|
            0 <= i < r@.len() ==> views_of((#[trigger] r@[i]).1@) == sort_by_beg(
                filter_path(views_of(checked@), r@[i].0@),
            ),
        keys_sorted(r@),
        forall|i: int, j: int|
            0 <= i < j < r@.len() ==> (#[trigger] r@[i]).0@ != (#[trigger] r@[j]).0@,
        forall|i: int| 0 <= i < r@.len() ==> path_occurs(views_of(checked@), (#[trigger] r@[i]).0@),
        forall|k: int|
            0 <= k < checked@.len() ==> exists|i: int|
                0 <= i < r@.len() && (#[trigger] views_of(checked@)[k]).path == r@[i].0@,
        forall|i: int| 0 <= i < r@.len() ==> begs_sorted(views_of((#[trigger] r@[i]).1@)),
{
    let ghost cv = views_of(checked@);
    let mut grouped: Vec<(String, Vec<Checked>)> = Vec::new();
    let mut k: usize = 0;
    while k < checked.len()
        invariant
            k <= checked@.len(),
            cv == views_of(checked@),
            forall|i: int|
                0 <= i < grouped@.len() ==> views_of((#[trigger] grouped@[i]).1@) == filter_path(
                    cv.take(k as int),
                    grouped@[i].0@,
                ),
            forall|i: int, j: int|
                0 <= i < j < grouped@.len() ==> (#[trigger] grouped@[i]).0@ != (
                #[trigger] grouped@[j]).0@,
            forall|i: int|
                0 <= i < grouped@.len() ==> path_occurs(cv.take(k as int), (
                #[trigger] grouped@[i]).0@),
            forall|kk: int|
                0 <= kk < k ==> exists|i: int|
                    0 <= i < grouped@.len() && (#[trigger] cv[kk]).path == grouped@[i].0@,
        decreases checked@.len() - k,
    {
        let c = dup_checked(&checked[k]);
        proof {
            assert(c@ == cv[k as int]);
            assert(cv.take(k as int + 1).drop_last() =~= cv.take(k as int));
            assert(cv.take(k as int + 1).last() == cv[k as int]);
        }
        let mut gi: usize = 0;
        while gi < grouped.len() && !(grouped[gi].0 == c.path)
            invariant
                gi <= grouped@.len(),
                forall|i: int| 0 <= i < gi ==> (#[trigger] grouped@[i]).0@ != c.path@,
            decreases grouped@.len() - gi,
        {
            gi += 1;
        }
        if gi < grouped.len() {
            let ghost pre = grouped@;
            let (key, mut group) = grouped.remove(gi);
            group.push(c);
            grouped.insert(gi, (key, group));
            proof {
                let now = grouped@;
                assert(now =~= pre.update(gi as int, (key, group)));
                assert(views_of(group@) =~= views_of(pre[gi as int].1@).push(cv[k as int]));
                assert forall|i: int| 0 <= i < now.len() implies views_of(
                    (#[trigger] now[i]).1@,
                ) == filter_path(cv.take(k as int + 1), now[i].0@) by {
                    if i == gi {
                        assert(cv[k as int].path == key@);
                        assert(filter_path(cv.take(k as int + 1), key@) == filter_path(
                            cv.take(k as int),
                            key@,
                        ).push(cv[k as int]));
                    } else {
                        assert(now[i] == pre[i]);
                        assert(pre[i].0@ != pre[gi as int].0@);
                        assert(cv[k as int].path == pre[gi as int].0@);
                        assert(filter_path(cv.take(k as int + 1), pre[i].0@) == filter_path(
                            cv.take(k as int),
                            pre[i].0@,
                        ));
                    }
                }
                assert forall|i: int| 0 <= i < now.len() implies path_occurs(
                    cv.take(k as int + 1),
                    (#[trigger] now[i]).0@,
                ) by {
                    if i == gi {
                        assert(cv.take(k as int + 1)[k as int].path == now[i].0@);
                    } else {
                        let w = choose|w: int|
                            0 <= w < k && (#[trigger] cv.take(k as int)[w]).path == pre[i].0@;
                        assert(cv.take(k as int + 1)[w].path == now[i].0@);
                    }
                }
                assert forall|kk: int| 0 <= kk < k + 1 implies exists|i: int|
                    0 <= i < now.len() && (#[trigger] cv[kk]).path == now[i].0@ by {
                    if kk < k {
                        let i = choose|i: int|
                            0 <= i < pre.len() && (#[trigger] cv[kk]).path == pre[i].0@;
                        if i == gi {
                            assert(cv[kk].path == now[gi as int].0@);
                        } else {
                            assert(cv[kk].path == now[i].0@);
                        }
                    } else {
                        assert(cv[kk].path == now[gi as int].0@);
                    }
                }
            }
        } else {
            let ghost pre = grouped@;
            let key = c.path.clone();
            let mut group: Vec<Checked> = Vec::new();
            group.push(c);
            grouped.push((key, group));
            proof {
                let now = grouped@;
                assert(now =~= pre.push((key, group)));
                assert forall|kk: int| 0 <= kk < k implies (#[trigger] cv.take(k as int)[kk]).path
                    != key@ by {
                    let i = choose|i: int|
                        0 <= i < pre.len() && (#[trigger] cv[kk]).path == pre[i].0@;
                    assert(pre[i].0@ != key@);
                }
                lemma_filter_path_absent(cv.take(k as int), key@);
                assert(filter_path(cv.take(k as int + 1), key@) =~= Seq::<
                    CheckedView,
                >::empty().push(cv[k as int]));
                assert(views_of(group@) =~= Seq::<CheckedView>::empty().push(cv[k as int]));
                assert forall|i: int| 0 <= i < now.len() implies views_of(
                    (#[trigger] now[i]).1@,
                ) == filter_path(cv.take(k as int + 1), now[i].0@) by {
                    if i < pre.len() {
                        assert(now[i] == pre[i]);
                        assert(pre[i].0@ != cv[k as int].path);
                        assert(filter_path(cv.take(k as int + 1), pre[i].0@) == filter_path(
                            cv.take(k as int),
                            pre[i].0@,
                        ));
                    } else {
                        assert(now[i] == (key, group));
                    }
                }
                assert forall|i: int| 0 <= i < now.len() implies path_occurs(
                    cv.take(k as int + 1),
                    (#[trigger] now[i]).0@,
                ) by {
                    if i < pre.len() {
                        let w = choose|w: int|
                            0 <= w < k && (#[trigger] cv.take(k as int)[w]).path == pre[i].0@;
                        assert(cv.take(k as int + 1)[w].path == now[i].0@);
                    } else {
                        assert(cv.take(k as int + 1)[k as int].path == now[i].0@);
                    }
                }
                assert forall|kk: int| 0 <= kk < k + 1 implies exists|i: int|
                    0 <= i < now.len() && (#[trigger] cv[kk]).path == now[i].0@ by {
                    if kk < k {
                        let i = choose|i: int|
                            0 <= i < pre.len() && (#[trigger] cv[kk]).path == pre[i].0@;
                        assert(cv[kk].path == now[i].0@);
                    } else {
                        assert(cv[kk].path == now[pre.len() as int].0@);
                    }
                }
            }
        }
        k += 1;
    }
    proof {
        assert(cv.take(checked@.len() as int) =~= cv);
    }

    let mut out: Vec<(String, Vec<Checked>)> = Vec::new();
    while grouped.len() > 0
        invariant
            cv == views_of(checked@),
            keys_sorted(out@),
            forall|i: int|
                0 <= i < out@.len() ==> views_of((#[trigger] out@[i]).1@) == sort_by_beg(
                    filter_path(cv, out@[i].0@),
                ),
            forall|i: int|
                0 <= i < grouped@.len() ==> views_of((#[trigger] grouped@[i]).1@) == filter_path(
                    cv,
                    grouped@[i].0@,
                ),
            forall|i: int, j: int|
                0 <= i < j < out@.len() ==> (#[trigger] out@[i]).0@ != (#[trigger] out@[j]).0@,
            forall|i: int, j: int|
                0 <= i < j < grouped@.len() ==> (#[trigger] grouped@[i]).0@ != (
                #[trigger] grouped@[j]).0@,
            forall|i: int, j: int|
                0 <= i < out@.len() && 0 <= j < grouped@.len() ==> (#[trigger] out@[i]).0@ != (
                #[trigger] grouped@[j]).0@,
            forall|i: int| 0 <= i < out@.len() ==> path_occurs(cv, (#[trigger] out@[i]).0@),
            forall|i: int| 0 <= i < grouped@.len() ==> path_occurs(cv, (#[trigger] grouped@[i]).0@),
            forall|kk: int|
                0 <= kk < cv.len() ==> (exists|i: int|
                    0 <= i < out@.len() && (#[trigger] cv[kk]).path == out@[i].0@) || (exists|
                i: int,
                |
                    0 <= i < grouped@.len() && (#[trigger] cv[kk]).path == grouped@[i].0@),
        decreases grouped@.len(),
    {
        let ghost gpre = grouped@;
        let ghost opre = out@;
        let (key, group) = grouped.remove(0);
        let sorted = sort_group(group);
        insert_pair(&mut out, (key, sorted));
        proof {
            let j = choose|j: int|
                0 <= j <= opre.len() && out@ == opre.insert(j, (key, sorted));
            assert(grouped@ =~= gpre.drop_first());
            assert forall|i: int| 0 <= i < out@.len() implies views_of(
                (#[trigger] out@[i]).1@,
            ) == sort_by_beg(filter_path(cv, out@[i].0@)) by {
                if i < j {
                    assert(out@[i] == opre[i]);
                } else if i == j {
                    assert(out@[i] == (key, sorted));
                    assert(views_of(sorted@) == sort_by_beg(filter_path(cv, key@)));
                } else {
                    assert(out@[i] == opre[i - 1]);
                }
            }
            assert forall|i: int, jj: int| 0 <= i < jj < out@.len() implies (
            #[trigger] out@[i]).0@ != (#[trigger] out@[jj]).0@ by {
                let a = if i < j { opre[i] } else if i == j { (key, sorted) } else { opre[i - 1] };
                let b = if jj < j { opre[jj] } else if jj == j {
                    (key, sorted)
                } else {
                    opre[jj - 1]
                };
                assert(out@[i] == a && out@[jj] == b);
                assert(gpre[0].0@ == key@);
            }
            assert forall|i: int, jj: int|
                0 <= i < out@.len() && 0 <= jj < grouped@.len() implies (#[trigger] out@[i]).0@
                != (#[trigger] grouped@[jj]).0@ by {
                assert(grouped@[jj] == gpre[jj + 1]);
                if i < j {
                    assert(out@[i] == opre[i]);
                } else if i == j {
                    assert(out@[i].0@ == gpre[0].0@);
                } else {
                    assert(out@[i] == opre[i - 1]);
                }
            }
            assert forall|i: int| 0 <= i < out@.len() implies path_occurs(
                cv,
                (#[trigger] out@[i]).0@,
            ) by {
                if i < j {
                    assert(out@[i] == opre[i]);
                } else if i == j {
                    assert(out@[i].0@ == gpre[0].0@);
                } else {
                    assert(out@[i] == opre[i - 1]);
                }
            }
            assert forall|kk: int| 0 <= kk < cv.len() implies (exists|i: int|
                0 <= i < out@.len() && (#[trigger] cv[kk]).path == out@[i].0@) || (exists|i: int|
                0 <= i < grouped@.len() && (#[trigger] cv[kk]).path == grouped@[i].0@) by {
                if exists|i: int| 0 <= i < opre.len() && (#[trigger] cv[kk]).path == opre[i].0@ {
                    let i = choose|i: int|
                        0 <= i < opre.len() && (#[trigger] cv[kk]).path == opre[i].0@;
                    if i < j {
                        assert(cv[kk].path == out@[i].0@);
                    } else {
                        assert(cv[kk].path == out@[i + 1].0@);
                    }
                } else {
                    let i = choose|i: int|
                        0 <= i < gpre.len() && (#[trigger] cv[kk]).path == gpre[i].0@;
                    if i == 0 {
                        assert(cv[kk].path == out@[j].0@);
                    } else {
                        assert(cv[kk].path == grouped@[i - 1].0@);
                    }
                }
            }
        }
    }
    proof {
        assert forall|i: int| 0 <= i < out@.len() implies begs_sorted(
            views_of((#[trigger] out@[i]).1@),
        ) by {
            lemma_sort_by_beg_sorted(filter_path(cv, out@[i].0@));
        }
    }
    out
}

// ------------------------------------------------------------------
// Rendering
// ------------------------------------------------------------------

/// The decimal digits of `n`.
pub open spec fn dec_bytes(n: nat) -> Seq<u8>
    decreases n,
{
    if n < 10 {
        seq![(48 + n) as u8]
    } else {
        dec_bytes(n / 10).push((48 + n % 10) as u8)
    }
}

/// Renders `n` in decimal.
fn dec_of(n: usize) -> (r: Vec<u8>)
    ensures
        r@ == dec_bytes(n as nat),
    decreases n,
{
    if n < 10 {
        let mut v: Vec<u8> = Vec::new();
        v.push(48 + (n as u8));
        proof {
            assert(v@ =~= dec_bytes(n as nat));
        }
        v
    } else {
        let mut v = dec_of(n / 10);
        v.push(48 + ((n % 10) as u8));
        v
    }
}

pub open spec fn pow10(k: nat) -> nat
    decreases k,
{
    if k == 0 {
        1
    } else {
        10 * pow10((k - 1) as nat)
    }
}

/// A number below the `k`-th power of ten has at most `k` decimal digits.
proof fn lemma_dec_len(n: nat, k: nat)
    requires
        1 <= k,
        n < pow10(k),
    ensures
        dec_bytes(n).len() <= k,
    decreases k,
{
    if n >= 10 {
        assert(pow10(k) == 10 * pow10((k - 1) as nat));
        assert(n / 10 < pow10((k - 1) as nat)) by (nonlinear_arith)
            requires
                n < 10 * pow10((k - 1) as nat),
        ;
        assert(k >= 2) by {
            if k == 1 {
                assert(pow10(1nat) == 10);
            }
        }
        lemma_dec_len(n / 10, (k - 1) as nat);
    }
}

proof fn lemma_dec_len_usize(n: nat)
    requires
        n <= usize::MAX,
    ensures
        dec_bytes(n).len() <= 20,
{
    assert(pow10(20nat) == 100000000000000000000nat) by {
        reveal_with_fuel(pow10, 21);
    }
    lemma_dec_len(n, 20nat);
}

/// `n` copies of the byte `b` (none when `n` is negative).
pub open spec fn repeat_byte(b: u8, n: int) -> Seq<u8> {
    Seq::new(
        if n >= 0 {
            n as nat
        } else {
            0
        },
        |i: int| b,
    )
}

fn repeat_of(b: u8, n: usize) -> (r: Vec<u8>)
    ensures
        r@ == repeat_byte(b, n as int),
{
    let mut v: Vec<u8> = Vec::new();
    let mut i: usize = 0;
    while i < n
        invariant
            i <= n,
            v@ =~= repeat_byte(b, i as int),
        decreases n - i,
    {
        v.push(b);
        i += 1;
    }
    v
}

/// Appends the byte range `[from, to)` of `t` to `out`.
fn push_range(out: &mut Vec<u8>, t: &Vec<u8>, from: usize, to: usize)
    requires
        from <= to <= t@.len(),
    ensures
        final(out)@ == old(out)@ + t@.subrange(from as int, to as int),
{
    let mut i: usize = from;
    while i < to
        invariant
            from <= i <= to <= t@.len(),
            out@ =~= old(out)@ + t@.subrange(from as int, i as int),
        decreases to - i,
    {
        let b = t[i];
        out.push(b);
        i += 1;
    }
}

/// Whether a match is shown: failures always, the rest only in verbose
/// mode.  Visibility never feeds the run's verdict.
pub open spec fn visible(c: CheckedView, verbose: bool) -> bool {
    c.state == CheckedState::Fail || verbose
}

/// The state label and its colour.
pub open spec fn state_chunk(st: CheckedState) -> ChunkView {
    match st {
        CheckedState::Pass => ChunkView { text: encode_utf8("Pass"@), color: Color::BrightGreen },
        CheckedState::Fail => ChunkView { text: encode_utf8("Fail"@), color: Color::BrightRed },
        CheckedState::Skip => ChunkView {
            text: encode_utf8("Skip"@),
            color: Color::BrightMagenta,
        },
    }
}

fn state_chunk_of(st: CheckedState) -> (r: Chunk)
    ensures
        r@ == state_chunk(st),
{
    match st {
        CheckedState::Pass => Chunk { text: "Pass".as_bytes_vec(), color: Color::BrightGreen },
        CheckedState::Fail => Chunk { text: "Fail".as_bytes_vec(), color: Color::BrightRed },
        CheckedState::Skip => Chunk { text: "Skip".as_bytes_vec(), color: Color::BrightMagenta },
    }
}

/// The compact one-line form of one match: state label; location; the
/// line's trailing content from the match's end offset on, what immediately
/// follows the trigger on its line; the rule's hint.
pub open spec fn simple_match_chunks(path: Seq<char>, t: Seq<u8>, c: CheckedView) -> Seq<
    ChunkView,
> {
    let line = 1 + count_lf(t, c.beg);
    let col = c.beg - last_lf(t, c.beg);
    let le = line_end(t, c.beg);
    let after = if c.end < le {
        c.end
    } else {
        le
    };
    seq![
        state_chunk(c.state),
        ChunkView {
            text: encode_utf8("\t"@) + encode_utf8(path) + encode_utf8(":"@) + dec_bytes(
                line as nat,
            ) + encode_utf8(":"@) + dec_bytes(col as nat),
            color: Color::BrightBlue,
        },
        ChunkView {
            text: encode_utf8("\t"@) + t.subrange(after, le),
            color: Color::White,
        },
        ChunkView {
            text: encode_utf8("\thint: "@) + encode_utf8(c.hint) + encode_utf8("\n"@),
            color: Color::BrightYellow,
        },
        ChunkView { text: Seq::empty(), color: Color::Reset },
    ]
}

/// The multi-line annotated form of one match: state label and rule name, a
/// locator line, the full current line of source, and an underline clamped
/// to the physical line, with the hint appended only on failure.
pub open spec fn pretty_match_chunks(path: Seq<char>, t: Seq<u8>, c: CheckedView) -> Seq<
    ChunkView,
> {
    let line = 1 + count_lf(t, c.beg);
    let col = c.beg - last_lf(t, c.beg);
    let le = line_end(t, c.beg);
    let w = dec_bytes(line as nat).len();
    let lstart = line_start(t, c.beg);
    let eclamp = if c.end < le {
        c.end
    } else {
        le
    };
    seq![
        state_chunk(c.state),
        ChunkView {
            text: encode_utf8(": "@) + encode_utf8(c.name) + encode_utf8("\n"@),
            color: Color::BrightWhite,
        },
        ChunkView { text: encode_utf8("   -->"@), color: Color::BrightBlue },
        ChunkView {
            text: encode_utf8(" "@) + encode_utf8(path) + encode_utf8(":"@) + dec_bytes(
                line as nat,
            ) + encode_utf8(":"@) + dec_bytes(col as nat) + encode_utf8("\n"@),
            color: Color::White,
        },
        ChunkView {
            text: repeat_byte(32, w as int + 1) + encode_utf8("|\n"@),
            color: Color::BrightBlue,
        },
        ChunkView {
            text: dec_bytes(line as nat) + encode_utf8(" |"@),
            color: Color::BrightBlue,
        },
        ChunkView {
            text: encode_utf8(" "@) + t.subrange(lstart, le) + encode_utf8("\n"@),
            color: Color::White,
        },
        ChunkView {
            text: repeat_byte(32, w as int + 1) + encode_utf8("|"@),
            color: Color::BrightBlue,
        },
        ChunkView {
            text: encode_utf8(" "@) + repeat_byte(32, c.beg - lstart) + repeat_byte(
                94,
                eclamp - c.beg,
            ),
            color: Color::BrightYellow,
        },
        ChunkView {
            text: if c.state == CheckedState::Fail {
                encode_utf8(" hint: "@) + encode_utf8(c.hint) + encode_utf8("\n\n"@)
            } else {
                encode_utf8("\n\n"@)
            },
            color: Color::BrightYellow,
        },
        ChunkView { text: Seq::empty(), color: Color::Reset },
    ]
}

/// One file's worth of output: each match of the file, in list order, shown
/// only when visible.
pub open spec fn file_chunks(
    path: Seq<char>,
    t: Seq<u8>,
    cs: Seq<CheckedView>,
    verbose: bool,
    pretty: bool,
) -> Seq<ChunkView>
    decreases cs.len(),
{
    if cs.len() == 0 {
        Seq::empty()
    } else {
        file_chunks(path, t, cs.drop_last(), verbose, pretty) + if visible(cs.last(), verbose) {
            if pretty {
                pretty_match_chunks(path, t, cs.last())
            } else {
                simple_match_chunks(path, t, cs.last())
            }
        } else {
            Seq::empty()
        }
    }
}

pub open spec fn groups_view(s: Seq<(String, Vec<Checked>)>) -> Seq<(Seq<char>, Seq<CheckedView>)> {
    s.map_values(|g: (String, Vec<Checked>)| (g.0@, views_of(g.1@)))
}

pub open spec fn texts_view(s: Seq<Vec<u8>>) -> Seq<Seq<u8>> {
    s.map_values(|t: Vec<u8>| t@)
}

/// A whole run's output: each file's block in group order.
pub open spec fn spec_render(
    groups: Seq<(Seq<char>, Seq<CheckedView>)>,
    texts: Seq<Seq<u8>>,
    verbose: bool,
    pretty: bool,
) -> Seq<ChunkView>
    decreases groups.len(),
{
    if groups.len() == 0 {
        Seq::empty()
    } else {
        spec_render(groups.drop_last(), texts.drop_last(), verbose, pretty) + file_chunks(
            groups.last().0,
            texts.last(),
            groups.last().1,
            verbose,
            pretty,
        )
    }
}

/// Spans a renderer accepts: every match starts no later than it ends and
/// starts within the file's text.
pub open spec fn spans_ok(cs: Seq<CheckedView>, t: Seq<u8>) -> bool {
    forall|j: int|
        0 <= j < cs.len() ==> (#[trigger] cs[j]).beg <= cs[j].end && cs[j].beg <= t.len()
}

fn render_match(path: &String, text: &Vec<u8>, c: &Checked, pretty: bool, out: &mut Vec<Chunk>)
    requires
        c.beg <= c.end,
        c@.beg <= text@.len(),
        text@.len() < usize::MAX,
    ensures
        chunk_views(final(out)@) =~= chunk_views(old(out)@) + if pretty {
            pretty_match_chunks(path@, text@, c@)
        } else {
            simple_match_chunks(path@, text@, c@)
        },
{
    let ghost pre = out@;
    let (line, col, le) = locate(text, c.beg);
    proof {
        lemma_last_lf_bounds(text@, c@.beg);
        lemma_line_end_bounds(text@, c@.beg);
        lemma_count_lf_bounds(text@, c@.beg);
    }
    if !pretty {
        let ghost smc = simple_match_chunks(path@, text@, c@);
        out.push(state_chunk_of(c.state));

        let mut b = "\t".as_bytes_vec();
        let mut pb = path.as_str().as_bytes_vec();
        b.append(&mut pb);
        let mut sep = ":".as_bytes_vec();
        b.append(&mut sep);
        let mut lb = dec_of(line);
        b.append(&mut lb);
        let mut sep2 = ":".as_bytes_vec();
        b.append(&mut sep2);
        let mut cb = dec_of(col);
        b.append(&mut cb);
        let loc_chunk = Chunk { text: b, color: Color::BrightBlue };
        proof {
            assert(loc_chunk@ == smc[1]);
        }
        out.push(loc_chunk);

        let after = if c.end < le {
            c.end
        } else {
            le
        };
        let mut e = "\t".as_bytes_vec();
        push_range(&mut e, text, after, le);
        let excerpt_chunk = Chunk { text: e, color: Color::White };
        proof {
            assert(excerpt_chunk@ == smc[2]);
        }
        out.push(excerpt_chunk);

        let mut h = "\thint: ".as_bytes_vec();
        let mut hb = c.hint.as_str().as_bytes_vec();
        h.append(&mut hb);
        let mut nl = "\n".as_bytes_vec();
        h.append(&mut nl);
        let hint_chunk = Chunk { text: h, color: Color::BrightYellow };
        proof {
            assert(hint_chunk@ == smc[3]);
        }
        out.push(hint_chunk);

        out.push(Chunk { text: Vec::new(), color: Color::Reset });
        proof {
            assert(chunk_views(out@) =~= chunk_views(pre) + smc);
        }
    } else {
        let ghost pmc = pretty_match_chunks(path@, text@, c@);
        out.push(state_chunk_of(c.state));

        let mut n = ": ".as_bytes_vec();
        let mut nb = c.name.as_str().as_bytes_vec();
        n.append(&mut nb);
        let mut nl = "\n".as_bytes_vec();
        n.append(&mut nl);
        let name_chunk = Chunk { text: n, color: Color::BrightWhite };
        proof {
            assert(name_chunk@ == pmc[1]);
        }
        out.push(name_chunk);

        out.push(Chunk { text: "   -->".as_bytes_vec(), color: Color::BrightBlue });

        let mut l = " ".as_bytes_vec();
        let mut pb = path.as_str().as_bytes_vec();
        l.append(&mut pb);
        let mut sep = ":".as_bytes_vec();
        l.append(&mut sep);
        let mut lb = dec_of(line);
        l.append(&mut lb);
        let mut sep2 = ":".as_bytes_vec();
        l.append(&mut sep2);
        let mut cb = dec_of(col);
        l.append(&mut cb);
        let mut nl2 = "\n".as_bytes_vec();
        l.append(&mut nl2);
        let loc_chunk = Chunk { text: l, color: Color::White };
        proof {
            assert(loc_chunk@ == pmc[3]);
        }
        out.push(loc_chunk);

        let line_digits = dec_of(line);
        let w = line_digits.len();
        proof {
            lemma_dec_len_usize(line as nat);
        }

        let mut g1 = repeat_of(32, w + 1);
        let mut bar = "|\n".as_bytes_vec();
        g1.append(&mut bar);
        let gutter1 = Chunk { text: g1, color: Color::BrightBlue };
        proof {
            assert(gutter1@ == pmc[4]);
        }
        out.push(gutter1);

        let mut ln = dec_of(line);
        let mut bar2 = " |".as_bytes_vec();
        ln.append(&mut bar2);
        let lineno_chunk = Chunk { text: ln, color: Color::BrightBlue };
        proof {
            assert(lineno_chunk@ == pmc[5]);
        }
        out.push(lineno_chunk);

        let last = c.beg - col;
        proof {
            assert(last == last_lf(text@, c@.beg));
            lemma_line_start_form(text@, c@.beg);
            lemma_line_start_bounds(text@, c@.beg);
        }
        let lstart = if line == 1 {
            0
        } else {
            last + 1
        };
        proof {
            assert(lstart == line_start(text@, c@.beg));
        }
        let mut s = " ".as_bytes_vec();
        push_range(&mut s, text, lstart, le);
        let mut nl3 = "\n".as_bytes_vec();
        s.append(&mut nl3);
        let src_chunk = Chunk { text: s, color: Color::White };
        proof {
            assert(src_chunk@ == pmc[6]);
        }
        out.push(src_chunk);

        let mut g2 = repeat_of(32, w + 1);
        let mut bar3 = "|".as_bytes_vec();
        g2.append(&mut bar3);
        let gutter2 = Chunk { text: g2, color: Color::BrightBlue };
        proof {
            assert(gutter2@ == pmc[7]);
        }
        out.push(gutter2);

        let pad = c.beg - lstart;
        let eclamp = if c.end < le {
            c.end
        } else {
            le
        };
        let mut u = " ".as_bytes_vec();
        let mut padv = repeat_of(32, pad);
        u.append(&mut padv);
        let mut carets = repeat_of(94, eclamp - c.beg);
        u.append(&mut carets);
        let underline_chunk = Chunk { text: u, color: Color::BrightYellow };
        proof {
            assert(underline_chunk@ == pmc[8]);
        }
        out.push(underline_chunk);

        let tail = if matches!(c.state, CheckedState::Fail) {
            let mut h = " hint: ".as_bytes_vec();
            let mut hb = c.hint.as_str().as_bytes_vec();
            h.append(&mut hb);
            let mut nl4 = "\n\n".as_bytes_vec();
            h.append(&mut nl4);
            Chunk { text: h, color: Color::BrightYellow }
        } else {
            Chunk { text: "\n\n".as_bytes_vec(), color: Color::BrightYellow }
        };
        proof {
            assert(tail@ == pmc[9]);
        }
        out.push(tail);

        out.push(Chunk { text: Vec::new(), color: Color::Reset });
        proof {
            assert(chunk_views(out@) =~= chunk_views(pre) + pmc);
        }
    }
}

fn render_file(
    path: &String,
    text: &Vec<u8>,
    checked: &Vec<Checked>,
    verbose: bool,
    pretty: bool,
    out: &mut Vec<Chunk>,
)
    requires
        spans_ok(views_of(checked@), text@),
        text@.len() < usize::MAX,
    ensures
        chunk_views(final(out)@) =~= chunk_views(old(out)@) + file_chunks(
            path@,
            text@,
            views_of(checked@),
            verbose,
            pretty,
        ),
{
    let ghost pre = out@;
    let ghost cs = views_of(checked@);
    let mut m: usize = 0;
    while m < checked.len()
        invariant
            m <= checked@.len(),
            cs == views_of(checked@),
            spans_ok(cs, text@),
            text@.len() < usize::MAX,
            chunk_views(out@) =~= chunk_views(pre) + file_chunks(
                path@,
                text@,
                cs.take(m as int),
                verbose,
                pretty,
            ),
        decreases checked@.len() - m,
    {
        proof {
            assert(cs.take(m as int + 1).drop_last() =~= cs.take(m as int));
            assert(cs.take(m as int + 1).last() == cs[m as int]);
        }
        let c = &checked[m];
        let show = matches!(c.state, CheckedState::Fail) || verbose;
        proof {
            assert(show == visible(cs[m as int], verbose));
        }
        if show {
            render_match(path, text, c, pretty, out);
        }
        m += 1;
    }
    proof {
        assert(cs.take(checked@.len() as int) =~= cs);
    }
}

/// Renders grouped matches over the files' texts (`texts[i]` is the raw
/// text of `groups[i]`'s file) into a list of coloured chunks, compact or
/// annotated, failures only unless verbose.  The output is a function of
/// the arguments alone: rendering the same list twice gives identical
/// bytes.
pub fn render(
    groups: &Vec<(String, Vec<Checked>)>,
    texts: &Vec<Vec<u8>>,
    verbose: bool,
    pretty: bool,
) -> (out: Vec<Chunk>)
    requires
        texts@.len() == groups@.len(),
        forall|i: int|
            0 <= i < groups@.len() ==> spans_ok(
                views_of((#[trigger] groups@[i]).1@),
                texts@[i]@,
            ),
        forall|i: int| 0 <= i < texts@.len() ==> (#[trigger] texts@[i])@.len() < usize::MAX,
    ensures
        chunk_views(out@) =~= spec_render(groups_view(groups@), texts_view(texts@), verbose, pretty),
{
    let mut out: Vec<Chunk> = Vec::new();
    let ghost gv = groups_view(groups@);
    let ghost tv = texts_view(texts@);
    let mut f: usize = 0;
    while f < groups.len()
        invariant
            f <= groups@.len(),
            texts@.len() == groups@.len(),
            gv == groups_view(groups@),
            tv == texts_view(texts@),
            forall|i: int|
                0 <= i < groups@.len() ==> spans_ok(
                    views_of((#[trigger] groups@[i]).1@),
                    texts@[i]@,
                ),
            forall|i: int| 0 <= i < texts@.len() ==> (#[trigger] texts@[i])@.len() < usize::MAX,
            chunk_views(out@) =~= spec_render(gv.take(f as int), tv.take(f as int), verbose, pretty),
        decreases groups@.len() - f,
    {
        proof {
            assert(gv.take(f as int + 1).drop_last() =~= gv.take(f as int));
            assert(tv.take(f as int + 1).drop_last() =~= tv.take(f as int));
            assert(gv.take(f as int + 1).last() == gv[f as int]);
            assert(tv.take(f as int + 1).last() == tv[f as int]);
        }
        let pair = &groups[f];
        let text = &texts[f];
        render_file(&pair.0, text, &pair.1, verbose, pretty, &mut out);
        f += 1;
    }
    proof {
        assert(gv.take(groups@.len() as int) =~= gv);
        assert(tv.take(groups@.len() as int) =~= tv);
    }
    out
}

/// Rendering is deterministic: any two chunk lists that the renderer's
/// contract admits for the same grouped matches, texts and settings are
/// identical, so rendering the same sorted match list twice produces
/// byte-identical output.
pub proof fn lemma_render_deterministic(
    groups: Seq<(Seq<char>, Seq<CheckedView>)>,
    texts: Seq<Seq<u8>>,
    verbose: bool,
    pretty: bool,
    o1: Seq<ChunkView>,
    o2: Seq<ChunkView>,
)
    requires
        o1 == spec_render(groups, texts, verbose, pretty),
        o2 == spec_render(groups, texts, verbose, pretty),
    ensures
        o1 == o2,
{
}

} // verus!
