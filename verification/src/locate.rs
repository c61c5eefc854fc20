//! Byte-offset to line/column translation over a file's raw text.
//!
//! Offsets index the raw bytes.  A line number is one plus the number of
//! line feeds strictly before the offset; a column is the distance from the
//! most recent line feed strictly before the offset (or from the start of
//! the text when no line feed precedes it); a line end is the first carriage
//! return or line feed at or after the offset, or the end of the text.

use vstd::prelude::*;

verus! {

pub const LF: u8 = 10;

pub const CR: u8 = 13;

/// Number of line feeds among the first `p` bytes of `t`.
pub open spec fn count_lf(t: Seq<u8>, p: int) -> int
    decreases p,
{
    if p <= 0 {
        0
    } else {
        count_lf(t, p - 1) + if t[p - 1] == LF {
            1int
        } else {
            0int
        }
    }
}

/// Offset of the most recent line feed strictly before `p`, or 0 when no
/// line feed precedes `p`.
pub open spec fn last_lf(t: Seq<u8>, p: int) -> int
    decreases p,
{
    if p <= 0 {
        0
    } else if t[p - 1] == LF {
        p - 1
    } else {
        last_lf(t, p - 1)
    }
}

/// Offset of the first byte of the line holding `p`: one past the most
/// recent line feed strictly before `p`, or 0 when no line feed precedes
/// `p` (the line is the first of the text).
pub open spec fn line_start(t: Seq<u8>, p: int) -> int
    decreases p,
{
    if p <= 0 {
        0
    } else if t[p - 1] == LF {
        p
    } else {
        line_start(t, p - 1)
    }
}

pub proof fn lemma_line_start_bounds(t: Seq<u8>, p: int)
    requires
        0 <= p,
    ensures
        0 <= line_start(t, p) <= p,
    decreases p,
{
    if p > 0 && t[p - 1] != LF {
        lemma_line_start_bounds(t, p - 1);
    }
}

/// The start of `p`'s line, in terms of the line count and the most recent
/// line feed: 0 on the first line, one past that line feed otherwise.
pub proof fn lemma_line_start_form(t: Seq<u8>, p: int)
    requires
        0 <= p,
    ensures
        line_start(t, p) == if count_lf(t, p) == 0 {
            0int
        } else {
            last_lf(t, p) + 1
        },
    decreases p,
{
    if p > 0 {
        lemma_line_start_form(t, p - 1);
        lemma_count_lf_bounds(t, p - 1);
    }
}

/// Offset of the first carriage return or line feed at or after `p`, or the
/// length of `t` when none follows.
pub open spec fn line_end(t: Seq<u8>, p: int) -> int
    decreases t.len() - p,
{
    if p >= t.len() {
        t.len() as int
    } else if t[p] == CR || t[p] == LF {
        p
    } else {
        line_end(t, p + 1)
    }
}

pub proof fn lemma_count_lf_bounds(t: Seq<u8>, p: int)
    requires
        0 <= p,
    ensures
        0 <= count_lf(t, p) <= p,
    decreases p,
{
    if p > 0 {
        lemma_count_lf_bounds(t, p - 1);
    }
}

pub proof fn lemma_last_lf_bounds(t: Seq<u8>, p: int)
    requires
        0 <= p,
    ensures
        0 <= last_lf(t, p) <= p,
        p >= 1 ==> last_lf(t, p) <= p - 1,
    decreases p,
{
    if p > 0 {
        lemma_last_lf_bounds(t, p - 1);
    }
}

pub proof fn lemma_line_end_bounds(t: Seq<u8>, p: int)
    requires
        0 <= p <= t.len(),
    ensures
        p <= line_end(t, p) <= t.len(),
    decreases t.len() - p,
{
    if p < t.len() && !(t[p] == CR || t[p] == LF) {
        lemma_line_end_bounds(t, p + 1);
    }
}

/// Translates byte offset `p` within `text` into the 1-based line number,
/// the column, and the offset of the end of the line holding `p`.
pub fn locate(text: &Vec<u8>, p: usize) -> (r: (usize, usize, usize))
    requires
        p <= text@.len(),
        text@.len() < usize::MAX,
    ensures
        r.0 == 1 + count_lf(text@, p as int),
        r.1 == p - last_lf(text@, p as int),
        r.2 == line_end(text@, p as int),
{
    let mut line: usize = 1;
    let mut last: usize = 0;
    let mut i: usize = 0;
    while i < p
        invariant
            i <= p <= text@.len() < usize::MAX,
            line == 1 + count_lf(text@, i as int),
            last == last_lf(text@, i as int),
        decreases p - i,
    {
        proof {
            lemma_count_lf_bounds(text@, i as int);
        }
        if text[i] == LF {
            line = line + 1;
            last = i;
        }
        i += 1;
    }
    proof {
        lemma_last_lf_bounds(text@, p as int);
    }
    let mut e: usize = p;
    while e < text.len() && text[e] != CR && text[e] != LF
        invariant
            p <= e <= text@.len(),
            line_end(text@, p as int) == line_end(text@, e as int),
        decreases text@.len() - e,
    {
        e += 1;
    }
    (line, p - last, e)
}

} // verus!
