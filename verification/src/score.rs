//! The relevance scoring policy, in thousandths (0 lowest, 1000 highest).
//!
//! Long-text relevance has three tiers: a verbatim occurrence of the query
//! scores at least 900; otherwise any word overlap scores between 500 and
//! 900; otherwise half the fuzzy similarity, at most 500. Short names are
//! scored as the fuzzy similarity plus a fixed bonus for a verbatim
//! occurrence, capped at 1000. The fuzzy similarity itself (a string
//! distance computed outside this crate) always enters as an argument,
//! already scaled into 0..=1000.

use vstd::prelude::*;
use crate::text;
use crate::text::{spec_contains, spec_words, views_of};

verus! {

/// Number of the query's words that occur inside `text`.
pub open spec fn matched_count(text: Seq<char>, ws: Seq<Seq<char>>) -> int
    decreases ws.len(),
{
    if ws.len() == 0 {
        0
    } else {
        matched_count(text, ws.drop_last()) + if spec_contains(text, ws.last()) {
            1int
        } else {
            0int
        }
    }
}

pub proof fn lemma_matched_count_bounds(text: Seq<char>, ws: Seq<Seq<char>>)
    ensures
        0 <= matched_count(text, ws) <= ws.len(),
    decreases ws.len(),
{
    if ws.len() > 0 {
        lemma_matched_count_bounds(text, ws.drop_last());
    }
}

/// The bonus a verbatim occurrence earns: the query's share of the text,
/// in thousandths, capped at 100; a hit in empty text earns the full cap.
pub open spec fn contain_bonus(tlen: int, qlen: int) -> int {
    if tlen == 0 {
        100
    } else if 1000 * qlen / tlen > 100 {
        100
    } else {
        1000 * qlen / tlen
    }
}

/// Relevance of `text` for `query` (both expected lowercased), given the
/// scaled fuzzy similarity `sim` of the query to the head of the text.
pub open spec fn score_spec(text: Seq<char>, query: Seq<char>, sim: int) -> int {
    if spec_contains(text, query) {
        900 + contain_bonus(text.len() as int, query.len() as int)
    } else {
        let ws = spec_words(query);
        let m = matched_count(text, ws);
        if m > 0 {
            500 + 400 * m / ws.len() as int
        } else {
            sim / 2
        }
    }
}

pub proof fn lemma_score_range(text: Seq<char>, query: Seq<char>, sim: int)
    requires
        0 <= sim <= 1000,
    ensures
        0 <= score_spec(text, query, sim) <= 1000,
{
    if spec_contains(text, query) {
        let t = text.len() as int;
        let q = query.len() as int;
        if t != 0 {
            assert(1000 * q / t >= 0) by (nonlinear_arith)
                requires t > 0 && q >= 0;
        }
    } else {
        let ws = spec_words(query);
        let m = matched_count(text, ws);
        lemma_matched_count_bounds(text, ws);
        if m > 0 {
            assert(400 * m / ws.len() as int <= 400 && 400 * m / ws.len() as int >= 0)
                by (nonlinear_arith)
                requires 0 < m <= ws.len();
        }
    }
}

/// Scores text against a query, both taken as given (already lowercased by
/// the caller); `sim` is the scaled fuzzy similarity used as the fallback.
pub fn score_chars(t: &Vec<char>, q: &Vec<char>, sim: u32) -> (r: u32)
    requires
        sim <= 1000,
    ensures
        r as int == score_spec(t@, q@, sim as int),
        r <= 1000,
{
    proof {
        lemma_score_range(t@, q@, sim as int);
    }
    if text::contains_sub(t, q) {
        let bonus: u32 = if t.len() == 0 {
            100
        } else {
            let v: u128 = (1000u128 * q.len() as u128) / (t.len() as u128);
            proof {
                assert((1000 * q@.len() as int) / (t@.len() as int) >= 0) by (nonlinear_arith)
                    requires q@.len() >= 0 && t@.len() > 0;
            }
            if v > 100 {
                100
            } else {
                v as u32
            }
        };
        900 + bonus
    } else {
        let ws = text::split_words(q);
        let ghost wviews = views_of(ws@);
        let mut m: usize = 0;
        let mut i: usize = 0;
        proof {
            assert(wviews.take(0) =~= Seq::<Seq<char>>::empty());
        }
        while i < ws.len()
            invariant
                i <= ws@.len(),
                m <= i,
                wviews == views_of(ws@),
                m as int == matched_count(t@, wviews.take(i as int)),
            decreases ws@.len() - i,
        {
            proof {
                assert(wviews.take(i as int + 1).drop_last() =~= wviews.take(i as int));
                assert(wviews.take(i as int + 1).last() == ws@[i as int]@);
            }
            if text::contains_sub(t, &ws[i]) {
                m += 1;
            }
            i += 1;
        }
        proof {
            assert(wviews.take(ws@.len() as int) =~= wviews);
        }
        if m > 0 {
            let share: u128 = (400u128 * m as u128) / (ws.len() as u128);
            proof {
                lemma_matched_count_bounds(t@, wviews);
                assert((400 * m as int) / (wviews.len() as int) <= 400 && (400 * m as int) / (
                wviews.len() as int) >= 0) by (nonlinear_arith)
                    requires 0 < m as int <= wviews.len();
            }
            500 + share as u32
        } else {
            sim / 2
        }
    }
}

/// Scores a text/query pair handed in as strings.
pub fn compute_search_score(t: &str, q: &str, sim: u32) -> (r: u32)
    requires
        sim <= 1000,
    ensures
        r as int == score_spec(t@, q@, sim as int),
        r <= 1000,
{
    let tv = text::chars_vec(t);
    let qv = text::chars_vec(q);
    score_chars(&tv, &qv, sim)
}

/// Relevance of a short name for a query: the scaled fuzzy similarity
/// plus `bonus` when `has` (a verbatim occurrence) holds, capped at 1000.
pub open spec fn name_score_spec(sim: int, has: bool, bonus: int) -> int {
    let raw = sim + if has {
        bonus
    } else {
        0int
    };
    if raw > 1000 {
        1000
    } else {
        raw
    }
}

/// Scores a short name.
pub fn name_score(sim: u32, has: bool, bonus: u32) -> (r: u32)
    requires
        sim <= 1000,
        bonus <= 1000,
    ensures
        r as int == name_score_spec(sim as int, has, bonus as int),
        r <= 1000,
{
    let raw = sim + if has {
        bonus
    } else {
        0
    };
    if raw > 1000 {
        1000
    } else {
        raw
    }
}

/// A text that holds every word of the query outscores one that holds
/// neither the query nor any of its words, whatever the fuzzy
/// similarities: full word overlap scores 900 or more, while the fuzzy
/// fallback never exceeds 500.
pub proof fn lemma_word_overlap_beats_fuzzy(
    t1: Seq<char>,
    q: Seq<char>,
    t2: Seq<char>,
    sim1: int,
    sim2: int,
)
    requires
        spec_words(q).len() > 0,
        matched_count(t1, spec_words(q)) == spec_words(q).len(),
        !spec_contains(t2, q),
        matched_count(t2, spec_words(q)) == 0,
        0 <= sim1 <= 1000,
        0 <= sim2 <= 1000,
    ensures
        score_spec(t1, q, sim1) > score_spec(t2, q, sim2),
{
    let ws = spec_words(q);
    if spec_contains(t1, q) {
        let t = t1.len() as int;
        let qn = q.len() as int;
        if t != 0 {
            assert(1000 * qn / t >= 0) by (nonlinear_arith)
                requires t > 0 && qn >= 0;
        }
    } else {
        assert(400 * ws.len() as int / ws.len() as int == 400) by (nonlinear_arith)
            requires ws.len() > 0;
    }
    assert(score_spec(t2, q, sim2) == sim2 / 2);
}

} // verus!
