//! The run-length codec for monochrome rows. A row is a list of 16-bit run
//! words; each word carries a fill flag in its top bit and a length in its
//! low fifteen bits. Consecutive runs lay out a row left to right, and the
//! lengths of one row's runs sum to the row's width.

use crate::bits::row_pixel;
use vstd::prelude::*;

verus! {

/// The pixel length carried by one run word: its low fifteen bits.
pub open spec fn run_len(w: u16) -> int {
    (w & 0x7fff) as int
}

/// Whether the run fills its span (top bit set) or skips it transparently.
pub open spec fn run_set(w: u16) -> bool {
    (w >> 15u16) != 0
}

/// A run word's parts: the length is at most `0x7fff`, and the flag is the
/// top bit.
pub proof fn lemma_run_word(w: u16)
    by (bit_vector)
    ensures
        w & 0x7fff <= 0x7fff,
        ((w >> 15u16) != 0) == (w >= 0x8000),
{
}

/// How the two run shapes decode: a bare length below `0x8000` is a skip
/// run, and or-ing in the top bit makes it a fill run of the same length.
pub proof fn lemma_run_encode(l: u16)
    by (bit_vector)
    requires
        l <= 0x7fff,
    ensures
        run_len(l) == l,
        !run_set(l),
        run_len(l | 0x8000) == l,
        run_set(l | 0x8000),
{
}

/// Whether pixel `p` lies in the span of a filling run of `runs`, laid out
/// left to right from horizontal position `pos`.
pub open spec fn rle_covers(runs: Seq<u16>, pos: int, p: int) -> bool
    decreases runs.len(),
{
    if runs.len() == 0 {
        false
    } else {
        (run_set(runs[0]) && pos <= p < pos + run_len(runs[0])) || rle_covers(
            runs.drop_first(),
            pos + run_len(runs[0]),
            p,
        )
    }
}

/// The total pixel width a run list spans: the sum of its run lengths.
pub open spec fn rle_total(runs: Seq<u16>) -> int
    decreases runs.len(),
{
    if runs.len() == 0 {
        0
    } else {
        run_len(runs[0]) + rle_total(runs.drop_first())
    }
}

/// A run list never spans a negative width.
pub proof fn lemma_rle_total_nonneg(runs: Seq<u16>)
    ensures
        rle_total(runs) >= 0,
    decreases runs.len(),
{
    if runs.len() > 0 {
        lemma_rle_total_nonneg(runs.drop_first());
    }
}

/// Appending one run extends the span by the run's length, and extends the
/// covered pixels by exactly the new span when the run fills.
pub proof fn lemma_rle_push(runs: Seq<u16>, r: u16, pos: int, p: int)
    ensures
        rle_total(runs.push(r)) == rle_total(runs) + run_len(r),
        rle_covers(runs.push(r), pos, p) == (rle_covers(runs, pos, p) || (run_set(r) && pos
            + rle_total(runs) <= p < pos + rle_total(runs) + run_len(r))),
    decreases runs.len(),
{
    if runs.len() == 0 {
        assert(runs.push(r)[0] == r);
        assert(runs.push(r).drop_first() =~= Seq::<u16>::empty());
        assert(rle_total(runs.push(r)) == run_len(r) + rle_total(runs.push(r).drop_first()));
        assert(rle_total(runs.push(r).drop_first()) == 0);
        assert(!rle_covers(runs.push(r).drop_first(), pos + run_len(r), p));
        assert(rle_covers(runs.push(r), pos, p) == (run_set(r) && pos <= p < pos + run_len(r)));
    } else {
        assert(runs.push(r)[0] == runs[0]);
        assert(runs.push(r).drop_first() =~= runs.drop_first().push(r));
        lemma_rle_push(runs.drop_first(), r, pos + run_len(runs[0]), p);
        assert(rle_total(runs.push(r)) == run_len(runs[0]) + rle_total(
            runs.drop_first().push(r),
        ));
        assert(rle_covers(runs.push(r), pos, p) == ((run_set(runs[0]) && pos <= p < pos + run_len(
            runs[0],
        )) || rle_covers(runs.drop_first().push(r), pos + run_len(runs[0]), p)));
    }
}

/// A covered pixel lies within the run list's span.
pub proof fn lemma_rle_covers_in_span(runs: Seq<u16>, pos: int, p: int)
    ensures
        rle_covers(runs, pos, p) ==> pos <= p < pos + rle_total(runs),
    decreases runs.len(),
{
    if runs.len() > 0 {
        lemma_rle_covers_in_span(runs.drop_first(), pos + run_len(runs[0]), p);
        lemma_rle_total_nonneg(runs.drop_first());
    }
}

/// Encode one packed bitmap row of `width` pixels into a run list. The run
/// lengths sum to exactly `width`, and a pixel is covered by a filling run
/// exactly when it is set in the source row: decoding the list reproduces
/// the row.
pub fn encode_rle_row(row: &[u8], width: u16) -> (runs: Vec<u16>)
    requires
        width <= 0x7fff,
        width as int <= 8 * row@.len(),
    ensures
        rle_total(runs@) == width as int,
        forall|p: int| 0 <= p < width as int ==> #[trigger] rle_covers(runs@, 0, p) == row_pixel(
            row@,
            p,
        ),
        runs@.len() <= width as int,
{
    let mut runs: Vec<u16> = Vec::new();
    if width == 0 {
        return runs;
    }
    proof {
        crate::bits::lemma_pixel_in_bounds(0, row@.len() as int);
    }
    let mut run_color = (row[0] & 0x80u8) != 0;
    proof {
        assert(0x80u8 >> 0u8 == 0x80u8) by (bit_vector);
        assert(run_color == row_pixel(row@, 0));
    }
    let mut run_length: u16 = 1;
    let mut p: u16 = 1;
    while p < width
        invariant
            1 <= run_length <= p <= width,
            width <= 0x7fff,
            width as int <= 8 * row@.len(),
            rle_total(runs@) == p as int - run_length as int,
            runs@.len() <= rle_total(runs@),
            forall|q: int|
                0 <= q < p as int - run_length as int ==> #[trigger] rle_covers(runs@, 0, q)
                    == row_pixel(row@, q),
            forall|q: int|
                p as int - run_length as int <= q < p as int ==> #[trigger] row_pixel(row@, q)
                    == run_color,
        decreases width - p,
    {
        proof {
            crate::bits::lemma_pixel_in_bounds(p as int, row@.len() as int);
        }
        let bit = (row[(p / 8) as usize] & (0x80u8 >> ((p % 8) as u8))) != 0;
        proof {
            assert(bit == row_pixel(row@, p as int));
        }
        if bit == run_color {
            run_length += 1;
        } else {
            let w = if run_color {
                run_length | 0x8000
            } else {
                run_length
            };
            let ghost old_runs = runs@;
            runs.push(w);
            proof {
                lemma_run_encode(run_length);
                assert forall|q: int| 0 <= q < p as int implies #[trigger] rle_covers(runs@, 0, q)
                    == row_pixel(row@, q) by {
                    lemma_rle_push(old_runs, w, 0, q);
                    lemma_rle_covers_in_span(old_runs, 0, q);
                }
                assert(rle_total(runs@) == p as int) by {
                    lemma_rle_push(old_runs, w, 0, 0);
                }
            }
            run_color = bit;
            run_length = 1;
        }
        p += 1;
    }
    let w = if run_color {
        run_length | 0x8000
    } else {
        run_length
    };
    let ghost old_runs = runs@;
    runs.push(w);
    proof {
        lemma_run_encode(run_length);
        assert forall|q: int| 0 <= q < width as int implies #[trigger] rle_covers(runs@, 0, q)
            == row_pixel(row@, q) by {
            lemma_rle_push(old_runs, w, 0, q);
            lemma_rle_covers_in_span(old_runs, 0, q);
        }
        assert(rle_total(runs@) == width as int) by {
            lemma_rle_push(old_runs, w, 0, 0);
        }
    }
    runs
}

} // verus!
