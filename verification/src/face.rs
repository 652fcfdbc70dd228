//! Silhouette images, given as rows of bytes, and the planes of counters
//! that they turn into.

use vstd::prelude::*;
use crate::box_view::OFF;
use crate::grids::{lemma_flat_bound, lemma_flat_index};

verus! {

/// A silhouette image has cell `(row, col)` switched on.
pub open spec fn shadow_on(shadow: Seq<Vec<u8>>, row: int, col: int) -> bool {
    0 <= row < shadow.len() && 0 <= col < shadow[row]@.len() && shadow[row]@[col] == 0x31
}

/// Where cell `(row, col)` of an image of edge `d` goes in the flat plane:
/// row by row if `t` is set, transposed if not.
pub open spec fn face_index(d: int, row: int, col: int, t: bool) -> int {
    if t {
        row * d + col
    } else {
        col * d + row
    }
}

/// Turns a silhouette image, given as rows of the bytes `'0'` and `'1'`, into
/// a plane of counters: 0 for a cell that is on, `OFF` for one that is off.
/// Row `i`, column `j` of the image goes to index `i·d + j` if `t` is set and
/// to the transposed index `j·d + i` if not.
pub fn make_face(shadow: &[Vec<u8>], t: bool) -> (v: Vec<u8>)
    requires
        shadow@.len() <= 255,
        forall|i: int| 0 <= i < shadow@.len() ==> (#[trigger] shadow@[i])@.len() <= shadow@.len(),
    ensures
        v@.len() == shadow@.len() * shadow@.len(),
        forall|k: int| 0 <= k < v@.len() ==> v@[k] == 0 || v@[k] == OFF,
        forall|i: int, j: int|
            0 <= i < shadow@.len() && 0 <= j < shadow@.len() ==> v@[#[trigger] face_index(shadow@.len() as int, i, j, t)] == (if shadow_on(shadow@, i, j) {
                0u8
            } else {
                OFF
            }),
{
    let d: usize = shadow.len();
    proof {
        assert(d * d <= 65025) by (nonlinear_arith)
            requires
                0 <= d <= 255,
        ;
    }
    let total: usize = d * d;
    let mut v: Vec<u8> = Vec::new();
    let mut k: usize = 0;
    while k < total
        invariant
            k <= total,
            v@.len() == k,
            forall|m: int| 0 <= m < k ==> v@[m] == OFF,
        decreases total - k,
    {
        v.push(OFF);
        k += 1;
    }
    proof {
        assert forall|r: int, c: int| 0 <= r < d && 0 <= c < d implies 0 <= #[trigger] face_index(
            d as int,
            r,
            c,
            t,
        ) < total by {
            lemma_flat_bound(d as int, d as int, r, c);
            lemma_flat_bound(d as int, d as int, c, r);
        }
    }
    let mut i: usize = 0;
    while i < d
        invariant
            i <= d,
            d == shadow@.len(),
            d <= 255,
            total == d * d,
            v@.len() == total,
            forall|k: int| 0 <= k < v@.len() ==> v@[k] == 0 || v@[k] == OFF,
            forall|r: int| 0 <= r < d ==> (#[trigger] shadow@[r])@.len() <= d,
            forall|r: int, c: int|
                0 <= r < d && 0 <= c < d ==> v@[#[trigger] face_index(d as int, r, c, t)] == (if r < i && shadow_on(shadow@, r, c) {
                    0u8
                } else {
                    OFF
                }),
        decreases d - i,
    {
        let row: &Vec<u8> = &shadow[i];
        let width: usize = row.len();
        let mut j: usize = 0;
        while j < width
            invariant
                i < d,
                j <= width,
                width == row@.len(),
                width <= d,
                row@ == shadow@[i as int]@,
                d == shadow@.len(),
                d <= 255,
                total == d * d,
                v@.len() == total,
                forall|k: int| 0 <= k < v@.len() ==> v@[k] == 0 || v@[k] == OFF,
                forall|r: int, c: int|
                    0 <= r < d && 0 <= c < d ==> v@[#[trigger] face_index(d as int, r, c, t)] == (if (r < i || (r == i && c < j)) && shadow_on(shadow@, r, c) {
                        0u8
                    } else {
                        OFF
                    }),
            decreases width - j,
        {
            proof {
                lemma_flat_bound(d as int, d as int, i as int, j as int);
                lemma_flat_bound(d as int, d as int, j as int, i as int);
            }
            if row[j] == 0x31 {
                let at: usize = if t {
                    i * d + j
                } else {
                    j * d + i
                };
                let ghost before = v@;
                v.set(at, 0);
                proof {
                    assert forall|r: int, c: int| 0 <= r < d && 0 <= c < d implies v@[#[trigger] face_index(d as int, r, c, t)] == (if (r < i || (r == i && c < j + 1)) && shadow_on(shadow@, r, c) {
                        0u8
                    } else {
                        OFF
                    }) by {
                        lemma_flat_index(d as int, r, c, i as int, j as int);
                        lemma_flat_index(d as int, c, r, j as int, i as int);
                        lemma_flat_bound(d as int, d as int, r, c);
                        lemma_flat_bound(d as int, d as int, c, r);
                        let idx = face_index(d as int, r, c, t);
                        if r == i && c == j {
                        } else {
                            assert(idx != at);
                            assert(v@[idx] == before[idx]);
                        }
                    }
                }
            }
            j += 1;
        }
        i += 1;
    }
    v
}

/// Turns an image of numbers into an image of bytes: `'1'` for every 1 and
/// `'0'` for any other number.
pub fn face_conv(input: &[Vec<i32>]) -> (output: Vec<Vec<u8>>)
    ensures
        output@.len() == input@.len(),
        forall|i: int|
            0 <= i < input@.len() ==> (#[trigger] output@[i])@.len() == input@[i]@.len(),
        forall|i: int, j: int|
            0 <= i < input@.len() && 0 <= j < input@[i]@.len() ==> #[trigger] output@[i]@[j] == (
            if input@[i]@[j] == 1 {
                0x31u8
            } else {
                0x30u8
            }),
{
    let mut output: Vec<Vec<u8>> = Vec::new();
    let mut i: usize = 0;
    while i < input.len()
        invariant
            i <= input@.len(),
            output@.len() == i,
            forall|r: int| 0 <= r < i ==> (#[trigger] output@[r])@.len() == input@[r]@.len(),
            forall|r: int, c: int|
                0 <= r < i && 0 <= c < input@[r]@.len() ==> #[trigger] output@[r]@[c] == (
                if input@[r]@[c] == 1 {
                    0x31u8
                } else {
                    0x30u8
                }),
        decreases input@.len() - i,
    {
        let row: &Vec<i32> = &input[i];
        let mut bytes: Vec<u8> = Vec::new();
        let mut j: usize = 0;
        while j < row.len()
            invariant
                j <= row@.len(),
                bytes@.len() == j,
                forall|c: int|
                    0 <= c < j ==> #[trigger] bytes@[c] == (if row@[c] == 1 {
                        0x31u8
                    } else {
                        0x30u8
                    }),
            decreases row@.len() - j,
        {
            bytes.push(
                if row[j] == 1 {
                    0x31
                } else {
                    0x30
                },
            );
            j += 1;
        }
        output.push(bytes);
        i += 1;
    }
    output
}

} // verus!
