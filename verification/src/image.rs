//! Writing a frame as text: the plain portable pixmap.

use vstd::prelude::*;
use crate::renderer::byte_index;
use crate::scene::digits_value;

verus! {

/// The digits that write a number, without leading zeros.
pub open spec fn decimal(n: nat) -> Seq<u8>
    decreases n,
{
    if n < 10 {
        seq![(48 + n) as u8]
    } else {
        decimal(n / 10).push((48 + n % 10) as u8)
    }
}

/// The digits of a number write that number.
pub proof fn lemma_decimal_reads_back(n: nat)
    ensures
        decimal(n).len() >= 1,
        forall|i: int| 0 <= i < decimal(n).len() ==> 48 <= #[trigger] decimal(n)[i] <= 57,
        digits_value(decimal(n)) == n,
    decreases n,
{
    if n < 10 {
        let s = decimal(n);
        assert(s.drop_last() =~= Seq::<u8>::empty());
        assert(digits_value(s.drop_last()) == 0);
    } else {
        lemma_decimal_reads_back(n / 10);
        let s = decimal(n);
        assert(s.drop_last() =~= decimal(n / 10));
        assert(s.last() == (48 + n % 10) as u8);
    }
}

/// Appends the digits of a number.
pub fn push_decimal(out: &mut Vec<u8>, n: u32)
    ensures
        final(out)@ == old(out)@ + decimal(n as nat),
    decreases n,
{
    if n >= 10 {
        push_decimal(out, n / 10);
    }
    let digit: u8 = 48 + (n % 10) as u8;
    out.push(digit);
    proof {
        if n < 10 {
            assert(out@ =~= old(out)@ + decimal(n as nat));
        } else {
            assert(out@ =~= old(out)@ + decimal(n as nat));
        }
    }
}

/// The text of one pixel: its three bytes in digits, each followed by a
/// space.
pub open spec fn pixel_text(data: Seq<u8>, at: int) -> Seq<u8> {
    decimal(data[at] as nat) + seq![32u8] + decimal(data[at + 1] as nat) + seq![32u8] + decimal(
        data[at + 2] as nat,
    ) + seq![32u8]
}

/// The text of the first `upto` pixels of a row.
pub open spec fn row_text(data: Seq<u8>, width: int, row: int, upto: int) -> Seq<u8>
    decreases upto,
{
    if upto <= 0 {
        Seq::empty()
    } else {
        row_text(data, width, row, upto - 1) + pixel_text(
            data,
            byte_index(width, row, upto - 1, 0),
        )
    }
}

/// The text of the first `upto` rows, each closed by a line feed.
pub open spec fn rows_text(data: Seq<u8>, width: int, upto: int) -> Seq<u8>
    decreases upto,
{
    if upto <= 0 {
        Seq::empty()
    } else {
        rows_text(data, width, upto - 1) + row_text(data, width, upto - 1, width) + seq![10u8]
    }
}

/// The head of the file: the mark of the plain pixmap, the width and the
/// height, and the largest value of a byte.
pub open spec fn header_text(width: nat, height: nat) -> Seq<u8> {
    seq![80u8, 51u8, 10u8] + decimal(width) + seq![32u8] + decimal(height) + seq![
        10u8,
        50u8,
        53u8,
        53u8,
        10u8,
    ]
}

/// A frame as a plain pixmap: the head, then the pixels row by row.
pub open spec fn ppm_of(data: Seq<u8>, width: nat, height: nat) -> Seq<u8> {
    header_text(width, height) + rows_text(data, width as int, height as int)
}

/// Writes a row-major frame of three bytes to the pixel as the text of a
/// plain pixmap.
pub fn ppm_text(data: &[u8], width: u32, height: u32) -> (out: Vec<u8>)
    requires
        data@.len() >= width * height * 3,
    ensures
        out@ == ppm_of(data@, width as nat, height as nat),
{
    let mut out: Vec<u8> = Vec::new();
    out.push(80u8);
    out.push(51u8);
    out.push(10u8);
    push_decimal(&mut out, width);
    out.push(32u8);
    push_decimal(&mut out, height);
    out.push(10u8);
    out.push(50u8);
    out.push(53u8);
    out.push(53u8);
    out.push(10u8);
    assert(out@ =~= header_text(width as nat, height as nat));
    // taking the length tells that it fits a `usize`
    let len: usize = data.len();
    let w: usize = width as usize;
    let h: usize = height as usize;
    let mut row: usize = 0;
    while row < h
        invariant
            row <= h,
            w == width,
            h == height,
            data@.len() >= w * h * 3,
            data@.len() <= usize::MAX,
            out@ == header_text(width as nat, height as nat) + rows_text(
                data@,
                w as int,
                row as int,
            ),
        decreases h - row,
    {
        let ghost before_row = out@;
        let mut col: usize = 0;
        while col < w
            invariant
                row < h,
                col <= w,
                data@.len() >= w * h * 3,
                data@.len() <= usize::MAX,
                out@ == before_row + row_text(data@, w as int, row as int, col as int),
            decreases w - col,
        {
            proof {
                crate::renderer::lemma_byte_index_in_bounds(
                    w as int,
                    h as int,
                    row as int,
                    col as int,
                    2,
                );
                assert(w * h * 3 == (w as int) * (h as int) * 3);
            }
            let at: usize = (row * w + col) * 3;
            let ghost before_pixel = out@;
            push_decimal(&mut out, data[at] as u32);
            out.push(32u8);
            push_decimal(&mut out, data[at + 1] as u32);
            out.push(32u8);
            push_decimal(&mut out, data[at + 2] as u32);
            out.push(32u8);
            proof {
                assert(out@ =~= before_pixel + pixel_text(data@, at as int));
                assert(out@ =~= before_row + row_text(data@, w as int, row as int, col + 1));
            }
            col += 1;
        }
        out.push(10u8);
        proof {
            assert(out@ =~= header_text(width as nat, height as nat) + rows_text(
                data@,
                w as int,
                row + 1,
            ));
        }
        row += 1;
    }
    out
}

} // verus!
