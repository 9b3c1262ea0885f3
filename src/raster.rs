//! The filtered scanline stream that PNG image data carries.
use vstd::prelude::*;
use crate::bytes::push_range;

verus! {

/// The scanlines of an image of `height` rows of `row_len` bytes each, held in
/// `data` top row first: the rows are emitted last row first, each after a
/// filter-type byte of 0.
pub open spec fn scanlines(row_len: nat, height: nat, data: Seq<u8>) -> Seq<u8>
    decreases height,
{
    if height == 0 {
        Seq::empty()
    } else {
        let top = (height - 1) * row_len;
        seq![0u8] + data.subrange(top, top + row_len) + scanlines(
            row_len,
            (height - 1) as nat,
            data,
        )
    }
}

/// The scanline stream is one byte longer than the image data per row.
pub proof fn lemma_scanlines_len(row_len: nat, height: nat, data: Seq<u8>)
    requires
        row_len * height <= data.len(),
    ensures
        scanlines(row_len, height, data).len() == (row_len + 1) * height,
    decreases height,
{
    if height > 0 {
        let h1 = (height - 1) as nat;
        assert(h1 * row_len + row_len == row_len * height && row_len * h1 <= row_len * height
            && (row_len + 1) * h1 + row_len + 1 == (row_len + 1) * height) by (nonlinear_arith)
            requires
                h1 == height - 1,
        ;
        lemma_scanlines_len(row_len, h1, data);
        let top = h1 * row_len;
        assert(top == (height - 1) * row_len);
        assert(top + row_len <= data.len());
        assert(data.subrange(top as int, (top + row_len) as int).len() == row_len);
        assert(scanlines(row_len, height, data) == seq![0u8] + data.subrange(
            top as int,
            (top + row_len) as int,
        ) + scanlines(row_len, h1, data));
    } else {
        assert((row_len + 1) * height == 0) by (nonlinear_arith)
            requires
                height == 0,
        ;
    }
}

/// Lays out `image_data` (rows of `width` pixels of four bytes, top row first)
/// as PNG scanlines, last row first.
pub fn scanlines_of(width: u32, height: u32, image_data: &[u8]) -> (chunk_data: Vec<u8>)
    requires
        image_data@.len() == 4 * width * height,
        (4 * width + 1) * height <= u32::MAX,
    ensures
        chunk_data@ == scanlines(4 * width as nat, height as nat, image_data@),
        chunk_data@.len() == (4 * width + 1) * height,
{
    let ghost rl = 4 * width as nat;
    assert(rl * height <= (4 * width + 1) * height) by (nonlinear_arith)
        requires
            rl == 4 * width,
    ;
    let total: usize = image_data.len();
    proof {
        lemma_scanlines_len(rl, height as nat, image_data@);
    }
    let mut chunk_data: Vec<u8> = Vec::new();
    if height == 0 {
        return chunk_data;
    }
    assert(4 * width + 1 <= (4 * width + 1) * height) by (nonlinear_arith)
        requires
            height >= 1,
    ;
    let row_len: usize = 4 * width as usize;
    let mut row: u32 = height;
    while row > 0
        invariant
            row <= height,
            row_len == rl,
            total == image_data@.len(),
            image_data@.len() == rl * height,
            chunk_data@ + scanlines(rl, row as nat, image_data@) == scanlines(
                rl,
                height as nat,
                image_data@,
            ),
        decreases row,
    {
        let ghost before = chunk_data@;
        let ghost r1 = (row - 1) as nat;
        assert(r1 * rl + rl <= rl * height) by (nonlinear_arith)
            requires
                r1 + 1 <= height,
        ;
        let top: usize = (row - 1) as usize * row_len;
        chunk_data.push(0);
        push_range(&mut chunk_data, image_data, top, top + row_len);
        assert(before + scanlines(rl, row as nat, image_data@) =~= chunk_data@ + scanlines(
            rl,
            r1,
            image_data@,
        ));
        row = row - 1;
    }
    assert(chunk_data@ =~= scanlines(rl, height as nat, image_data@));
    chunk_data
}

/// Row `r` of the scanline stream, counted from its start, is a filter byte of
/// 0 and then row `height - 1 - r` of the image data.
pub proof fn lemma_scanlines_at(row_len: nat, height: nat, data: Seq<u8>, r: int, j: int)
    requires
        row_len * height <= data.len(),
        0 <= r < height,
        0 <= j < row_len,
    ensures
        scanlines(row_len, height, data)[r * (row_len + 1)] == 0,
        scanlines(row_len, height, data)[r * (row_len + 1) + 1 + j] == data[(height - 1 - r)
            * row_len + j],
    decreases height,
{
    let h1 = (height - 1) as nat;
    let top = h1 * row_len;
    assert(h1 * row_len + row_len == row_len * height && row_len * h1 <= row_len * height)
        by (nonlinear_arith)
        requires
            h1 == height - 1,
    ;
    let row = data.subrange(top as int, (top + row_len) as int);
    let rest = scanlines(row_len, h1, data);
    lemma_scanlines_len(row_len, h1, data);
    assert(scanlines(row_len, height, data) == seq![0u8] + row + rest);
    if r > 0 {
        let r1 = r - 1;
        assert(r * (row_len + 1) == r1 * (row_len + 1) + row_len + 1) by (nonlinear_arith)
            requires
                r1 == r - 1,
        ;
        assert(r1 * (row_len + 1) + 1 + j < (row_len + 1) * h1) by (nonlinear_arith)
            requires
                r1 < h1,
                j < row_len,
        ;
        lemma_scanlines_at(row_len, h1, data, r1, j);
        assert(h1 - 1 - r1 == height - 1 - r);
    } else {
        assert(r * (row_len + 1) == 0) by (nonlinear_arith)
            requires
                r == 0,
        ;
    }
}

} // verus!
