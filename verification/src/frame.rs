use vstd::prelude::*;
use vstd::arithmetic::div_mod::{
    lemma_div_is_ordered, lemma_div_plus_one, lemma_div_pos_is_pos,
    lemma_fundamental_div_mod, lemma_fundamental_div_mod_converse_div,
    lemma_fundamental_div_mod_converse_mod, lemma_multiply_divide_lt,
};
use vstd::arithmetic::mul::{
    lemma_mul_inequality, lemma_mul_is_commutative, lemma_mul_is_distributive_sub_other_way,
    lemma_mul_upper_bound,
};
use crate::arena::{Arena, Span};
use crate::bits::{bit_set, lemma_bits_determine_byte, lemma_or_sets_bit, lemma_zero_byte_clear};

verus! {

/// How many interleaved samples one pixel occupies in the source buffer:
/// red, green and blue, followed by one alpha/padding sample.
pub const CHANNEL_COUNT: usize = 4;

/// Number of bytes one packed row of `width` pixels occupies: eight pixels
/// per byte, the last byte of the row padded with zero bits.
pub open spec fn bytes_per_row(width: nat) -> nat {
    (width + 7) / 8
}

/// Total size in bytes of a packed `width x height` frame.
pub open spec fn packed_len(width: nat, height: nat) -> nat {
    bytes_per_row(width) * height
}

/// Integer BT.601 luminance of one pixel: a weighted combination of the
/// three color samples, with truncating division and no rounding.
pub open spec fn luminance(r: u8, g: u8, b: u8) -> int {
    (r * 299 + g * 587 + b * 114) / 1000
}

/// Whether the pixel at column `x` of row `y` is active (foreground). Its
/// three color samples must all lie inside the buffer — a pixel past the
/// end of a short buffer is never active — and its luminance must clear the
/// threshold: at least the threshold normally, strictly below it when
/// `invert` is set.
pub open spec fn pixel_active(
    data: Seq<u8>,
    width: nat,
    threshold: u8,
    invert: bool,
    x: nat,
    y: nat,
) -> bool {
    let idx = ((y * width + x) * CHANNEL_COUNT) as int;
    &&& idx + 2 < data.len()
    &&& if invert {
        luminance(data[idx], data[idx + 1], data[idx + 2]) < threshold
    } else {
        luminance(data[idx], data[idx + 1], data[idx + 2]) >= threshold
    }
}

/// The row addressed by byte `i` of a packed frame.
pub open spec fn row_of(width: nat, i: int) -> int {
    i / (bytes_per_row(width) as int)
}

/// The column addressed by bit `k` (MSB-first) of byte `i` of a packed
/// frame.
pub open spec fn col_of(width: nat, i: int, k: int) -> int {
    (i % (bytes_per_row(width) as int)) * 8 + k
}

/// The value of bit `k` (MSB-first) of byte `i` of a packed frame: the bit
/// addresses the pixel at column [`col_of`] of row [`row_of`], is zero when
/// that column lies in the row's padding, and otherwise carries the pixel's
/// activity.
pub open spec fn frame_bit(
    data: Seq<u8>,
    width: nat,
    threshold: u8,
    invert: bool,
    i: int,
    k: int,
) -> bool {
    let y = row_of(width, i);
    let x = col_of(width, i, k);
    x < width && pixel_active(data, width, threshold, invert, x as nat, y as nat)
}

/// The packing relation: `out` is the `width x height` packing of `data` —
/// it has exactly `packed_len` bytes, and every bit of it is the
/// corresponding [`frame_bit`].
pub open spec fn is_packed_frame(
    out: Seq<u8>,
    data: Seq<u8>,
    width: nat,
    height: nat,
    threshold: u8,
    invert: bool,
) -> bool {
    &&& out.len() == packed_len(width, height)
    &&& forall|i: int, k: int|
        0 <= i < out.len() && 0 <= k < 8 ==> #[trigger] bit_set(out[i], k) == frame_bit(
            data,
            width,
            threshold,
            invert,
            i,
            k,
        )
}

/// Pixel `(x, y)` of an in-range frame lives at byte `y * bytes_per_row + x/8`,
/// bit `x % 8`; that byte index is inside the packed frame and decomposes
/// back into the same row and column.
pub proof fn lemma_pixel_byte_index(width: nat, height: nat, x: nat, y: nat)
    requires
        x < width,
        y < height,
    ensures
        x / 8 < bytes_per_row(width),
        y * bytes_per_row(width) + x / 8 < packed_len(width, height),
        (y * bytes_per_row(width) + x / 8) as int / bytes_per_row(width) as int == y,
        (y * bytes_per_row(width) + x / 8) as int % bytes_per_row(width) as int == x as int / 8,
        (x as int / 8) * 8 + x as int % 8 == x,
{
    let w = width as int;
    let h = height as int;
    let xi = x as int;
    let yi = y as int;
    let bpr = bytes_per_row(width) as int;
    assert(bpr == (w + 7) / 8);
    // column x falls in byte x / 8 of its row, which the row really has
    lemma_div_is_ordered(xi, w - 1, 8);
    lemma_div_plus_one(w - 1, 8);
    assert(bpr == 1 + (w - 1) / 8);
    assert(xi / 8 < bpr);
    lemma_div_pos_is_pos(xi, 8);
    // the byte index divides back into (row, byte-of-row)
    let i = yi * bpr + xi / 8;
    lemma_fundamental_div_mod_converse_div(i, bpr, yi, xi / 8);
    lemma_fundamental_div_mod_converse_mod(i, bpr, yi, xi / 8);
    // the byte index lies inside the frame
    lemma_mul_inequality(yi, h - 1, bpr);
    lemma_mul_is_distributive_sub_other_way(bpr, h, 1);
    lemma_mul_is_commutative(h, bpr);
    assert(i < bpr * h);
    // the column splits into byte-of-row and bit
    lemma_fundamental_div_mod(xi, 8);
}

/// Byte `i`, bit `k` of a packed frame addresses a real row of the frame,
/// and a column that maps back to the same byte and bit.
pub proof fn lemma_byte_bit_to_pixel(width: nat, height: nat, i: int, k: int)
    requires
        0 <= i < packed_len(width, height),
        0 <= k < 8,
    ensures
        bytes_per_row(width) > 0,
        0 <= row_of(width, i) < height,
        col_of(width, i, k) >= 0,
        col_of(width, i, k) / 8 == i % (bytes_per_row(width) as int),
        col_of(width, i, k) % 8 == k,
        row_of(width, i) * (bytes_per_row(width) as int) + col_of(width, i, k) / 8 == i,
{
    let bpr = bytes_per_row(width) as int;
    let h = height as int;
    assert(bpr > 0) by {
        if bpr == 0 {
            assert(packed_len(width, height) == 0);
        }
    }
    lemma_mul_is_commutative(bpr, h);
    lemma_multiply_divide_lt(i, bpr, h);
    lemma_div_pos_is_pos(i, bpr);
    lemma_fundamental_div_mod(i, bpr);
    let r = i % bpr;
    lemma_fundamental_div_mod_converse_div(r * 8 + k, 8, r, k);
    lemma_fundamental_div_mod_converse_mod(r * 8 + k, 8, r, k);
    lemma_mul_is_commutative(bpr, i / bpr);
}

/// Law: in a packed frame, the bit for pixel `(x, y)` — bit `x % 8`,
/// MSB-first, of byte `y * bytes_per_row + x / 8` — is set exactly when
/// the pixel is active: its samples are inside the buffer and its BT.601
/// luminance clears the threshold, with the comparison flipped by `invert`.
pub proof fn lemma_pixel_bit(
    out: Seq<u8>,
    data: Seq<u8>,
    width: nat,
    height: nat,
    threshold: u8,
    invert: bool,
    x: nat,
    y: nat,
)
    requires
        is_packed_frame(out, data, width, height, threshold, invert),
        x < width,
        y < height,
    ensures
        bit_set(out[(y * bytes_per_row(width) + x / 8) as int], (x % 8) as int) == pixel_active(
            data,
            width,
            threshold,
            invert,
            x,
            y,
        ),
{
    lemma_pixel_byte_index(width, height, x, y);
    let i = (y * bytes_per_row(width) + x / 8) as int;
    let k = (x % 8) as int;
    assert(bit_set(out[i], k) == frame_bit(data, width, threshold, invert, i, k));
}

/// Law: truncation — a pixel whose samples lie at or past the end of the
/// buffer contributes a zero bit, whatever the threshold and inversion.
pub proof fn lemma_truncated_pixel_zero(
    out: Seq<u8>,
    data: Seq<u8>,
    width: nat,
    height: nat,
    threshold: u8,
    invert: bool,
    x: nat,
    y: nat,
)
    requires
        is_packed_frame(out, data, width, height, threshold, invert),
        x < width,
        y < height,
        (y * width + x) * CHANNEL_COUNT + 2 >= data.len(),
    ensures
        !bit_set(out[(y * bytes_per_row(width) + x / 8) as int], (x % 8) as int),
{
    lemma_pixel_bit(out, data, width, height, threshold, invert, x, y);
}

/// Law: the packing relation is a function of its inputs — two packed
/// frames of the same buffer and configuration are byte-identical. In
/// particular, packing identical inputs again after a reset reproduces the
/// first output exactly.
pub proof fn lemma_packed_frame_unique(
    out1: Seq<u8>,
    out2: Seq<u8>,
    data: Seq<u8>,
    width: nat,
    height: nat,
    threshold: u8,
    invert: bool,
)
    requires
        is_packed_frame(out1, data, width, height, threshold, invert),
        is_packed_frame(out2, data, width, height, threshold, invert),
    ensures
        out1 == out2,
{
    assert forall|i: int| 0 <= i < out1.len() implies out1[i] == out2[i] by {
        assert forall|j: int| 0 <= j < 8 implies bit_set(out1[i], j) == bit_set(out2[i], j) by {
            assert(bit_set(out1[i], j) == frame_bit(data, width, threshold, invert, i, j));
            assert(bit_set(out2[i], j) == frame_bit(data, width, threshold, invert, i, j));
        }
        lemma_bits_determine_byte(out1[i], out2[i]);
    }
    assert(out1 =~= out2);
}

/// The state of the output midway through the packing loops: every pixel
/// before column `x` of row `y` in row-major order has been processed — its
/// bit carries its activity — and every other bit is still zero.
spec fn packed_up_to(
    out: Seq<u8>,
    data: Seq<u8>,
    width: nat,
    threshold: u8,
    invert: bool,
    x: nat,
    y: nat,
) -> bool {
    forall|i: int, k: int|
        0 <= i < out.len() && 0 <= k < 8 ==> #[trigger] bit_set(out[i], k) == ({
            &&& (row_of(width, i) < y || (row_of(width, i) == y && col_of(width, i, k) < x))
            &&& frame_bit(data, width, threshold, invert, i, k)
        })
}

/// A zero-filled output of the right size is the starting state of the
/// packing loops: nothing processed, every bit clear.
proof fn lemma_pack_start(
    out: Seq<u8>,
    data: Seq<u8>,
    width: nat,
    height: nat,
    threshold: u8,
    invert: bool,
)
    requires
        out.len() == packed_len(width, height),
        forall|i: int| 0 <= i < out.len() ==> out[i] == 0u8,
    ensures
        packed_up_to(out, data, width, threshold, invert, 0, 0),
{
    assert forall|i: int, k: int| 0 <= i < out.len() && 0 <= k < 8 implies #[trigger] bit_set(
        out[i],
        k,
    ) == ({
        &&& (row_of(width, i) < 0 || (row_of(width, i) == 0 && col_of(width, i, k) < 0))
        &&& frame_bit(data, width, threshold, invert, i, k)
    }) by {
        lemma_byte_bit_to_pixel(width, height, i, k);
        lemma_zero_byte_clear(k);
    }
}

/// Processing an inactive pixel advances the loop state without touching
/// the output: the pixel's bit stays zero, which is its final value.
proof fn lemma_pack_step_inactive(
    out: Seq<u8>,
    data: Seq<u8>,
    width: nat,
    height: nat,
    threshold: u8,
    invert: bool,
    x: nat,
    y: nat,
)
    requires
        x < width,
        y < height,
        out.len() == packed_len(width, height),
        packed_up_to(out, data, width, threshold, invert, x, y),
        !pixel_active(data, width, threshold, invert, x, y),
    ensures
        packed_up_to(out, data, width, threshold, invert, x + 1, y),
{
    lemma_pixel_byte_index(width, height, x, y);
    assert forall|i: int, k: int| 0 <= i < out.len() && 0 <= k < 8 implies #[trigger] bit_set(
        out[i],
        k,
    ) == ({
        &&& (row_of(width, i) < y || (row_of(width, i) == y && col_of(width, i, k) < x + 1))
        &&& frame_bit(data, width, threshold, invert, i, k)
    }) by {
        lemma_byte_bit_to_pixel(width, height, i, k);
        let row = row_of(width, i);
        let col = col_of(width, i, k);
        if row == y && col == x {
            assert(!frame_bit(data, width, threshold, invert, i, k));
        }
    }
}

/// Setting the bit of an active pixel advances the loop state: the OR
/// changed exactly that pixel's bit, which now carries its (active) value,
/// and every other bit kept its old meaning.
proof fn lemma_pack_step_active(
    prev: Seq<u8>,
    out: Seq<u8>,
    data: Seq<u8>,
    width: nat,
    height: nat,
    threshold: u8,
    invert: bool,
    x: nat,
    y: nat,
    newbyte: u8,
)
    requires
        x < width,
        y < height,
        prev.len() == packed_len(width, height),
        packed_up_to(prev, data, width, threshold, invert, x, y),
        pixel_active(data, width, threshold, invert, x, y),
        out == prev.update((y * bytes_per_row(width) + x / 8) as int, newbyte),
        forall|j: int|
            0 <= j < 8 ==> #[trigger] bit_set(newbyte, j) == (j == x % 8 || bit_set(
                prev[(y * bytes_per_row(width) + x / 8) as int],
                j,
            )),
    ensures
        packed_up_to(out, data, width, threshold, invert, x + 1, y),
{
    lemma_pixel_byte_index(width, height, x, y);
    let bi = (y * bytes_per_row(width) + x / 8) as int;
    let bk = (x % 8) as int;
    assert forall|i: int, k: int| 0 <= i < out.len() && 0 <= k < 8 implies #[trigger] bit_set(
        out[i],
        k,
    ) == ({
        &&& (row_of(width, i) < y || (row_of(width, i) == y && col_of(width, i, k) < x + 1))
        &&& frame_bit(data, width, threshold, invert, i, k)
    }) by {
        lemma_byte_bit_to_pixel(width, height, i, k);
        let row = row_of(width, i);
        let col = col_of(width, i, k);
        assert(bit_set(prev[i], k) == ({
            &&& (row < y || (row == y && col < x))
            &&& frame_bit(data, width, threshold, invert, i, k)
        }));
        if i == bi {
            if k == bk {
                assert(col == x);
                assert(bit_set(out[i], k));
                assert(frame_bit(data, width, threshold, invert, i, k));
            } else {
                assert(col % 8 == k && x % 8 == bk);
                assert(col != x);
                assert(bit_set(out[i], k) == bit_set(prev[i], k));
            }
        } else {
            assert(out[i] == prev[i]);
            if row == y && col == x {
                assert(row * (bytes_per_row(width) as int) + col / 8 == i);
                assert(false);
            }
        }
    }
}

/// Finishing a row advances the loop state to the start of the next row:
/// the remaining columns of the row are padding, whose bits are zero either
/// way.
proof fn lemma_pack_row_done(
    out: Seq<u8>,
    data: Seq<u8>,
    width: nat,
    height: nat,
    threshold: u8,
    invert: bool,
    y: nat,
)
    requires
        y < height,
        out.len() == packed_len(width, height),
        packed_up_to(out, data, width, threshold, invert, width, y),
    ensures
        packed_up_to(out, data, width, threshold, invert, 0, y + 1),
{
    assert forall|i: int, k: int| 0 <= i < out.len() && 0 <= k < 8 implies #[trigger] bit_set(
        out[i],
        k,
    ) == ({
        &&& (row_of(width, i) < y + 1 || (row_of(width, i) == y + 1 && col_of(width, i, k) < 0))
        &&& frame_bit(data, width, threshold, invert, i, k)
    }) by {
        lemma_byte_bit_to_pixel(width, height, i, k);
    }
}

/// Once every row is processed, the loop state is exactly the packing
/// relation.
proof fn lemma_pack_complete(
    out: Seq<u8>,
    data: Seq<u8>,
    width: nat,
    height: nat,
    threshold: u8,
    invert: bool,
)
    requires
        out.len() == packed_len(width, height),
        packed_up_to(out, data, width, threshold, invert, 0, height),
    ensures
        is_packed_frame(out, data, width, height, threshold, invert),
{
    assert forall|i: int, k: int| 0 <= i < out.len() && 0 <= k < 8 implies #[trigger] bit_set(
        out[i],
        k,
    ) == frame_bit(data, width, threshold, invert, i, k) by {
        lemma_byte_bit_to_pixel(width, height, i, k);
    }
}

/// Pack one frame into a fresh byte vector: binarize each pixel of
/// `frame_data` against the threshold and pack the bits MSB-first, row by
/// row, `bytes_per_row` bytes per row. Pixels whose samples lie past the
/// end of a short buffer keep their zero bit.
pub fn pack_bits(
    frame_data: &Vec<u8>,
    width: u32,
    height: u32,
    threshold: u8,
    invert: bool,
) -> (out: Vec<u8>)
    requires
        packed_len(width as nat, height as nat) <= usize::MAX,
    ensures
        is_packed_frame(out@, frame_data@, width as nat, height as nat, threshold, invert),
{
    let w: usize = width as usize;
    let h: usize = height as usize;
    proof {
        lemma_div_is_ordered(w as int + 7, u32::MAX as int + 7, 8);
    }
    let bpr: usize = ((w as u64 + 7) / 8) as usize;
    let output_size: usize = bpr * h;
    let data_len: usize = frame_data.len();

    let mut out: Vec<u8> = Vec::new();
    while out.len() < output_size
        invariant
            out@.len() <= output_size,
            forall|i: int| 0 <= i < out@.len() ==> out@[i] == 0u8,
        decreases output_size - out@.len(),
    {
        out.push(0u8);
    }
    proof {
        lemma_pack_start(out@, frame_data@, width as nat, height as nat, threshold, invert);
    }

    let mut y: usize = 0;
    while y < h
        invariant
            y <= h,
            w == width as int,
            h == height as int,
            bpr == bytes_per_row(width as nat),
            output_size == packed_len(width as nat, height as nat),
            output_size <= usize::MAX,
            data_len == frame_data@.len(),
            out@.len() == output_size,
            packed_up_to(out@, frame_data@, width as nat, threshold, invert, 0, y as nat),
        decreases h - y,
    {
        let mut x: usize = 0;
        while x < w
            invariant
                x <= w,
                y < h,
                w == width as int,
                h == height as int,
                bpr == bytes_per_row(width as nat),
                output_size == packed_len(width as nat, height as nat),
                output_size <= usize::MAX,
                data_len == frame_data@.len(),
                out@.len() == output_size,
                packed_up_to(out@, frame_data@, width as nat, threshold, invert, x as nat, y as nat),
            decreases w - x,
        {
            proof {
                lemma_mul_upper_bound(y as int, u32::MAX as int, w as int, u32::MAX as int);
            }
            let pix: u64 = (y as u64) * (w as u64) + (x as u64);
            if pix < 0x4000_0000_0000_0000u64 && pix * 4 + 2 < data_len as u64 {
                let idx: usize = (pix * 4) as usize;
                let r: u8 = frame_data[idx];
                let g: u8 = frame_data[idx + 1];
                let b: u8 = frame_data[idx + 2];
                let lum: u32 = ((r as u32) * 299 + (g as u32) * 587 + (b as u32) * 114) / 1000;
                let active: bool = if invert {
                    lum < threshold as u32
                } else {
                    lum >= threshold as u32
                };
                proof {
                    assert(idx == ((y as nat) * (width as nat) + (x as nat)) * CHANNEL_COUNT);
                    assert(lum == luminance(frame_data@[idx as int], frame_data@[idx as int + 1],
                        frame_data@[idx as int + 2]));
                }
                if active {
                    proof {
                        lemma_pixel_byte_index(width as nat, height as nat, x as nat, y as nat);
                    }
                    let byte_idx: usize = y * bpr + x / 8;
                    let bit_idx: usize = x % 8;
                    let cur: u8 = out[byte_idx];
                    let ghost prev = out@;
                    out.set(byte_idx, cur | (0x80u8 >> (bit_idx as u8)));
                    proof {
                        let newbyte = cur | (0x80u8 >> ((bit_idx as int) as u8));
                        assert(out@[byte_idx as int] == newbyte);
                        assert forall|j: int| 0 <= j < 8 implies #[trigger] bit_set(newbyte, j) == (
                        j == x as int % 8 || bit_set(prev[byte_idx as int], j)) by {
                            lemma_or_sets_bit(cur, bit_idx as int, j);
                        }
                        lemma_pack_step_active(
                            prev,
                            out@,
                            frame_data@,
                            width as nat,
                            height as nat,
                            threshold,
                            invert,
                            x as nat,
                            y as nat,
                            newbyte,
                        );
                    }
                } else {
                    proof {
                        assert(!pixel_active(
                            frame_data@,
                            width as nat,
                            threshold,
                            invert,
                            x as nat,
                            y as nat,
                        ));
                        lemma_pack_step_inactive(
                            out@,
                            frame_data@,
                            width as nat,
                            height as nat,
                            threshold,
                            invert,
                            x as nat,
                            y as nat,
                        );
                    }
                }
            } else {
                proof {
                    assert(((y as nat) * (width as nat) + (x as nat)) * CHANNEL_COUNT + 2
                        >= frame_data@.len());
                    assert(!pixel_active(
                        frame_data@,
                        width as nat,
                        threshold,
                        invert,
                        x as nat,
                        y as nat,
                    ));
                    lemma_pack_step_inactive(
                        out@,
                        frame_data@,
                        width as nat,
                        height as nat,
                        threshold,
                        invert,
                        x as nat,
                        y as nat,
                    );
                }
            }
            x = x + 1;
        }
        proof {
            lemma_pack_row_done(
                out@,
                frame_data@,
                width as nat,
                height as nat,
                threshold,
                invert,
                y as nat,
            );
        }
        y = y + 1;
    }
    proof {
        lemma_pack_complete(out@, frame_data@, width as nat, height as nat, threshold, invert);
    }
    out
}

/// Pack one frame into arena memory: request `packed_len` bytes from the
/// arena's allocator and fill them with the packed bitmap of `frame_data`.
/// Fails — with no effect on the arena at all — exactly when that many
/// bytes do not remain; no partial output is ever produced.
pub fn pack_frame(
    arena: &mut Arena,
    frame_data: &Vec<u8>,
    width: u32,
    height: u32,
    threshold: u8,
    invert: bool,
) -> (packed: Option<Span>)
    requires
        old(arena).wf(),
    ensures
        final(arena).wf(),
        final(arena).capacity() == old(arena).capacity(),
        packed is Some <==> old(arena).cursor() + packed_len(width as nat, height as nat) <= old(
            arena,
        ).capacity(),
        match packed {
            Some(span) => {
                &&& span.start == old(arena).cursor()
                &&& span.len == packed_len(width as nat, height as nat)
                &&& final(arena).cursor() == old(arena).cursor() + span.len
                &&& is_packed_frame(
                    final(arena).bytes().subrange(span.start as int, span.start + span.len),
                    frame_data@,
                    width as nat,
                    height as nat,
                    threshold,
                    invert,
                )
                &&& forall|j: int|
                    0 <= j < old(arena).bytes().len() && !(span.start <= j < span.start
                        + span.len) ==> final(arena).bytes()[j] == old(arena).bytes()[j]
            },
            None => {
                &&& final(arena).cursor() == old(arena).cursor()
                &&& final(arena).bytes() == old(arena).bytes()
            },
        },
{
    proof {
        lemma_div_is_ordered(width as int + 7, u32::MAX as int + 7, 8);
        lemma_mul_upper_bound(
            (width as int + 7) / 8,
            (u32::MAX as int + 7) / 8,
            height as int,
            u32::MAX as int,
        );
    }
    let bpr64: u64 = (width as u64 + 7) / 8;
    let size64: u64 = bpr64 * (height as u64);
    let cap: usize = arena.capacity_bytes();
    let cur: usize = arena.allocated_bytes();
    if size64 > (cap as u64) - (cur as u64) {
        return None;
    }
    let size: usize = size64 as usize;
    match arena.allocate(size) {
        Some(span) => {
            let out = pack_bits(frame_data, width, height, threshold, invert);
            arena.write_bytes(span, &out);
            Some(span)
        },
        None => None,
    }
}

} // verus!
