use vstd::prelude::*;

verus! {

/// The alignment, in bytes, of the rows of a texture copied to a buffer.
pub const ROW_ALIGNMENT: usize = 256;

/// `n` rounded up to a multiple of the row alignment.
pub open spec fn align_row(n: nat) -> nat {
    ((n + 255) / 256) * 256
}

/// The byte at column `x` of row `y` of rows `stride` bytes apart.
pub open spec fn byte_at(bytes: Seq<u8>, stride: int, y: int, x: int) -> u8 {
    bytes[y * stride + x]
}

/// The number of bytes between the starts of two rows of a texture in the
/// staging buffer: the bytes of a row, `width * block_size`, rounded up to
/// the row alignment.
pub fn aligned_bytes_per_row(width: u32, block_size: u32) -> (r: usize)
    requires
        width * block_size <= u32::MAX,
        align_row((width * block_size) as nat) <= usize::MAX,
    ensures
        r == align_row((width * block_size) as nat),
        r % 256 == 0,
        width * block_size <= r < width * block_size + 256,
{
    let row = width * block_size;
    let blocks: u32 = row / 256 + if row % 256 == 0 {
        0
    } else {
        1
    };
    assert(blocks == (row + 255) / 256) by {
        assert(row == (row / 256) * 256 + row % 256);
    }
    assert(row <= blocks * 256 < row + 256) by (nonlinear_arith)
        requires
            blocks == (row + 255) / 256,
    ;
    blocks as usize * ROW_ALIGNMENT
}

proof fn lemma_row_index(stride: int, height: int, y: int, x: int)
    by (nonlinear_arith)
    requires
        0 <= y < height,
        0 <= x < stride,
    ensures
        0 <= y * stride + x < height * stride,
        y * stride + x + 1 <= (y + 1) * stride,
        (y + 1) * stride <= height * stride,
{
}

proof fn lemma_row_order(stride: int, y1: int, x1: int, y2: int, x2: int)
    by (nonlinear_arith)
    requires
        0 <= y1 < y2,
        0 <= x1 < stride,
        0 <= x2,
    ensures
        y1 * stride + x1 < y2 * stride + x2,
{
}

/// Copy the rows of a mapped staging buffer, `aligned` bytes apart, into
/// the tightly packed `bytes`, `row` bytes a row: byte `x` of row `y` goes
/// from `view[y * aligned + x]` to `bytes[y * row + x]`.
pub fn copy_rows(view: &[u8], aligned: usize, row: usize, height: usize, bytes: &mut Vec<u8>)
    requires
        row <= aligned,
        height * aligned <= view@.len(),
        old(bytes)@.len() == height * row,
    ensures
        final(bytes)@.len() == old(bytes)@.len(),
        forall|y: int, x: int|
            0 <= y < height && 0 <= x < row ==> #[trigger] byte_at(final(bytes)@, row as int, y, x)
                == byte_at(view@, aligned as int, y, x),
{
    let vlen = view.len();
    let blen = bytes.len();
    let mut y: usize = 0;
    while y < height
        invariant
            vlen == view@.len(),
            blen == bytes@.len(),
            row <= aligned,
            height * aligned <= view@.len(),
            bytes@.len() == height * row,
            y <= height,
            forall|yy: int, xx: int|
                0 <= yy < y && 0 <= xx < row ==> #[trigger] byte_at(bytes@, row as int, yy, xx)
                    == byte_at(view@, aligned as int, yy, xx),
        decreases height - y,
    {
        let mut x: usize = 0;
        while x < row
            invariant
                vlen == view@.len(),
                blen == bytes@.len(),
                row <= aligned,
                height * aligned <= view@.len(),
                bytes@.len() == height * row,
                y < height,
                x <= row,
                forall|yy: int, xx: int|
                    0 <= yy < y && 0 <= xx < row ==> #[trigger] byte_at(bytes@, row as int, yy, xx)
                        == byte_at(view@, aligned as int, yy, xx),
                forall|xx: int|
                    0 <= xx < x ==> #[trigger] byte_at(bytes@, row as int, y as int, xx) == byte_at(
                        view@,
                        aligned as int,
                        y as int,
                        xx,
                    ),
            decreases row - x,
        {
            proof {
                lemma_row_index(row as int, height as int, y as int, x as int);
                lemma_row_index(aligned as int, height as int, y as int, x as int);
            }
            let src = y * aligned + x;
            let dst = y * row + x;
            let ghost before = bytes@;
            bytes.set(dst, view[src]);
            proof {
                assert forall|yy: int, xx: int|
                    0 <= yy < y && 0 <= xx < row implies #[trigger] byte_at(bytes@, row as int, yy, xx)
                        == byte_at(view@, aligned as int, yy, xx) by {
                    lemma_row_order(row as int, yy, xx, y as int, x as int);
                    assert(byte_at(before, row as int, yy, xx) == byte_at(view@, aligned as int, yy, xx));
                }
                assert forall|xx: int|
                    0 <= xx < x + 1 implies #[trigger] byte_at(bytes@, row as int, y as int, xx) == byte_at(
                        view@,
                        aligned as int,
                        y as int,
                        xx,
                    ) by {
                    if xx < x {
                        assert(byte_at(before, row as int, y as int, xx) == byte_at(
                            view@,
                            aligned as int,
                            y as int,
                            xx,
                        ));
                    }
                }
            }
            x += 1;
        }
        y += 1;
    }
}

/// What polling a pending readback gave.
#[derive(Debug, Clone, Copy, PartialEq, Eq)]
pub enum ReadbackPoll {
    /// No readback was pending.
    NonePending,
    /// The staging buffer has been mapped.
    Mapped,
    /// The staging buffer is not mapped yet.
    NotYet,
    /// The mapping will never be reported.
    Closed,
}

/// What to do after polling a pending readback.
#[derive(Debug, Clone, Copy, PartialEq, Eq)]
pub struct ReadbackStep {
    /// Copy the staging buffer into the CPU-side bytes.
    pub copy_bytes: bool,
    /// Whether a readback is still pending afterwards.
    pub still_pending: bool,
    /// Whether the readback is finished (or nothing was pending).
    pub finished: bool,
}

/// The step after a non-blocking poll of a readback: a mapped buffer is
/// copied and the readback ends; a closed channel ends it without a copy;
/// a buffer not mapped yet keeps it pending; with nothing pending there is
/// nothing to do.
pub fn try_finish_step(poll: ReadbackPoll) -> (s: ReadbackStep)
    ensures
        s == match poll {
            ReadbackPoll::NonePending => ReadbackStep {
                copy_bytes: false,
                still_pending: false,
                finished: true,
            },
            ReadbackPoll::Mapped => ReadbackStep {
                copy_bytes: true,
                still_pending: false,
                finished: true,
            },
            ReadbackPoll::NotYet => ReadbackStep {
                copy_bytes: false,
                still_pending: true,
                finished: false,
            },
            ReadbackPoll::Closed => ReadbackStep {
                copy_bytes: false,
                still_pending: false,
                finished: true,
            },
        },
{
    match poll {
        ReadbackPoll::NonePending => ReadbackStep {
            copy_bytes: false,
            still_pending: false,
            finished: true,
        },
        ReadbackPoll::Mapped => ReadbackStep { copy_bytes: true, still_pending: false, finished: true },
        ReadbackPoll::NotYet => ReadbackStep { copy_bytes: false, still_pending: true, finished: false },
        ReadbackPoll::Closed => ReadbackStep {
            copy_bytes: false,
            still_pending: false,
            finished: true,
        },
    }
}

} // verus!
