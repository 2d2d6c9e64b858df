//! The entropy cursor: a finite buffer of bytes that drives every choice.

use vstd::prelude::*;

verus! {

/// How many bytes a draw below `n` takes: as many as are needed to tell `n`
/// values apart, and eight at most.
pub open spec fn draw_width(n: int) -> int {
    if n <= 0x100 {
        1
    } else if n <= 0x1_0000 {
        2
    } else if n <= 0x100_0000 {
        3
    } else if n <= 0x1_0000_0000 {
        4
    } else if n <= 0x100_0000_0000 {
        5
    } else if n <= 0x1_0000_0000_0000 {
        6
    } else if n <= 0x100_0000_0000_0000 {
        7
    } else {
        8
    }
}

/// The byte at position `i`, and zero past the end of the buffer.
pub open spec fn byte_at(buffer: Seq<u8>, i: int) -> int {
    if 0 <= i < buffer.len() {
        buffer[i] as int
    } else {
        0
    }
}

/// The number that the `k` bytes from `position` on spell, most significant
/// byte first.
pub open spec fn draw_raw(buffer: Seq<u8>, position: int, k: int) -> int
    decreases k,
{
    if k <= 0 {
        0
    } else {
        draw_raw(buffer, position, k - 1) * 256 + byte_at(buffer, position + k - 1)
    }
}

/// The value of a draw below `n` at `position`.
pub open spec fn draw_value(buffer: Seq<u8>, position: int, n: int) -> int {
    draw_raw(buffer, position, draw_width(n)) % n
}

/// Where the cursor stands after a draw below `n` at `position`: past the
/// bytes of the draw, and never past the end of the buffer.
pub open spec fn draw_end(buffer: Seq<u8>, position: int, n: int) -> int {
    if position + draw_width(n) <= buffer.len() {
        position + draw_width(n)
    } else if position <= buffer.len() {
        buffer.len() as int
    } else {
        position
    }
}

/// `k` bytes spell a number below `256^k`, here for the widths in use.
pub proof fn lemma_draw_raw_bound(buffer: Seq<u8>, position: int, k: int)
    requires
        0 <= k <= 8,
    ensures
        0 <= draw_raw(buffer, position, k),
        k == 0 ==> draw_raw(buffer, position, k) < 1,
        k == 1 ==> draw_raw(buffer, position, k) < 0x100,
        k == 2 ==> draw_raw(buffer, position, k) < 0x1_0000,
        k == 3 ==> draw_raw(buffer, position, k) < 0x100_0000,
        k == 4 ==> draw_raw(buffer, position, k) < 0x1_0000_0000,
        k == 5 ==> draw_raw(buffer, position, k) < 0x100_0000_0000,
        k == 6 ==> draw_raw(buffer, position, k) < 0x1_0000_0000_0000,
        k == 7 ==> draw_raw(buffer, position, k) < 0x100_0000_0000_0000,
        k == 8 ==> draw_raw(buffer, position, k) < 0x1_0000_0000_0000_0000,
    decreases k,
{
    if k > 0 {
        lemma_draw_raw_bound(buffer, position, k - 1);
    }
}

/// A draw depends on the bytes of the buffer alone: two buffers that hold the
/// same bytes give the same value at the same position.
pub proof fn lemma_draw_is_a_function(a: Seq<u8>, b: Seq<u8>, position: int, n: int)
    requires
        a =~= b,
    ensures
        draw_value(a, position, n) == draw_value(b, position, n),
        draw_end(a, position, n) == draw_end(b, position, n),
{
}

/// A cursor over a buffer of entropy bytes.
pub struct EntropyCursor<'a> {
    buffer: &'a [u8],
    position: usize,
}

impl<'a> EntropyCursor<'a> {
    /// The bytes under the cursor.
    pub closed spec fn buffer(&self) -> Seq<u8> {
        self.buffer@
    }

    /// How many bytes have been consumed.
    pub closed spec fn spec_position(&self) -> int {
        self.position as int
    }

    /// A cursor at the start of `buffer`.
    pub fn new(buffer: &'a [u8]) -> (cursor: EntropyCursor<'a>)
        ensures
            cursor.buffer() == buffer@,
            cursor.spec_position() == 0,
    {
        EntropyCursor { buffer, position: 0 }
    }

    /// How many bytes have been consumed.
    pub fn position(&self) -> (p: usize)
        ensures
            p == self.spec_position(),
    {
        self.position
    }

    /// Whether every byte has been consumed.
    pub fn exhausted(&self) -> (b: bool)
        ensures
            b == (self.spec_position() >= self.buffer().len()),
    {
        self.position >= self.buffer.len()
    }

    /// Draws a number below `n`. The value depends on the buffer, the
    /// position and `n` alone; bytes past the end of the buffer count as
    /// zero. The cursor moves past the bytes of the draw and never back.
    pub fn draw_bounded(&mut self, n: u64) -> (value: u64)
        requires
            n > 0,
        ensures
            value == draw_value(old(self).buffer(), old(self).spec_position(), n as int),
            value < n,
            final(self).buffer() == old(self).buffer(),
            final(self).spec_position() == draw_end(
                old(self).buffer(),
                old(self).spec_position(),
                n as int,
            ),
            final(self).spec_position() >= old(self).spec_position(),
    {
        let width: usize = if n <= 0x100 {
            1
        } else if n <= 0x1_0000 {
            2
        } else if n <= 0x100_0000 {
            3
        } else if n <= 0x1_0000_0000 {
            4
        } else if n <= 0x100_0000_0000 {
            5
        } else if n <= 0x1_0000_0000_0000 {
            6
        } else if n <= 0x100_0000_0000_0000 {
            7
        } else {
            8
        };
        let start = self.position;
        let mut raw: u64 = 0;
        let mut k: usize = 0;
        while k < width
            invariant
                k <= width <= 8,
                width == draw_width(n as int),
                self.position == start,
                self.buffer@ == old(self).buffer@,
                raw == draw_raw(self.buffer@, start as int, k as int),
            decreases width - k,
        {
            proof {
                lemma_draw_raw_bound(self.buffer@, start as int, k as int);
                lemma_draw_raw_bound(self.buffer@, start as int, k + 1);
            }
            let byte: u8 = if start < self.buffer.len() && k < self.buffer.len() - start {
                self.buffer[start + k]
            } else {
                0
            };
            assert(byte as int == byte_at(self.buffer@, start + k));
            raw = raw * 256 + byte as u64;
            k += 1;
        }
        if start < self.buffer.len() {
            if width <= self.buffer.len() - start {
                self.position = start + width;
            } else {
                self.position = self.buffer.len();
            }
        }
        raw % n
    }
}

} // verus!
