use vstd::prelude::*;
use vstd::arithmetic::div_mod::{lemma_fundamental_div_mod, lemma_fundamental_div_mod_converse};

verus! {

/// Where the three planes of a decoded YV12 frame go in a locked streaming
/// texture: the texture's row pitch, the row strides of the Y, U and V planes,
/// and the frame height in rows.
pub struct Yv12Layout {
    pub pitch: usize,
    pub y_stride: usize,
    pub u_stride: usize,
    pub v_stride: usize,
    pub height: usize,
}

pub open spec fn min(a: int, b: int) -> int {
    if a <= b {
        a
    } else {
        b
    }
}

/// Number of chunks of `size` bytes (the last one possibly shorter) that `len` bytes are cut into.
pub open spec fn chunk_count(len: int, size: int) -> int {
    (len + size - 1) / size
}

/// Length of chunk `i` when `len` bytes are cut into chunks of `size` bytes.
pub open spec fn chunk_len(len: int, size: int, i: int) -> int {
    min(size, len - i * size)
}

impl Yv12Layout {
    /// Rows of the buffer that receive a row of the Y plane.
    pub open spec fn luma_rows(self, len: int) -> int {
        min(self.height as int, chunk_count(len, self.pitch as int))
    }

    /// Where the chroma rows start: the luma rows advance it by one Y stride each.
    pub open spec fn chroma_offset(self, len: int) -> int {
        self.luma_rows(len) * self.y_stride
    }

    /// Chroma rows are cut at half the pitch.
    pub open spec fn chroma_pitch(self) -> int {
        self.pitch as int / 2
    }

    /// Rows after the chroma offset that receive a U row followed by a V row.
    pub open spec fn chroma_rows(self, len: int) -> int {
        min(
            self.height as int / 2,
            chunk_count(len - self.chroma_offset(len), self.chroma_pitch()),
        )
    }

    /// Luma row `i` goes through: its buffer chunk holds a Y stride and the
    /// Y plane holds the row.
    pub open spec fn luma_row_fits(self, len: int, y_len: int, i: int) -> bool {
        &&& self.y_stride <= chunk_len(len, self.pitch as int, i)
        &&& (i + 1) * self.y_stride <= y_len
    }

    /// Chroma row `j` goes through: its chunk is exactly one U row and one V
    /// row, and the U and V planes hold those rows.
    pub open spec fn chroma_row_fits(self, len: int, u_len: int, v_len: int, j: int) -> bool {
        &&& chunk_len(len - self.chroma_offset(len), self.chroma_pitch(), j) == self.u_stride
            + self.v_stride
        &&& (j + 1) * self.u_stride <= u_len
        &&& (j + 1) * self.v_stride <= v_len
    }

    /// The copy of planes with these lengths into a buffer of `len` bytes
    /// goes through: every slice it takes lies in bounds and every chroma row
    /// holds exactly one U row and one V row.
    pub open spec fn fits(self, len: int, y_len: int, u_len: int, v_len: int) -> bool {
        &&& self.pitch >= 2
        &&& forall|i: int| 0 <= i < self.luma_rows(len) ==> #[trigger] self.luma_row_fits(len, y_len, i)
        &&& self.chroma_offset(len) <= len
        &&& forall|j: int|
            0 <= j < self.chroma_rows(len) ==> #[trigger] self.chroma_row_fits(len, u_len, v_len, j)
    }

    /// Byte `x` lies in one of the first `rows` luma rows, within the Y stride.
    pub open spec fn luma_written(self, x: int, rows: int) -> bool {
        x / (self.pitch as int) < rows && x % (self.pitch as int) < self.y_stride
    }

    /// Byte `x` of a buffer of `len` bytes lies in one of the first `rows` chroma rows.
    pub open spec fn chroma_written(self, len: int, x: int, rows: int) -> bool {
        self.chroma_offset(len) <= x && (x - self.chroma_offset(len)) / self.chroma_pitch() < rows
    }

    /// Byte `x` of the buffer once `luma` luma rows and then `chroma` chroma rows are copied.
    pub open spec fn byte_after(
        self,
        before: Seq<u8>,
        y: Seq<u8>,
        u: Seq<u8>,
        v: Seq<u8>,
        x: int,
        luma: int,
        chroma: int,
    ) -> u8 {
        let len = before.len() as int;
        let r = (x - self.chroma_offset(len)) / self.chroma_pitch();
        let k = (x - self.chroma_offset(len)) % self.chroma_pitch();
        if self.chroma_written(len, x, chroma) {
            if k < self.u_stride {
                u[r * self.u_stride + k]
            } else {
                v[r * self.v_stride + (k - self.u_stride)]
            }
        } else if self.luma_written(x, luma) {
            y[(x / (self.pitch as int)) * self.y_stride + x % (self.pitch as int)]
        } else {
            before[x]
        }
    }

    /// The buffer once every luma row and then every chroma row is copied.
    pub open spec fn filled(self, before: Seq<u8>, y: Seq<u8>, u: Seq<u8>, v: Seq<u8>) -> Seq<u8> {
        Seq::new(
            before.len(),
            |x: int|
                self.byte_after(
                    before,
                    y,
                    u,
                    v,
                    x,
                    self.luma_rows(before.len() as int),
                    self.chroma_rows(before.len() as int),
                ),
        )
    }
}

proof fn lemma_chunk_exists(len: int, size: int, i: int)
    requires
        size > 0,
        len >= 0,
        i >= 0,
    ensures
        (i < chunk_count(len, size)) == (i * size < len),
{
    let c = (len + size - 1) / size;
    lemma_fundamental_div_mod(len + size - 1, size);
    let r = (len + size - 1) % size;
    assert(len + size - 1 == size * c + r);
    if i < c {
        assert(i * size < len) by (nonlinear_arith)
            requires
                i < c,
                len + size - 1 == size * c + r,
                0 <= r < size,
                size > 0,
        ;
    } else {
        assert(i * size >= len) by (nonlinear_arith)
            requires
                i >= c,
                len + size - 1 == size * c + r,
                0 <= r < size,
                size > 0,
        ;
    }
}

proof fn lemma_row_col(x: int, size: int, i: int)
    requires
        size > 0,
        i * size <= x < i * size + size,
    ensures
        x / size == i,
        x % size == x - i * size,
{
    lemma_fundamental_div_mod_converse(x, size, i, x - i * size);
}

proof fn lemma_row_start(x: int, size: int)
    requires
        size > 0,
    ensures
        x == (x / size) * size + x % size,
        0 <= x % size < size,
{
    lemma_fundamental_div_mod(x, size);
    assert(size * (x / size) == (x / size) * size) by (nonlinear_arith);
}

proof fn lemma_next_row(i: int, size: int)
    ensures
        (i + 1) * size == i * size + size,
{
    assert((i + 1) * size == i * size + size) by (nonlinear_arith);
}

proof fn lemma_geometry_nonneg(layout: Yv12Layout, len: int)
    requires
        layout.pitch >= 2,
        len >= 0,
    ensures
        0 <= layout.luma_rows(len),
        0 <= layout.chroma_offset(len),
        layout.chroma_pitch() >= 1,
{
    let c = chunk_count(len, layout.pitch as int);
    assert(c >= 0) by (nonlinear_arith)
        requires
            c == (len + layout.pitch - 1) / (layout.pitch as int),
            len >= 0,
            layout.pitch >= 2,
    ;
    let lr = layout.luma_rows(len);
    assert(lr * layout.y_stride >= 0) by (nonlinear_arith)
        requires
            lr >= 0,
    ;
}

/// Past the first `rows` chroma rows: a byte at or after `off + rows * q`
/// lies in a chroma row with index at least `rows`.
proof fn lemma_beyond_rows(d: int, q: int, rows: int)
    requires
        q > 0,
        d >= rows * q,
        rows >= 0,
    ensures
        d / q >= rows,
{
    lemma_fundamental_div_mod(d, q);
    let r = d / q;
    let m = d % q;
    assert(r >= rows) by (nonlinear_arith)
        requires
            d == q * r + m,
            0 <= m < q,
            d >= rows * q,
            q > 0,
    ;
}

/// Law: `fits` holds exactly when the pitch is at least two, every luma
/// row's buffer chunk holds a Y stride and the Y plane holds that row, the
/// chroma offset lies within the buffer, and every chroma chunk is exactly
/// one U row and one V row long with the U and V planes holding row `j`.
pub proof fn lemma_fits_exactly(layout: Yv12Layout, len: int, y_len: int, u_len: int, v_len: int)
    ensures
        layout.fits(len, y_len, u_len, v_len) <==> {
            &&& layout.pitch >= 2
            &&& forall|i: int|
                0 <= i < layout.luma_rows(len) ==> layout.y_stride <= #[trigger] chunk_len(
                    len,
                    layout.pitch as int,
                    i,
                ) && (i + 1) * layout.y_stride <= y_len
            &&& layout.chroma_offset(len) <= len
            &&& forall|j: int|
                0 <= j < layout.chroma_rows(len) ==> #[trigger] chunk_len(
                    len - layout.chroma_offset(len),
                    layout.pitch as int / 2,
                    j,
                ) == layout.u_stride + layout.v_stride && (j + 1) * layout.u_stride <= u_len && (j
                    + 1) * layout.v_stride <= v_len
        },
{
    if layout.fits(len, y_len, u_len, v_len) {
        assert forall|j: int| 0 <= j < layout.chroma_rows(len) implies #[trigger] chunk_len(
            len - layout.chroma_offset(len),
            layout.pitch as int / 2,
            j,
        ) == layout.u_stride + layout.v_stride && (j + 1) * layout.u_stride <= u_len && (j + 1)
            * layout.v_stride <= v_len by {
            assert(layout.chroma_row_fits(len, u_len, v_len, j));
        }
        assert forall|i: int| 0 <= i < layout.luma_rows(len) implies layout.y_stride
            <= #[trigger] chunk_len(len, layout.pitch as int, i) && (i + 1) * layout.y_stride
            <= y_len by {
            assert(layout.luma_row_fits(len, y_len, i));
        }
    }
}

/// Law: chroma row `j` of the filled buffer holds U row `j` followed by V
/// row `j`, the row starting `j` half-pitches after the chroma offset.
pub proof fn lemma_filled_chroma_row(
    layout: Yv12Layout,
    before: Seq<u8>,
    y: Seq<u8>,
    u: Seq<u8>,
    v: Seq<u8>,
    j: int,
    k: int,
)
    requires
        layout.fits(before.len() as int, y.len() as int, u.len() as int, v.len() as int),
        0 <= j < layout.chroma_rows(before.len() as int),
        0 <= k < layout.u_stride + layout.v_stride,
    ensures
        0 <= layout.chroma_offset(before.len() as int) + j * (layout.pitch as int / 2) + k
            < before.len(),
        k < layout.u_stride ==> layout.filled(before, y, u, v)[layout.chroma_offset(
            before.len() as int,
        ) + j * (layout.pitch as int / 2) + k] == u[j * layout.u_stride + k],
        k >= layout.u_stride ==> layout.filled(before, y, u, v)[layout.chroma_offset(
            before.len() as int,
        ) + j * (layout.pitch as int / 2) + k] == v[j * layout.v_stride + (k - layout.u_stride)],
{
    let len = before.len() as int;
    let off = layout.chroma_offset(len);
    let q = layout.chroma_pitch();
    lemma_geometry_nonneg(layout, len);
    lemma_chunk_exists(len - off, q, j);
    assert(layout.chroma_row_fits(len, u.len() as int, v.len() as int, j));
    assert(j * q >= 0) by (nonlinear_arith)
        requires
            j >= 0,
            q >= 1,
    ;
    let x = off + j * q + k;
    lemma_row_col(x - off, q, j);
    assert(layout.chroma_written(len, x, layout.chroma_rows(len)));
}

/// Law: a luma row's bytes that no chroma row covers hold the matching Y
/// row: byte `k` of buffer row `i` is byte `k` of Y row `i`.
pub proof fn lemma_filled_luma_row(
    layout: Yv12Layout,
    before: Seq<u8>,
    y: Seq<u8>,
    u: Seq<u8>,
    v: Seq<u8>,
    i: int,
    k: int,
)
    requires
        layout.fits(before.len() as int, y.len() as int, u.len() as int, v.len() as int),
        0 <= i < layout.luma_rows(before.len() as int),
        0 <= k < layout.y_stride,
        i * layout.pitch + k < layout.chroma_offset(before.len() as int) || i * layout.pitch + k
            >= layout.chroma_offset(before.len() as int) + layout.chroma_rows(before.len() as int)
            * (layout.pitch as int / 2),
    ensures
        0 <= i * layout.pitch + k < before.len(),
        layout.filled(before, y, u, v)[i * layout.pitch + k] == y[i * layout.y_stride + k],
{
    let len = before.len() as int;
    let p = layout.pitch as int;
    let off = layout.chroma_offset(len);
    let q = layout.chroma_pitch();
    lemma_geometry_nonneg(layout, len);
    lemma_chunk_exists(len, p, i);
    assert(layout.luma_row_fits(len, y.len() as int, i));
    assert(i * p >= 0) by (nonlinear_arith)
        requires
            i >= 0,
            p >= 2,
    ;
    let x = i * p + k;
    lemma_row_col(x, p, i);
    if x >= off {
        lemma_beyond_rows(x - off, q, layout.chroma_rows(len));
    }
    assert(!layout.chroma_written(len, x, layout.chroma_rows(len)));
}

/// Law: a byte that lies in no luma row's Y stride and in no chroma row
/// keeps the value it had before the copy.
pub proof fn lemma_filled_untouched(
    layout: Yv12Layout,
    before: Seq<u8>,
    y: Seq<u8>,
    u: Seq<u8>,
    v: Seq<u8>,
    x: int,
)
    requires
        layout.fits(before.len() as int, y.len() as int, u.len() as int, v.len() as int),
        0 <= x < before.len(),
        x / (layout.pitch as int) >= layout.luma_rows(before.len() as int) || x % (
        layout.pitch as int) >= layout.y_stride,
        x < layout.chroma_offset(before.len() as int) || x >= layout.chroma_offset(
            before.len() as int,
        ) + layout.chroma_rows(before.len() as int) * (layout.pitch as int / 2),
    ensures
        layout.filled(before, y, u, v)[x] == before[x],
{
    let len = before.len() as int;
    let off = layout.chroma_offset(len);
    let q = layout.chroma_pitch();
    lemma_geometry_nonneg(layout, len);
    if x >= off {
        lemma_beyond_rows(x - off, q, layout.chroma_rows(len));
    }
    assert(!layout.chroma_written(len, x, layout.chroma_rows(len)));
}

/// Copies `n` bytes of `src`, starting at `src_start`, into `buffer` at `dst_start`.
fn copy_segment(buffer: &mut [u8], dst_start: usize, src: &[u8], src_start: usize, n: usize)
    requires
        dst_start + n <= old(buffer)@.len(),
        src_start + n <= src@.len(),
    ensures
        final(buffer)@.len() == old(buffer)@.len(),
        forall|x: int|
            0 <= x < old(buffer)@.len() ==> #[trigger] final(buffer)@[x] == if dst_start <= x
                < dst_start + n {
                src@[src_start + (x - dst_start)]
            } else {
                old(buffer)@[x]
            },
{
    let buffer_len = buffer.len();
    let src_len = src.len();
    let mut k: usize = 0;
    while k < n
        invariant
            k <= n,
            buffer_len == buffer@.len(),
            src_len == src@.len(),
            dst_start + n <= buffer@.len(),
            src_start + n <= src@.len(),
            buffer@.len() == old(buffer)@.len(),
            forall|x: int|
                0 <= x < old(buffer)@.len() ==> #[trigger] buffer@[x] == if dst_start <= x
                    < dst_start + k {
                    src@[src_start + (x - dst_start)]
                } else {
                    old(buffer)@[x]
                },
        decreases n - k,
    {
        buffer[dst_start + k] = src[src_start + k];
        k = k + 1;
    }
}

impl Yv12Layout {
    /// Tells whether `copy_yv12_planes` can copy planes of these lengths into
    /// a buffer of `buffer_len` bytes: exactly when the pitch is at least two,
    /// every luma row's chunk holds a Y stride and the Y plane holds the row,
    /// the chroma offset lies in the buffer, and every chroma chunk is one U
    /// row and one V row long with the U and V planes holding that row.
    pub fn check_fits(&self, buffer_len: usize, y_len: usize, u_len: usize, v_len: usize) -> (r: bool)
        ensures
            r == self.fits(buffer_len as int, y_len as int, u_len as int, v_len as int),
            r == (self.pitch >= 2 && (forall|i: int|
                0 <= i < self.luma_rows(buffer_len as int) ==> self.y_stride <= #[trigger] chunk_len(
                    buffer_len as int,
                    self.pitch as int,
                    i,
                ) && (i + 1) * self.y_stride <= y_len) && self.chroma_offset(buffer_len as int)
                <= buffer_len && (forall|j: int|
                0 <= j < self.chroma_rows(buffer_len as int) ==> #[trigger] chunk_len(
                    buffer_len as int - self.chroma_offset(buffer_len as int),
                    self.pitch as int / 2,
                    j,
                ) == self.u_stride + self.v_stride && (j + 1) * self.u_stride <= u_len && (j + 1)
                    * self.v_stride <= v_len)),
    {
        let r = self.rows_fit(buffer_len, y_len, u_len, v_len);
        proof {
            lemma_fits_exactly(*self, buffer_len as int, y_len as int, u_len as int, v_len as int);
        }
        r
    }

    fn rows_fit(&self, buffer_len: usize, y_len: usize, u_len: usize, v_len: usize) -> (r: bool)
        ensures
            r == self.fits(buffer_len as int, y_len as int, u_len as int, v_len as int),
    {
        let ghost ilen = buffer_len as int;
        let len = buffer_len;
        let p = self.pitch;
        let ys = self.y_stride;
        if p < 2 {
            return false;
        }
        let mut i: usize = 0;
        let mut start: usize = 0;
        let mut src: usize = 0;
        let mut more: bool = len > 0;
        while i < self.height && more
            invariant
                ilen == len,
                len == buffer_len,
                p == self.pitch,
                p >= 2,
                ys == self.y_stride,
                i <= self.height,
                src == i * ys,
                src <= y_len,
                more ==> start == i * p,
                more <==> i * p < len,
                i <= self.luma_rows(ilen),
                forall|i2: int| 0 <= i2 < i ==> #[trigger] self.luma_row_fits(ilen, y_len as int, i2),
            decreases self.height - i,
        {
            proof {
                lemma_chunk_exists(ilen, p as int, i as int);
                lemma_next_row(i as int, ys as int);
                lemma_next_row(i as int, p as int);
            }
            let chunk = if p < len - start {
                p
            } else {
                len - start
            };
            assert(chunk == chunk_len(ilen, p as int, i as int));
            if ys > chunk || ys > y_len - src {
                assert(!self.luma_row_fits(ilen, y_len as int, i as int));
                return false;
            }
            assert(self.luma_row_fits(ilen, y_len as int, i as int));
            i = i + 1;
            src = src + ys;
            if p < len - start {
                start = start + p;
            } else {
                more = false;
            }
        }
        proof {
            lemma_chunk_exists(ilen, p as int, i as int);
            assert(i == self.luma_rows(ilen));
        }
        let off = src;
        if off > len {
            return false;
        }
        let ghost ioff = off as int;
        let q = p / 2;
        let us = self.u_stride;
        let vs = self.v_stride;
        let half = self.height / 2;
        let mut j: usize = 0;
        let mut row: usize = off;
        let mut su: usize = 0;
        let mut sv: usize = 0;
        let mut more: bool = off < len;
        while j < half && more
            invariant
                ilen == len,
                len == buffer_len,
                p == self.pitch,
                p >= 2,
                q == self.chroma_pitch(),
                q > 0,
                us == self.u_stride,
                vs == self.v_stride,
                half == self.height / 2,
                ioff == off,
                off == self.chroma_offset(ilen),
                off <= len,
                forall|i2: int|
                    0 <= i2 < self.luma_rows(ilen) ==> #[trigger] self.luma_row_fits(
                        ilen,
                        y_len as int,
                        i2,
                    ),
                j <= half,
                su == j * us,
                sv == j * vs,
                su <= u_len,
                sv <= v_len,
                more ==> row == off + j * q,
                more <==> j * q < len - off,
                j <= self.chroma_rows(ilen),
                forall|j2: int|
                    0 <= j2 < j ==> #[trigger] self.chroma_row_fits(
                        ilen,
                        u_len as int,
                        v_len as int,
                        j2,
                    ),
            decreases half - j,
        {
            proof {
                lemma_chunk_exists(ilen - ioff, q as int, j as int);
                lemma_next_row(j as int, us as int);
                lemma_next_row(j as int, vs as int);
                lemma_next_row(j as int, q as int);
            }
            let chunk = if q < len - row {
                q
            } else {
                len - row
            };
            assert(chunk == chunk_len(ilen - ioff, q as int, j as int));
            if us > chunk || chunk - us != vs || us > u_len - su || vs > v_len - sv {
                assert(!self.chroma_row_fits(ilen, u_len as int, v_len as int, j as int));
                return false;
            }
            assert(self.chroma_row_fits(ilen, u_len as int, v_len as int, j as int));
            j = j + 1;
            su = su + us;
            sv = sv + vs;
            if q < len - row {
                row = row + q;
            } else {
                more = false;
            }
        }
        proof {
            lemma_chunk_exists(ilen - ioff, q as int, j as int);
            assert(j == self.chroma_rows(ilen));
            assert(self.fits(ilen, y_len as int, u_len as int, v_len as int));
        }
        true
    }
}

/// Copies the Y, U and V planes of a decoded frame into a locked texture
/// buffer: row `i` of the Y plane (one Y stride) goes to the start of the
/// buffer's row `i` (one pitch), for each frame row that has a buffer row;
/// then, from the offset the Y rows reached at one Y stride each, the buffer
/// is cut at half the pitch, and each of the first half-height of those rows
/// receives a U row followed by a V row.
pub fn copy_yv12_planes(buffer: &mut [u8], layout: &Yv12Layout, y: &[u8], u: &[u8], v: &[u8])
    requires
        layout.fits(old(buffer)@.len() as int, y@.len() as int, u@.len() as int, v@.len() as int),
    ensures
        final(buffer)@ == layout.filled(old(buffer)@, y@, u@, v@),
        final(buffer)@.len() == old(buffer)@.len(),
        forall|j: int, k: int|
            0 <= j < layout.chroma_rows(old(buffer)@.len() as int) && 0 <= k < layout.u_stride
                ==> #[trigger] final(buffer)@[layout.chroma_offset(old(buffer)@.len() as int) + j * (
            layout.pitch as int / 2) + k] == u@[j * layout.u_stride + k],
        forall|j: int, k: int|
            0 <= j < layout.chroma_rows(old(buffer)@.len() as int) && 0 <= k < layout.v_stride
                ==> #[trigger] final(buffer)@[layout.chroma_offset(old(buffer)@.len() as int) + j * (
            layout.pitch as int / 2) + layout.u_stride + k] == v@[j * layout.v_stride + k],
        forall|i: int, k: int|
            0 <= i < layout.luma_rows(old(buffer)@.len() as int) && 0 <= k < layout.y_stride && (i
                * layout.pitch + k < layout.chroma_offset(old(buffer)@.len() as int) || i
                * layout.pitch + k >= layout.chroma_offset(old(buffer)@.len() as int)
                + layout.chroma_rows(old(buffer)@.len() as int) * (layout.pitch as int / 2))
                ==> #[trigger] final(buffer)@[i * layout.pitch + k] == y@[i * layout.y_stride + k],
        forall|x: int|
            0 <= x < old(buffer)@.len() && (x / (layout.pitch as int) >= layout.luma_rows(
                old(buffer)@.len() as int,
            ) || x % (layout.pitch as int) >= layout.y_stride) && (x < layout.chroma_offset(
                old(buffer)@.len() as int,
            ) || x >= layout.chroma_offset(old(buffer)@.len() as int) + layout.chroma_rows(
                old(buffer)@.len() as int,
            ) * (layout.pitch as int / 2)) ==> #[trigger] final(buffer)@[x] == old(buffer)@[x],
{
    let len = buffer.len();
    let y_len = y.len();
    let u_len = u.len();
    let v_len = v.len();
    let ghost old_buf = buffer@;
    let ghost ilen = len as int;
    let p = layout.pitch;
    let ys = layout.y_stride;
    let mut i: usize = 0;
    let mut start: usize = 0;
    let mut src: usize = 0;
    let mut more: bool = len > 0;
    while i < layout.height && more
        invariant
            len == buffer@.len(),
            old_buf == old(buffer)@,
            old_buf.len() == len,
            ilen == len,
            p == layout.pitch,
            ys == layout.y_stride,
            layout.fits(ilen, y@.len() as int, u@.len() as int, v@.len() as int),
            y_len == y@.len(),
            i <= layout.height,
            src == i * ys,
            more ==> start == i * p,
            more <==> i * p < len,
            i <= layout.luma_rows(ilen),
            forall|x: int|
                0 <= x < len ==> #[trigger] buffer@[x] == layout.byte_after(
                    old_buf,
                    y@,
                    u@,
                    v@,
                    x,
                    i as int,
                    0,
                ),
        decreases layout.height - i,
    {
        proof {
            lemma_chunk_exists(ilen, p as int, i as int);
            assert(layout.luma_row_fits(ilen, y@.len() as int, i as int));
            lemma_next_row(i as int, ys as int);
        }
        let ghost prev = buffer@;
        copy_segment(buffer, start, y, src, ys);
        proof {
            assert forall|x: int| 0 <= x < len implies #[trigger] buffer@[x] == layout.byte_after(
                old_buf,
                y@,
                u@,
                v@,
                x,
                i + 1,
                0,
            ) by {
                lemma_row_start(x, p as int);
                if start <= x < start + ys {
                    lemma_row_col(x, p as int, i as int);
                } else {
                    assert(prev[x] == buffer@[x]);
                    if x / (p as int) == i && x % (p as int) < ys {
                        assert(x == i * p + x % (p as int));
                    }
                }
            }
        }
        proof {
            lemma_next_row(i as int, p as int);
        }
        i = i + 1;
        src = src + ys;
        if p < len - start {
            start = start + p;
        } else {
            more = false;
        }
    }
    proof {
        lemma_chunk_exists(ilen, p as int, i as int);
        assert(i == layout.luma_rows(ilen));
    }
    let off = src;
    let ghost ioff = off as int;
    let q = p / 2;
    let us = layout.u_stride;
    let vs = layout.v_stride;
    let half = layout.height / 2;
    let mut j: usize = 0;
    let mut row: usize = off;
    let mut su: usize = 0;
    let mut sv: usize = 0;
    let mut more: bool = off < len;
    while j < half && more
        invariant
            len == buffer@.len(),
            old_buf == old(buffer)@,
            old_buf.len() == len,
            ilen == len,
            p == layout.pitch,
            q == layout.chroma_pitch(),
            q > 0,
            us == layout.u_stride,
            vs == layout.v_stride,
            half == layout.height / 2,
            ioff == off,
            off == layout.chroma_offset(ilen),
            off <= len,
            layout.fits(ilen, y@.len() as int, u@.len() as int, v@.len() as int),
            u_len == u@.len(),
            v_len == v@.len(),
            j <= half,
            su == j * us,
            sv == j * vs,
            more ==> row == off + j * q,
            more <==> j * q < len - off,
            j <= layout.chroma_rows(ilen),
            forall|x: int|
                0 <= x < len ==> #[trigger] buffer@[x] == layout.byte_after(
                    old_buf,
                    y@,
                    u@,
                    v@,
                    x,
                    layout.luma_rows(ilen),
                    j as int,
                ),
        decreases half - j,
    {
        proof {
            lemma_chunk_exists(ilen - ioff, q as int, j as int);
            assert(layout.chroma_row_fits(ilen, u@.len() as int, v@.len() as int, j as int));
            lemma_next_row(j as int, us as int);
            lemma_next_row(j as int, vs as int);
        }
        let ghost prev = buffer@;
        copy_segment(buffer, row, u, su, us);
        let ghost mid = buffer@;
        copy_segment(buffer, row + us, v, sv, vs);
        proof {
            assert forall|x: int| 0 <= x < len implies #[trigger] buffer@[x] == layout.byte_after(
                old_buf,
                y@,
                u@,
                v@,
                x,
                layout.luma_rows(ilen),
                j + 1,
            ) by {
                lemma_row_start(x - ioff, q as int);
                assert(mid[x] == buffer@[x] || (row + us <= x < row + us + vs));
                assert(prev[x] == mid[x] || (row <= x < row + us));
                if row <= x < row + us + vs {
                    lemma_row_col(x - ioff, q as int, j as int);
                } else {
                    if ioff <= x && (x - ioff) / (q as int) == j {
                        assert(x - ioff == j * q + (x - ioff) % (q as int));
                    }
                }
            }
        }
        proof {
            lemma_next_row(j as int, q as int);
        }
        j = j + 1;
        su = su + us;
        sv = sv + vs;
        if q < len - row {
            row = row + q;
        } else {
            more = false;
        }
    }
    proof {
        lemma_chunk_exists(ilen - ioff, q as int, j as int);
        assert(j == layout.chroma_rows(ilen));
        assert(buffer@ =~= layout.filled(old_buf, y@, u@, v@));
        let ulen = u@.len() as int;
        assert forall|j: int, k: int|
            0 <= j < layout.chroma_rows(ilen) && 0 <= k < layout.u_stride implies #[trigger] buffer@[
            layout.chroma_offset(ilen) + j * (layout.pitch as int / 2) + k] == u@[j
            * layout.u_stride + k] by {
            lemma_filled_chroma_row(*layout, old_buf, y@, u@, v@, j, k);
        }
        assert forall|j: int, k: int|
            0 <= j < layout.chroma_rows(ilen) && 0 <= k < layout.v_stride implies #[trigger] buffer@[
            layout.chroma_offset(ilen) + j * (layout.pitch as int / 2) + layout.u_stride + k] == v@[
            j * layout.v_stride + k] by {
            lemma_filled_chroma_row(*layout, old_buf, y@, u@, v@, j, layout.u_stride + k);
        }
        assert forall|i: int, k: int|
            0 <= i < layout.luma_rows(ilen) && 0 <= k < layout.y_stride && (i * layout.pitch + k
                < layout.chroma_offset(ilen) || i * layout.pitch + k >= layout.chroma_offset(ilen)
                + layout.chroma_rows(ilen) * (layout.pitch as int / 2)) implies #[trigger] buffer@[i
            * layout.pitch + k] == y@[i * layout.y_stride + k] by {
            lemma_filled_luma_row(*layout, old_buf, y@, u@, v@, i, k);
        }
        assert forall|x: int|
            0 <= x < len && (x / (layout.pitch as int) >= layout.luma_rows(ilen) || x % (
            layout.pitch as int) >= layout.y_stride) && (x < layout.chroma_offset(ilen) || x
                >= layout.chroma_offset(ilen) + layout.chroma_rows(ilen) * (layout.pitch as int
                / 2)) implies #[trigger] buffer@[x] == old_buf[x] by {
            lemma_filled_untouched(*layout, old_buf, y@, u@, v@, x);
        }
    }
}

} // verus!
