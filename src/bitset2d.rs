use core::ops::Range;
use vstd::prelude::*;

verus! {

/// A set of integer points stored as packed bits over the bounding box of the
/// points inserted so far.
///
/// The X range is always a whole number of 64-aligned chunks; each row of the
/// box holds one word per chunk, rows stored one after another.
pub struct BitSet2d {
    bits: Vec<u64>,
    x_range: Range<isize>,
    y_range: Range<isize>,
}

/// Whether bit `b` of `w` is set (bit 0 is the lowest).
pub open spec fn bit_set(w: u64, b: u64) -> bool {
    (w >> b) & 1u64 == 1u64
}

/// The word at row `r`, column `c` of a row-major grid with `span` words per row.
pub open spec fn cell(s: Seq<u64>, span: int, r: int, c: int) -> u64 {
    s[r * span + c]
}

/// Start of the 64-wide, 64-aligned chunk that holds `x` (floor alignment).
pub open spec fn chunk_start(x: int) -> int {
    (x / 64) * 64
}

proof fn lemma_chunk_bits(x: isize)
    ensures
        x >= 0 ==> (x & !63isize) as int == chunk_start(x as int),
        x < 0 ==> ((x | 63isize) - 63) as int == chunk_start(x as int),
{
    assert(x >= 0 ==> (x & !63isize) == x - (x & 63isize)) by (bit_vector);
    assert(x < 0 ==> (x | 63isize) - 63 == x - (x & 63isize)) by (bit_vector);
    assert((x & 63isize) == x % 64) by (bit_vector);
    vstd::arithmetic::div_mod::lemma_fundamental_div_mod(x as int, 64);
}

/// Start of the chunk that holds `x`; never overflows.
fn chunk_floor(x: isize) -> (r: isize)
    ensures
        r as int == chunk_start(x as int),
{
    proof {
        lemma_chunk_bits(x);
    }
    if x >= 0 {
        x & !63
    } else {
        (x | 63) - 63
    }
}

/// The 64-wide, 64-aligned range that holds `x`, aligned toward negative
/// infinity.
pub fn x_chunk_cover(x: isize) -> (r: Range<isize>)
    requires
        chunk_start(x as int) + 64 <= isize::MAX,
    ensures
        r.start as int == chunk_start(x as int),
        r.end as int == chunk_start(x as int) + 64,
{
    let min = chunk_floor(x);
    min..(min + 64)
}

impl View for BitSet2d {
    type V = Set<(int, int)>;

    open spec fn view(&self) -> Set<(int, int)> {
        Set::new(|p: (int, int)| self.has(p.0, p.1))
    }
}

impl BitSet2d {
    pub closed spec fn x_lo(&self) -> int {
        self.x_range.start as int
    }

    pub closed spec fn x_hi(&self) -> int {
        self.x_range.end as int
    }

    pub closed spec fn y_lo(&self) -> int {
        self.y_range.start as int
    }

    pub closed spec fn y_hi(&self) -> int {
        self.y_range.end as int
    }

    /// The packed words, row after row.
    pub closed spec fn words(&self) -> Seq<u64> {
        self.bits@
    }

    /// Words per row.
    pub open spec fn row_span(&self) -> int {
        (self.x_hi() - self.x_lo()) / 64
    }

    /// Number of rows.
    pub open spec fn height(&self) -> int {
        self.y_hi() - self.y_lo()
    }

    pub open spec fn is_empty_box(&self) -> bool {
        self.x_lo() == 0 && self.x_hi() == 0 && self.y_lo() == 0 && self.y_hi() == 0
    }

    /// Both values cover the same box.
    pub open spec fn same_box(&self, o: Self) -> bool {
        &&& self.x_lo() == o.x_lo()
        &&& self.x_hi() == o.x_hi()
        &&& self.y_lo() == o.y_lo()
        &&& self.y_hi() == o.y_hi()
    }

    /// Left edge of the box once `x` is covered.
    pub open spec fn grown_x_lo(&self, x: int) -> int {
        if self.is_empty_box() || chunk_start(x) < self.x_lo() {
            chunk_start(x)
        } else {
            self.x_lo()
        }
    }

    /// Right edge (exclusive) of the box once `x` is covered.
    pub open spec fn grown_x_hi(&self, x: int) -> int {
        if self.is_empty_box() || chunk_start(x) + 64 > self.x_hi() {
            chunk_start(x) + 64
        } else {
            self.x_hi()
        }
    }

    /// Bottom edge of the box once `y` is covered.
    pub open spec fn grown_y_lo(&self, y: int) -> int {
        if self.is_empty_box() || y < self.y_lo() {
            y
        } else {
            self.y_lo()
        }
    }

    /// Top edge (exclusive) of the box once `y` is covered.
    pub open spec fn grown_y_hi(&self, y: int) -> int {
        if self.is_empty_box() || y + 1 > self.y_hi() {
            y + 1
        } else {
            self.y_hi()
        }
    }

    /// Whether the box that covers `(x, y)` as well has edges that fit in an
    /// `isize` and a word count whose bytes fit in an `isize`.
    pub open spec fn can_cover(&self, x: int, y: int) -> bool {
        &&& chunk_start(x) + 64 <= isize::MAX
        &&& y + 1 <= isize::MAX
        &&& self.grown_x_hi(x) - self.grown_x_lo(x) <= isize::MAX
        &&& self.grown_y_hi(y) - self.grown_y_lo(y) <= isize::MAX
        &&& (self.grown_x_hi(x) - self.grown_x_lo(x)) / 64 * (self.grown_y_hi(y) - self.grown_y_lo(
            y,
        )) * 8 <= isize::MAX
    }

    /// `self` is `before` after inserting `(x, y)`: the point is added, and
    /// the box grows just enough to cover it.
    pub open spec fn inserted(&self, before: Self, x: int, y: int) -> bool {
        &&& self.wf()
        &&& self@ == before@.insert((x, y))
        &&& self.x_lo() == before.grown_x_lo(x)
        &&& self.x_hi() == before.grown_x_hi(x)
        &&& self.y_lo() == before.grown_y_lo(y)
        &&& self.y_hi() == before.grown_y_hi(y)
    }

    /// `self` is `before` after removing `(x, y)`: the point is gone, and the
    /// box and the word count are as they were.
    pub open spec fn removed(&self, before: Self, x: int, y: int) -> bool {
        &&& self.wf()
        &&& self@ == before@.remove((x, y))
        &&& self.same_box(before)
        &&& self.words().len() == before.words().len()
    }

    /// Whether `(x, y)` lies in the box that has storage.
    pub open spec fn covers(&self, x: int, y: int) -> bool {
        self.x_lo() <= x < self.x_hi() && self.y_lo() <= y < self.y_hi()
    }

    /// Whether the bit for `(x, y)` is set; false outside the box.
    pub open spec fn has(&self, x: int, y: int) -> bool {
        &&& self.covers(x, y)
        &&& bit_set(
            cell(self.words(), self.row_span(), y - self.y_lo(), (x - self.x_lo()) / 64),
            ((x - self.x_lo()) % 64) as u64,
        )
    }

    /// The box is empty with no words, or a non-empty box of whole aligned
    /// chunks with exactly one word per chunk and row.
    pub open spec fn wf(&self) -> bool {
        &&& self.x_lo() % 64 == 0
        &&& self.x_hi() % 64 == 0
        &&& self.x_lo() <= self.x_hi()
        &&& (self.x_hi() - self.x_lo()) % 64 == 0
        &&& self.y_lo() <= self.y_hi()
        &&& self.x_hi() - self.x_lo() <= isize::MAX
        &&& self.y_hi() - self.y_lo() <= isize::MAX
        &&& self.words().len() == self.row_span() * self.height()
        &&& self.words().len() <= usize::MAX
        &&& (self.is_empty_box() && self.words().len() == 0) || (self.x_lo() < self.x_hi()
            && self.y_lo() < self.y_hi() && self.words().len() > 0)
    }

    /// An empty set: no box, no words.
    pub fn new() -> (r: Self)
        ensures
            r.wf(),
            r.is_empty_box(),
            r@ == Set::<(int, int)>::empty(),
    {
        let r = BitSet2d { bits: Vec::new(), x_range: 0..0, y_range: 0..0 };
        assert(r.row_span() == 0);
        assert(r@ =~= Set::<(int, int)>::empty());
        r
    }

    /// Adds `p`, first growing the box to the chunks and rows that cover it;
    /// every point already present stays present.
    pub fn insert(&mut self, p: (isize, isize))
        requires
            old(self).wf(),
            old(self).can_cover(p.0 as int, p.1 as int),
        ensures
            final(self).inserted(*old(self), p.0 as int, p.1 as int),
    {
        self.cover(p);
        proof {
            lemma_chunk(p.0 as int);
        }
        let (index, bit) = self.index(p);
        let ghost before = *self;
        let w = self.bits[index];
        self.bits[index] = w | (1u64 << (bit as u64));
        proof {
            lemma_set_bit(w, bit as u64);
            self.lemma_word_write(before, p.0 as int, p.1 as int);
            assert(self@ =~= old(self)@.insert((p.0 as int, p.1 as int)));
        }
    }

    /// Whether `insert(p)` stays within the machine's limits: the grown box
    /// has edges and a width that fit in an `isize`, and its words fit in
    /// memory.
    pub fn can_insert(&self, p: (isize, isize)) -> (r: bool)
        requires
            self.wf(),
        ensures
            r == self.can_cover(p.0 as int, p.1 as int),
    {
        let (x, y) = p;
        let s: i128 = chunk_floor(x) as i128;
        let e: i128 = s + 64;
        let yi: i128 = y as i128;
        let empty = self.bits.len() == 0;
        let lo: i128 = if empty || s < self.x_range.start as i128 {
            s
        } else {
            self.x_range.start as i128
        };
        let hi: i128 = if empty || e > self.x_range.end as i128 {
            e
        } else {
            self.x_range.end as i128
        };
        let y_lo: i128 = if empty || yi < self.y_range.start as i128 {
            yi
        } else {
            self.y_range.start as i128
        };
        let y_hi: i128 = if empty || yi + 1 > self.y_range.end as i128 {
            yi + 1
        } else {
            self.y_range.end as i128
        };
        if e > isize::MAX as i128 || yi + 1 > isize::MAX as i128 || hi - lo > isize::MAX as i128
            || y_hi - y_lo > isize::MAX as i128 {
            return false;
        }
        let span: i128 = (hi - lo) / 64;
        assert(0 <= span * (y_hi - y_lo) <= 0x0200_0000_0000_0000i128 * 0x8000_0000_0000_0000i128)
            by (nonlinear_arith)
            requires
                0 <= span <= 0x0200_0000_0000_0000i128,
                0 <= y_hi - y_lo <= 0x8000_0000_0000_0000i128,
        ;
        span * (y_hi - y_lo) * 8 <= isize::MAX as i128
    }

    /// The covered X range: a whole number of 64-aligned chunks.
    pub fn x_range(&self) -> (r: Range<isize>)
        ensures
            r.start == self.x_lo(),
            r.end == self.x_hi(),
    {
        self.x_range.start..self.x_range.end
    }

    /// The covered Y range, one row per value.
    pub fn y_range(&self) -> (r: Range<isize>)
        ensures
            r.start == self.y_lo(),
            r.end == self.y_hi(),
    {
        self.y_range.start..self.y_range.end
    }

    /// The packed words, row after row.
    pub fn bits(&self) -> (r: &Vec<u64>)
        ensures
            r@ == self.words(),
    {
        &self.bits
    }

    /// Whether `p` is present; a point outside the box is not.
    pub fn contains(&self, p: (isize, isize)) -> (r: bool)
        requires
            self.wf(),
        ensures
            r == self@.contains((p.0 as int, p.1 as int)),
    {
        let (x, y) = p;
        if !(self.x_range.start <= x && x < self.x_range.end) || !(self.y_range.start <= y
            && y < self.y_range.end) {
            return false;
        }
        let (index, bit) = self.index(p);
        get_bit(&self.bits[index], bit)
    }

    /// Removes `p` and says whether it was present. A point outside the box
    /// was not, and nothing changes: the box never grows to answer.
    pub fn remove(&mut self, p: (isize, isize)) -> (r: bool)
        requires
            old(self).wf(),
        ensures
            r == old(self)@.contains((p.0 as int, p.1 as int)),
            final(self).removed(*old(self), p.0 as int, p.1 as int),
    {
        let (x, y) = p;
        if self.x_range.start <= x && x < self.x_range.end && self.y_range.start <= y && y
            < self.y_range.end {
            let (index, bit) = self.index(p);
            let ghost before = *self;
            let w = self.bits[index];
            let m = w & (1u64 << (bit as u64));
            self.bits[index] = w ^ m;
            proof {
                lemma_clear_bit(w, bit as u64);
                self.lemma_word_write(before, x as int, y as int);
                assert(self@ =~= before@.remove((x as int, y as int)));
            }
            m != 0
        } else {
            proof {
                assert(self@ =~= old(self)@.remove((x as int, y as int)));
            }
            false
        }
    }

    /// Writing one word changes only the points of that word, and the point
    /// `(x, y)` as the bit at its position says.
    proof fn lemma_word_write(&self, before: Self, x: int, y: int)
        requires
            before.wf(),
            before.covers(x, y),
            self.x_range == before.x_range,
            self.y_range == before.y_range,
            ({
                let i = (y - before.y_lo()) * before.row_span() + (x - before.x_lo()) / 64;
                let b = ((x - before.x_lo()) % 64) as u64;
                &&& self.bits@.len() == before.bits@.len()
                &&& forall|k: int|
                    0 <= k < self.bits@.len() && k != i ==> self.bits@[k] == before.bits@[k]
                &&& forall|b2: u64|
                    b2 < 64 && b2 != b ==> bit_set(self.bits@[i], b2) == bit_set(
                        before.bits@[i],
                        b2,
                    )
            }),
        ensures
            self.wf(),
            forall|x2: int, y2: int| (x2, y2) != (x, y) ==> self.has(x2, y2) == before.has(x2, y2),
            self.has(x, y) == bit_set(
                self.bits@[(y - before.y_lo()) * before.row_span() + (x - before.x_lo()) / 64],
                ((x - before.x_lo()) % 64) as u64,
            ),
    {
        let span = before.row_span();
        let h = before.height();
        let i = (y - before.y_lo()) * span + (x - before.x_lo()) / 64;
        assert forall|x2: int, y2: int| (x2, y2) != (x, y) implies self.has(x2, y2) == before.has(
            x2,
            y2,
        ) by {
            if before.covers(x2, y2) {
                let d = x - before.x_lo();
                let d2 = x2 - before.x_lo();
                let i2 = (y2 - before.y_lo()) * span + d2 / 64;
                lemma_chunk_of(d, before.x_hi() - before.x_lo());
                lemma_chunk_of(d2, before.x_hi() - before.x_lo());
                lemma_flat_bound(y2 - before.y_lo(), d2 / 64, span, h);
                if i2 == i {
                    lemma_flat_unique(y2 - before.y_lo(), d2 / 64, y - before.y_lo(), d / 64, span);
                    if d2 % 64 == d % 64 {
                        lemma_offset_unique(d, d2);
                    }
                    assert(0 <= d2 % 64 < 64);
                }
            }
        }
    }

    /// After the words of `before` were moved into the larger box of `self`,
    /// every point keeps its membership.
    proof fn lemma_relaid_has(&self, before: Self, px: int, py: int)
        requires
            before.wf(),
            self.wf(),
            !before.is_empty_box(),
            self.x_lo() <= before.x_lo(),
            before.x_hi() <= self.x_hi(),
            self.y_lo() <= before.y_lo(),
            before.y_hi() <= self.y_hi(),
            forall|r: int, c: int|
                0 <= r < self.height() && 0 <= c < self.row_span() ==> #[trigger] cell(
                    self.words(),
                    self.row_span(),
                    r,
                    c,
                ) == relaid(
                    before.words(),
                    before.row_span(),
                    before.height(),
                    before.x_lo() / 64 - self.x_lo() / 64,
                    before.y_lo() - self.y_lo(),
                    r,
                    c,
                ),
        ensures
            self.has(px, py) == before.has(px, py),
    {
        if self.covers(px, py) {
            let d = px - self.x_lo();
            let cs = before.x_lo() / 64 - self.x_lo() / 64;
            let rs = before.y_lo() - self.y_lo();
            lemma_div64_diff(before.x_lo(), self.x_lo());
            lemma_div64_diff(before.x_hi(), before.x_lo());
            lemma_div64_diff(self.x_hi(), self.x_lo());
            lemma_div64_diff(before.x_hi(), self.x_lo());
            vstd::arithmetic::div_mod::lemma_fundamental_div_mod(before.x_lo() - self.x_lo(), 64);
            vstd::arithmetic::div_mod::lemma_fundamental_div_mod(before.x_hi() - self.x_lo(), 64);
            vstd::arithmetic::div_mod::lemma_fundamental_div_mod(d, 64);
            lemma_chunk_of(d, self.x_hi() - self.x_lo());
            let c = d / 64;
            let m = d % 64;
            assert(0 <= m < 64);
            let r = py - self.y_lo();
            assert(cell(self.words(), self.row_span(), r, c) == relaid(
                before.words(),
                before.row_span(),
                before.height(),
                cs,
                rs,
                r,
                c,
            ));
            if before.covers(px, py) {
                let d0 = px - before.x_lo();
                assert(d0 == 64 * (c - cs) + m);
                vstd::arithmetic::div_mod::lemma_fundamental_div_mod_converse(d0, 64, c - cs, m);
                lemma_chunk_of(d0, before.x_hi() - before.x_lo());
            } else {
                lemma_zero_word(m as u64);
                if rs <= r < rs + before.height() && cs <= c < cs + before.row_span() {
                    assert(before.x_lo() <= px < before.x_hi());
                }
            }
        }
    }

    /// Makes the box cover `(x, y)`, keeping every point's membership.
    #[verifier::rlimit(30)]
    fn cover(&mut self, p: (isize, isize))
        requires
            old(self).wf(),
            old(self).can_cover(p.0 as int, p.1 as int),
        ensures
            final(self).wf(),
            final(self).x_lo() == old(self).grown_x_lo(p.0 as int),
            final(self).x_hi() == old(self).grown_x_hi(p.0 as int),
            final(self).y_lo() == old(self).grown_y_lo(p.1 as int),
            final(self).y_hi() == old(self).grown_y_hi(p.1 as int),
            forall|px: int, py: int| final(self).has(px, py) == old(self).has(px, py),
    {
        let (x, y) = p;
        proof {
            lemma_chunk(x as int);
        }
        if self.bits.len() == 0 {
            self.x_range = x_chunk_cover(x);
            self.y_range = y..(y + 1);
            self.bits.push(0);
            proof {
                assert(self.row_span() == 1);
                assert forall|px: int, py: int| self.has(px, py) == old(self).has(px, py) by {
                    if self.covers(px, py) {
                        let d = px - self.x_lo();
                        vstd::arithmetic::div_mod::lemma_fundamental_div_mod(d, 64);
                        lemma_chunk_of(d, 64);
                        assert(0 <= d % 64 < 64);
                        lemma_zero_word((d % 64) as u64);
                    }
                }
                assert(self.words().len() == 1);
                assert(self.height() == 1);
                assert(self.words().len() == self.row_span() * self.height()) by (nonlinear_arith)
                    requires
                        self.words().len() == 1,
                        self.height() == 1,
                        self.row_span() == 1,
                ;
                assert(self.wf());
            }
        } else {
            let Range { start: x_min, end: x_max } = x_chunk_cover(x);
            let nx_lo: isize = if x_min < self.x_range.start {
                x_min
            } else {
                self.x_range.start
            };
            let nx_hi: isize = if x_max > self.x_range.end {
                x_max
            } else {
                self.x_range.end
            };
            let ny_lo: isize = if y < self.y_range.start {
                y
            } else {
                self.y_range.start
            };
            let ny_hi: isize = if y + 1 > self.y_range.end {
                y + 1
            } else {
                self.y_range.end
            };
            let ghost before = *self;
            if nx_lo != self.x_range.start || nx_hi != self.x_range.end || ny_lo
                != self.y_range.start || ny_hi != self.y_range.end {
                let old_row_span: usize = ((self.x_range.end - self.x_range.start) as usize) / 64;
                let new_row_span: usize = ((nx_hi - nx_lo) as usize) / 64;
                let old_h: usize = (self.y_range.end - self.y_range.start) as usize;
                let new_h: usize = (ny_hi - ny_lo) as usize;
                let col_shift: usize = ((self.x_range.start - nx_lo) as usize) / 64;
                let row_shift: usize = (self.y_range.start - ny_lo) as usize;
                proof {
                    lemma_div64_diff(before.x_lo(), nx_lo as int);
                    lemma_div64_diff(before.x_hi(), before.x_lo());
                    lemma_div64_diff(nx_hi as int, nx_lo as int);
                    lemma_div64_diff(before.x_hi(), nx_lo as int);
                    assert(new_row_span * new_h <= usize::MAX) by (nonlinear_arith)
                        requires
                            new_row_span * new_h * 8 <= isize::MAX,
                            new_row_span >= 0,
                            new_h >= 0,
                    ;
                }
                relayout(
                    &mut self.bits,
                    old_row_span,
                    old_h,
                    new_row_span,
                    new_h,
                    col_shift,
                    row_shift,
                );
            }
            self.x_range = nx_lo..nx_hi;
            self.y_range = ny_lo..ny_hi;
            proof {
                lemma_div64_diff(nx_hi as int, nx_lo as int);
                if self.same_box(before) {
                    assert(self.words() == before.words());
                } else {
                    assert(self.words().len() > 0) by (nonlinear_arith)
                        requires
                            self.words().len() == self.row_span() * self.height(),
                            self.row_span() > 0,
                            self.height() > 0,
                    ;
                    assert forall|px: int, py: int| self.has(px, py) == before.has(px, py) by {
                        self.lemma_relaid_has(before, px, py);
                    }
                }
                assert(self.wf());
            }
        }
    }

    /// Word index and bit position of a covered point.
    fn index(&self, p: (isize, isize)) -> (r: (usize, u32))
        requires
            self.wf(),
            self.covers(p.0 as int, p.1 as int),
        ensures
            r.0 < self.bits@.len(),
            r.0 == (p.1 - self.y_lo()) * self.row_span() + (p.0 - self.x_lo()) / 64,
            r.1 as int == (p.0 - self.x_lo()) % 64,
            r.1 < 64,
    {
        Self::index_impl(
            p,
            self.x_range.start..self.x_range.end,
            self.y_range.start..self.y_range.end,
        )
    }

    fn index_impl(p: (isize, isize), x_range: Range<isize>, y_range: Range<isize>) -> (r: (
        usize,
        u32,
    ))
        requires
            x_range.start <= p.0 < x_range.end,
            y_range.start <= p.1 < y_range.end,
            x_range.end - x_range.start <= isize::MAX,
            (x_range.end - x_range.start) % 64 == 0,
            y_range.end - y_range.start <= isize::MAX,
            (x_range.end - x_range.start) / 64 * (y_range.end - y_range.start) <= usize::MAX,
        ensures
            r.0 == (p.1 - y_range.start) * ((x_range.end - x_range.start) / 64) + (p.0
                - x_range.start) / 64,
            r.0 < (x_range.end - x_range.start) / 64 * (y_range.end - y_range.start),
            r.1 as int == (p.0 - x_range.start) % 64,
            r.1 < 64,
    {
        let (x, y) = p;
        let row_span: usize = ((x_range.end - x_range.start) as usize) / 64;
        let dx: usize = (x - x_range.start) as usize;
        let dy: usize = (y - y_range.start) as usize;
        proof {
            lemma_chunk_of(dx as int, x_range.end - x_range.start);
            lemma_flat_bound(
                dy as int,
                (dx / 64) as int,
                row_span as int,
                (y_range.end - y_range.start) as int,
            );
        }
        (dx / 64 + dy * row_span, (dx % 64) as u32)
    }
}

/// The word at row `r`, column `c` once the grid `src` (`old_span` words per
/// row, `old_h` rows) has moved `row_shift` rows down and `col_shift` columns
/// right inside a larger grid; every word outside the moved grid is zero.
pub open spec fn relaid(
    src: Seq<u64>,
    old_span: int,
    old_h: int,
    col_shift: int,
    row_shift: int,
    r: int,
    c: int,
) -> u64 {
    if row_shift <= r < row_shift + old_h && col_shift <= c < col_shift + old_span {
        cell(src, old_span, r - row_shift, c - col_shift)
    } else {
        0
    }
}

/// Sets the words in `lo..hi` to zero.
fn fill_zero(bits: &mut Vec<u64>, lo: usize, hi: usize)
    requires
        lo <= hi <= old(bits)@.len(),
    ensures
        final(bits)@.len() == old(bits)@.len(),
        forall|k: int|
            0 <= k < final(bits)@.len() ==> #[trigger] final(bits)@[k] == if lo <= k < hi {
                0u64
            } else {
                old(bits)@[k]
            },
{
    let ghost start = bits@;
    let mut k: usize = lo;
    while k < hi
        invariant
            lo <= k <= hi,
            hi <= bits@.len(),
            bits@.len() == start.len(),
            forall|j: int|
                0 <= j < bits@.len() ==> #[trigger] bits@[j] == if lo <= j < k {
                    0u64
                } else {
                    start[j]
                },
        decreases hi - k,
    {
        bits[k] = 0;
        k += 1;
    }
}

/// Moves the `old_span` words at `src` to `dst + col_shift` and zeroes the
/// rest of the `new_span` words at `dst`. The words read may overlap those
/// written, as long as none is moved to a lower index.
fn move_row(
    bits: &mut Vec<u64>,
    src: usize,
    dst: usize,
    old_span: usize,
    col_shift: usize,
    new_span: usize,
)
    requires
        col_shift + old_span <= new_span,
        dst + new_span <= old(bits)@.len(),
        old(bits)@.len() <= usize::MAX,
        src <= dst + col_shift,
    ensures
        final(bits)@.len() == old(bits)@.len(),
        forall|k: int|
            0 <= k < final(bits)@.len() && !(dst <= k < dst + new_span)
                ==> #[trigger] final(bits)@[k] == old(bits)@[k],
        forall|k: int|
            dst <= k < dst + new_span ==> #[trigger] final(bits)@[k] == if dst + col_shift <= k
                < dst + col_shift + old_span {
                old(bits)@[src + (k - dst - col_shift)]
            } else {
                0u64
            },
{
    let ghost start = bits@;
    let lead_end = dst + col_shift;
    let copy_end = lead_end + old_span;
    fill_zero(bits, copy_end, dst + new_span);
    let mut j: usize = old_span;
    while j > 0
        invariant
            j <= old_span,
            lead_end == dst + col_shift,
            copy_end == lead_end + old_span,
            src <= lead_end,
            copy_end <= dst + new_span,
            dst + new_span <= start.len(),
            bits@.len() == start.len(),
            forall|k: int|
                0 <= k < bits@.len() ==> #[trigger] bits@[k] == if lead_end + j <= k < copy_end {
                    start[src + (k - lead_end)]
                } else if copy_end <= k < dst + new_span {
                    0u64
                } else {
                    start[k]
                },
        decreases j,
    {
        j -= 1;
        let v = bits[src + j];
        bits[lead_end + j] = v;
    }
    fill_zero(bits, dst, lead_end);
}

/// Grows a grid of `old_h` rows of `old_span` words in place to `new_h` rows
/// of `new_span` words, moving every old word `row_shift` rows down and
/// `col_shift` columns right and zeroing every other word.
///
/// Rows are moved from the last to the first: a row never moves to a lower
/// index, so each row is read before any later write reaches it.
fn relayout(
    bits: &mut Vec<u64>,
    old_span: usize,
    old_h: usize,
    new_span: usize,
    new_h: usize,
    col_shift: usize,
    row_shift: usize,
)
    requires
        old(bits)@.len() == old_span * old_h,
        col_shift + old_span <= new_span,
        row_shift + old_h <= new_h,
        new_span * new_h <= usize::MAX,
    ensures
        final(bits)@.len() == new_span * new_h,
        forall|r: int, c: int|
            0 <= r < new_h && 0 <= c < new_span ==> #[trigger] cell(final(bits)@, new_span as int, r, c)
                == relaid(old(bits)@, old_span as int, old_h as int, col_shift as int, row_shift as int, r, c),
{
    let ghost src = bits@;
    let new_len: usize = new_span * new_h;
    assert(old_span * old_h <= new_span * new_h) by (nonlinear_arith)
        requires
            old_span <= new_span,
            old_h <= new_h,
    ;
    while bits.len() < new_len
        invariant
            src.len() <= bits@.len() <= new_len,
            forall|k: int| 0 <= k < src.len() ==> #[trigger] bits@[k] == src[k],
        decreases new_len - bits@.len(),
    {
        bits.push(0);
    }
    let end_row: usize = row_shift + old_h;
    assert(end_row * new_span <= new_len && old_h * old_span <= end_row * new_span) by (nonlinear_arith)
        requires
            end_row <= new_h,
            new_len == new_span * new_h,
            old_span <= new_span,
            old_h <= end_row,
    ;
    fill_zero(bits, end_row * new_span, new_len);
    assert forall|rr: int, c: int|
        end_row <= rr < new_h && 0 <= c < new_span implies #[trigger] cell(bits@, new_span as int, rr, c)
            == relaid(src, old_span as int, old_h as int, col_shift as int, row_shift as int, rr, c) by {
        assert(end_row * new_span <= rr * new_span + c < new_len) by (nonlinear_arith)
            requires
                end_row <= rr < new_h,
                0 <= c < new_span,
                new_len == new_span * new_h,
        ;
    }
    let mut r: usize = old_h;
    while r > 0
        invariant
            r <= old_h,
            end_row == row_shift + old_h,
            end_row <= new_h,
            new_len == new_span * new_h,
            col_shift + old_span <= new_span,
            src.len() == old_span * old_h,
            bits@.len() == new_len,
            forall|k: int| 0 <= k < r * old_span ==> #[trigger] bits@[k] == src[k],
            forall|rr: int, c: int|
                r + row_shift <= rr < new_h && 0 <= c < new_span ==> #[trigger] cell(bits@, new_span as int, rr, c)
                    == relaid(src, old_span as int, old_h as int, col_shift as int, row_shift as int, rr, c),
        decreases r,
    {
        r -= 1;
        let ghost before = bits@;
        assert(r * old_span <= (r + row_shift) * new_span && (r + row_shift + 1) * new_span
            <= new_len && (r + 1) * old_span == r * old_span + old_span && (r + row_shift)
            * new_span + new_span == (r + row_shift + 1) * new_span) by (nonlinear_arith)
            requires
                r + row_shift + 1 <= new_h,
                new_len == new_span * new_h,
                old_span <= new_span,
        ;
        let from: usize = r * old_span;
        let dst: usize = (r + row_shift) * new_span;
        move_row(bits, from, dst, old_span, col_shift, new_span);
        assert forall|rr: int, c: int|
            r + row_shift <= rr < new_h && 0 <= c < new_span implies #[trigger] cell(bits@, new_span as int, rr, c)
                == relaid(src, old_span as int, old_h as int, col_shift as int, row_shift as int, rr, c) by {
            if rr == r + row_shift {
                assert(rr * new_span + c == dst + c) by (nonlinear_arith)
                    requires
                        rr == r + row_shift,
                        dst == (r + row_shift) * new_span,
                ;
            } else {
                assert(dst + new_span <= rr * new_span + c < new_len) by (nonlinear_arith)
                    requires
                        r + row_shift + 1 <= rr < new_h,
                        dst == (r + row_shift) * new_span,
                        0 <= c < new_span,
                        new_len == new_span * new_h,
                ;
                assert(cell(before, new_span as int, rr, c) == relaid(src, old_span as int, old_h as int, col_shift as int, row_shift as int, rr, c));
            }
        }
    }
    let ghost before = bits@;
    assert(row_shift * new_span <= new_len) by (nonlinear_arith)
        requires
            row_shift <= new_h,
            new_len == new_span * new_h,
    ;
    fill_zero(bits, 0, row_shift * new_span);
    assert forall|rr: int, c: int|
        0 <= rr < new_h && 0 <= c < new_span implies #[trigger] cell(bits@, new_span as int, rr, c)
            == relaid(src, old_span as int, old_h as int, col_shift as int, row_shift as int, rr, c) by {
        if rr < row_shift {
            assert(0 <= rr * new_span + c < row_shift * new_span) by (nonlinear_arith)
                requires
                    0 <= rr < row_shift,
                    0 <= c < new_span,
            ;
        } else {
            assert(row_shift * new_span <= rr * new_span + c < new_len) by (nonlinear_arith)
                requires
                    row_shift <= rr < new_h,
                    0 <= c < new_span,
                    new_len == new_span * new_h,
            ;
            assert(cell(before, new_span as int, rr, c) == relaid(src, old_span as int, old_h as int, col_shift as int, row_shift as int, rr, c));
        }
    }
}

proof fn lemma_div64_diff(a: int, b: int)
    requires
        a % 64 == 0,
        b % 64 == 0,
    ensures
        (a - b) % 64 == 0,
        (a - b) / 64 == a / 64 - b / 64,
{
    vstd::arithmetic::div_mod::lemma_fundamental_div_mod(a, 64);
    vstd::arithmetic::div_mod::lemma_fundamental_div_mod(b, 64);
    vstd::arithmetic::div_mod::lemma_fundamental_div_mod_converse(a - b, 64, a / 64 - b / 64, 0);
}

/// `x` lies in its chunk, whose edges are multiples of 64.
proof fn lemma_chunk(x: int)
    ensures
        chunk_start(x) <= x < chunk_start(x) + 64,
        chunk_start(x) % 64 == 0,
        (chunk_start(x) + 64) % 64 == 0,
{
    vstd::arithmetic::div_mod::lemma_fundamental_div_mod(x, 64);
    vstd::arithmetic::div_mod::lemma_mod_multiples_basic(x / 64, 64);
    vstd::arithmetic::div_mod::lemma_mod_multiples_basic(x / 64 + 1, 64);
    assert((x / 64 + 1) * 64 == chunk_start(x) + 64);
}

proof fn lemma_zero_word(b: u64)
    requires
        b < 64,
    ensures
        !bit_set(0u64, b),
{
    assert((0u64 >> b) & 1u64 == 0u64) by (bit_vector);
}

proof fn lemma_flat_bound(r: int, c: int, span: int, h: int)
    requires
        0 <= r < h,
        0 <= c < span,
    ensures
        0 <= r * span + c < span * h,
        r * span + span <= span * h,
{
    assert(r * span >= 0) by (nonlinear_arith)
        requires
            r >= 0,
            span >= 0,
    ;
    assert(r * span + span <= span * h) by (nonlinear_arith)
        requires
            r + 1 <= h,
            span >= 0,
    ;
}

proof fn lemma_chunk_of(d: int, w: int)
    requires
        0 <= d < w,
        w % 64 == 0,
    ensures
        0 <= d / 64 < w / 64,
{
    vstd::arithmetic::div_mod::lemma_fundamental_div_mod(d, 64);
    vstd::arithmetic::div_mod::lemma_fundamental_div_mod(w, 64);
    assert(0 <= d / 64 < w / 64) by (nonlinear_arith)
        requires
            d == 64 * (d / 64) + d % 64,
            w == 64 * (w / 64),
            0 <= d % 64 < 64,
            0 <= d < w,
    ;
}

proof fn lemma_flat_unique(r1: int, c1: int, r2: int, c2: int, span: int)
    requires
        0 <= c1 < span,
        0 <= c2 < span,
        r1 * span + c1 == r2 * span + c2,
    ensures
        r1 == r2,
        c1 == c2,
{
    let k = r1 * span + c1;
    vstd::arithmetic::div_mod::lemma_fundamental_div_mod_converse(k, span, r1, c1);
    vstd::arithmetic::div_mod::lemma_fundamental_div_mod_converse(k, span, r2, c2);
}

proof fn lemma_offset_unique(d1: int, d2: int)
    requires
        d1 / 64 == d2 / 64,
        d1 % 64 == d2 % 64,
    ensures
        d1 == d2,
{
    vstd::arithmetic::div_mod::lemma_fundamental_div_mod(d1, 64);
    vstd::arithmetic::div_mod::lemma_fundamental_div_mod(d2, 64);
}

proof fn lemma_set_bit(w: u64, b: u64)
    requires
        b < 64,
    ensures
        forall|b2: u64|
            b2 < 64 ==> (#[trigger] bit_set(w | (1u64 << b), b2) <==> (b2 == b || bit_set(w, b2))),
{
    assert forall|b2: u64| b2 < 64 implies (#[trigger] bit_set(w | (1u64 << b), b2) <==> (b2 == b
        || bit_set(w, b2))) by {
        assert(((w | (1u64 << b)) >> b2) & 1u64 == 1u64 <==> (b2 == b || (w >> b2) & 1u64
            == 1u64)) by (bit_vector)
            requires
                b < 64,
                b2 < 64,
        ;
    }
}

proof fn lemma_clear_bit(w: u64, b: u64)
    requires
        b < 64,
    ensures
        (w & (1u64 << b) != 0) == bit_set(w, b),
        forall|b2: u64|
            b2 < 64 ==> (#[trigger] bit_set(w ^ (w & (1u64 << b)), b2) <==> (b2 != b && bit_set(
                w,
                b2,
            ))),
{
    assert((w & (1u64 << b) != 0) == ((w >> b) & 1u64 == 1u64)) by (bit_vector)
        requires
            b < 64,
    ;
    assert forall|b2: u64| b2 < 64 implies (#[trigger] bit_set(w ^ (w & (1u64 << b)), b2) <==> (b2
        != b && bit_set(w, b2))) by {
        assert(((w ^ (w & (1u64 << b))) >> b2) & 1u64 == 1u64 <==> (b2 != b && (w >> b2) & 1u64
            == 1u64)) by (bit_vector)
            requires
                b < 64,
                b2 < 64,
        ;
    }
}

fn get_bit(chunk: &u64, bit: u32) -> (r: bool)
    requires
        bit < 64,
    ensures
        r == bit_set(*chunk, bit as u64),
{
    let c = *chunk;
    assert(((c >> bit) & 1u64) != 0 <==> (c >> (bit as u64)) & 1u64 == 1u64) by (bit_vector)
        requires
            bit < 64,
    ;
    ((*chunk >> bit) & 1) != 0
}

} // verus!
