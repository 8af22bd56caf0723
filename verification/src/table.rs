//! Plain-text table rendering for command-line listings.
use vstd::prelude::*;

verus! {

/// The character set a table is drawn with.
#[derive(Debug, Clone, Copy, PartialEq, Eq, Structural)]
pub enum Style {
    Standard,
    Fancy,
}

impl Default for Style {
    /// The default style draws with box-drawing characters.
    fn default() -> (r: Style)
        ensures
            r == Style::Fancy,
    {
        Style::Fancy
    }
}

/// How a column's cells are padded.
#[derive(Debug, Clone, Copy, PartialEq, Eq, Structural)]
pub enum Align {
    Left,
    Right,
    Center,
}

impl Default for Align {
    /// Cells are padded on the right by default.
    fn default() -> (r: Align)
        ensures
            r == Align::Left,
    {
        Align::Left
    }
}

/// The fill character repeated `n` times.
pub open spec fn rep(c: char, n: nat) -> Seq<char>
    decreases n,
{
    if n == 0 {
        Seq::empty()
    } else {
        rep(c, (n - 1) as nat).push(c)
    }
}

/// Repeat a one-character fill.
pub fn repeat(c: char, num: usize) -> (r: String)
    ensures
        r@ == rep(c, num as nat),
        r@.len() == num,
{
    proof {
        lemma_rep_len(c, num as nat);
    }
    let mut out = String::new();
    let mut i: usize = 0;
    while i < num
        invariant
            i <= num,
            out@ == rep(c, i as nat),
        decreases num - i,
    {
        crate::codec::push_char(&mut out, c);
        i = i + 1;
    }
    out
}

/// A repetition has as many characters as it repeats.
pub proof fn lemma_rep_len(c: char, n: nat)
    ensures
        rep(c, n).len() == n,
    decreases n,
{
    if n > 0 {
        lemma_rep_len(c, (n - 1) as nat);
    }
}

/// The rendering of one cell padded to a column width.
pub open spec fn spec_align(entry: Seq<char>, size: nat, fill: char, a: Align) -> Seq<char> {
    let buf = (size - entry.len()) as nat;
    match a {
        Align::Left => seq![fill] + entry + seq![fill] + rep(fill, buf),
        Align::Right => rep(fill, buf) + seq![fill] + entry + seq![fill],
        Align::Center => rep(fill, ((buf + 1) / 2) as nat) + seq![fill] + entry + seq![fill] + rep(
            fill,
            (buf / 2) as nat,
        ),
    }
}

/// Pad one cell to a column width with a fill character.
pub fn align(entry: &String, size: usize, fill: char, a: &Align) -> (r: String)
    requires
        entry@.len() <= size,
    ensures
        r@ == spec_align(entry@, size as nat, fill, *a),
{
    let n = entry.as_str().unicode_len();
    let buf = size - n;
    match a {
        Align::Left => {
            let mut out = String::new();
            crate::codec::push_char(&mut out, fill);
            out.append(entry.as_str());
            crate::codec::push_char(&mut out, fill);
            let tail = repeat(fill, buf);
            out.append(tail.as_str());
            proof {
                assert(out@ =~= spec_align(entry@, size as nat, fill, *a));
            }
            out
        },
        Align::Right => {
            let mut out = repeat(fill, buf);
            crate::codec::push_char(&mut out, fill);
            out.append(entry.as_str());
            crate::codec::push_char(&mut out, fill);
            proof {
                assert(out@ =~= spec_align(entry@, size as nat, fill, *a));
            }
            out
        },
        Align::Center => {
            let left = buf / 2 + buf % 2;
            let right = buf / 2;
            proof {
                assert(left as nat == ((buf as nat + 1) / 2) as nat);
            }
            let mut out = repeat(fill, left);
            crate::codec::push_char(&mut out, fill);
            out.append(entry.as_str());
            crate::codec::push_char(&mut out, fill);
            let tail = repeat(fill, right);
            out.append(tail.as_str());
            proof {
                assert(out@ =~= spec_align(entry@, size as nat, fill, *a));
            }
            out
        },
    }
}

/// A table generator: a title row, a drawing style, and per-column
/// alignment overrides.
pub struct AsciiTable {
    pub title: String,
    pub style: Style,
    pub align: Vec<(usize, Align)>,
}

/// The alignment configured for a column: the latest override wins.
pub open spec fn spec_col_align(overrides: Seq<(usize, Align)>, col: nat) -> Align
    decreases overrides.len(),
{
    if overrides.len() == 0 {
        Align::Left
    } else if overrides.last().0 == col {
        overrides.last().1
    } else {
        spec_col_align(overrides.drop_last(), col)
    }
}

impl AsciiTable {
    /// Create a table generator with no alignment overrides.
    pub fn new(title: String, style: Style) -> (r: AsciiTable)
        ensures
            r.title == title,
            r.style == style,
            r.align@ == Seq::<(usize, Align)>::empty(),
    {
        AsciiTable { title, style, align: Vec::new() }
    }

    /// Override the default alignment for one column.
    pub fn align_column(&mut self, col: usize, a: Align)
        ensures
            final(self).align@ == old(self).align@.push((col, a)),
            final(self).title == old(self).title,
            final(self).style == old(self).style,
            spec_col_align(final(self).align@, col as nat) == a,
    {
        self.align.push((col, a));
    }

    /// Render the table: a title row, one line per row of cells, and a
    /// closing edge, joined by newlines.
    pub fn draw(&self, table: &Vec<Vec<String>>) -> (r: String)
        requires
            table@.len() > 0,
            crate::codec::no_nl(self.title@),
            forall|i: int, j: int|
                0 <= i < table@.len() && 0 <= j < table@[i].len() ==> crate::codec::no_nl(
                    #[trigger] table@[i][j]@,
                ),
        ensures
            count_nl(r@) == table@.len() + 1,
    {
        let pieces = self.style.array();
        // The number of columns is the widest row, at least one.
        let mut ncols: usize = 1;
        let mut i: usize = 0;
        while i < table.len()
            invariant
                i <= table.len(),
                ncols >= 1,
                forall|i2: int| 0 <= i2 < i ==> table@[i2].len() <= ncols,
            decreases table.len() - i,
        {
            if table[i].len() > ncols {
                ncols = table[i].len();
            }
            i = i + 1;
        }
        // Column widths: the widest cell of each column.
        let mut widths: Vec<usize> = Vec::new();
        let mut j: usize = 0;
        while j < ncols
            invariant
                j <= ncols,
                widths.len() == j,
            decreases ncols - j,
        {
            widths.push(0);
            j = j + 1;
        }
        let mut i2: usize = 0;
        while i2 < table.len()
            invariant
                i2 <= table.len(),
                widths.len() == ncols,
                ncols >= 1,
                forall|a: int| 0 <= a < table@.len() ==> table@[a].len() <= ncols,
                forall|a: int, b: int|
                    0 <= a < i2 && 0 <= b < table@[a].len() ==> #[trigger] table@[a][b]@.len()
                        <= widths@[b],
            decreases table.len() - i2,
        {
            let mut j2: usize = 0;
            while j2 < table[i2].len()
                invariant
                    i2 < table.len(),
                    j2 <= table@[i2 as int].len(),
                    widths.len() == ncols,
                    ncols >= 1,
                    table@[i2 as int].len() <= ncols,
                    forall|a: int| 0 <= a < table@.len() ==> table@[a].len() <= ncols,
                    forall|a: int, b: int|
                        0 <= a < i2 && 0 <= b < table@[a].len() ==> #[trigger] table@[a][b]@.len()
                            <= widths@[b],
                    forall|b: int|
                        0 <= b < j2 ==> #[trigger] table@[i2 as int][b]@.len() <= widths@[b],
                decreases table@[i2 as int].len() - j2,
            {
                let w = table[i2][j2].as_str().unicode_len();
                if w > widths[j2] {
                    let ghost old_w = widths@;
                    widths.set(j2, w);
                    proof {
                        assert forall|a: int, b: int|
                            0 <= a < i2 && 0 <= b < table@[a].len() implies #[trigger] table@[a][b]@.len()
                            <= widths@[b] by {
                            assert(widths@[b] >= old_w[b]);
                        }
                        assert forall|b: int|
                            0 <= b < j2 implies #[trigger] table@[i2 as int][b]@.len()
                            <= widths@[b] by {
                            assert(widths@[b] >= old_w[b]);
                        }
                    }
                }
                j2 = j2 + 1;
            }
            i2 = i2 + 1;
        }
        // The middle column carries the title, padded by one space.
        let mid = ncols / 2;
        let mut title_cell = String::new();
        crate::codec::push_char(&mut title_cell, ' ');
        title_cell.append(self.title.as_str());
        crate::codec::push_char(&mut title_cell, ' ');
        proof {
            assert(crate::codec::no_nl(Seq::<char>::empty().push(' ')));
            lemma_no_nl_concat(Seq::<char>::empty().push(' '), self.title@);
            lemma_no_nl_push(Seq::<char>::empty().push(' ') + self.title@, ' ');
        }
        let tw = title_cell.as_str().unicode_len();
        if tw > widths[mid] {
            let ghost old_w = widths@;
            widths.set(mid, tw);
            proof {
                assert forall|a: int, b: int|
                    0 <= a < table@.len() && 0 <= b < table@[a].len() implies #[trigger] table@[a][b]@.len()
                    <= widths@[b] by {
                    assert(widths@[b] >= old_w[b]);
                }
            }
        }
        proof {
            assert(title_cell@.len() <= widths@[mid as int]);
        }
        // The three kinds of line.
        let empty_row: Vec<String> = Vec::new();
        let mut title_row: Vec<String> = Vec::new();
        let mut j3: usize = 0;
        while j3 < mid
            invariant
                j3 <= mid,
                title_row.len() == j3,
                forall|b: int| 0 <= b < j3 ==> #[trigger] title_row@[b]@.len() == 0,
            decreases mid - j3,
        {
            title_row.push(String::new());
            j3 = j3 + 1;
        }
        title_row.push(title_cell);
        proof {
            assert forall|b: int| 0 <= b < title_row@.len() implies crate::codec::no_nl(
                #[trigger] title_row@[b]@,
            ) by {}
            assert forall|b: int| 0 <= b < title_row@.len() implies #[trigger] title_row@[b]@.len()
                <= widths@[b] by {}
        }
        let top = self.draw_row(&title_row, pieces[1], pieces[2], pieces[4], pieces[3], &widths, true);
        let bottom = self.draw_row(&empty_row, pieces[1], pieces[5], pieces[7], pieces[6], &widths, true);
        // Stitch the lines together.
        let mut out = top;
        let ghost t0 = out@;
        let mut i3: usize = 0;
        while i3 < table.len()
            invariant
                i3 <= table.len(),
                widths.len() == ncols,
                ncols >= 1,
                forall|a: int| 0 <= a < table@.len() ==> table@[a].len() <= ncols,
                forall|a: int, b: int|
                    0 <= a < table@.len() && 0 <= b < table@[a].len() ==> #[trigger] table@[a][b]@.len()
                        <= widths@[b],
                forall|a: int, b: int|
                    0 <= a < table@.len() && 0 <= b < table@[a].len() ==> crate::codec::no_nl(
                        #[trigger] table@[a][b]@,
                    ),
                forall|k: int| 0 <= k < 8 ==> (#[trigger] pieces@[k]) != '\n',
                count_nl(out@) == i3 as nat,
            decreases table.len() - i3,
        {
            let line = self.draw_row(&table[i3], ' ', pieces[0], pieces[0], pieces[0], &widths, false);
            let ghost pre = out@;
            crate::codec::push_char(&mut out, '\n');
            out.append(line.as_str());
            proof {
                lemma_count_nl_concat(pre.push('\n'), line@);
                lemma_count_nl_push(pre, '\n');
                assert(out@ =~= pre.push('\n') + line@);
            }
            i3 = i3 + 1;
        }
        let ghost pre2 = out@;
        crate::codec::push_char(&mut out, '\n');
        out.append(bottom.as_str());
        proof {
            lemma_count_nl_concat(pre2.push('\n'), bottom@);
            lemma_count_nl_push(pre2, '\n');
            assert(out@ =~= pre2.push('\n') + bottom@);
        }
        out
    }

    /// Render one line of the table: every column's cell padded to its
    /// width, between the given edge characters.
    fn draw_row(
        &self,
        row: &Vec<String>,
        fill: char,
        start: char,
        join: char,
        end: char,
        widths: &Vec<usize>,
        center: bool,
    ) -> (r: String)
        requires
            fill != '\n',
            start != '\n',
            join != '\n',
            end != '\n',
            forall|b: int| 0 <= b < row@.len() ==> crate::codec::no_nl(#[trigger] row@[b]@),
            row@.len() <= widths@.len(),
            forall|b: int| 0 <= b < row@.len() ==> #[trigger] row@[b]@.len() <= widths@[b],
        ensures
            count_nl(r@) == 0,
    {
        let mut out = String::new();
        crate::codec::push_char(&mut out, start);
        proof {
            assert(crate::codec::no_nl(Seq::<char>::empty().push(start)));
        }
        let empty_cell = String::new();
        let mut j: usize = 0;
        while j < widths.len()
            invariant
                j <= widths.len(),
                fill != '\n',
                join != '\n',
                empty_cell@.len() == 0,
                forall|b: int| 0 <= b < row@.len() ==> crate::codec::no_nl(#[trigger] row@[b]@),
                row@.len() <= widths@.len(),
                forall|b: int| 0 <= b < row@.len() ==> #[trigger] row@[b]@.len() <= widths@[b],
                crate::codec::no_nl(out@),
            decreases widths.len() - j,
        {
            if j > 0 {
                let ghost p0 = out@;
                crate::codec::push_char(&mut out, join);
                proof {
                    lemma_no_nl_push(p0, join);
                }
            }
            let a = if center {
                Align::Center
            } else {
                self.col_align(j)
            };
            let cell = if j < row.len() {
                align(&row[j], widths[j], fill, &a)
            } else {
                align(&empty_cell, widths[j], fill, &a)
            };
            let ghost pre = out@;
            out.append(cell.as_str());
            proof {
                lemma_align_no_nl(if j < row@.len() {
                    row@[j as int]@
                } else {
                    Seq::empty()
                }, widths@[j as int] as nat, fill, a);
                assert(empty_cell@ =~= Seq::<char>::empty());
                lemma_no_nl_concat(pre, cell@);
            }
            j = j + 1;
        }
        let ghost pend = out@;
        crate::codec::push_char(&mut out, end);
        proof {
            lemma_no_nl_push(pend, end);
            lemma_no_nl_count(out@);
        }
        out
    }

    /// The alignment in effect for a column.
    fn col_align(&self, col: usize) -> (r: Align)
        ensures
            r == spec_col_align(self.align@, col as nat),
    {
        let mut k: usize = self.align.len();
        proof {
            assert(self.align@.subrange(0, self.align@.len() as int) =~= self.align@);
        }
        while k > 0
            invariant
                k <= self.align.len(),
                spec_col_align(self.align@, col as nat) == spec_col_align(
                    self.align@.subrange(0, k as int),
                    col as nat,
                ),
            decreases k,
        {
            let ghost pre = self.align@.subrange(0, k as int);
            k = k - 1;
            if self.align[k].0 == col {
                proof {
                    assert(pre.last() == self.align@[k as int]);
                }
                return self.align[k].1;
            }
            proof {
                assert(pre.last() == self.align@[k as int]);
                assert(pre.drop_last() =~= self.align@.subrange(0, k as int));
            }
        }
        proof {
            assert(self.align@.subrange(0, 0) =~= Seq::<(usize, Align)>::empty());
        }
        Align::Left
    }
}

/// The number of newline characters in a sequence.
pub open spec fn count_nl(s: Seq<char>) -> nat
    decreases s.len(),
{
    if s.len() == 0 {
        0
    } else {
        count_nl(s.drop_last()) + if s.last() == '\n' {
            1nat
        } else {
            0nat
        }
    }
}

/// Appending one character raises the newline count by at most one.
pub proof fn lemma_count_nl_push(s: Seq<char>, c: char)
    ensures
        count_nl(s.push(c)) == count_nl(s) + if c == '\n' {
            1nat
        } else {
            0nat
        },
{
    assert(s.push(c).drop_last() =~= s);
    assert(s.push(c).last() == c);
}

/// Newline counts add up over concatenation.
pub proof fn lemma_count_nl_concat(a: Seq<char>, b: Seq<char>)
    ensures
        count_nl(a + b) == count_nl(a) + count_nl(b),
    decreases b.len(),
{
    if b.len() == 0 {
        assert(a + b =~= a);
    } else {
        lemma_count_nl_concat(a, b.drop_last());
        assert((a + b).drop_last() =~= a + b.drop_last());
        assert((a + b).last() == b.last());
    }
}

/// A sequence without newlines counts none.
pub proof fn lemma_no_nl_count(s: Seq<char>)
    requires
        crate::codec::no_nl(s),
    ensures
        count_nl(s) == 0,
    decreases s.len(),
{
    if s.len() > 0 {
        assert(crate::codec::no_nl(s.drop_last())) by {
            assert(forall|k: int| 0 <= k < s.len() - 1 ==> s.drop_last()[k] == s[k]);
        }
        lemma_no_nl_count(s.drop_last());
        assert(s.last() == s[s.len() - 1]);
    }
}

/// Appending a character other than a newline keeps a sequence free of
/// newlines.
pub proof fn lemma_no_nl_push(s: Seq<char>, c: char)
    requires
        crate::codec::no_nl(s),
        c != '\n',
    ensures
        crate::codec::no_nl(s.push(c)),
{
    assert forall|k: int| 0 <= k < s.push(c).len() implies (#[trigger] s.push(c)[k]) != '\n' by {
        if k < s.len() {
            assert(s.push(c)[k] == s[k]);
        }
    }
}

/// Concatenation keeps sequences free of newlines.
pub proof fn lemma_no_nl_concat(a: Seq<char>, b: Seq<char>)
    requires
        crate::codec::no_nl(a),
        crate::codec::no_nl(b),
    ensures
        crate::codec::no_nl(a + b),
{
    assert forall|k: int| 0 <= k < (a + b).len() implies (#[trigger] (a + b)[k]) != '\n' by {
        if k < a.len() {
            assert((a + b)[k] == a[k]);
        } else {
            assert((a + b)[k] == b[k - a.len()]);
        }
    }
}

/// Every character of a repetition is the repeated character.
pub proof fn lemma_rep_elems(c: char, n: nat)
    ensures
        forall|k: int| 0 <= k < rep(c, n).len() ==> rep(c, n)[k] == c,
    decreases n,
{
    if n > 0 {
        lemma_rep_elems(c, (n - 1) as nat);
        lemma_rep_len(c, (n - 1) as nat);
        assert forall|k: int| 0 <= k < rep(c, n).len() implies rep(c, n)[k] == c by {
            if k < rep(c, (n - 1) as nat).len() {
                assert(rep(c, n)[k] == rep(c, (n - 1) as nat)[k]);
            }
        }
    }
}

/// An aligned cell holds no newline when its entry and fill hold none.
pub proof fn lemma_align_no_nl(entry: Seq<char>, size: nat, fill: char, a: Align)
    requires
        fill != '\n',
        crate::codec::no_nl(entry),
        entry.len() <= size,
    ensures
        crate::codec::no_nl(spec_align(entry, size, fill, a)),
{
    let buf = (size - entry.len()) as nat;
    lemma_rep_elems(fill, buf);
    lemma_rep_elems(fill, ((buf + 1) / 2) as nat);
    lemma_rep_elems(fill, (buf / 2) as nat);
    lemma_rep_len(fill, buf);
    lemma_rep_len(fill, ((buf + 1) / 2) as nat);
    lemma_rep_len(fill, (buf / 2) as nat);
}

impl Style {
    /// The eight drawing characters of the style: cell edge, horizontal
    /// edge, then the top and bottom corners and joins.
    pub fn array(&self) -> (r: [char; 8])
        ensures
            forall|k: int| 0 <= k < 8 ==> (#[trigger] r@[k]) != '\n',
            *self == Style::Standard ==> r@ =~= seq!['|', '-', '+', '+', '+', '+', '+', '+'],
            *self == Style::Fancy ==> r@ =~= seq![
                '\u{2502}',
                '\u{2500}',
                '\u{250c}',
                '\u{2510}',
                '\u{252c}',
                '\u{2514}',
                '\u{2518}',
                '\u{2534}',
            ],
    {
        match self {
            Style::Standard => ['|', '-', '+', '+', '+', '+', '+', '+'],
            Style::Fancy => [
                '\u{2502}',
                '\u{2500}',
                '\u{250c}',
                '\u{2510}',
                '\u{252c}',
                '\u{2514}',
                '\u{2518}',
                '\u{2534}',
            ],
        }
    }
}

} // verus!
