//! Text tables: columns padded to their widest cell, framed with box-drawing
//! or Markdown characters, optionally coloured with ANSI escape codes.
use vstd::prelude::*;

verus! {

/// Colours of the frame and the headers; none where absent.
#[derive(Clone, Debug, Default)]
pub struct PrintOptions {
    pub colors: Option<ColorOptions>,
    pub chars: CharOptions,
}

#[derive(Clone, Copy, Debug, Default, PartialEq, Eq, Structural)]
pub struct ColorOptions {
    pub headers: AnsiiColor,
    pub lines: AnsiiColor,
}

#[derive(Clone, Copy, Debug, Default, PartialEq, Eq, Structural)]
pub enum AnsiiColor {
    #[default]
    Reset,
    Red,
    Yellow,
    Green,
    Cyan,
    Blue,
    Magenta,
}

/// The characters that draw a table.
#[derive(Clone, Copy, Debug, PartialEq, Eq, Structural)]
pub struct CharOptions {
    pub caps: Option<CapOptions>,
    pub v: char,
    pub h: char,
    pub vr: char,
    pub vl: char,
    pub hv: char,
}

/// The characters of the top and bottom edges.
#[derive(Clone, Copy, Debug, PartialEq, Eq, Structural)]
pub struct CapOptions {
    pub dr: char,
    pub dl: char,
    pub ur: char,
    pub ul: char,
    pub hd: char,
    pub hu: char,
}

/// A table of text: a header for each column and the column's cells.
#[derive(Clone, Debug)]
pub struct Table {
    pub keys: Vec<String>,
    pub columns: Vec<Vec<String>>,
}

/// Relies on `String::push`: the character is appended.
#[verifier::external_body]
fn push_char(s: &mut String, c: char)
    ensures
        final(s)@ == old(s)@.push(c),
{
    s.push(c)
}

pub open spec fn color_code(c: AnsiiColor) -> Seq<char> {
    match c {
        AnsiiColor::Reset => seq!['0'],
        AnsiiColor::Red => seq!['3', '1'],
        AnsiiColor::Yellow => seq!['3', '3'],
        AnsiiColor::Green => seq!['3', '2'],
        AnsiiColor::Cyan => seq!['3', '5'],
        AnsiiColor::Blue => seq!['3', '4'],
        AnsiiColor::Magenta => seq!['3', '6'],
    }
}

/// The escape sequence that switches to the colour.
pub open spec fn escape_of(c: AnsiiColor) -> Seq<char> {
    seq!['\u{1b}', '['] + color_code(c) + seq!['m']
}

impl AnsiiColor {
    /// The ANSI escape sequence that switches to this colour.
    pub fn escape(&self) -> (r: String)
        ensures
            r@ == escape_of(*self),
    {
        let mut out = String::new();
        push_char(&mut out, '\u{1b}');
        push_char(&mut out, '[');
        match self {
            AnsiiColor::Reset => push_char(&mut out, '0'),
            AnsiiColor::Red => {
                push_char(&mut out, '3');
                push_char(&mut out, '1');
            },
            AnsiiColor::Yellow => {
                push_char(&mut out, '3');
                push_char(&mut out, '3');
            },
            AnsiiColor::Green => {
                push_char(&mut out, '3');
                push_char(&mut out, '2');
            },
            AnsiiColor::Cyan => {
                push_char(&mut out, '3');
                push_char(&mut out, '5');
            },
            AnsiiColor::Blue => {
                push_char(&mut out, '3');
                push_char(&mut out, '4');
            },
            AnsiiColor::Magenta => {
                push_char(&mut out, '3');
                push_char(&mut out, '6');
            },
        }
        push_char(&mut out, 'm');
        proof {
            assert(out@ =~= escape_of(*self));
        }
        out
    }
}

/// The characters of a Markdown table.
pub open spec fn markdown_chars() -> CharOptions {
    CharOptions { caps: None, v: '|', h: '-', vr: '|', vl: '|', hv: '|' }
}

impl CharOptions {
    /// Box-drawing characters with square corners.
    pub fn sharp() -> (r: CharOptions)
        ensures
            r.v == '│' && r.h == '─' && r.vr == '├' && r.vl == '┤' && r.hv == '┼',
            r.caps == Some(
                CapOptions { dr: '┌', dl: '┐', ur: '└', ul: '┘', hd: '┬', hu: '┴' },
            ),
    {
        CharOptions {
            caps: Some(CapOptions { dr: '┌', dl: '┐', ur: '└', ul: '┘', hd: '┬', hu: '┴' }),
            v: '│',
            h: '─',
            vr: '├',
            vl: '┤',
            hv: '┼',
        }
    }

    /// Box-drawing characters with rounded corners.
    pub fn rounded() -> (r: CharOptions)
        ensures
            r.v == '│' && r.h == '─' && r.vr == '├' && r.vl == '┤' && r.hv == '┼',
            r.caps == Some(
                CapOptions { dr: '╭', dl: '╮', ur: '╰', ul: '╯', hd: '┬', hu: '┴' },
            ),
    {
        CharOptions {
            caps: Some(CapOptions { dr: '╭', dl: '╮', ur: '╰', ul: '╯', hd: '┬', hu: '┴' }),
            v: '│',
            h: '─',
            vr: '├',
            vl: '┤',
            hv: '┼',
        }
    }

    /// A Markdown table: no top or bottom edge.
    pub fn ascii_markdown() -> (r: CharOptions)
        ensures
            r == markdown_chars(),
    {
        CharOptions { caps: None, v: '|', h: '-', vr: '|', vl: '|', hv: '|' }
    }
}

impl Default for CharOptions {
    fn default() -> (r: CharOptions)
        ensures
            r == markdown_chars(),
    {
        CharOptions::ascii_markdown()
    }
}

/// `n` copies of `c`.
pub open spec fn rep(c: char, n: int) -> Seq<char>
    decreases n,
{
    if n <= 0 {
        Seq::empty()
    } else {
        rep(c, n - 1).push(c)
    }
}

/// The longest of `base` and the lengths of `cs`.
pub open spec fn max_len(cs: Seq<Seq<char>>, base: int) -> int
    decreases cs.len(),
{
    if cs.len() == 0 {
        base
    } else {
        let m = max_len(cs.drop_last(), base);
        if cs.last().len() > m {
            cs.last().len() as int
        } else {
            m
        }
    }
}

impl Table {
    /// Each header has a column (columns past the headers are not drawn), and
    /// all columns are equally long.
    pub open spec fn well_formed(self) -> bool {
        &&& self.columns@.len() >= self.keys@.len()
        &&& forall|i: int|
            0 <= i < self.columns@.len() ==> #[trigger] self.columns@[i]@.len()
                == self.columns@[0]@.len()
    }

    pub open spec fn cells(self, i: int) -> Seq<Seq<char>> {
        self.columns@[i]@.map_values(|s: String| s@)
    }

    /// The width of column `i`: its widest cell or header.
    pub open spec fn width(self, i: int) -> int {
        max_len(self.cells(i), self.keys@[i]@.len() as int)
    }

    pub open spec fn row_count(self) -> int {
        if self.columns@.len() == 0 {
            0
        } else {
            self.columns@[0]@.len() as int
        }
    }

    /// A horizontal line over the first `k` columns.
    pub open spec fn rule(self, k: int, first: char, mid: char, h: char) -> Seq<char>
        decreases k,
    {
        if k <= 0 {
            Seq::empty()
        } else {
            self.rule(k - 1, first, mid, h) + seq![
                if k - 1 == 0 {
                    first
                } else {
                    mid
                },
            ] + rep(h, self.width(k - 1) + 2)
        }
    }

    /// The headers of the first `k` columns.
    pub open spec fn header(self, k: int, before: Seq<char>, after: Seq<char>, v: char) -> Seq<char>
        decreases k,
    {
        if k <= 0 {
            Seq::empty()
        } else {
            self.header(k - 1, before, after, v) + cell_text(
                self.keys@[k - 1]@,
                self.width(k - 1),
                before,
                after,
                v,
            )
        }
    }

    /// The cells of row `r` in the first `k` columns.
    pub open spec fn row(self, r: int, k: int, before: Seq<char>, after: Seq<char>, v: char) -> Seq<
        char,
    >
        decreases k,
    {
        if k <= 0 {
            Seq::empty()
        } else {
            self.row(r, k - 1, before, after, v) + cell_text(
                self.cells(k - 1)[r],
                self.width(k - 1),
                before,
                after,
                v,
            )
        }
    }

    /// The first `n` rows, each on a line of its own.
    pub open spec fn body(self, n: int, reset: Seq<char>, line: Seq<char>, v: char) -> Seq<char>
        decreases n,
    {
        if n <= 0 {
            Seq::empty()
        } else {
            self.body(n - 1, reset, line, v) + seq!['\n'] + line + seq![v] + self.row(
                n - 1,
                self.keys@.len() as int,
                reset,
                line,
                v,
            )
        }
    }

    /// The top edge, where the characters have one.
    pub open spec fn top(self, c: CharOptions) -> Seq<char> {
        match c.caps {
            Some(cap) => self.rule(self.keys@.len() as int, cap.dr, cap.hd, c.h) + seq![cap.dl, '\n'],
            None => Seq::empty(),
        }
    }

    /// The bottom edge, where the characters have one.
    pub open spec fn bottom(self, c: CharOptions) -> Seq<char> {
        match c.caps {
            Some(cap) => seq!['\n'] + self.rule(self.keys@.len() as int, cap.ur, cap.hu, c.h)
                + seq![cap.ul],
            None => Seq::empty(),
        }
    }

    /// The whole table as `to_string_with_options` draws it.
    pub open spec fn rendered(self, o: PrintOptions) -> Seq<char> {
        let (c_header, c_line, c_reset) = color_texts(o.colors);
        let c = o.chars;
        let n = self.keys@.len() as int;
        let top = self.top(c);
        let bottom = self.bottom(c);
        c_line + top + seq![c.v] + self.header(n, c_header, c_line, c.v) + seq!['\n'] + self.rule(
            n,
            c.vr,
            c.hv,
            c.h,
        ) + seq![c.vl] + c_reset + self.body(self.row_count(), c_reset, c_line, c.v) + bottom
            + c_reset
    }
}

/// One cell: a space, `before`, the text padded to `w`, a space, `after` and
/// the vertical line.
pub open spec fn cell_text(text: Seq<char>, w: int, before: Seq<char>, after: Seq<char>, v: char) -> Seq<
    char,
> {
    seq![' '] + before + text + rep(' ', w - text.len()) + seq![' '] + after + seq![v]
}

/// The escape sequences for headers, for lines, and for going back to
/// normal; all empty without colours.
pub open spec fn color_texts(colors: Option<ColorOptions>) -> (Seq<char>, Seq<char>, Seq<char>) {
    match colors {
        Some(c) => (escape_of(c.headers), escape_of(c.lines), escape_of(AnsiiColor::Reset)),
        None => (Seq::empty(), Seq::empty(), Seq::empty()),
    }
}

fn push_str(out: &mut String, s: &str)
    ensures
        final(out)@ == old(out)@ + s@,
{
    out.append(s);
}

fn push_rep(out: &mut String, c: char, n: usize)
    ensures
        final(out)@ == old(out)@ + rep(c, n as int),
{
    let ghost start = out@;
    let mut i: usize = 0;
    proof {
        assert(start + rep(c, 0) =~= start);
    }
    while i < n
        invariant
            i <= n,
            out@ == start + rep(c, i as int),
        decreases n - i,
    {
        push_char(out, c);
        proof {
            assert(start + rep(c, i as int + 1) =~= start + rep(c, i as int) + seq![c]);
        }
        i = i + 1;
    }
}

proof fn lemma_max_len(cs: Seq<Seq<char>>, base: int)
    ensures
        max_len(cs, base) >= base,
        forall|j: int| 0 <= j < cs.len() ==> max_len(cs, base) >= #[trigger] cs[j].len(),
    decreases cs.len(),
{
    if cs.len() > 0 {
        lemma_max_len(cs.drop_last(), base);
        assert forall|j: int| 0 <= j < cs.len() implies max_len(cs, base) >= #[trigger] cs[j].len() by {
            if j < cs.len() - 1 {
                assert(cs[j] == cs.drop_last()[j]);
            }
        }
    }
}

proof fn lemma_rep_two(c: char, n: int)
    requires
        n >= 0,
    ensures
        rep(c, n + 2) == rep(c, n) + seq![c, c],
{
    assert(rep(c, n + 1) == rep(c, n).push(c));
    assert(rep(c, n + 2) == rep(c, n + 1).push(c));
    assert(rep(c, n + 2) =~= rep(c, n) + seq![c, c]);
}

fn push_cell(out: &mut String, text: &str, w: usize, before: &str, after: &str, v: char)
    requires
        text@.len() <= w,
    ensures
        final(out)@ == old(out)@ + cell_text(text@, w as int, before@, after@, v),
{
    let ghost start = out@;
    push_char(out, ' ');
    push_str(out, before);
    push_str(out, text);
    push_rep(out, ' ', w - text.unicode_len());
    push_char(out, ' ');
    push_str(out, after);
    push_char(out, v);
    proof {
        assert(out@ =~= start + cell_text(text@, w as int, before@, after@, v));
    }
}

impl Table {
    /// The width of each column.
    fn widths(&self) -> (r: Vec<usize>)
        requires
            self.well_formed(),
        ensures
            r@.len() == self.keys@.len(),
            forall|i: int| 0 <= i < r@.len() ==> r@[i] as int == self.width(i),
    {
        let mut widths: Vec<usize> = Vec::new();
        let mut i: usize = 0;
        while i < self.keys.len()
            invariant
                self.well_formed(),
                i <= self.keys@.len(),
                widths@.len() == i,
                forall|m: int| 0 <= m < i ==> widths@[m] as int == self.width(m),
            decreases self.keys@.len() - i,
        {
            let column = &self.columns[i];
            let ghost cs = self.cells(i as int);
            let mut w = self.keys[i].as_str().unicode_len();
            let mut j: usize = 0;
            proof {
                assert(cs.take(0) =~= Seq::<Seq<char>>::empty());
            }
            while j < column.len()
                invariant
                    cs == column@.map_values(|s: String| s@),
                    j <= column@.len(),
                    w as int == max_len(cs.take(j as int), self.keys@[i as int]@.len() as int),
                decreases column@.len() - j,
            {
                let l = column[j].as_str().unicode_len();
                proof {
                    assert(cs.take(j as int + 1).drop_last() =~= cs.take(j as int));
                    assert(cs[j as int] == column@[j as int]@);
                }
                if l > w {
                    w = l;
                }
                j = j + 1;
            }
            proof {
                assert(cs.take(j as int) =~= cs);
            }
            widths.push(w);
            i = i + 1;
        }
        widths
    }

    fn push_rule(&self, out: &mut String, widths: &Vec<usize>, first: char, mid: char, h: char)
        requires
            self.well_formed(),
            widths@.len() == self.keys@.len(),
            forall|i: int| 0 <= i < widths@.len() ==> widths@[i] as int == self.width(i),
        ensures
            final(out)@ == old(out)@ + self.rule(self.keys@.len() as int, first, mid, h),
    {
        let ghost start = out@;
        let mut k: usize = 0;
        proof {
            assert(start + self.rule(0, first, mid, h) =~= start);
        }
        while k < widths.len()
            invariant
                widths@.len() == self.keys@.len(),
                forall|i: int| 0 <= i < widths@.len() ==> widths@[i] as int == self.width(i),
                k <= widths@.len(),
                out@ == start + self.rule(k as int, first, mid, h),
            decreases widths@.len() - k,
        {
            let ghost before = out@;
            push_char(out, if k == 0 {
                first
            } else {
                mid
            });
            push_rep(out, h, widths[k]);
            push_char(out, h);
            push_char(out, h);
            proof {
                lemma_rep_two(h, widths@[k as int] as int);
                assert(out@ =~= start + self.rule(k as int + 1, first, mid, h));
            }
            k = k + 1;
        }
    }

    fn push_header(&self, out: &mut String, widths: &Vec<usize>, before: &str, after: &str, v: char)
        requires
            self.well_formed(),
            widths@.len() == self.keys@.len(),
            forall|i: int| 0 <= i < widths@.len() ==> widths@[i] as int == self.width(i),
        ensures
            final(out)@ == old(out)@ + self.header(self.keys@.len() as int, before@, after@, v),
    {
        let ghost start = out@;
        let mut k: usize = 0;
        proof {
            assert(start + self.header(0, before@, after@, v) =~= start);
        }
        while k < widths.len()
            invariant
                self.well_formed(),
                widths@.len() == self.keys@.len(),
                forall|i: int| 0 <= i < widths@.len() ==> widths@[i] as int == self.width(i),
                k <= widths@.len(),
                out@ == start + self.header(k as int, before@, after@, v),
            decreases widths@.len() - k,
        {
            proof {
                lemma_max_len(self.cells(k as int), self.keys@[k as int]@.len() as int);
                assert(widths@[k as int] as int == self.width(k as int));
                assert(self.keys@[k as int]@.len() <= widths@[k as int]);
            }
            push_cell(out, self.keys[k].as_str(), widths[k], before, after, v);
            proof {
                assert(out@ =~= start + self.header(k as int + 1, before@, after@, v));
            }
            k = k + 1;
        }
    }

    fn push_row(&self, out: &mut String, widths: &Vec<usize>, r: usize, before: &str, after: &str, v: char)
        requires
            self.well_formed(),
            widths@.len() == self.keys@.len(),
            forall|i: int| 0 <= i < widths@.len() ==> widths@[i] as int == self.width(i),
            r < self.row_count(),
        ensures
            final(out)@ == old(out)@ + self.row(r as int, self.keys@.len() as int, before@, after@, v),
    {
        let ghost start = out@;
        let mut k: usize = 0;
        proof {
            assert(start + self.row(r as int, 0, before@, after@, v) =~= start);
        }
        while k < widths.len()
            invariant
                self.well_formed(),
                widths@.len() == self.keys@.len(),
                forall|i: int| 0 <= i < widths@.len() ==> widths@[i] as int == self.width(i),
                r < self.row_count(),
                k <= widths@.len(),
                out@ == start + self.row(r as int, k as int, before@, after@, v),
            decreases widths@.len() - k,
        {
            proof {
                assert(self.columns@[k as int]@.len() == self.columns@[0]@.len());
                lemma_max_len(self.cells(k as int), self.keys@[k as int]@.len() as int);
                assert(self.cells(k as int)[r as int] == self.columns@[k as int]@[r as int]@);
                assert(widths@[k as int] as int == self.width(k as int));
                assert(self.columns@[k as int]@[r as int]@.len() <= widths@[k as int]);
            }
            push_cell(out, self.columns[k][r].as_str(), widths[k], before, after, v);
            proof {
                assert(out@ =~= start + self.row(r as int, k as int + 1, before@, after@, v));
            }
            k = k + 1;
        }
    }

    fn push_top(&self, out: &mut String, widths: &Vec<usize>, copt: &CharOptions)
        requires
            self.well_formed(),
            widths@.len() == self.keys@.len(),
            forall|i: int| 0 <= i < widths@.len() ==> widths@[i] as int == self.width(i),
        ensures
            final(out)@ == old(out)@ + self.top(*copt),
    {
        let ghost start = out@;
        match &copt.caps {
            Some(co) => {
                self.push_rule(out, widths, co.dr, co.hd, copt.h);
                push_char(out, co.dl);
                push_char(out, '\n');
                proof {
                    assert(out@ =~= start + self.top(*copt));
                }
            },
            None => {
                proof {
                    assert(out@ =~= start + self.top(*copt));
                }
            },
        }
    }

    fn push_bottom(&self, out: &mut String, widths: &Vec<usize>, copt: &CharOptions)
        requires
            self.well_formed(),
            widths@.len() == self.keys@.len(),
            forall|i: int| 0 <= i < widths@.len() ==> widths@[i] as int == self.width(i),
        ensures
            final(out)@ == old(out)@ + self.bottom(*copt),
    {
        let ghost start = out@;
        match &copt.caps {
            Some(co) => {
                push_char(out, '\n');
                self.push_rule(out, widths, co.ur, co.hu, copt.h);
                push_char(out, co.ul);
                proof {
                    assert(out@ =~= start + self.bottom(*copt));
                }
            },
            None => {
                proof {
                    assert(out@ =~= start + self.bottom(*copt));
                }
            },
        }
    }

    fn push_body(&self, out: &mut String, widths: &Vec<usize>, reset: &str, line: &str, v: char)
        requires
            self.well_formed(),
            widths@.len() == self.keys@.len(),
            forall|i: int| 0 <= i < widths@.len() ==> widths@[i] as int == self.width(i),
        ensures
            final(out)@ == old(out)@ + self.body(self.row_count(), reset@, line@, v),
    {
        let rows = if self.columns.len() == 0 {
            0
        } else {
            self.columns[0].len()
        };
        let ghost head = out@;
        let mut r: usize = 0;
        proof {
            assert(head + self.body(0, reset@, line@, v) =~= head);
        }
        while r < rows
            invariant
                self.well_formed(),
                widths@.len() == self.keys@.len(),
                forall|i: int| 0 <= i < widths@.len() ==> widths@[i] as int == self.width(i),
                rows == self.row_count(),
                r <= rows,
                out@ == head + self.body(r as int, reset@, line@, v),
            decreases rows - r,
        {
            push_char(out, '\n');
            push_str(out, line);
            push_char(out, v);
            self.push_row(out, widths, r, reset, line, v);
            proof {
                assert(out@ =~= head + self.body(r as int + 1, reset@, line@, v));
            }
            r = r + 1;
        }
    }

    /// Draws the table with the given characters and colours.
    pub fn to_string_with_options(&self, print_options: &PrintOptions) -> (r: String)
        requires
            self.well_formed(),
        ensures
            r@ == self.rendered(*print_options),
    {
        let copt = &print_options.chars;
        let widths = self.widths();
        let (c_header, c_line, c_reset) = match &print_options.colors {
            Some(c) => (c.headers.escape(), c.lines.escape(), AnsiiColor::Reset.escape()),
            None => (String::new(), String::new(), String::new()),
        };
        proof {
            assert((c_header@, c_line@, c_reset@) == color_texts(print_options.colors));
        }
        let ghost n = self.keys@.len() as int;
        let mut out = String::new();
        push_str(&mut out, c_line.as_str());
        self.push_top(&mut out, &widths, copt);
        let ghost after_top = out@;
        push_char(&mut out, copt.v);
        self.push_header(&mut out, &widths, c_header.as_str(), c_line.as_str(), copt.v);
        push_char(&mut out, '\n');
        let ghost after_header = out@;
        self.push_rule(&mut out, &widths, copt.vr, copt.hv, copt.h);
        push_char(&mut out, copt.vl);
        push_str(&mut out, c_reset.as_str());
        let ghost after_rule = out@;
        self.push_body(&mut out, &widths, c_reset.as_str(), c_line.as_str(), copt.v);
        self.push_bottom(&mut out, &widths, copt);
        push_str(&mut out, c_reset.as_str());
        proof {
            let rr = self.rendered(*print_options);
            assert(after_top =~= c_line@ + self.top(*copt));
            assert(after_header =~= after_top + seq![copt.v] + self.header(n, c_header@, c_line@, copt.v) + seq!['\n']);
            assert(after_rule =~= after_header + self.rule(n, copt.vr, copt.hv, copt.h) + seq![copt.vl] + c_reset@);
            assert(out@ =~= after_rule + self.body(self.row_count(), c_reset@, c_line@, copt.v)
                + self.bottom(*copt) + c_reset@);
            assert(out@ =~= rr);
        }
        out
    }

    /// Draws the table as a Markdown table without colours.
    pub fn to_text(&self) -> (r: String)
        requires
            self.well_formed(),
        ensures
            r@ == self.rendered(PrintOptions { colors: None, chars: markdown_chars() }),
    {
        let options = PrintOptions { colors: None, chars: CharOptions::ascii_markdown() };
        self.to_string_with_options(&options)
    }

    /// Whether each header has a column and all columns are equally long.
    pub fn is_well_formed(&self) -> (r: bool)
        ensures
            r == self.well_formed(),
    {
        if self.columns.len() < self.keys.len() {
            return false;
        }
        let mut i: usize = 0;
        while i < self.columns.len()
            invariant
                self.columns@.len() >= self.keys@.len(),
                i <= self.columns@.len(),
                forall|m: int| 0 <= m < i ==> #[trigger] self.columns@[m]@.len() == self.columns@[0]@.len(),
            decreases self.columns@.len() - i,
        {
            if self.columns[i].len() != self.columns[0].len() {
                return false;
            }
            i = i + 1;
        }
        true
    }

    /// A table of the given columns, each a header with its cells.
    pub fn from_columns(columns: Vec<(String, Vec<String>)>) -> (r: Table)
        ensures
            r.keys@.len() == columns@.len(),
            r.columns@.len() == columns@.len(),
            forall|i: int|
                0 <= i < columns@.len() ==> r.keys@[i] == columns@[i].0 && #[trigger] r.columns@[i]
                    == columns@[i].1,
    {
        let mut keys: Vec<String> = Vec::new();
        let mut cols: Vec<Vec<String>> = Vec::new();
        let n = columns.len();
        let mut rest = columns;
        let ghost all = rest@;
        let mut taken: usize = 0;
        while rest.len() > 0
            invariant
                all.len() == n,
                taken + rest@.len() == all.len(),
                rest@ == all.skip(taken as int),
                keys@.len() == taken,
                cols@.len() == taken,
                forall|i: int| 0 <= i < taken ==> #[trigger] keys@[i] == all[i].0,
                forall|i: int| 0 <= i < taken ==> #[trigger] cols@[i] == all[i].1,
            decreases rest@.len(),
        {
            let ghost before = rest@;
            let (k, vs) = rest.remove(0);
            proof {
                assert(before[0] == all[taken as int]);
                assert(all[taken as int] == (k, vs));
                assert(rest@ =~= all.skip(taken as int + 1));
            }
            keys.push(k);
            cols.push(vs);
            taken = taken + 1;
        }
        proof {
            assert(taken == all.len());
        }
        Table { keys, columns: cols }
    }
}

} // verus!
