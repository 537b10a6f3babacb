//! Text of table cells and delimited rows, for the reporting side.
use vstd::prelude::*;
use crate::text::{chars_of, push_char, string_of};

verus! {

/// A column's header and whether its cells may be shortened with `...`.
#[derive(Clone, Debug)]
pub struct HeaderFormat {
    pub header: String,
    pub ellipsisable: bool,
}

impl HeaderFormat {
    pub fn new(header: String, ellipsisable: bool) -> (r: HeaderFormat)
        ensures
            r.header == header,
            r.ellipsisable == ellipsisable,
    {
        HeaderFormat { header, ellipsisable }
    }
}

/// A column's width: the characters shown, and the width with padding.
#[derive(Clone, Copy, Debug)]
pub struct WidthFormat {
    pub width_pad: usize,
    pub width_chars: usize,
}

/// `s` followed by spaces up to width `w`.
pub open spec fn pad_right(s: Seq<char>, w: int) -> Seq<char> {
    if s.len() >= w { s } else { s + Seq::new((w - s.len()) as nat, |i: int| ' ') }
}

/// What a cell shows of `v`: all of it if it fits in `chars` characters;
/// else its start with `...` when more than three characters are cut and
/// there is room for more than three; else its first `chars` characters.
pub open spec fn cell_body(v: Seq<char>, chars: int) -> Seq<char> {
    if v.len() <= chars {
        v
    } else if chars > 3 && v.len() - chars > 3 {
        v.subrange(0, chars - 3) + seq!['.', '.', '.']
    } else {
        v.subrange(0, chars)
    }
}

fn pad_to(s: &mut String, w: usize)
    ensures
        final(s)@ == pad_right(old(s)@, w as int),
{
    let ghost start = s@;
    let n = s.as_str().unicode_len();
    if n >= w {
        return;
    }
    let mut i: usize = n;
    while i < w
        invariant
            n == start.len(),
            n <= i <= w,
            s@ == start + Seq::new((i - n) as nat, |k: int| ' '),
        decreases w - i,
    {
        push_char(s, ' ');
        assert(s@ =~= start + Seq::new((i + 1 - n) as nat, |k: int| ' '));
        i += 1;
    }
}

/// The text of one cell: `value` shortened to the column and padded to its
/// full width.
pub fn prepare_field(value: &String, widths: &WidthFormat) -> (r: String)
    ensures
        r@ == pad_right(cell_body(value@, widths.width_chars as int), widths.width_pad as int),
{
    let c = chars_of(value.as_str());
    let w = widths.width_chars;
    let mut r = if c.len() <= w {
        assert(c@.subrange(0, c@.len() as int) =~= c@);
        string_of(&c, 0, c.len())
    } else if w > 3 && c.len() - w > 3 {
        let mut t = string_of(&c, 0, w - 3);
        t.append("...");
        proof { reveal_strlit("..."); }
        t
    } else {
        string_of(&c, 0, w)
    };
    pad_to(&mut r, widths.width_pad);
    r
}

/// The cells of `row` joined by `delimiter`.
pub open spec fn joined(row: Seq<Seq<char>>, delimiter: Seq<char>) -> Seq<char>
    decreases row.len(),
{
    if row.len() == 0 {
        Seq::empty()
    } else if row.len() == 1 {
        row[0]
    } else {
        joined(row.drop_last(), delimiter) + delimiter + row.last()
    }
}

/// The line that a delimited writer emits for `row`: its cells joined by
/// `delimiter`, then a newline.
pub fn to_writer_delimited(row: &Vec<String>, delimiter: &str) -> (r: String)
    ensures
        r@ == joined(row@.map_values(|s: String| s@), delimiter@).push('\n'),
{
    let ghost cells = row@.map_values(|s: String| s@);
    let mut r = String::new();
    let mut i: usize = 0;
    while i < row.len()
        invariant
            i <= row@.len(),
            cells == row@.map_values(|s: String| s@),
            r@ == joined(cells.subrange(0, i as int), delimiter@),
        decreases row@.len() - i,
    {
        let ghost before = cells.subrange(0, i as int);
        if i > 0 {
            r.append(delimiter);
        }
        r.append(row[i].as_str());
        proof {
            let now = cells.subrange(0, i + 1);
            assert(now.drop_last() =~= before);
            assert(now.last() == row@[i as int]@);
            if i == 0 {
                assert(before.len() == 0);
            }
        }
        i += 1;
    }
    assert(cells.subrange(0, row@.len() as int) =~= cells);
    push_char(&mut r, '\n');
    r
}

/// The width of each column: the longest of its header and of the cells
/// in that column, counted in characters. Cells past the last header are
/// not counted.
pub fn max_widths(labels: &Vec<String>, rows: &Vec<Vec<String>>) -> (r: Vec<usize>)
    ensures
        r@.len() == labels@.len(),
        forall|i: int| 0 <= i < r@.len() ==> r@[i] >= labels@[i]@.len(),
        forall|i: int, k: int| 0 <= i < r@.len() && 0 <= k < rows@.len() && i < rows@[k]@.len()
            ==> r@[i] >= (#[trigger] rows@[k]@[i])@.len(),
        forall|i: int| 0 <= i < r@.len() ==> r@[i] == labels@[i]@.len() || exists|k: int|
            0 <= k < rows@.len() && i < rows@[k]@.len() && r@[i] == (#[trigger] rows@[k]@[i])@.len(),
{
    let mut r: Vec<usize> = Vec::new();
    let mut i: usize = 0;
    while i < labels.len()
        invariant
            i <= labels@.len(),
            r@.len() == i,
            forall|x: int| 0 <= x < i ==> r@[x] >= labels@[x]@.len(),
            forall|x: int, k: int| 0 <= x < i && 0 <= k < rows@.len() && x < rows@[k]@.len()
                ==> r@[x] >= (#[trigger] rows@[k]@[x])@.len(),
            forall|x: int| 0 <= x < i ==> r@[x] == labels@[x]@.len() || exists|k: int|
                0 <= k < rows@.len() && x < rows@[k]@.len() && r@[x] == (#[trigger] rows@[k]@[x])@.len(),
        decreases labels@.len() - i,
    {
        let mut w: usize = labels[i].as_str().unicode_len();
        let ghost wl = w;
        let mut k: usize = 0;
        while k < rows.len()
            invariant
                i < labels@.len(),
                k <= rows@.len(),
                w >= labels@[i as int]@.len(),
                forall|k2: int| 0 <= k2 < k && (i as int) < rows@[k2]@.len() ==> w >= (#[trigger] rows@[k2]@[i as int])@.len(),
                w == labels@[i as int]@.len() || exists|k2: int|
                    0 <= k2 < rows@.len() && (i as int) < rows@[k2]@.len() && w == (#[trigger] rows@[k2]@[i as int])@.len(),
            decreases rows@.len() - k,
        {
            if i < rows[k].len() {
                let n = rows[k][i].as_str().unicode_len();
                if n > w {
                    w = n;
                }
            }
            k += 1;
        }
        r.push(w);
        proof {
            assert forall|x: int, k2: int| 0 <= x < i + 1 && 0 <= k2 < rows@.len() && x < rows@[k2]@.len()
                implies r@[x] >= (#[trigger] rows@[k2]@[x])@.len() by {
                if x == i {
                    assert(r@[x] == w);
                }
            }
        }
        i += 1;
    }
    r
}

} // verus!
