//! The HTML table rendered by the Chameleon benchmark.

use vstd::prelude::*;
use crate::text::string_of;

verus! {

/// The ASCII digit for `d` in `[0, 10)`.
pub open spec fn digit(d: nat) -> char {
    (d + 48) as char
}

/// The decimal notation of `n`, without leading zeros (as `Display` writes it).
pub open spec fn decimal(n: nat) -> Seq<char>
    decreases n,
{
    if n < 10 {
        seq![digit(n)]
    } else {
        decimal(n / 10) + seq![digit(n % 10)]
    }
}

fn push_decimal(out: &mut Vec<char>, n: u64)
    ensures
        final(out)@ == old(out)@ + decimal(n as nat),
    decreases n,
{
    if n >= 10 {
        push_decimal(out, n / 10);
    }
    let d = (n % 10) as u8;
    let c = (d + 48) as char;
    out.push(c);
    proof {
        assert(c == digit((n % 10) as nat));
    }
}

/// The decimal notation of `n` as a string.
pub fn decimal_string(n: u64) -> (s: String)
    ensures
        s@ == decimal(n as nat),
{
    let mut v: Vec<char> = Vec::new();
    push_decimal(&mut v, n);
    assert(v@ =~= decimal(n as nat));
    string_of(&v)
}

/// The text of the cell in row `r` and column `c` of a table with `cols`
/// columns: its coordinates in even columns, its running number in odd ones.
pub open spec fn cell_text(r: nat, c: nat, cols: nat) -> Seq<char> {
    if c % 2 == 0 {
        "Row "@ + decimal(r) + ", Col "@ + decimal(c)
    } else {
        decimal(r * cols + c)
    }
}

/// The HTML of the cell in row `r`, column `c`.
pub open spec fn cell_html(r: nat, c: nat, cols: nat) -> Seq<char> {
    "    <td>"@ + cell_text(r, c, cols) + "</td>\n"@
}

/// The first `k` cells of row `r`.
pub open spec fn cells_html(r: nat, cols: nat, k: nat) -> Seq<char>
    decreases k,
{
    if k == 0 {
        Seq::empty()
    } else {
        cells_html(r, cols, (k - 1) as nat) + cell_html(r, (k - 1) as nat, cols)
    }
}

/// The HTML of row `r`.
pub open spec fn row_html(r: nat, cols: nat) -> Seq<char> {
    "  <tr>\n"@ + cells_html(r, cols, cols) + "  </tr>\n"@
}

/// The first `k` rows of a table with `cols` columns.
pub open spec fn rows_html(k: nat, cols: nat) -> Seq<char>
    decreases k,
{
    if k == 0 {
        Seq::empty()
    } else {
        rows_html((k - 1) as nat, cols) + row_html((k - 1) as nat, cols)
    }
}

/// The whole table of `rows` rows and `cols` columns.
pub open spec fn table_html(rows: nat, cols: nat) -> Seq<char> {
    "<table>\n"@ + rows_html(rows, cols) + "</table>"@
}

fn append_cell(html: &mut String, r: usize, c: usize, cols: usize)
    requires
        r * cols + c <= usize::MAX,
    ensures
        final(html)@ == old(html)@ + cell_html(r as nat, c as nat, cols as nat),
{
    html.append("    <td>");
    if c % 2 == 0 {
        html.append("Row ");
        let rs = decimal_string(r as u64);
        html.append(rs.as_str());
        html.append(", Col ");
        let cs = decimal_string(c as u64);
        html.append(cs.as_str());
    } else {
        let ns = decimal_string((r * cols + c) as u64);
        html.append(ns.as_str());
    }
    html.append("</td>\n");
    assert(final(html)@ =~= old(html)@ + cell_html(r as nat, c as nat, cols as nat));
}

/// Adding a row to a table only inserts that row before the closing
/// `</table>`.
pub proof fn lemma_table_add_row(rows: nat, cols: nat)
    ensures
        table_html(rows + 1, cols) == table_html(rows, cols).subrange(
            0,
            table_html(rows, cols).len() - 8,
        ) + row_html(rows, cols) + "</table>"@,
{
    reveal_strlit("</table>");
    let t = table_html(rows, cols);
    let head = "<table>\n"@ + rows_html(rows, cols);
    assert(t == head + "</table>"@);
    assert(t.subrange(0, t.len() - 8) =~= head);
    assert(rows_html(rows + 1, cols) == rows_html(rows, cols) + row_html(rows, cols));
    assert(table_html(rows + 1, cols) =~= head + row_html(rows, cols) + "</table>"@);
}

/// Renders a `rows` by `cols` HTML table.
pub fn render_table(rows: usize, cols: usize) -> (html: String)
    requires
        rows * cols * 40 <= usize::MAX,
    ensures
        html@ == table_html(rows as nat, cols as nat),
{
    let mut html = String::new();
    html.append("<table>\n");
    for r in 0..rows
        invariant
            rows * cols * 40 <= usize::MAX,
            html@ == "<table>\n"@ + rows_html(r as nat, cols as nat),
    {
        html.append("  <tr>\n");
        let ghost before = html@;
        for c in 0..cols
            invariant
                r < rows,
                rows * cols * 40 <= usize::MAX,
                html@ == before + cells_html(r as nat, cols as nat, c as nat),
        {
            assert(r * cols + c < rows * cols) by (nonlinear_arith)
                requires
                    r < rows,
                    c < cols,
            ;
            assert(rows * cols <= rows * cols * 40) by (nonlinear_arith);
            append_cell(&mut html, r, c, cols);
            assert(html@ =~= before + cells_html(r as nat, cols as nat, (c + 1) as nat));
        }
        html.append("  </tr>\n");
        assert(html@ =~= "<table>\n"@ + rows_html((r + 1) as nat, cols as nat));
    }
    html.append("</table>");
    html
}

} // verus!
