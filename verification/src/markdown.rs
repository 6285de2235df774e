//! Tables laid out in Markdown, for showing rating tables to a person.
//!
//! A table is a header line of column names, a rule line, and one line per shown row;
//! rows past the limit are counted rather than shown. The cells arrive already
//! written out.
use crate::text::{decimal, joined, push_decimal, push_text};
use vstd::prelude::*;

verus! {

/// Texts as views.
pub open spec fn views(parts: Seq<String>) -> Seq<Seq<char>> {
    parts.map_values(|s: String| s@)
}

/// One line of a table: its cells between bars.
pub open spec fn table_line(cells: Seq<Seq<char>>) -> Seq<char> {
    "| "@ + joined(cells, " | "@) + " |\n"@
}

/// The rule under the header of a table of `n` columns.
pub open spec fn rule_line(n: nat) -> Seq<char> {
    "|"@ + joined(Seq::new(n, |i: int| "---"@), "|"@) + "|\n"@
}

/// The lines of these rows, in order.
pub open spec fn body(rows: Seq<Seq<Seq<char>>>) -> Seq<char>
    decreases rows.len(),
{
    if rows.len() == 0 {
        Seq::empty()
    } else {
        body(rows.drop_last()) + table_line(rows.last())
    }
}

/// How many of `height` rows a table of at most `max_rows` shows.
pub open spec fn shown(height: nat, max_rows: nat) -> nat {
    if height < max_rows {
        height
    } else {
        max_rows
    }
}

/// The note that counts the rows not shown, if any are not.
pub open spec fn overflow_note(height: nat, max_rows: nat) -> Seq<char> {
    if height > shown(height, max_rows) {
        "\n_"@ + decimal((height - shown(height, max_rows)) as nat) + " further rows not shown._\n"@
    } else {
        Seq::empty()
    }
}

/// A table of these column names over `height` rows, of which `rows` holds at least the
/// first `max_rows` written out: nothing for a table with no columns.
pub open spec fn spec_markdown(
    names: Seq<Seq<char>>,
    rows: Seq<Seq<Seq<char>>>,
    height: nat,
    max_rows: nat,
) -> Seq<char> {
    if names.len() == 0 {
        Seq::empty()
    } else {
        table_line(names) + rule_line(names.len()) + body(rows.take(shown(height, max_rows) as int))
            + overflow_note(height, max_rows)
    }
}

/// Appends the parts, joined with the separator.
pub(crate) fn push_joined(out: &mut String, parts: &Vec<String>, sep: &str)
    ensures
        final(out)@ == old(out)@ + joined(views(parts@), sep@),
{
    let ghost start = out@;
    let ghost pv = views(parts@);
    if parts.len() == 0 {
        assert(start + joined(pv, sep@) =~= start);
        return;
    }
    push_text(out, parts[0].as_str());
    proof {
        assert(pv.take(1).len() == 1);
        assert(pv.take(1)[0] == parts@[0]@);
    }
    let mut k: usize = 1;
    while k < parts.len()
        invariant
            pv == views(parts@),
            1 <= k <= parts.len(),
            out@ == start + joined(pv.take(k as int), sep@),
        decreases parts.len() - k,
    {
        push_text(out, sep);
        push_text(out, parts[k].as_str());
        proof {
            assert(pv.take(k + 1).drop_last() =~= pv.take(k as int));
            assert(pv.take(k + 1).last() == parts@[k as int]@);
            assert(out@ =~= start + joined(pv.take(k + 1), sep@));
        }
        k += 1;
    }
    proof {
        assert(pv.take(parts.len() as int) =~= pv);
    }
}

/// Appends one line of a table.
fn push_line(out: &mut String, cells: &Vec<String>)
    ensures
        final(out)@ == old(out)@ + table_line(views(cells@)),
{
    let ghost start = out@;
    push_text(out, "| ");
    push_joined(out, cells, " | ");
    push_text(out, " |\n");
    assert(out@ =~= start + table_line(views(cells@)));
}

/// A table in Markdown: a header of the column names, a rule, and the first
/// `max_rows` of the `height` rows, with a note counting the rows left out. A table
/// with no columns is written as nothing.
pub fn markdown_table(names: &Vec<String>, rows: &Vec<Vec<String>>, height: usize, max_rows: usize) -> (res: String)
    requires
        rows.len() >= shown(height as nat, max_rows as nat),
    ensures
        res@ == spec_markdown(
            views(names@),
            rows@.map_values(|r: Vec<String>| views(r@)),
            height as nat,
            max_rows as nat,
        ),
{
    let mut out = String::new();
    if names.len() == 0 {
        return out;
    }
    push_line(&mut out, names);
    let mut dashes: Vec<String> = Vec::new();
    let mut j: usize = 0;
    while j < names.len()
        invariant
            j <= names.len(),
            dashes.len() == j,
            views(dashes@) =~= Seq::new(j as nat, |i: int| "---"@),
        decreases names.len() - j,
    {
        let ghost before = dashes@;
        let d = String::from_str("---");
        dashes.push(d);
        proof {
            assert(d@ == "---"@);
            assert forall|i: int| 0 <= i < j + 1 implies #[trigger] views(dashes@)[i] == "---"@ by {
                if i < j {
                    assert(dashes@[i] == before[i]);
                    assert(views(before)[i] == Seq::new(j as nat, |i: int| "---"@)[i]);
                }
            }
            assert(views(dashes@) =~= Seq::new((j + 1) as nat, |i: int| "---"@));
        }
        j += 1;
    }
    push_text(&mut out, "|");
    push_joined(&mut out, &dashes, "|");
    push_text(&mut out, "|\n");
    let ghost head = out@;
    proof {
        assert(head =~= table_line(views(names@)) + rule_line(names.len() as nat));
    }
    let limit = if height < max_rows {
        height
    } else {
        max_rows
    };
    let ghost rv = rows@.map_values(|r: Vec<String>| views(r@));
    let mut r: usize = 0;
    while r < limit
        invariant
            limit == shown(height as nat, max_rows as nat),
            limit <= rows.len(),
            rv == rows@.map_values(|r: Vec<String>| views(r@)),
            r <= limit,
            out@ == head + body(rv.take(r as int)),
        decreases limit - r,
    {
        push_line(&mut out, &rows[r]);
        proof {
            assert(rv.take(r + 1).drop_last() =~= rv.take(r as int));
            assert(rv.take(r + 1).last() == views(rows@[r as int]@));
            assert(out@ =~= head + body(rv.take(r + 1)));
        }
        r += 1;
    }
    if height > limit {
        let ghost before = out@;
        push_text(&mut out, "\n_");
        push_decimal(&mut out, height - limit);
        push_text(&mut out, " further rows not shown._\n");
        proof {
            assert(out@ =~= before + overflow_note(height as nat, max_rows as nat));
        }
    } else {
        proof {
            assert(out@ =~= out@ + overflow_note(height as nat, max_rows as nat));
        }
    }
    out
}

} // verus!
