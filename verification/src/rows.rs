//! Rows of text cells and their order.

use vstd::prelude::*;
use crate::model::texts;
use crate::order::{lemma_upper_is, ordered, place, sort, strict_weak, upper};
use crate::text::{
    lemma_text_lt_asymmetric, lemma_text_lt_irreflexive, lemma_text_lt_total,
    lemma_text_lt_transitive, str_eq, str_lt, text_lt,
};

verus! {

/// A row: its cells, in the order of the columns.
pub type Row = Seq<Seq<char>>;

/// The order of rows by their first `width` cells, one or two: by the first
/// cell, and for `width` two, among rows with the same first cell, by the
/// second.
pub open spec fn row_lt(width: int) -> spec_fn(Row, Row) -> bool {
    |a: Row, b: Row|
        text_lt(a[0], b[0]) || (width >= 2 && a[0] == b[0] && text_lt(a[1], b[1]))
}

/// The order of rows is a strict weak order.
pub proof fn lemma_row_lt_weak(width: int)
    ensures
        strict_weak(row_lt(width)),
{
    let lt = row_lt(width);
    assert forall|a: Row| !#[trigger] lt(a, a) by {
        lemma_text_lt_irreflexive(a[0]);
        lemma_text_lt_irreflexive(a[1]);
    }
    assert forall|a: Row, b: Row, c: Row| #[trigger] lt(a, b) && #[trigger] lt(b, c) implies lt(
        a,
        c,
    ) by {
        if text_lt(a[0], b[0]) && text_lt(b[0], c[0]) {
            lemma_text_lt_transitive(a[0], b[0], c[0]);
        }
        if width >= 2 && text_lt(a[1], b[1]) && text_lt(b[1], c[1]) {
            lemma_text_lt_transitive(a[1], b[1], c[1]);
        }
    }
    assert forall|a: Row, b: Row, c: Row| !#[trigger] lt(a, b) && !#[trigger] lt(b, c) implies !lt(
        a,
        c,
    ) by {
        lemma_text_lt_total(a[0], b[0]);
        lemma_text_lt_total(b[0], c[0]);
        lemma_text_lt_total(a[1], b[1]);
        lemma_text_lt_total(b[1], c[1]);
        if lt(a, c) {
            if text_lt(b[0], a[0]) && text_lt(a[0], c[0]) {
                lemma_text_lt_transitive(b[0], a[0], c[0]);
            }
            if text_lt(c[0], b[0]) && text_lt(a[0], c[0]) {
                lemma_text_lt_transitive(a[0], c[0], b[0]);
            }
            if text_lt(c[0], b[0]) && text_lt(b[0], a[0]) {
                lemma_text_lt_transitive(c[0], b[0], a[0]);
                lemma_text_lt_asymmetric(c[0], a[0]);
            }
            lemma_text_lt_irreflexive(a[0]);
            lemma_text_lt_irreflexive(c[0]);
            if width >= 2 {
                if text_lt(b[1], a[1]) && text_lt(a[1], c[1]) {
                    lemma_text_lt_transitive(b[1], a[1], c[1]);
                }
                if text_lt(c[1], b[1]) && text_lt(a[1], c[1]) {
                    lemma_text_lt_transitive(a[1], c[1], b[1]);
                }
                if text_lt(c[1], b[1]) && text_lt(b[1], a[1]) {
                    lemma_text_lt_transitive(c[1], b[1], a[1]);
                    lemma_text_lt_asymmetric(c[1], a[1]);
                }
                lemma_text_lt_irreflexive(a[1]);
                lemma_text_lt_irreflexive(c[1]);
            }
        }
    }
}

/// The views of a list of rows.
pub open spec fn rows_view(rows: Seq<Vec<String>>) -> Seq<Row> {
    rows.map_values(|row: Vec<String>| texts(row@))
}

/// Whether `a` stands before `b` in the order of rows by `width` cells.
pub fn row_less(a: &Vec<String>, b: &Vec<String>, width: usize) -> (r: bool)
    requires
        1 <= width <= 2,
        a.len() >= width,
        b.len() >= width,
    ensures
        r == row_lt(width as int)(texts(a@), texts(b@)),
{
    if str_lt(a[0].as_str(), b[0].as_str()) {
        true
    } else if width >= 2 && str_eq(a[0].as_str(), b[0].as_str()) {
        str_lt(a[1].as_str(), b[1].as_str())
    } else {
        false
    }
}

/// Every row has at least `width` cells.
pub open spec fn wide(rows: Seq<Row>, width: int) -> bool {
    forall|i: int| 0 <= i < rows.len() ==> (#[trigger] rows[i]).len() >= width
}

/// Puts `row` into the ordered rows `sorted`, behind the rows that do not
/// stand after it.
pub fn place_row(sorted: &mut Vec<Vec<String>>, row: Vec<String>, width: usize)
    requires
        1 <= width <= 2,
        wide(rows_view(old(sorted)@), width as int),
        row.len() >= width,
    ensures
        rows_view(final(sorted)@) == place(
            rows_view(old(sorted)@),
            texts(row@),
            row_lt(width as int),
        ),
        wide(rows_view(final(sorted)@), width as int),
{
    let ghost before = rows_view(sorted@);
    let ghost lt = row_lt(width as int);
    let mut at: usize = 0;
    assert forall|k: int| 0 <= k < sorted@.len() implies (#[trigger] sorted@[k]).len()
        >= width by {
        assert(before[k].len() >= width);
    }
    while at < sorted.len() && !row_less(&row, &sorted[at], width)
        invariant
            1 <= width <= 2,
            row.len() >= width,
            at <= sorted.len(),
            before == rows_view(sorted@),
            forall|k: int| 0 <= k < sorted@.len() ==> (#[trigger] sorted@[k]).len() >= width,
            lt == row_lt(width as int),
            forall|k: int| 0 <= k < at ==> !lt(texts(row@), #[trigger] before[k]),
        decreases sorted.len() - at,
    {
        at += 1;
    }
    proof {
        lemma_upper_is(before, texts(row@), lt, at as int);
    }
    sorted.insert(at, row);
    proof {
        assert(rows_view(sorted@) =~= before.insert(at as int, texts(row@)));
        assert forall|i: int| 0 <= i < rows_view(sorted@).len() implies (
        #[trigger] rows_view(sorted@)[i]).len() >= width by {
            if i < at {
                assert(before[i].len() >= width);
            } else if i > at {
                assert(before[i - 1].len() >= width);
            }
        }
    }
}

/// The rows in order by their first `width` cells; rows that agree in them
/// keep the order in which they came.
pub fn sort_rows(rows: Vec<Vec<String>>, width: usize) -> (sorted: Vec<Vec<String>>)
    requires
        1 <= width <= 2,
        wide(rows_view(rows@), width as int),
    ensures
        rows_view(sorted@) == sort(rows_view(rows@), row_lt(width as int)),
{
    let mut sorted: Vec<Vec<String>> = Vec::new();
    let mut rest = rows;
    let ghost whole = rows_view(rest@);
    let ghost lt = row_lt(width as int);
    let mut i: usize = 0;
    assert(rows_view(sorted@) =~= sort(whole.take(0), lt));
    while i < rest.len()
        invariant
            1 <= width <= 2,
            i <= rest.len(),
            whole == rows_view(rest@),
            wide(whole, width as int),
            lt == row_lt(width as int),
            rows_view(sorted@) == sort(whole.take(i as int), lt),
            wide(rows_view(sorted@), width as int),
        decreases rest.len() - i,
    {
        let row = crate::model::clone_strings(&rest[i]);
        proof {
            assert(whole[i as int].len() >= width);
            assert(whole.take(i + 1).drop_last() =~= whole.take(i as int));
            assert(whole.take(i + 1).last() == whole[i as int]);
        }
        place_row(&mut sorted, row, width);
        i += 1;
    }
    proof {
        assert(whole.take(rest@.len() as int) =~= whole);
    }
    sorted
}

/// Sorting keeps every row as wide as it was.
pub proof fn lemma_sort_wide(rows: Seq<Row>, width: int, least: int)
    requires
        wide(rows, least),
    ensures
        wide(sort(rows, row_lt(width)), least),
    decreases rows.len(),
{
    if rows.len() > 0 {
        lemma_sort_wide(rows.drop_last(), width, least);
        let sorted = sort(rows.drop_last(), row_lt(width));
        crate::order::lemma_upper(sorted, rows.last(), row_lt(width));
        let at = upper(sorted, rows.last(), row_lt(width));
        let placed = sorted.insert(at, rows.last());
        assert forall|i: int| 0 <= i < placed.len() implies (#[trigger] placed[i]).len()
            >= least by {
            if i < at {
                assert(placed[i] == sorted[i]);
            } else if i > at {
                assert(placed[i] == sorted[i - 1]);
            }
        }
    }
}

} // verus!
