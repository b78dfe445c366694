//! The library's general laws, stated and proved once and for all:
//! how the aggregate scores relate to the criteria, how the rounded
//! percentage relates to the exact ratio, and what survives an export
//! followed by an import.

use vstd::prelude::*;
use vstd::arithmetic::div_mod::{lemma_fundamental_div_mod, lemma_mod_bound};
use crate::criterion::{CriterionModel, OptionModel, max_points_opts};
use crate::csv::{
    criterion_row_cells, csv_rows, header_cells, lemma_join3, score_row_cells, selection_cell,
    spec_from_csv, spec_row_criterion, spec_to_csv,
};
use crate::review::{
    has_fatal_selection, lemma_percent_chars_free, percent_chars, percent_hundredths,
    review_max_points, spec_total_points, sum_selected_points,
};
use crate::score::CriterionOptionScore;
use crate::text::{
    free_of, is_ws, join_seq, lemma_join_free, lemma_join_first, lemma_join_last,
    lemma_split_join, lemma_trim_id, split_seq, spec_trim,
};

verus! {

/// The point value a score offers, if it is not fatal.
pub open spec fn score_points(s: CriterionOptionScore) -> Option<int> {
    match s {
        CriterionOptionScore::Points(p) => Some(p as int),
        CriterionOptionScore::Fatal => None,
    }
}

/// A criterion's best achievable value is the largest point value
/// among its options and at least zero: it is never negative, no
/// option offers more, and unless it is zero (as it is for an empty or
/// all-fatal option list) some option attains it.
pub proof fn lemma_criterion_max_points(opts: Seq<OptionModel>)
    ensures
        max_points_opts(opts) >= 0,
        forall|i: int|
            0 <= i < opts.len() && score_points(#[trigger] opts[i].score) is Some ==> score_points(
                opts[i].score,
            ).unwrap() <= max_points_opts(opts),
        max_points_opts(opts) == 0 || exists|i: int|
            0 <= i < opts.len() && score_points(#[trigger] opts[i].score) == Some(
                max_points_opts(opts),
            ),
        (forall|i: int| 0 <= i < opts.len() ==> score_points(#[trigger] opts[i].score) is None)
            ==> max_points_opts(opts) == 0,
    decreases opts.len(),
{
    if opts.len() > 0 {
        let t = opts.drop_last();
        lemma_criterion_max_points(t);
        assert(forall|i: int| 0 <= i < t.len() ==> #[trigger] t[i] == opts[i]);
        let m = max_points_opts(opts);
        assert(max_points_opts(t) <= m);
        assert forall|i: int|
            0 <= i < opts.len() && score_points(#[trigger] opts[i].score) is Some implies
            score_points(opts[i].score).unwrap() <= m by {
            if i < opts.len() - 1 {
                assert(t[i] == opts[i]);
            } else {
                assert(opts[i] == opts.last());
            }
        }
        if m != 0 && m != max_points_opts(t) {
            assert(score_points(opts.last().score) == Some(m));
            assert(opts[opts.len() - 1] == opts.last());
        } else if m != 0 {
            let w = choose|i: int|
                0 <= i < t.len() && score_points(#[trigger] t[i].score) == Some(
                    max_points_opts(t),
                );
            assert(score_points(opts[w].score) == Some(m));
        }
    }
}

/// The review maximum is the sum of the criterion maxima and depends
/// on labels, selections and comments not at all: two reviews whose
/// criteria offer the same options have the same maximum.
pub proof fn lemma_review_max_points_selection_independent(
    a: Seq<CriterionModel>,
    b: Seq<CriterionModel>,
)
    requires
        a.len() == b.len(),
        forall|i: int| 0 <= i < a.len() ==> #[trigger] a[i].options == #[trigger] b[i].options,
    ensures
        review_max_points(a) == review_max_points(b),
    decreases a.len(),
{
    if a.len() > 0 {
        let ta = a.drop_last();
        let tb = b.drop_last();
        assert(forall|i: int| 0 <= i < ta.len() ==> #[trigger] ta[i] == a[i]);
        assert(forall|i: int| 0 <= i < tb.len() ==> #[trigger] tb[i] == b[i]);
        lemma_review_max_points_selection_independent(ta, tb);
        assert(a.last().options == b.last().options);
    }
}

/// One fatal selection anywhere zeroes the whole review's total,
/// whatever the other criteria contribute and wherever it stands.
pub proof fn lemma_total_points_fatal_zero(cs: Seq<CriterionModel>)
    requires
        has_fatal_selection(cs),
    ensures
        spec_total_points(cs) == 0,
{
}

/// Without a fatal selection, the total is the sum of the answered
/// criteria's point values; unanswered criteria contribute nothing.
pub proof fn lemma_total_points_sum_when_fatal_free(cs: Seq<CriterionModel>)
    requires
        !has_fatal_selection(cs),
    ensures
        spec_total_points(cs) == sum_selected_points(cs),
{
}

/// The rounded percentage is the nearest number of hundredths of a
/// percent to the exact ratio `100 * t / m`: it differs from
/// `10000 * t / m` by at most half a hundredth.
pub proof fn lemma_percent_hundredths_nearest(t: int, m: int)
    requires
        m > 0,
    ensures
        2 * m * percent_hundredths(t, m) - m <= 20000 * t,
        20000 * t <= 2 * m * percent_hundredths(t, m) + m,
{
    if t >= 0 {
        let x = 20000 * t + m;
        let d = 2 * m;
        lemma_fundamental_div_mod(x, d);
        lemma_mod_bound(x, d);
        assert(2 * m * percent_hundredths(t, m) == d * (x / d));
    } else {
        let x = 20000 * (-t) + m;
        let d = 2 * m;
        lemma_fundamental_div_mod(x, d);
        lemma_mod_bound(x, d);
        let q = x / d;
        assert(percent_hundredths(t, m) == -q);
        assert(2 * m * (-q) == -(2 * m * q)) by (nonlinear_arith);
    }
}

/// The fixed cells of the exported text, spelled out.
proof fn lemma_fixed_cells()
    ensures
        "Criterion"@ =~= seq!['C', 'r', 'i', 't', 'e', 'r', 'i', 'o', 'n'],
        "Selection"@ =~= seq!['S', 'e', 'l', 'e', 'c', 't', 'i', 'o', 'n'],
        "Comments"@ =~= seq!['C', 'o', 'm', 'm', 'e', 'n', 't', 's'],
        "Percent Score"@ =~= seq![
            'P', 'e', 'r', 'c', 'e', 'n', 't', ' ', 'S', 'c', 'o', 'r', 'e',
        ],
{
    reveal_strlit("Criterion");
    reveal_strlit("Selection");
    reveal_strlit("Comments");
    reveal_strlit("Percent Score");
}

/// What one exported row ends with: its comment cell is empty, so its
/// last character is the comma before it.
proof fn lemma_row3_last(a: Seq<char>, b: Seq<char>, d: char)
    ensures
        (a + seq![d] + b + seq![d] + Seq::<char>::empty()).len() > 0,
        (a + seq![d] + b + seq![d] + Seq::<char>::empty()).last() == d,
{
    let r = a + seq![d] + b + seq![d] + Seq::<char>::empty();
    assert(r.len() == a.len() + b.len() + 2);
    assert(r[a.len() + b.len() + 1int] == d);
}

/// Exporting a review and importing the text back yields the same
/// criterion labels in the same order, shifted one place by the
/// percent-score row, each imported criterion unanswered and without a
/// comment — provided no label or selected option label contains a
/// delimiter and no comment has been set.  (Options do not survive the
/// trip: an exported row carries labels, not point schedules.)
pub proof fn lemma_csv_export_then_import(cs: Seq<CriterionModel>, t: int, m: int)
    requires
        forall|i: int|
            0 <= i < cs.len() ==> free_of((#[trigger] cs[i]).label, ',') && free_of(
                cs[i].label,
                '\n',
            ),
        forall|i: int|
            0 <= i < cs.len() ==> free_of(selection_cell(#[trigger] cs[i]), ',') && free_of(
                selection_cell(cs[i]),
                '\n',
            ),
        forall|i: int| 0 <= i < cs.len() ==> (#[trigger] cs[i]).comment == Seq::<char>::empty(),
    ensures
        spec_from_csv(spec_to_csv(cs, percent_chars(t, m))) is Some,
        ({
            let imp = spec_from_csv(spec_to_csv(cs, percent_chars(t, m))).unwrap();
            &&& imp.len() == cs.len() + 1
            &&& imp[0].label == "Percent Score"@
            &&& forall|i: int| 0 <= i < cs.len() ==> (#[trigger] imp[i + 1]).label == cs[i].label
            &&& forall|i: int|
                0 <= i < cs.len() ==> (#[trigger] imp[i + 1]).selection_index is None
            &&& forall|i: int|
                0 <= i < cs.len() ==> (#[trigger] imp[i + 1]).comment == Seq::<char>::empty()
        }),
{
    let pct = percent_chars(t, m);
    let rows = csv_rows(cs, pct);
    let text = spec_to_csv(cs, pct);
    lemma_percent_chars_free(t, m, ',');
    lemma_percent_chars_free(t, m, '\n');
    lemma_fixed_cells();
    assert(free_of(Seq::<char>::empty(), ','));
    assert(free_of(Seq::<char>::empty(), '\n'));
    assert(header_cells()[0] == "Criterion"@ && header_cells()[1] == "Selection"@
        && header_cells()[2] == "Comments"@);
    assert(score_row_cells(pct)[0] == "Percent Score"@ && score_row_cells(pct)[1] == pct
        && score_row_cells(pct)[2] == Seq::<char>::empty());
    // every row is free of the row delimiter
    assert forall|j: int| 0 <= j < rows.len() implies free_of(#[trigger] rows[j], '\n') by {
        if j == 0 {
            lemma_join_free(header_cells(), ',', '\n');
        } else if j == 1 {
            lemma_join_free(score_row_cells(pct), ',', '\n');
        } else {
            assert(rows[j] == join_seq(criterion_row_cells(cs[j - 2]), ','));
            assert(criterion_row_cells(cs[j - 2])[0] == cs[j - 2].label);
            assert(criterion_row_cells(cs[j - 2])[1] == selection_cell(cs[j - 2]));
            assert(criterion_row_cells(cs[j - 2])[2] == cs[j - 2].comment);
            lemma_join_free(criterion_row_cells(cs[j - 2]), ',', '\n');
        }
    }
    assert(rows.len() == cs.len() + 2);
    lemma_split_join(rows, '\n');
    // the text begins with 'C' and ends with the comma before the last
    // (empty) comment cell, so trimming does nothing
    lemma_join3(header_cells(), ',');
    assert(rows[0][0] == 'C') by {
        assert(("Criterion"@ + seq![','] + "Selection"@ + seq![','] + "Comments"@)[0]
            == "Criterion"@[0]);
    }
    lemma_join_first(rows, '\n');
    if cs.len() == 0 {
        lemma_join3(score_row_cells(pct), ',');
        lemma_row3_last("Percent Score"@, pct, ',');
        assert(rows.last() == rows[1]);
    } else {
        let c = cs[cs.len() - 1];
        assert(rows.last() == join_seq(criterion_row_cells(c), ','));
        lemma_join3(criterion_row_cells(c), ',');
        assert(c.comment == Seq::<char>::empty());
        lemma_row3_last(c.label, selection_cell(c), ',');
    }
    lemma_join_last(rows, '\n');
    assert(!is_ws('C') && !is_ws(','));
    lemma_trim_id(text);
    let lines = split_seq(spec_trim(text), '\n');
    assert(lines == rows);
    // each line splits back into its three cells
    lemma_split_join(header_cells(), ',');
    let header = split_seq(lines[0], ',');
    assert(header == header_cells());
    lemma_split_join(score_row_cells(pct), ',');
    assert forall|i: int| 1 <= i < lines.len() implies split_seq(#[trigger] lines[i], ',').len()
        == header.len() by {
        if i >= 2 {
            lemma_split_join(criterion_row_cells(cs[i - 2]), ',');
        }
    }
    let imp = spec_from_csv(text).unwrap();
    assert(imp.len() == cs.len() + 1);
    assert(imp[0] == spec_row_criterion(header, split_seq(lines[1], ',')));
    assert(split_seq(lines[1], ',') == score_row_cells(pct));
    assert forall|i: int| 0 <= i < cs.len() implies (#[trigger] imp[i + 1]).label == cs[i].label
        && imp[i + 1].selection_index is None && imp[i + 1].comment == Seq::<char>::empty() by {
        lemma_split_join(criterion_row_cells(cs[i]), ',');
        assert(imp[i + 1] == spec_row_criterion(header, split_seq(lines[i + 2], ',')));
        assert(split_seq(lines[i + 2], ',') == criterion_row_cells(cs[i]));
    }
}

} // verus!
