//! The comma/line-feed separated text form of a review.
//!
//! Rows are separated by a single line feed and cells by a single
//! comma; there is no quoting or escaping, so labels and comments that
//! contain a delimiter corrupt the output (a known limitation).

use vstd::prelude::*;
use crate::criterion::{Criterion, CriterionModel, CriterionOption, OptionModel};
use crate::review::{
    Review, percent_chars, review_max_points, spec_total_points, total_points_in_i32,
};
use crate::score::{CriterionOptionScore, spec_parse_score};
use crate::text::{
    join_seq, lemma_join_push, split_seq, split_str, spec_trim,
    trim_str,
};

verus! {

/// The fixed header cells of an exported review.
pub open spec fn header_cells() -> Seq<Seq<char>> {
    seq!["Criterion"@, "Selection"@, "Comments"@]
}

/// The selected option's label, or nothing while unanswered.
pub open spec fn selection_cell(c: CriterionModel) -> Seq<char> {
    match c.selected_option() {
        Some(o) => o.label,
        None => Seq::empty(),
    }
}

/// The exported cells of one criterion: label, selection, comment.
pub open spec fn criterion_row_cells(c: CriterionModel) -> Seq<Seq<char>> {
    seq![c.label, selection_cell(c), c.comment]
}

/// The cells of the percent-score row.
pub open spec fn score_row_cells(pct: Seq<char>) -> Seq<Seq<char>> {
    seq!["Percent Score"@, pct, Seq::<char>::empty()]
}

/// All rows of an exported review, each already joined with commas:
/// the header, the percent-score row, then one row per criterion.
pub open spec fn csv_rows(cs: Seq<CriterionModel>, pct: Seq<char>) -> Seq<Seq<char>> {
    seq![join_seq(header_cells(), ','), join_seq(score_row_cells(pct), ',')] + Seq::new(
        cs.len(),
        |i: int| join_seq(criterion_row_cells(cs[i]), ','),
    )
}

/// The full exported text: rows joined with line feeds.
pub open spec fn spec_to_csv(cs: Seq<CriterionModel>, pct: Seq<char>) -> Seq<char> {
    join_seq(csv_rows(cs, pct), '\n')
}

/// The options a data row contributes, reading columns `1..n`: each
/// cell that parses as a score yields an option labeled by the header
/// cell of its column; every other cell is silently skipped.
pub open spec fn spec_row_options(header: Seq<Seq<char>>, row: Seq<Seq<char>>, n: int)
    -> Seq<OptionModel>
    decreases n,
{
    if n <= 1 {
        Seq::empty()
    } else {
        let rest = spec_row_options(header, row, n - 1);
        match spec_parse_score(row[n - 1]) {
            Some(sc) => rest.push(OptionModel { label: header[n - 1], score: sc }),
            None => rest,
        }
    }
}

/// The criterion a data row denotes: its first cell is the label, the
/// rest contribute options; no selection and no comment yet.
pub open spec fn spec_row_criterion(header: Seq<Seq<char>>, row: Seq<Seq<char>>)
    -> CriterionModel
    recommends
        row.len() >= 1,
{
    CriterionModel {
        label: row[0],
        options: spec_row_options(header, row, row.len() as int),
        selection_index: None,
        comment: Seq::empty(),
    }
}

/// What importing a text yields: the trimmed input is split into
/// lines, the first line is the header, and every later line denotes
/// one criterion — unless some line's cell count differs from the
/// header's, which fails the whole import.
pub open spec fn spec_from_csv(text: Seq<char>) -> Option<Seq<CriterionModel>> {
    let lines = split_seq(spec_trim(text), '\n');
    let header = split_seq(lines[0], ',');
    if forall|i: int|
        1 <= i < lines.len() ==> split_seq(#[trigger] lines[i], ',').len() == header.len() {
        Some(
            Seq::new(
                (lines.len() - 1) as nat,
                |i: int| spec_row_criterion(header, split_seq(lines[i + 1], ',')),
            ),
        )
    } else {
        None
    }
}

/// A three-cell row joined with a delimiter, written out.
pub proof fn lemma_join3(cells: Seq<Seq<char>>, d: char)
    requires
        cells.len() == 3,
    ensures
        join_seq(cells, d) == cells[0] + seq![d] + cells[1] + seq![d] + cells[2],
{
    let t = cells.drop_first();
    assert(t.drop_first() =~= seq![cells[2]]);
    assert(t[0] == cells[1]);
    assert(join_seq(cells, d) == cells[0] + seq![d] + join_seq(t, d));
    assert(join_seq(t, d) == cells[1] + seq![d] + join_seq(seq![cells[2]], d));
    assert(join_seq(seq![cells[2]], d) == cells[2]);
    assert(join_seq(cells, d) =~= cells[0] + seq![d] + cells[1] + seq![d] + cells[2]);
}

impl Review {
    /// Export the review: the fixed header row, then a row with the
    /// percent-score text, then one row per criterion in order holding
    /// its label, its selected option's label (empty while
    /// unanswered), and its comment.
    pub fn to_csv(&self) -> (r: String)
        requires
            self.wf(),
            total_points_in_i32(self@),
            review_max_points(self@) <= i32::MAX,
        ensures
            r@ == spec_to_csv(
                self@,
                percent_chars(spec_total_points(self@), review_max_points(self@)),
            ),
    {
        let pct = self.percent_score_string();
        let ghost pctv = pct@;
        let mut out = String::new();
        out.append("Criterion");
        out.append(",");
        out.append("Selection");
        out.append(",");
        out.append("Comments");
        out.append("\n");
        out.append("Percent Score");
        out.append(",");
        out.append(pct.as_str());
        out.append(",");
        proof {
            reveal_strlit(",");
            reveal_strlit("\n");
            assert(","@ =~= seq![',']);
            assert("\n"@ =~= seq!['\n']);
            lemma_join3(header_cells(), ',');
            lemma_join3(score_row_cells(pctv), ',');
            let rows0 = csv_rows(self@.take(0), pctv);
            assert(rows0 =~= seq![
                join_seq(header_cells(), ','),
                join_seq(score_row_cells(pctv), ','),
            ]);
            assert(rows0.drop_first() =~= seq![join_seq(score_row_cells(pctv), ',')]);
            assert(rows0[0] == join_seq(header_cells(), ','));
            assert(join_seq(rows0, '\n') == rows0[0] + seq!['\n'] + join_seq(
                rows0.drop_first(),
                '\n',
            ));
            assert(join_seq(rows0.drop_first(), '\n') == join_seq(score_row_cells(pctv), ','));
            assert(out@ =~= join_seq(rows0, '\n'));
        }
        let mut i: usize = 0;
        while i < self.criteria.len()
            invariant
                i <= self.criteria.len(),
                self@.len() == self.criteria.len(),
                self.wf(),
                pctv == pct@,
                out@ == join_seq(csv_rows(self@.take(i as int), pctv), '\n'),
            decreases self.criteria.len() - i,
        {
            let ghost before = out@;
            out.append("\n");
            let c = &self.criteria[i];
            out.append(c.label());
            out.append(",");
            match c.selection() {
                Some(o) => out.append(o.label()),
                None => {},
            }
            out.append(",");
            out.append(c.comment());
            proof {
                reveal_strlit(",");
                reveal_strlit("\n");
                assert(","@ =~= seq![',']);
                assert("\n"@ =~= seq!['\n']);
                let m = self@[i as int];
                let cells = criterion_row_cells(m);
                lemma_join3(cells, ',');
                assert(out@ =~= before + seq!['\n'] + join_seq(cells, ','));
                let prev = csv_rows(self@.take(i as int), pctv);
                lemma_join_push(prev, '\n', join_seq(cells, ','));
                assert(prev.push(join_seq(cells, ',')) =~= csv_rows(
                    self@.take(i as int + 1),
                    pctv,
                ));
            }
            i += 1;
        }
        proof {
            assert(self@.take(self.criteria.len() as int) =~= self@);
        }
        out
    }

    /// Import a review: one criterion per data row, none of them yet
    /// answered or commented.  Yields nothing when some data row's
    /// cell count differs from the header row's; nothing partial is
    /// ever returned.
    pub fn from_csv(csv: &str) -> (r: Option<Review>)
        ensures
            r is Some <==> spec_from_csv(csv@) is Some,
            r matches Some(rev) ==> Some(rev@) == spec_from_csv(csv@) && rev.wf(),
    {
        let trimmed = trim_str(csv);
        let lines = split_str(trimmed, '\n');
        let ghost lines_s = split_seq(spec_trim(csv@), '\n');
        let header = split_str(lines[0].as_str(), ',');
        let ghost header_s = split_seq(lines_s[0], ',');
        let mut criteria: Vec<Criterion> = Vec::new();
        let mut li: usize = 1;
        proof {
            assert(criteria.deep_view() =~= Seq::new(
                0nat,
                |i: int| spec_row_criterion(header_s, split_seq(lines_s[i + 1], ',')),
            ));
        }
        while li < lines.len()
            invariant
                1 <= li <= lines.len(),
                lines.deep_view() == lines_s,
                header.deep_view() == header_s,
                lines_s == split_seq(spec_trim(csv@), '\n'),
                header_s == split_seq(lines_s[0], ','),
                forall|j: int|
                    1 <= j < li ==> split_seq(#[trigger] lines_s[j], ',').len()
                        == header_s.len(),
                criteria.deep_view() == Seq::new(
                    (li - 1) as nat,
                    |i: int| spec_row_criterion(header_s, split_seq(lines_s[i + 1], ',')),
                ),
            decreases lines.len() - li,
        {
            let row = split_str(lines[li].as_str(), ',');
            let ghost row_s = split_seq(lines_s[li as int], ',');
            if row.len() != header.len() {
                proof {
                    assert(split_seq(lines_s[li as int], ',').len() != header_s.len());
                }
                return None;
            }
            let mut options: Vec<CriterionOption> = Vec::new();
            let mut ci: usize = 1;
            proof {
                assert(options.deep_view() =~= spec_row_options(header_s, row_s, 1));
            }
            while ci < row.len()
                invariant
                    1 <= ci <= row.len(),
                    row.len() == header.len(),
                    row.deep_view() == row_s,
                    header.deep_view() == header_s,
                    options.deep_view() == spec_row_options(header_s, row_s, ci as int),
                decreases row.len() - ci,
            {
                match CriterionOptionScore::from_str(row[ci].as_str()) {
                    Some(score) => {
                        let opt = CriterionOption::new(header[ci].as_str(), score);
                        let ghost old_dv = options.deep_view();
                        options.push(opt);
                        proof {
                            assert(options.deep_view() =~= old_dv.push(opt@));
                        }
                    },
                    None => {},
                }
                ci += 1;
            }
            let criterion = Criterion::new(row[0].as_str(), options);
            let ghost old_cdv = criteria.deep_view();
            criteria.push(criterion);
            proof {
                assert(criteria.deep_view() =~= old_cdv.push(criterion@));
                assert(criterion@ == spec_row_criterion(header_s, row_s));
                assert(old_cdv.push(criterion@) =~= Seq::new(
                    li as nat,
                    |i: int| spec_row_criterion(header_s, split_seq(lines_s[i + 1], ',')),
                ));
            }
            li += 1;
        }
        let review = Review::new(criteria);
        proof {
            assert(spec_from_csv(csv@) matches Some(cs2) && cs2 == review@);
            assert(forall|i: int|
                0 <= i < review@.len() ==> (#[trigger] review@[i]).selection_index is None);
        }
        Some(review)
    }
}

} // verus!
