//! A review: an ordered collection of criteria, its aggregate scores,
//! and its comma/line-feed separated text form.

use vstd::prelude::*;
use crate::criterion::{Criterion, CriterionModel, OptionModel, max_points_opts};
use crate::score::CriterionOptionScore;
use crate::text::{
    dec_digits, digit_char, free_of, lemma_dec_digits_all_digits, lemma_free_concat, push_digit,
    u64_dec_string,
};
use crate::score::{all_digits, is_digit};

verus! {

/// The percentage `100 * t / m`, in hundredths of a percent, rounded
/// to the nearest whole number of hundredths, ties away from zero.
pub open spec fn percent_hundredths(t: int, m: int) -> int
    recommends
        m > 0,
{
    if t >= 0 {
        (20000 * t + m) / (2 * m)
    } else {
        -((20000 * (-t) + m) / (2 * m))
    }
}

/// The digits of a non-negative number of hundredths of a percent,
/// with exactly two decimal places and a percent sign.
pub open spec fn hundredths_chars(h: int) -> Seq<char>
    recommends
        h >= 0,
{
    dec_digits((h / 100) as nat) + seq!['.'] + seq![digit_char((h % 100) / 10)] + seq![
        digit_char((h % 100) % 10),
    ] + seq!['%']
}

/// The percent-score text for total `t` out of maximum `m`: the
/// rounded percentage to two decimal places with a "%" suffix, or the
/// word "undefined" when `m` is zero and no percentage exists.
pub open spec fn percent_chars(t: int, m: int) -> Seq<char> {
    if m <= 0 {
        "undefined"@
    } else {
        let h = percent_hundredths(t, m);
        if h < 0 {
            seq!['-'] + hundredths_chars(-h)
        } else {
            hundredths_chars(h)
        }
    }
}

/// No row or cell delimiter ever appears in a percent-score text.
pub proof fn lemma_percent_chars_free(t: int, m: int, e: char)
    requires
        e == ',' || e == '\n',
    ensures
        free_of(percent_chars(t, m), e),
{
    if m <= 0 {
        reveal_strlit("undefined");
        assert("undefined"@ =~= seq!['u', 'n', 'd', 'e', 'f', 'i', 'n', 'e', 'd']);
        assert(free_of(percent_chars(t, m), e));
    } else {
        let h = percent_hundredths(t, m);
        let ha = if h < 0 {
            -h
        } else {
            h
        };
        lemma_dec_digits_all_digits((ha / 100) as nat);
        let ds = dec_digits((ha / 100) as nat);
        assert(free_of(ds, e)) by {
            assert(forall|i: int| 0 <= i < ds.len() ==> is_digit(#[trigger] ds[i]));
        }
        lemma_free_concat(ds, seq!['.'], e);
        lemma_free_concat(ds + seq!['.'], seq![digit_char((ha % 100) / 10)], e);
        lemma_free_concat(
            ds + seq!['.'] + seq![digit_char((ha % 100) / 10)],
            seq![digit_char((ha % 100) % 10)],
            e,
        );
        lemma_free_concat(
            ds + seq!['.'] + seq![digit_char((ha % 100) / 10)] + seq![
                digit_char((ha % 100) % 10),
            ],
            seq!['%'],
            e,
        );
        if h < 0 {
            lemma_free_concat(seq!['-'], hundredths_chars(ha), e);
        }
    }
}

/// Sum over the criteria of the best achievable point value of each;
/// the denominator for percentage scoring.  Independent of selections.
pub open spec fn review_max_points(cs: Seq<CriterionModel>) -> int
    decreases cs.len(),
{
    if cs.len() == 0 {
        0
    } else {
        review_max_points(cs.drop_last()) + cs.last().max_points()
    }
}

/// Some criterion's current selection is a fatal option.
pub open spec fn has_fatal_selection(cs: Seq<CriterionModel>) -> bool {
    exists|i: int|
        0 <= i < cs.len() && #[trigger] cs[i].selection_score() == Some(
            CriterionOptionScore::Fatal,
        )
}

/// What one criterion contributes to the total: the selected option's
/// point value, or 0 when unanswered.
pub open spec fn points_contribution(c: CriterionModel) -> int {
    match c.selection_score() {
        Some(CriterionOptionScore::Points(p)) => p as int,
        _ => 0,
    }
}

/// Sum of the point values of the answered criteria's selections.
pub open spec fn sum_selected_points(cs: Seq<CriterionModel>) -> int
    decreases cs.len(),
{
    if cs.len() == 0 {
        0
    } else {
        sum_selected_points(cs.drop_last()) + points_contribution(cs.last())
    }
}

/// The review's total: 0 as soon as any selection is fatal, otherwise
/// the sum of the selected point values.
pub open spec fn spec_total_points(cs: Seq<CriterionModel>) -> int {
    if has_fatal_selection(cs) {
        0
    } else {
        sum_selected_points(cs)
    }
}

/// No criterion's current selection is a fatal option.
pub open spec fn fatal_free(cs: Seq<CriterionModel>) -> bool {
    forall|i: int|
        0 <= i < cs.len() ==> #[trigger] cs[i].selection_score() != Some(
            CriterionOptionScore::Fatal,
        )
}

/// The running point total stays within `i32` while it is being
/// accumulated, that is on every fatal-free prefix.  The machine limit
/// under which the total is computed.
pub open spec fn total_points_in_i32(cs: Seq<CriterionModel>) -> bool {
    forall|i: int|
        0 <= i <= cs.len() && fatal_free(#[trigger] cs.take(i)) ==> i32::MIN
            <= sum_selected_points(cs.take(i)) <= i32::MAX
}

/// The best achievable value of one criterion is never negative.
pub proof fn lemma_max_points_opts_nonneg(opts: Seq<OptionModel>)
    ensures
        max_points_opts(opts) >= 0,
    decreases opts.len(),
{
    if opts.len() > 0 {
        lemma_max_points_opts_nonneg(opts.drop_last());
    }
}

/// The review maximum splits across any cut of the criteria list.
pub proof fn lemma_review_max_points_decompose(cs: Seq<CriterionModel>, i: int)
    requires
        0 <= i <= cs.len(),
    ensures
        review_max_points(cs) == review_max_points(cs.take(i)) + review_max_points(cs.skip(i)),
    decreases cs.len() - i,
{
    if i == cs.len() {
        assert(cs.take(i) =~= cs);
        assert(cs.skip(i) =~= Seq::<CriterionModel>::empty());
    } else {
        lemma_review_max_points_decompose(cs, i + 1);
        assert(cs.take(i + 1).drop_last() =~= cs.take(i));
        assert(cs.take(i + 1).last() == cs[i]);
        lemma_review_max_skip_unfold(cs, i);
    }
}

/// `review_max_points` of a suffix, unfolded from the front.
proof fn lemma_review_max_skip_unfold(cs: Seq<CriterionModel>, i: int)
    requires
        0 <= i < cs.len(),
    ensures
        review_max_points(cs.skip(i)) == cs[i].max_points() + review_max_points(cs.skip(i + 1)),
    decreases cs.len(),
{
    if i + 1 == cs.len() {
        assert(cs.skip(i) =~= seq![cs[i]]);
        assert(cs.skip(i + 1) =~= Seq::<CriterionModel>::empty());
        assert(seq![cs[i]].drop_last() =~= Seq::<CriterionModel>::empty());
    } else {
        let t = cs.drop_last();
        lemma_review_max_skip_unfold(t, i);
        assert(cs.skip(i).drop_last() =~= t.skip(i));
        assert(cs.skip(i + 1).drop_last() =~= t.skip(i + 1));
        assert(cs.skip(i).last() == cs.last());
        assert(cs.skip(i + 1).last() == cs.last());
        assert(t[i] == cs[i]);
    }
}

/// The review maximum is never negative.
pub proof fn lemma_review_max_points_nonneg(cs: Seq<CriterionModel>)
    ensures
        review_max_points(cs) >= 0,
    decreases cs.len(),
{
    if cs.len() > 0 {
        lemma_review_max_points_nonneg(cs.drop_last());
        lemma_max_points_opts_nonneg(cs.last().options);
    }
}

/// A review: the criteria being scored together.
#[derive(Debug)]
pub struct Review {
    /// The criteria on which this review is conducted.
    pub criteria: Vec<Criterion>,
}

impl View for Review {
    type V = Seq<CriterionModel>;

    open spec fn view(&self) -> Seq<CriterionModel> {
        self.criteria.deep_view()
    }
}

impl Review {
    /// Every criterion's selection, if present, is in range.
    pub open spec fn wf(&self) -> bool {
        forall|i: int| 0 <= i < self@.len() ==> (#[trigger] self@[i]).wf()
    }

    /// Create a new review.
    pub fn new(criteria: Vec<Criterion>) -> (r: Self)
        ensures
            r@ == criteria.deep_view(),
    {
        Self { criteria }
    }

    /// Get the review's criteria as a mutable reference.
    pub fn criteria_mut(&mut self) -> (r: &mut Vec<Criterion>)
        ensures
            *r == old(self).criteria,
            final(self).criteria == *final(r),
    {
        &mut self.criteria
    }

    /// Compute the best achievable point total for the whole review:
    /// the sum of each criterion's best achievable value, whatever is
    /// currently selected.
    pub fn max_points(&self) -> (r: i32)
        requires
            review_max_points(self@) <= i32::MAX,
        ensures
            r as int == review_max_points(self@),
            r >= 0,
    {
        let mut total: i32 = 0;
        let mut i: usize = 0;
        proof {
            assert(self@.take(0) =~= Seq::<CriterionModel>::empty());
        }
        while i < self.criteria.len()
            invariant
                i <= self.criteria.len(),
                self@.len() == self.criteria.len(),
                review_max_points(self@) <= i32::MAX,
                total >= 0,
                total as int == review_max_points(self@.take(i as int)),
            decreases self.criteria.len() - i,
        {
            let m = self.criteria[i].max_points();
            proof {
                assert(self@.take(i as int + 1).drop_last() =~= self@.take(i as int));
                assert(self@.take(i as int + 1).last() == self@[i as int]);
                lemma_review_max_points_decompose(self@, i as int + 1);
                lemma_review_max_points_nonneg(self@.skip(i as int + 1));
            }
            total = total + m;
            i += 1;
        }
        proof {
            assert(self@.take(self.criteria.len() as int) =~= self@);
        }
        total
    }

    /// Compute the point total awarded to this review: 0 as soon as any
    /// criterion's selection is fatal, otherwise the sum of the
    /// answered criteria's point values, unanswered ones contributing
    /// nothing.
    pub fn total_points(&self) -> (r: i32)
        requires
            self.wf(),
            total_points_in_i32(self@),
        ensures
            r as int == spec_total_points(self@),
    {
        let mut total: i32 = 0;
        let mut i: usize = 0;
        proof {
            assert(self@.take(0) =~= Seq::<CriterionModel>::empty());
        }
        while i < self.criteria.len()
            invariant
                i <= self.criteria.len(),
                self@.len() == self.criteria.len(),
                self.wf(),
                total_points_in_i32(self@),
                fatal_free(self@.take(i as int)),
                total as int == sum_selected_points(self@.take(i as int)),
            decreases self.criteria.len() - i,
        {
            proof {
                assert(self@.take(i as int + 1).drop_last() =~= self@.take(i as int));
                assert(self@.take(i as int + 1).last() == self@[i as int]);
                assert(forall|j: int|
                    0 <= j < i ==> self@.take(i as int + 1)[j] == #[trigger] self@.take(
                        i as int,
                    )[j]);
            }
            match self.criteria[i].selection_score() {
                Some(score) => {
                    match score {
                        CriterionOptionScore::Fatal => {
                            // a fatal selection nullifies the whole review
                            proof {
                                assert(self@[i as int].selection_score() == Some(
                                    CriterionOptionScore::Fatal,
                                ));
                            }
                            return 0;
                        },
                        CriterionOptionScore::Points(points) => {
                            proof {
                                assert(fatal_free(self@.take(i as int + 1)));
                                assert(self@.take(i as int + 1).len() == i + 1);
                            }
                            total = total + *points;
                        },
                    }
                },
                None => {
                    proof {
                        assert(fatal_free(self@.take(i as int + 1)));
                        assert(sum_selected_points(self@.take(i as int + 1)) == total as int);
                    }
                },
            }
            i += 1;
        }
        proof {
            assert(self@.take(self.criteria.len() as int) =~= self@);
            if has_fatal_selection(self@) {
                let w = choose|j: int|
                    0 <= j < self@.len() && #[trigger] self@[j].selection_score() == Some(
                        CriterionOptionScore::Fatal,
                    );
                assert(self@[w].selection_score() != Some(CriterionOptionScore::Fatal));
            }
        }
        total
    }
}

/// Render the percent-score text for a total of `t` points out of a
/// best achievable `m`.
fn percent_string_of(t: i32, m: i32) -> (r: String)
    requires
        m >= 0,
    ensures
        r@ == percent_chars(t as int, m as int),
{
    if m == 0 {
        return "undefined".to_owned();
    }
    let mu: u64 = m as u64;
    let neg = t < 0;
    let mag: u64 = if t < 0 {
        (-(t as i64)) as u64
    } else {
        t as u64
    };
    let num: u64 = 20000 * mag + mu;
    let den: u64 = 2 * mu;
    let h: u64 = num / den;
    proof {
        if t >= 0 {
            assert(h as int == percent_hundredths(t as int, m as int));
        } else {
            assert(h as int == -percent_hundredths(t as int, m as int));
        }
    }
    let int_part: u64 = h / 100;
    let frac: u64 = h % 100;
    let mut out: String = if neg && h > 0 {
        proof {
            reveal_strlit("-");
            assert("-"@ =~= seq!['-']);
        }
        "-".to_owned()
    } else {
        String::new()
    };
    let ghost sign: Seq<char> = out@;
    let digits = u64_dec_string(int_part);
    out.append(digits.as_str());
    proof {
        reveal_strlit(".");
        assert("."@ =~= seq!['.']);
    }
    out.append(".");
    push_digit(&mut out, frac / 10);
    push_digit(&mut out, frac % 10);
    proof {
        reveal_strlit("%");
        assert("%"@ =~= seq!['%']);
    }
    out.append("%");
    proof {
        let hh = if t < 0 {
            -percent_hundredths(t as int, m as int)
        } else {
            percent_hundredths(t as int, m as int)
        };
        assert((h / 100) as int == hh / 100);
        assert((h % 100) as int == hh % 100);
        assert((frac / 10) as int == (hh % 100) / 10);
        assert((frac % 10) as int == (hh % 100) % 10);
        assert(out@ =~= sign + hundredths_chars(hh));
        if neg && h > 0 {
            assert(sign + hundredths_chars(hh) =~= seq!['-'] + hundredths_chars(hh));
        } else {
            assert(sign + hundredths_chars(hh) =~= hundredths_chars(hh));
        }
    }
    out
}

impl Review {
    /// The percent score as text: the percentage of the best achievable
    /// total that was awarded, rounded to two decimal places, with a
    /// "%" suffix (for example "83.33%").  A review whose best
    /// achievable total is 0 has no percentage; its text is the word
    /// "undefined".
    pub fn percent_score_string(&self) -> (r: String)
        requires
            self.wf(),
            total_points_in_i32(self@),
            review_max_points(self@) <= i32::MAX,
        ensures
            r@ == percent_chars(spec_total_points(self@), review_max_points(self@)),
    {
        let t = self.total_points();
        let m = self.max_points();
        percent_string_of(t, m)
    }
}

} // verus!
