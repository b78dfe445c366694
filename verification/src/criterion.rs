//! Criterion options and criteria: labeled choices with a score, and a
//! named question holding an ordered list of such choices, an optional
//! selection, and a free-text comment.

use vstd::prelude::*;
use crate::score::CriterionOptionScore;

verus! {

/// Mathematical model of a criterion option.
#[verifier::ext_equal]
pub ghost struct OptionModel {
    pub label: Seq<char>,
    pub score: CriterionOptionScore,
}

/// Mathematical model of a criterion.
#[verifier::ext_equal]
pub ghost struct CriterionModel {
    pub label: Seq<char>,
    pub options: Seq<OptionModel>,
    pub selection_index: Option<int>,
    pub comment: Seq<char>,
}

/// Best achievable point value over a list of options: the largest
/// point value offered, fatal options ignored, never below zero.
pub open spec fn max_points_opts(opts: Seq<OptionModel>) -> int
    decreases opts.len(),
{
    if opts.len() == 0 {
        0
    } else {
        let prev = max_points_opts(opts.drop_last());
        match opts.last().score {
            CriterionOptionScore::Points(p) => if p > prev {
                p as int
            } else {
                prev
            },
            CriterionOptionScore::Fatal => prev,
        }
    }
}

impl CriterionModel {
    /// A present selection is an in-range index into the options.
    pub open spec fn wf(self) -> bool {
        match self.selection_index {
            Some(i) => 0 <= i < self.options.len(),
            None => true,
        }
    }

    /// The selected option, if a valid selection has been made.
    pub open spec fn selected_option(self) -> Option<OptionModel> {
        match self.selection_index {
            Some(i) => if 0 <= i < self.options.len() {
                Some(self.options[i])
            } else {
                None
            },
            None => None,
        }
    }

    /// The score of the selected option, if any.
    pub open spec fn selection_score(self) -> Option<CriterionOptionScore> {
        match self.selected_option() {
            Some(o) => Some(o.score),
            None => None,
        }
    }

    /// Best achievable point value of this criterion.
    pub open spec fn max_points(self) -> int {
        max_points_opts(self.options)
    }
}

/// An option within a criterion, one of which may become the selection
/// during a review.  Immutable after construction.
#[derive(Debug)]
pub struct CriterionOption {
    /// Label for this criterion option.
    pub label: String,
    /// Scoring schema for this criterion option.
    pub score: CriterionOptionScore,
}

impl View for CriterionOption {
    type V = OptionModel;

    open spec fn view(&self) -> OptionModel {
        OptionModel { label: self.label@, score: self.score }
    }
}

impl DeepView for CriterionOption {
    type V = OptionModel;

    open spec fn deep_view(&self) -> OptionModel {
        self@
    }
}

impl CriterionOption {
    /// Create a criterion option.
    pub fn new(label: &str, score: CriterionOptionScore) -> (r: Self)
        ensures
            r@ == (OptionModel { label: label@, score }),
    {
        Self { label: label.to_owned(), score }
    }

    /// Get the label for this criterion option.
    pub fn label(&self) -> (r: &str)
        ensures
            r@ == self@.label,
    {
        self.label.as_str()
    }

    /// Get the score for this criterion option.
    pub fn score(&self) -> (r: &CriterionOptionScore)
        ensures
            *r == self@.score,
    {
        &self.score
    }
}

/// A criterion on which a review is conducted: a label, a fixed list of
/// options, an optional selection, and a comment.
#[derive(Debug)]
pub struct Criterion {
    /// Label for this criterion.
    pub label: String,
    /// Options available for selection in this criterion.
    pub options: Vec<CriterionOption>,
    /// The index of the currently selected option, if any.
    pub selection_index: Option<usize>,
    /// Optional comment attached to this criterion in the review.
    pub comment: String,
}

impl View for Criterion {
    type V = CriterionModel;

    open spec fn view(&self) -> CriterionModel {
        CriterionModel {
            label: self.label@,
            options: self.options.deep_view(),
            selection_index: match self.selection_index {
                Some(i) => Some(i as int),
                None => None,
            },
            comment: self.comment@,
        }
    }
}

impl DeepView for Criterion {
    type V = CriterionModel;

    open spec fn deep_view(&self) -> CriterionModel {
        self@
    }
}

impl Criterion {
    /// Create a new criterion: no selection yet, empty comment.
    pub fn new(label: &str, options: Vec<CriterionOption>) -> (r: Self)
        ensures
            r@ == (CriterionModel {
                label: label@,
                options: options.deep_view(),
                selection_index: None,
                comment: Seq::<char>::empty(),
            }),
            r@.wf(),
    {
        let r = Self { label: label.to_owned(), options, selection_index: None, comment: String::new() };
        proof {
            assert(r.comment@ =~= Seq::<char>::empty());
        }
        r
    }

    /// Set the selection to the option at `selection_index`.  Choosing
    /// an option that does not exist is a caller bug, ruled out by the
    /// precondition.
    pub fn set_selection_index(&mut self, selection_index: usize)
        requires
            selection_index < old(self)@.options.len(),
        ensures
            final(self)@ == (CriterionModel {
                selection_index: Some(selection_index as int),
                ..old(self)@
            }),
            final(self)@.wf(),
    {
        self.selection_index = Some(selection_index);
    }

    /// Get the currently selected option, if a valid selection has been
    /// made.
    pub fn selection(&self) -> (r: Option<&CriterionOption>)
        ensures
            match r {
                Some(o) => self@.selected_option() == Some(o@),
                None => self@.selected_option() is None,
            },
    {
        match self.selection_index {
            Some(index) => if index < self.options.len() {
                Some(&self.options[index])
            } else {
                None
            },
            None => None,
        }
    }

    /// Get the score of the currently selected option, if any.
    pub fn selection_score(&self) -> (r: Option<&CriterionOptionScore>)
        ensures
            match r {
                Some(s) => self@.selection_score() == Some(*s),
                None => self@.selection_score() is None,
            },
    {
        match self.selection() {
            Some(selection) => Some(&selection.score),
            None => None,
        }
    }

    /// Compute the best achievable point value for this criterion: the
    /// largest point value among its options, ignoring fatal options,
    /// and 0 for an empty or all-fatal option list.
    pub fn max_points(&self) -> (r: i32)
        ensures
            r as int == self@.max_points(),
            r >= 0,
    {
        let mut best: i32 = 0;
        let mut i: usize = 0;
        proof {
            assert(self@.options.take(0) =~= Seq::<OptionModel>::empty());
        }
        while i < self.options.len()
            invariant
                i <= self.options.len(),
                self@.options.len() == self.options.len(),
                best >= 0,
                best as int == max_points_opts(self@.options.take(i as int)),
            decreases self.options.len() - i,
        {
            proof {
                assert(self@.options.take(i as int + 1).drop_last() =~= self@.options.take(
                    i as int,
                ));
                assert(self@.options.take(i as int + 1).last() == self@.options[i as int]);
            }
            match self.options[i].score {
                CriterionOptionScore::Fatal => {},
                CriterionOptionScore::Points(points) => {
                    if points > best {
                        best = points;
                    }
                },
            }
            i += 1;
        }
        proof {
            assert(self@.options.take(self.options.len() as int) =~= self@.options);
        }
        best
    }

    /// Get the label for this criterion.
    pub fn label(&self) -> (r: &str)
        ensures
            r@ == self@.label,
    {
        self.label.as_str()
    }

    /// Get the options available for this criterion.
    pub fn options(&self) -> (r: &Vec<CriterionOption>)
        ensures
            r.deep_view() == self@.options,
    {
        &self.options
    }

    /// Get the comment attached to this criterion in the review.
    pub fn comment(&self) -> (r: &str)
        ensures
            r@ == self@.comment,
    {
        self.comment.as_str()
    }

    /// Set the comment attached to this criterion in the review.
    pub fn set_comment(&mut self, comment: &str)
        ensures
            final(self)@ == (CriterionModel { comment: comment@, ..old(self)@ }),
    {
        self.comment = comment.to_owned();
    }
}

} // verus!
