//! What a reader is asked for.

use crate::types::FstSignalHandle;
use vstd::prelude::*;

verus! {

/// Filter the changes by time and/or signals.
///
/// The time filter covers `start..=end`; without an end it goes up to the end of
/// the file. Without a list of signals all of them are included.
#[derive(Debug)]
pub struct FstFilter {
    pub start: u64,
    pub end: Option<u64>,
    pub included: Option<Vec<FstSignalHandle>>,
    /// also ask for the last value of each signal before `start`
    pub include_pre_start: bool,
}

/// What an [`FstFilter`] holds.
#[verifier::ext_equal]
pub struct FilterView {
    pub start: u64,
    pub end: Option<u64>,
    pub included: Option<Seq<FstSignalHandle>>,
    pub include_pre_start: bool,
}

impl View for FstFilter {
    type V = FilterView;

    open spec fn view(&self) -> FilterView {
        FilterView {
            start: self.start,
            end: self.end,
            included: match self.included {
                Some(signals) => Some(signals@),
                None => None,
            },
            include_pre_start: self.include_pre_start,
        }
    }
}

impl FilterView {
    /// The filter lets the signal with index `i` through.
    pub open spec fn selects(self, i: int) -> bool {
        match self.included {
            None => true,
            Some(signals) => exists|k: int|
                0 <= k < signals.len() && #[trigger] signals[k].index == i,
        }
    }

    /// Which of `n` signals the filter lets through.
    pub open spec fn mask(self, n: nat) -> Seq<bool> {
        Seq::new(n, |i: int| self.selects(i))
    }

    /// The last time that the filter lets through, in a file that ends at `file_end`.
    pub open spec fn end_in(self, file_end: u64) -> u64 {
        match self.end {
            Some(end) => end,
            None => file_end,
        }
    }
}

impl FstFilter {
    /// All changes of all signals.
    pub fn all() -> (r: FstFilter)
        ensures
            r@ == (FilterView { start: 0, end: None, included: None, include_pre_start: false }),
    {
        FstFilter { start: 0, end: None, included: None, include_pre_start: false }
    }

    /// The changes of some signals from `start` to `end`.
    pub fn new(start: u64, end: u64, signals: Vec<FstSignalHandle>) -> (r: FstFilter)
        ensures
            r@ == (FilterView {
                start,
                end: Some(end),
                included: Some(signals@),
                include_pre_start: false,
            }),
    {
        FstFilter { start, end: Some(end), included: Some(signals), include_pre_start: false }
    }

    /// The changes of all signals from `start` to `end`.
    pub fn filter_time(start: u64, end: u64) -> (r: FstFilter)
        ensures
            r@ == (FilterView {
                start,
                end: Some(end),
                included: None,
                include_pre_start: false,
            }),
    {
        FstFilter { start, end: Some(end), included: None, include_pre_start: false }
    }

    /// All changes of some signals.
    pub fn filter_signals(signals: Vec<FstSignalHandle>) -> (r: FstFilter)
        ensures
            r@ == (FilterView {
                start: 0,
                end: None,
                included: Some(signals@),
                include_pre_start: false,
            }),
    {
        FstFilter { start: 0, end: None, included: Some(signals), include_pre_start: false }
    }

    /// The same filter, which also asks for the last value of each signal before its start.
    pub fn with_pre_start(self) -> (r: FstFilter)
        ensures
            r@ == (FilterView { include_pre_start: true, ..self@ }),
    {
        let mut filter = self;
        filter.include_pre_start = true;
        filter
    }
}

} // verus!
