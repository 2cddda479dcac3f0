//! Limits on what one subtitle request may index, select and decode.

use vstd::prelude::*;

use crate::errors::{other_error, MediaParserError};
use crate::mp4::retained::RetainedBudget;

verus! {

/// What indexing subtitle tracks may still take.
#[derive(Debug)]
pub struct IndexBudget {
    pub max_samples: usize,
    pub samples: usize,
    pub retained: RetainedBudget,
}

/// Why samples are not indexed.
#[derive(Debug)]
pub enum IndexSampleChargeError {
    /// The track has more samples than all tracks together may have.
    TrackTooLarge,
    /// The tracks before it left too little.
    BudgetExhausted(MediaParserError),
}

/// The words of the error for too many samples in the index.
pub open spec fn too_many_indexed() -> Seq<char> {
    "too many indexed subtitle samples"@
}

impl IndexBudget {
    /// No more samples are charged than the limit allows.
    pub open spec fn in_limit(self) -> bool {
        self.samples <= self.max_samples
    }

    pub fn new(max_samples: usize, max_retained_bytes: usize) -> (result: Self)
        ensures
            result.in_limit(),
            result.max_samples == max_samples,
            result.samples == 0,
            result.retained.limit() == max_retained_bytes,
            result.retained.used() == 0,
    {
        IndexBudget { max_samples, samples: 0, retained: RetainedBudget::new(max_retained_bytes) }
    }

    /// Charges the samples of a track to the limit that all tracks share,
    /// telling a track that cannot fit by itself from one that comes too late.
    pub fn charge_samples(&mut self, count: usize) -> (result: Result<(), IndexSampleChargeError>)
        ensures
            final(self).max_samples == old(self).max_samples,
            final(self).retained == old(self).retained,
            old(self).in_limit() ==> final(self).in_limit(),
            match result {
                Ok(_) => {
                    &&& final(self).samples == old(self).samples + count
                    &&& final(self).samples <= old(self).max_samples
                },
                Err(error) => {
                    &&& final(self).samples == old(self).samples
                    &&& match error {
                        IndexSampleChargeError::TrackTooLarge => count > old(self).max_samples,
                        IndexSampleChargeError::BudgetExhausted(error) => {
                            &&& count <= old(self).max_samples
                            &&& old(self).samples + count > old(self).max_samples
                            &&& error@ == crate::errors::ErrorView::Other(too_many_indexed())
                        },
                    }
                },
            },
    {
        if count > self.max_samples {
            return Err(IndexSampleChargeError::TrackTooLarge);
        }
        match checked_charge(
            self.samples,
            count,
            self.max_samples,
            "too many indexed subtitle samples",
        ) {
            Ok(samples) => {
                self.samples = samples;
                Ok(())
            },
            Err(error) => Err(IndexSampleChargeError::BudgetExhausted(error)),
        }
    }

    pub fn samples(&self) -> (result: usize)
        ensures
            result == self.samples,
    {
        self.samples
    }
}

/// How much one request may bring back.
#[derive(Clone, Copy, Debug)]
pub struct RequestLimits {
    pub max_samples: usize,
    pub max_cues: usize,
    pub max_decoded_text_bytes: usize,
}

/// What one request has taken of its limits.
#[derive(Debug)]
pub struct RequestBudget {
    pub limits: RequestLimits,
    pub selected_samples: usize,
    pub cues: usize,
    pub decoded_text_bytes: usize,
}

impl RequestBudget {
    /// Nothing is taken beyond its limit.
    pub open spec fn in_limits(self) -> bool {
        &&& self.selected_samples <= self.limits.max_samples
        &&& self.cues <= self.limits.max_cues
        &&& self.decoded_text_bytes <= self.limits.max_decoded_text_bytes
    }

    pub fn new(limits: RequestLimits) -> (result: Self)
        ensures
            result.limits == limits,
            result.selected_samples == 0,
            result.cues == 0,
            result.decoded_text_bytes == 0,
            result.in_limits(),
    {
        RequestBudget { limits, selected_samples: 0, cues: 0, decoded_text_bytes: 0 }
    }

    /// Takes `count` selected samples, or nothing where that is too many.
    pub fn charge_selected_samples(&mut self, count: usize) -> (result: Result<
        (),
        MediaParserError,
    >)
        ensures
            final(self).limits == old(self).limits,
            final(self).cues == old(self).cues,
            final(self).decoded_text_bytes == old(self).decoded_text_bytes,
            final(self).selected_samples == if result is Ok {
                old(self).selected_samples + count
            } else {
                old(self).selected_samples as int
            },
            result is Ok <==> old(self).selected_samples + count <= old(self).limits.max_samples,
            result matches Err(error) ==> error@ == crate::errors::ErrorView::Other(
                "too many selected subtitle samples"@,
            ),
            old(self).in_limits() ==> final(self).in_limits(),
    {
        let total: usize = checked_charge(
            self.selected_samples,
            count,
            self.limits.max_samples,
            "too many selected subtitle samples",
        )?;
        self.selected_samples = total;
        Ok(())
    }

    /// Takes `count` cues, or nothing where that is too many.
    pub fn charge_cue(&mut self, count: usize) -> (result: Result<(), MediaParserError>)
        ensures
            final(self).limits == old(self).limits,
            final(self).selected_samples == old(self).selected_samples,
            final(self).decoded_text_bytes == old(self).decoded_text_bytes,
            final(self).cues == if result is Ok {
                old(self).cues + count
            } else {
                old(self).cues as int
            },
            result is Ok <==> old(self).cues + count <= old(self).limits.max_cues,
            result matches Err(error) ==> error@ == crate::errors::ErrorView::Other(
                "too many subtitle cues"@,
            ),
            old(self).in_limits() ==> final(self).in_limits(),
    {
        let total: usize = checked_charge(
            self.cues,
            count,
            self.limits.max_cues,
            "too many subtitle cues",
        )?;
        self.cues = total;
        Ok(())
    }

    /// Takes `bytes` of decoded text, or nothing where that is too much.
    pub fn charge_decoded_text(&mut self, bytes: usize) -> (result: Result<(), MediaParserError>)
        ensures
            final(self).limits == old(self).limits,
            final(self).selected_samples == old(self).selected_samples,
            final(self).cues == old(self).cues,
            final(self).decoded_text_bytes == if result is Ok {
                old(self).decoded_text_bytes + bytes
            } else {
                old(self).decoded_text_bytes as int
            },
            result is Ok <==> old(self).decoded_text_bytes + bytes
                <= old(self).limits.max_decoded_text_bytes,
            result matches Err(error) ==> error@ == crate::errors::ErrorView::Other(
                "MP4 subtitle decoded text budget exceeded"@,
            ),
            old(self).in_limits() ==> final(self).in_limits(),
    {
        let total: usize = checked_charge(
            self.decoded_text_bytes,
            bytes,
            self.limits.max_decoded_text_bytes,
            "MP4 subtitle decoded text budget exceeded",
        )?;
        self.decoded_text_bytes = total;
        Ok(())
    }
}

/// The sum of what is used and what is asked for, unless it is above `max`.
pub fn checked_charge(used: usize, amount: usize, max: usize, message: &str) -> (result: Result<
    usize,
    MediaParserError,
>)
    ensures
        match result {
            Ok(total) => total == used + amount <= max,
            Err(error) => used + amount > max && error@ == crate::errors::ErrorView::Other(
                message@,
            ),
        },
{
    match used.checked_add(amount) {
        Some(total) if total <= max => Ok(total),
        _ => Err(other_error(message)),
    }
}

} // verus!
