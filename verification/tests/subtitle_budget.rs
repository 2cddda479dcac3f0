//! Limits on subtitle requests.

use media_parser::errors::MediaParserError;
use media_parser::mp4::subtitles::budget::{
    IndexBudget, IndexSampleChargeError, RequestBudget, RequestLimits,
};

#[test]
fn index_sample_limit_accepts_exact_and_rejects_plus_one_monotonically() {
    let mut budget = IndexBudget::new(2, 16);
    budget.charge_samples(2).unwrap();
    let error = budget.charge_samples(1).unwrap_err();

    assert!(matches!(
        error,
        IndexSampleChargeError::BudgetExhausted(MediaParserError::Other(_))
    ));
    assert_eq!(budget.samples(), 2);
}

#[test]
fn individually_oversized_track_is_distinct_and_not_charged() {
    let mut budget = IndexBudget::new(2, 16);

    let error = budget.charge_samples(3).unwrap_err();

    assert!(matches!(error, IndexSampleChargeError::TrackTooLarge));
    assert_eq!(budget.samples(), 0);
}

#[test]
fn rejected_track_work_charge_is_not_refunded() {
    let mut budget = IndexBudget::new(2, 16);
    budget.charge_samples(1).unwrap();

    assert!(budget.charge_samples(2).is_err());
    assert_eq!(budget.samples(), 1);
    budget.charge_samples(1).unwrap();
    assert_eq!(budget.samples(), 2);
}

#[test]
fn retained_limit_accepts_exact_and_rejects_plus_one() {
    let mut budget = IndexBudget::new(0, 4);
    budget.retained.charge_bytes(4).unwrap();

    assert!(budget.retained.charge_bytes(1).is_err());
    assert_eq!(budget.retained.used_bytes(), 4);
}

#[test]
fn request_limits_accept_exact_and_reject_plus_one_monotonically() {
    let limits = RequestLimits {
        max_samples: 2,
        max_cues: 2,
        max_decoded_text_bytes: 4,
    };
    let mut budget = RequestBudget::new(limits);
    budget.charge_selected_samples(2).unwrap();
    budget.charge_decoded_text(4).unwrap();
    budget.charge_cue(2).unwrap();

    assert!(budget.charge_selected_samples(1).is_err());
    assert!(budget.charge_decoded_text(1).is_err());
    assert!(budget.charge_cue(1).is_err());
    assert_eq!(budget.selected_samples, 2);
    assert_eq!(budget.decoded_text_bytes, 4);
    assert_eq!(budget.cues, 2);
}
