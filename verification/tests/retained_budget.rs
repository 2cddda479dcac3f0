//! Accounting for retained tables.

use media_parser::mp4::bounded_tables::{
    parse_sample_sizes_bounded, parse_stsc_bounded, SampleTimingTable,
};
use media_parser::mp4::retained::{budgeted_vec, RetainedBudget, TableParseError};

#[test]
fn checked_add_overflow_is_budget_exceeded_without_changing_usage() {
    let mut budget = RetainedBudget::new(usize::MAX);
    budget.charge_bytes(usize::MAX).unwrap();

    assert_eq!(budget.charge_bytes(1), Err(TableParseError::BudgetExceeded));
    assert_eq!(budget.used_bytes(), usize::MAX);
}

#[test]
fn checked_multiply_overflow_is_budget_exceeded_without_changing_usage() {
    let mut budget = RetainedBudget::new(usize::MAX);
    let overflowing_capacity = usize::MAX / std::mem::size_of::<u16>() + 1;

    assert_eq!(
        budget.charge_capacity::<u16>(overflowing_capacity),
        Err(TableParseError::BudgetExceeded)
    );
    assert_eq!(budget.used_bytes(), 0);
}

#[test]
fn rejected_limit_charge_does_not_change_usage() {
    let mut budget = RetainedBudget::new(10);
    budget.charge_bytes(6).unwrap();

    assert_eq!(budget.charge_bytes(5), Err(TableParseError::BudgetExceeded));
    assert_eq!(budget.used_bytes(), 6);
}

#[test]
fn vec_reservation_reconciles_from_already_accounted_capacity() {
    let mut values = Vec::with_capacity(2);
    values.extend([1u32, 2]);
    let mut budget = RetainedBudget::new(usize::MAX);
    budget.charge_capacity::<u32>(values.capacity()).unwrap();

    budget.try_reserve_vec_exact(&mut values, 3).unwrap();

    assert!(values.capacity() >= 5);
    assert_eq!(
        budget.used_bytes(),
        values.capacity() * std::mem::size_of::<u32>()
    );
}

#[test]
fn vec_reservation_precharges_minimum_before_allocation() {
    let mut values = vec![1u16];
    let old_capacity = values.capacity();
    let old_bytes = old_capacity * std::mem::size_of::<u16>();
    let mut budget = RetainedBudget::new(old_bytes);
    budget.charge_bytes(old_bytes).unwrap();

    assert_eq!(
        budget.try_reserve_vec_exact(&mut values, 1),
        Err(TableParseError::BudgetExceeded)
    );
    assert_eq!(values.capacity(), old_capacity);
    assert_eq!(budget.used_bytes(), old_bytes);
}

#[test]
fn failed_vec_allocation_keeps_its_precharge() {
    let mut values = Vec::<u8>::new();
    let mut budget = RetainedBudget::new(usize::MAX);

    assert_eq!(
        budget.try_reserve_vec_exact(&mut values, usize::MAX),
        Err(TableParseError::AllocationFailed)
    );
    assert_eq!(budget.used_bytes(), usize::MAX);
}

#[test]
fn reserving_from_a_capacity_charges_the_growth() {
    let mut values = vec![1u32];
    let mut budget = RetainedBudget::new(1_000);

    let charged = budget.reserve_from(&mut values, 4, 2).expect("room is granted");

    assert!(charged >= 5);
    assert_eq!(budget.used_bytes(), (charged - 2) * 4);
    assert_eq!(budget.reserve_from(&mut values, 4, charged), Ok(charged));
    assert_eq!(budget.used_bytes(), (charged - 2) * 4);
    assert_eq!(values, vec![1]);
}

#[test]
fn budgeted_vectors_are_charged_before_they_are_allocated() {
    let mut budget = RetainedBudget::new(15);

    assert_eq!(
        budgeted_vec::<u64>(2, &mut budget),
        Err(TableParseError::BudgetExceeded)
    );
    assert_eq!(budget.used_bytes(), 0);
    assert_eq!(budgeted_vec::<u64>(0, &mut budget), Ok(Vec::new()));
    assert_eq!(budget.used_bytes(), 0);
    assert!(budgeted_vec::<u64>(1, &mut budget).is_ok());
    assert!(budget.used_bytes() >= 8);
}

#[test]
fn tables_that_list_nothing_need_no_room() {
    let mut budget = RetainedBudget::new(0);

    let sizes = parse_sample_sizes_bounded(&[0, 0, 0, 0, 0, 0, 0, 5, 0, 0, 0, 9], &mut budget)
        .expect("all samples have one size");
    assert_eq!((sizes.fixed_size, sizes.sample_count), (5, 9));
    assert_eq!(parse_stsc_bounded(&[0; 8], &mut budget), Ok(Vec::new()));
    assert!(SampleTimingTable::parse(&[0; 8], &mut budget).is_ok());
    assert_eq!(
        SampleTimingTable::parse(&[0; 7], &mut budget).err(),
        Some(TableParseError::Invalid("invalid stts table"))
    );
    assert_eq!(budget.used_bytes(), 0);
}
