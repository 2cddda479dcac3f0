//! Monotonic accounting for retained MP4 table allocations.

use vstd::prelude::*;

use crate::memory::{try_reserve_exact, vec_capacity};

verus! {

/// Why a table is not retained.
#[derive(Clone, Copy, Debug, PartialEq, Eq)]
pub enum TableParseError {
    /// The table is malformed in this way.
    Invalid(&'static str),
    /// The table takes up more than is left.
    BudgetExceeded,
    /// The allocator has no memory for the table.
    AllocationFailed,
}

pub type TableResult<T> = Result<T, TableParseError>;

/// A budget of bytes that only ever shrinks.
#[derive(Debug)]
pub struct RetainedBudget {
    max_bytes: usize,
    used_bytes: usize,
}

impl RetainedBudget {
    pub closed spec fn limit(self) -> int {
        self.max_bytes as int
    }

    pub closed spec fn used(self) -> int {
        self.used_bytes as int
    }

    #[verifier::type_invariant]
    spec fn inside_limit(self) -> bool {
        self.used_bytes <= self.max_bytes
    }

    pub fn new(max_bytes: usize) -> (result: Self)
        ensures
            result.limit() == max_bytes,
            result.used() == 0,
    {
        RetainedBudget { max_bytes, used_bytes: 0 }
    }

    pub fn used_bytes(&self) -> (result: usize)
        ensures
            result == self.used(),
            result <= self.limit(),
    {
        proof {
            use_type_invariant(self);
        }
        self.used_bytes
    }

    /// Takes `bytes`, or nothing where fewer are left.
    pub fn charge_bytes(&mut self, bytes: usize) -> (result: TableResult<()>)
        ensures
            final(self).limit() == old(self).limit(),
            match result {
                Ok(_) => final(self).used() == old(self).used() + bytes <= old(self).limit(),
                Err(error) => {
                    &&& error == TableParseError::BudgetExceeded
                    &&& old(self).used() + bytes > old(self).limit()
                    &&& final(self).used() == old(self).used()
                },
            },
    {
        proof {
            use_type_invariant(&*self);
        }
        let used: usize = self.used_bytes;
        if bytes > self.max_bytes - used {
            return Err(TableParseError::BudgetExceeded);
        }
        self.used_bytes = used + bytes;
        Ok(())
    }

    /// Takes the bytes of `capacity` values, or nothing where fewer are left.
    pub fn charge_capacity<T>(&mut self, capacity: usize) -> (result: TableResult<()>)
        ensures
            final(self).limit() == old(self).limit(),
            match result {
                Ok(_) => final(self).used() == old(self).used() + capacity
                    * vstd::layout::size_of::<T>() <= old(self).limit(),
                Err(error) => {
                    &&& error == TableParseError::BudgetExceeded
                    &&& old(self).used() + capacity * vstd::layout::size_of::<T>() > old(
                        self,
                    ).limit()
                    &&& final(self).used() == old(self).used()
                },
            },
    {
        proof {
            use_type_invariant(&*self);
        }
        match capacity.checked_mul(core::mem::size_of::<T>()) {
            Some(bytes) => self.charge_bytes(bytes),
            None => Err(TableParseError::BudgetExceeded),
        }
    }

    /// Reserves room for `additional` values on a vector whose existing room
    /// has already been charged to this budget.
    ///
    /// The least growth is charged before the allocator is asked and stays
    /// charged where it refuses; what it grants beyond that is charged after.
    /// How much room the vector has is up to the allocator.
    pub fn try_reserve_vec_exact<T>(&mut self, values: &mut Vec<T>, additional: usize) -> (result:
        TableResult<()>)
        ensures
            final(values)@ == old(values)@,
            old(self).used() <= final(self).used() <= old(self).limit(),
            exists|capacity: usize|
                capacity >= old(values)@.len() && #[trigger] reserved_from(
                    *old(self),
                    *final(self),
                    old(values)@.len() + additional,
                    capacity as int,
                    vstd::layout::size_of::<T>() as int,
                    fault_of(result),
                ),
    {
        let capacity: usize = vec_capacity(values);
        let result = self.reserve_from(values, additional, capacity);
        assert(reserved_from(
            *old(self),
            *self,
            old(values)@.len() + additional,
            capacity as int,
            vstd::layout::size_of::<T>() as int,
            fault_of(result),
        ));
        match result {
            Ok(_) => Ok(()),
            Err(error) => Err(error),
        }
    }

    /// Reserves room for `additional` values on a vector with room for
    /// `capacity`, which is charged already, and gives the room that is charged
    /// then. A vector that has the room asks for nothing.
    pub fn reserve_from<T>(
        &mut self,
        values: &mut Vec<T>,
        additional: usize,
        capacity: usize,
    ) -> (result: TableResult<usize>)
        ensures
            final(values)@ == old(values)@,
            old(self).used() <= final(self).used() <= old(self).limit(),
            reserved_from(
                *old(self),
                *final(self),
                old(values)@.len() + additional,
                capacity as int,
                vstd::layout::size_of::<T>() as int,
                fault_of(result),
            ),
            result matches Ok(charged) ==> {
                &&& charged >= capacity
                &&& charged >= old(values)@.len() + additional
                &&& final(self).used() == old(self).used() + (charged - capacity)
                    * vstd::layout::size_of::<T>()
            },
    {
        proof {
            use_type_invariant(&*self);
        }
        let required: usize = match values.len().checked_add(additional) {
            Some(required) => required,
            None => {
                return Err(TableParseError::BudgetExceeded);
            },
        };
        let minimum: usize = minimum_growth(required, capacity);
        if minimum == 0 {
            return Ok(capacity);
        }
        let ghost size = vstd::layout::size_of::<T>() as int;
        assert(minimum * size >= 0) by (nonlinear_arith)
            requires
                minimum >= 0,
                size >= 0,
        ;
        match self.charge_capacity::<T>(minimum) {
            Ok(_) => {},
            Err(error) => {
                return Err(error);
            },
        }
        if !try_reserve_exact(values, additional) {
            return Err(TableParseError::AllocationFailed);
        }
        let charged: usize = vec_capacity(values);
        match self.settle_growth::<T>(capacity, charged, minimum) {
            Ok(_) => {
                proof {
                    let extra = charged - capacity - minimum;
                    assert(extra * size >= 0) by (nonlinear_arith)
                        requires
                            extra >= 0,
                            size >= 0,
                    ;
                    assert((extra + minimum) * size == extra * size + minimum * size)
                        by (nonlinear_arith);
                }
                Ok(charged)
            },
            Err(error) => Err(error),
        }
    }

    /// Charges what a vector grew by beyond `minimum`, which is charged already.
    pub fn settle_growth<T>(
        &mut self,
        old_capacity: usize,
        new_capacity: usize,
        minimum: usize,
    ) -> (result: TableResult<()>)
        ensures
            final(self).limit() == old(self).limit(),
            ({
                let extra = new_capacity - old_capacity - minimum;
                match result {
                    Ok(_) => extra >= 0 && final(self).used() == old(self).used() + extra
                        * vstd::layout::size_of::<T>() <= old(self).limit(),
                    Err(error) => {
                        &&& error == TableParseError::BudgetExceeded
                        &&& final(self).used() == old(self).used()
                        &&& extra < 0 || old(self).used() + extra * vstd::layout::size_of::<T>()
                            > old(self).limit()
                    },
                }
            }),
    {
        if new_capacity < old_capacity || new_capacity - old_capacity < minimum {
            return Err(TableParseError::BudgetExceeded);
        }
        self.charge_capacity::<T>(new_capacity - old_capacity - minimum)
    }
}

/// How much the room of a vector grows at least to hold `required` values.
pub fn minimum_growth(required: usize, capacity: usize) -> (result: usize)
    ensures
        result == if required > capacity {
            required - capacity
        } else {
            0
        },
{
    if required > capacity {
        required - capacity
    } else {
        0
    }
}

/// Why a result is none.
pub open spec fn fault_of<T>(result: TableResult<T>) -> Option<TableParseError> {
    match result {
        Ok(_) => None,
        Err(error) => Some(error),
    }
}

/// What it comes to when room grows by at least `growth` values of `size` bytes
/// each. No growth asks for nothing. The least growth is charged first, if it
/// fits the limit, and stays charged; what is granted beyond it is charged too.
pub open spec fn charged_growth(
    before: RetainedBudget,
    after: RetainedBudget,
    growth: int,
    size: int,
    fault: Option<TableParseError>,
) -> bool {
    &&& after.limit() == before.limit()
    &&& if growth <= 0 {
        fault is None && after.used() == before.used()
    } else if before.used() + growth * size > before.limit() {
        fault == Some(TableParseError::BudgetExceeded) && after.used() == before.used()
    } else {
        match fault {
            None => before.used() + growth * size <= after.used() <= before.limit(),
            Some(TableParseError::Invalid(_)) => false,
            Some(_) => after.used() == before.used() + growth * size,
        }
    }
}

/// Room that was granted is charged.
pub proof fn lemma_granted_room_is_charged(
    before: RetainedBudget,
    after: RetainedBudget,
    growth: int,
    size: int,
)
    requires
        growth >= 0,
        charged_growth(before, after, growth, size, None),
    ensures
        after.used() >= before.used() + growth * size,
{
    assert(0 * size == 0) by (nonlinear_arith);
}

/// What it comes to when room for `required` values of `size` bytes each is
/// reserved where there is charged room for `capacity`.
pub open spec fn reserved_from(
    before: RetainedBudget,
    after: RetainedBudget,
    required: int,
    capacity: int,
    size: int,
    fault: Option<TableParseError>,
) -> bool {
    if required > usize::MAX {
        &&& after.limit() == before.limit()
        &&& after.used() == before.used()
        &&& fault == Some(TableParseError::BudgetExceeded)
    } else {
        charged_growth(before, after, required - capacity, size, fault)
    }
}

/// An empty vector with charged room for `capacity` values.
pub fn budgeted_vec<T>(capacity: usize, budget: &mut RetainedBudget) -> (result: TableResult<
    Vec<T>,
>)
    ensures
        old(budget).used() <= final(budget).used() <= old(budget).limit(),
        charged_growth(
            *old(budget),
            *final(budget),
            capacity as int,
            vstd::layout::size_of::<T>() as int,
            fault_of(result),
        ),
        result matches Ok(values) ==> values@.len() == 0,
{
    let mut values: Vec<T> = Vec::new();
    match budget.reserve_from(&mut values, capacity, 0) {
        Ok(_) => Ok(values),
        Err(error) => Err(error),
    }
}

} // verus!
