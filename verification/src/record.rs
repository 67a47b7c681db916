//! The sale record.

use vstd::prelude::*;

verus! {

/// One sale.
///
/// The three quantities are fixed-point integers in units of the caller's
/// choosing; `None` stands for a blank field.
#[derive(Debug)]
pub struct Record {
    pub serial_number: String,
    pub assessed_value: Option<u64>,
    pub sale_amount: Option<u64>,
    pub sales_ratio: Option<i64>,
    pub residential_type: Option<String>,
}

impl Record {
    /// Whether the record names a residential type.
    pub open spec fn has_type(self) -> bool {
        self.residential_type is Some
    }

    /// Whether the record carries an assessed value.
    pub open spec fn has_value(self) -> bool {
        self.assessed_value is Some
    }

    /// The assessed value, or zero where the field is blank.
    pub open spec fn value(self) -> int {
        match self.assessed_value {
            Some(v) => v as int,
            None => 0,
        }
    }

    /// Whether the record carries a sales ratio.
    pub open spec fn has_ratio(self) -> bool {
        self.sales_ratio is Some
    }

    /// The sales ratio, or zero where the field is blank.
    pub open spec fn ratio(self) -> int {
        match self.sales_ratio {
            Some(r) => r as int,
            None => 0,
        }
    }

    /// The residential type as a sequence of characters, if there is one.
    pub open spec fn category(self) -> Option<Seq<char>> {
        match self.residential_type {
            Some(t) => Some(t@),
            None => None,
        }
    }
}

impl Clone for Record {
    fn clone(&self) -> (copy: Self)
        ensures
            copy == *self,
    {
        let residential_type = match &self.residential_type {
            Some(t) => Some(t.clone()),
            None => None,
        };
        Record {
            serial_number: self.serial_number.clone(),
            assessed_value: self.assessed_value,
            sale_amount: self.sale_amount,
            sales_ratio: self.sales_ratio,
            residential_type,
        }
    }
}

} // verus!
