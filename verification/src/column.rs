//! Column metadata: a name, a declared type and a value limiter.

use vstd::prelude::*;
use crate::value::{
    lim_wf, spec_empty_value, LimiterModel, Value, ValueLimiter, ValueModel, ValueType,
};

verus! {

/// The mathematical content of a column.
pub ghost struct ColumnModel {
    pub name: Seq<char>,
    pub column_type: ValueType,
    pub limiter: LimiterModel,
}

/// A column: unconstrained text by default, further confined by a limiter.
pub struct Column {
    pub name: String,
    pub column_type: ValueType,
    pub limiter: ValueLimiter,
}

impl View for Column {
    type V = ColumnModel;

    open spec fn view(&self) -> ColumnModel {
        ColumnModel { name: self.name@, column_type: self.column_type, limiter: self.limiter@ }
    }
}

impl Clone for Column {
    /// A clone has the same content.
    fn clone(&self) -> (r: Self)
        ensures
            r@ == self@,
    {
        Column {
            name: self.name.clone(),
            column_type: self.column_type,
            limiter: self.limiter.clone(),
        }
    }
}

/// The value a new cell of this column takes: the limiter's default, else
/// the first variant, else the empty value of the column's type.
pub open spec fn spec_col_default(c: ColumnModel) -> ValueModel {
    if c.limiter.default is Some {
        c.limiter.default->0
    } else if c.limiter.variant is Some && c.limiter.variant->0.len() > 0 {
        c.limiter.variant->0[0]
    } else {
        spec_empty_value(c.column_type)
    }
}

impl Column {
    /// The column's internal consistency: its limiter is consistent.
    pub open spec fn wf(&self) -> bool {
        lim_wf(self@.limiter)
    }

    /// An unconstrained text column with the given name.
    pub fn empty(name: &str) -> (r: Self)
        ensures
            r@.name == name@,
            r@.column_type == ValueType::Text,
            r@.limiter == (LimiterModel {
                value_type: ValueType::Text,
                default: None,
                variant: None,
                pattern: None,
            }),
            r.wf(),
    {
        Self {
            name: name.to_owned(),
            column_type: ValueType::Text,
            limiter: ValueLimiter::default(),
        }
    }

    /// A column with the given name, type and optional limiter.
    pub fn new(name: &str, column_type: ValueType, limiter: Option<ValueLimiter>) -> (r: Self)
        ensures
            r@.name == name@,
            r@.column_type == column_type,
            limiter matches Some(l) ==> r@.limiter == l@,
            limiter is None ==> r@.limiter == (LimiterModel {
                value_type: ValueType::Text,
                default: None,
                variant: None,
                pattern: None,
            }),
            (match limiter {
                Some(l) => lim_wf(l@),
                None => true,
            }) ==> r.wf(),
    {
        Self {
            name: name.to_owned(),
            column_type,
            limiter: match limiter {
                Some(l) => l,
                None => ValueLimiter::default(),
            },
        }
    }

    /// The column's name.
    pub fn get_name(&self) -> (r: &str)
        ensures
            r@ == self@.name,
    {
        self.name.as_str()
    }

    /// The column's declared type.
    pub fn get_column_type(&self) -> (r: &ValueType)
        ensures
            *r == self@.column_type,
    {
        &self.column_type
    }

    /// Rename the column, returning the previous name.
    pub fn rename(&mut self, new_name: &str) -> (r: String)
        ensures
            final(self)@ == (ColumnModel { name: new_name@, ..old(self)@ }),
            r@ == old(self)@.name,
    {
        let previous = self.name.clone();
        self.name = new_name.to_owned();
        previous
    }

    /// Apply a limiter to the column; the column takes the limiter's type.
    pub fn set_limiter(&mut self, limiter: ValueLimiter)
        ensures
            final(self)@ == (ColumnModel {
                column_type: limiter@.value_type,
                limiter: limiter@,
                ..old(self)@
            }),
    {
        self.column_type = limiter.get_type();
        self.limiter = limiter;
    }

    /// The value a new cell of this column takes.
    pub fn get_default_value(&self) -> (r: Value)
        ensures
            r@ == spec_col_default(self@),
    {
        if let Some(def) = self.limiter.get_default() {
            return def.clone();
        }
        if let Some(variants) = self.limiter.get_variant() {
            if variants.len() > 0 {
                let v = variants[0].clone();
                proof {
                    assert(self@.limiter.variant->0[0] == v@);
                }
                return v;
            }
        }
        Value::empty(self.column_type)
    }
}

} // verus!
