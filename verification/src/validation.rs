use vstd::prelude::*;

use crate::tasks::{CreateTask, UpdateTask};
use vstd::string::StrSliceExecFns;

verus! {

/// The bounds a task text must meet: one to a hundred characters.
pub open spec fn text_len_ok(text: Seq<char>) -> bool {
    1 <= text.len() <= 100
}

/// A payload that checks its own fields before any store operation runs.
pub trait Validate: Sized {
    spec fn valid(&self) -> bool;

    fn validate(&self) -> (r: bool)
        ensures
            r == self.valid(),
    ;
}

impl Validate for CreateTask {
    open spec fn valid(&self) -> bool {
        text_len_ok(self.text@)
    }

    fn validate(&self) -> (r: bool) {
        let n = self.text.as_str().unicode_len();
        1 <= n && n <= 100
    }
}

impl Validate for UpdateTask {
    open spec fn valid(&self) -> bool {
        match self.text {
            Some(ref t) => text_len_ok(t@),
            None => true,
        }
    }

    fn validate(&self) -> (r: bool) {
        match &self.text {
            Some(t) => {
                let n = t.as_str().unicode_len();
                1 <= n && n <= 100
            },
            None => true,
        }
    }
}

/// A payload that passed validation: callers obtain one only through
/// `new`, which checks.
#[derive(Debug)]
pub struct ValidatedJson<T>(pub T);

impl<T: Validate> ValidatedJson<T> {
    /// Wraps a valid payload; hands an invalid one back unchanged.
    pub fn new(value: T) -> (r: Result<ValidatedJson<T>, T>)
        ensures
            match r {
                Ok(w) => value.valid() && w.0 == value,
                Err(v) => !value.valid() && v == value,
            },
    {
        if value.validate() {
            Ok(ValidatedJson(value))
        } else {
            Err(value)
        }
    }
}

} // verus!
