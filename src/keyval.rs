//! A value slot guarded by an optional validity check.
use vstd::prelude::*;

verus! {

/// A slot that may hold a value, and a check that new values must pass.
pub struct KeyVal<Val, F: Fn(&Val) -> bool> {
    pub val: Option<Val>,
    pub check: Option<F>,
}

impl<Val, F: Fn(&Val) -> bool> KeyVal<Val, F> {
    /// A slot holding `val`.
    pub fn new_with_defaults(val: Val, check: Option<F>) -> (r: Self)
        ensures
            r.val == Some(val),
            r.check == check,
    {
        KeyVal { val: Some(val), check }
    }

    /// An empty slot.
    pub fn new_with_blank(check: Option<F>) -> (r: Self)
        ensures
            r.val is None,
            r.check == check,
    {
        KeyVal { val: None, check }
    }

    /// Hands `val` back if it passes the check (or there is none), and an
    /// error otherwise; the slot itself is left as it is.
    pub fn set(&mut self, val: Val) -> (r: Result<Val, String>)
        requires
            old(self).check matches Some(f) ==> f.requires((&val,)),
        ensures
            *final(self) == *old(self),
            old(self).check is None ==> r == Ok::<Val, String>(val),
            old(self).check matches Some(f) ==> (r is Ok ==> f.ensures((&val,), true)) && (r is Err
                ==> f.ensures((&val,), false)),
            r matches Ok(v) ==> v == val,
            r matches Err(e) ==> e@ == "Invalid value"@,
    {
        if let Some(checker) = &self.check {
            if !checker(&val) {
                return Err("Invalid value".to_owned());
            }
        }
        Ok(val)
    }
}

} // verus!
