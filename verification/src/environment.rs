//! The environment variables that paths may refer to.

use crate::assoc::Assoc;
use vstd::prelude::*;
use vstd::string::StringExecFns;

verus! {

/// What an environment defines: the value of each variable.
pub type Variables = Map<Seq<char>, Seq<char>>;

/// A set of environment variables, each with its value.
///
/// The library never looks at the environment of the process: the caller
/// hands in the variables that references are resolved against.
#[derive(Debug)]
pub struct Environment {
    vars: Assoc<String>,
}

impl View for Environment {
    type V = Variables;

    /// The variables as a map from each name to its value.
    closed spec fn view(&self) -> Variables {
        self.vars@.map_values(|value: String| value@)
    }
}

impl Clone for Environment {
    /// An environment that defines the same.
    fn clone(&self) -> (copy: Self)
        ensures
            copy@ == self@,
    {
        let copy = Environment { vars: self.vars.clone() };
        assert(copy@ =~= self@);
        copy
    }
}

impl Environment {
    /// An environment in which no variable is defined.
    pub fn new() -> (env: Self)
        ensures
            env@ == Map::<Seq<char>, Seq<char>>::empty(),
    {
        let env = Environment { vars: Assoc::new() };
        assert(env@ =~= Map::<Seq<char>, Seq<char>>::empty());
        env
    }

    /// Defines the variable `name` as `value`, in place of any earlier
    /// definition.
    pub fn set(&mut self, name: &str, value: &str)
        ensures
            final(self)@ == old(self)@.insert(name@, value@),
    {
        self.vars.insert(String::from_str(name), String::from_str(value));
        assert(self@ =~= old(self)@.insert(name@, value@));
    }

    /// The value of the variable `name`, if it is defined.
    pub fn get(&self, name: &str) -> (value: Option<&str>)
        ensures
            match value {
                Some(v) => self@.contains_key(name@) && v@ == self@[name@],
                None => !self@.contains_key(name@),
            },
    {
        match self.vars.get(name) {
            Some(value) => Some(value.as_str()),
            None => None,
        }
    }
}

} // verus!
