//! The choices that a caller makes about the language.

use crate::env::{installed, RispEnv};
use crate::value::Builtin;
use vstd::prelude::*;

verus! {

/// Which literals the parser knows and which builtins the environment binds.
pub struct Config {
    /// Whether the tokens `true` and `false` are truth values. Where they are
    /// not, they are symbols like any other word.
    pub boolean_literals: bool,
    /// The builtins to bind; how often and in which order one is listed does
    /// not matter.
    pub builtins: Vec<Builtin>,
}

impl Config {
    /// Truth values and every builtin.
    pub fn full() -> (c: Config)
        ensures
            c.boolean_literals,
            c.builtins@.to_set() == Set::<Builtin>::full(),
    {
        let builtins = Builtin::all();
        proof {
            assert(builtins@.to_set() =~= Set::<Builtin>::full());
        }
        Config { boolean_literals: true, builtins }
    }

    /// Numbers and symbols only, with addition and subtraction.
    pub fn arithmetic() -> (c: Config)
        ensures
            !c.boolean_literals,
            c.builtins@.to_set() == set![Builtin::Plus, Builtin::Minus],
    {
        let builtins = vec![Builtin::Plus, Builtin::Minus];
        proof {
            assert(builtins@[0] == Builtin::Plus);
            assert(builtins@[1] == Builtin::Minus);
            assert(builtins@.to_set() =~= set![Builtin::Plus, Builtin::Minus]);
        }
        Config { boolean_literals: false, builtins }
    }

    /// The environment that binds the builtins of this configuration.
    pub fn environment(&self) -> (env: RispEnv)
        ensures
            env@ == installed(self.builtins@.to_set()),
    {
        RispEnv::with_builtins(&self.builtins)
    }
}

} // verus!
