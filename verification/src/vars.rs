//! The variables of a shell session.

use vstd::hash_map::StringHashMap;
use vstd::prelude::*;
use vstd::string::*;

verus! {

/// The values of variables by name.
pub type VarMap = Map<Seq<char>, Seq<char>>;

/// What a variable reads as. One that was never set reads as the empty text.
pub open spec fn var_value(vars: VarMap, key: Seq<char>) -> Seq<char> {
    if vars.contains_key(key) {
        vars[key]
    } else {
        Seq::empty()
    }
}

/// The variables that assignments have set in this session.
pub struct ShellVars {
    entries: StringHashMap<String>,
}

impl View for ShellVars {
    type V = VarMap;

    closed spec fn view(&self) -> VarMap {
        Map::new(|k: Seq<char>| self.entries@.contains_key(k), |k: Seq<char>| self.entries@[k]@)
    }
}

impl ShellVars {
    /// No variable is set.
    pub fn new() -> (r: Self)
        ensures
            r@ == VarMap::empty(),
    {
        let r = ShellVars { entries: StringHashMap::new() };
        assert(r@ =~= VarMap::empty());
        r
    }

    /// The value of `key`, or the empty text where it was never set.
    pub fn get_env_var(&self, key: &str) -> (r: String)
        ensures
            r@ == var_value(self@, key@),
    {
        match self.entries.get(key) {
            Some(v) => v.clone(),
            None => String::new(),
        }
    }

    /// Sets `key` to `val` and leaves every other variable as it is.
    pub fn put_env_var(&mut self, key: String, val: String)
        ensures
            final(self)@ == old(self)@.insert(key@, val@),
    {
        self.entries.insert(key, val);
        assert(self@ =~= old(self)@.insert(key@, val@));
    }
}

} // verus!
