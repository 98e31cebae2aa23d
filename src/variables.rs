use crate::value::Value;
use std::collections::HashMap;
use vstd::prelude::*;
use vstd::std_specs::hash::group_hash_axioms;

verus! {

/// Named bindings from a single-letter name to a value.
///
/// The bindings are held in a `HashMap` keyed by each name's code point,
/// a key type for which vstd specifies hash maps; the view is keyed by the
/// names themselves.
#[derive(Debug, Clone)]
pub struct Variables {
    entries: HashMap<u32, Value>,
}

impl View for Variables {
    type V = Map<char, Value>;

    closed spec fn view(&self) -> Map<char, Value> {
        Map::new(
            |k: char| self.entries@.contains_key(k as u32),
            |k: char| self.entries@[k as u32],
        )
    }
}

impl Variables {
    /// No bindings at all.
    pub fn new() -> (r: Variables)
        ensures
            r@ == Map::<char, Value>::empty(),
    {
        let r = Variables { entries: HashMap::new() };
        assert(r@ =~= Map::<char, Value>::empty());
        r
    }

    /// Binds `key` to `val`, replacing an earlier binding of `key`.
    pub fn insert(&mut self, key: char, val: Value)
        ensures
            final(self)@ == old(self)@.insert(key, val),
    {
        broadcast use group_hash_axioms;

        self.entries.insert(key as u32, val);
        assert forall|c: char| #[trigger] self@.contains_key(c) == old(self)@.insert(
            key,
            val,
        ).contains_key(c) by {
            vstd::utf8::char_u32_cast(c, c as u32);
            vstd::utf8::char_u32_cast(key, key as u32);
        }
        assert forall|c: char| #[trigger] self@.contains_key(c) implies self@[c] == old(
            self,
        )@.insert(key, val)[c] by {
            vstd::utf8::char_u32_cast(c, c as u32);
            vstd::utf8::char_u32_cast(key, key as u32);
        }
        assert(self@ =~= old(self)@.insert(key, val));
    }

    /// The value bound to `key`, if any.
    pub fn get(&self, key: char) -> (r: Option<&Value>)
        ensures
            r is Some <==> self@.contains_key(key),
            r is Some ==> *r->Some_0 == self@[key],
    {
        broadcast use group_hash_axioms;

        let k: u32 = key as u32;
        self.entries.get(&k)
    }
}

} // verus!
