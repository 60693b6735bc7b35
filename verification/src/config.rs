//! A plain, self-contained model of configuration data.
//!
//! Pipeline stages are chosen at run time from serialized
//! configuration: each stage is a name together with a key-value
//! argument set.  `ConfigValue` holds such argument sets as plain
//! values, so that every rule that interprets a configuration can be
//! verified.  A host binding converts its own dynamic values into
//! this shape at the boundary.

use vstd::prelude::*;

verus! {

use crate::text::str_eq;

/// A JSON-like configuration value: a scalar, an ordered list, or an
/// ordered association list of string keys.
///
/// Objects keep their insertion order; a key lookup returns the first
/// binding of the key.
#[derive(Debug)]
pub enum ConfigValue {
    Null,
    Bool(bool),
    Int(i64),
    Str(String),
    Arr(Vec<ConfigValue>),
    Obj(Vec<(String, ConfigValue)>),
}

impl ConfigValue {
    /// The index of the first binding of `key` at or after position
    /// `i` in the object pairs `pairs`, or the length of `pairs`
    /// when the key is absent there.
    pub open spec fn spec_find_from(
        pairs: Seq<(String, ConfigValue)>,
        key: Seq<char>,
        i: int,
    ) -> int
        decreases pairs.len() - i,
    {
        if i < 0 || i >= pairs.len() {
            pairs.len() as int
        } else if pairs[i].0@ == key {
            i
        } else {
            Self::spec_find_from(pairs, key, i + 1)
        }
    }

    /// The value bound to `key` in this object, if this is an object
    /// and the key is present.
    pub open spec fn spec_get(self, key: Seq<char>) -> Option<ConfigValue> {
        match self {
            ConfigValue::Obj(pairs) => {
                let i = Self::spec_find_from(pairs@, key, 0);
                if i < pairs@.len() {
                    Some(pairs@[i].1)
                } else {
                    None
                }
            },
            _ => None,
        }
    }

    /// Looks `key` up in this value: the first binding when this is
    /// an object holding the key, `None` otherwise.
    #[verifier::loop_isolation(false)]
    pub fn get<'a>(&'a self, key: &str) -> (r: Option<&'a ConfigValue>)
        ensures
            match r {
                Some(v) => self.spec_get(key@) == Some(*v),
                None => self.spec_get(key@) is None,
            },
    {
        match self {
            ConfigValue::Obj(pairs) => {
                let n = pairs.len();
                let mut i: usize = 0;
                while i < n
                    invariant
                        n == pairs@.len(),
                        i <= n,
                        Self::spec_find_from(pairs@, key@, 0) == Self::spec_find_from(
                            pairs@,
                            key@,
                            i as int,
                        ),
                    decreases n - i,
                {
                    if str_eq(pairs[i].0.as_str(), key) {
                        assert(Self::spec_find_from(pairs@, key@, i as int) == i as int);
                        assert(self.spec_get(key@) == Some(pairs@[i as int].1));
                        return Some(&pairs[i].1);
                    }
                    i = i + 1;
                }
                None
            },
            _ => None,
        }
    }

    /// This value as a string, if it is one.
    pub fn as_str<'a>(&'a self) -> (r: Option<&'a String>)
        ensures
            match r {
                Some(s) => self matches ConfigValue::Str(t) && t == s,
                None => !(self matches ConfigValue::Str(_)),
            },
    {
        match self {
            ConfigValue::Str(s) => Some(s),
            _ => None,
        }
    }

    /// This value as an integer, if it is one.
    pub fn as_int(&self) -> (r: Option<i64>)
        ensures
            match r {
                Some(n) => self matches ConfigValue::Int(m) && m == n,
                None => !(self matches ConfigValue::Int(_)),
            },
    {
        match self {
            ConfigValue::Int(n) => Some(*n),
            _ => None,
        }
    }

    /// This value as an object's pair list, if this is an object.
    pub fn as_obj<'a>(&'a self) -> (r: Option<&'a Vec<(String, ConfigValue)>>)
        ensures
            match r {
                Some(entries) => self matches ConfigValue::Obj(e) && e == entries,
                None => !(self matches ConfigValue::Obj(_)),
            },
    {
        match self {
            ConfigValue::Obj(entries) => Some(entries),
            _ => None,
        }
    }

    /// This value as a boolean, if it is one.
    pub fn as_bool(&self) -> (r: Option<bool>)
        ensures
            match r {
                Some(b) => self matches ConfigValue::Bool(c) && c == b,
                None => !(self matches ConfigValue::Bool(_)),
            },
    {
        match self {
            ConfigValue::Bool(b) => Some(*b),
            _ => None,
        }
    }
}

} // verus!
