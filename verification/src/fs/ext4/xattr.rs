//! Extended attributes of a file.
use vstd::prelude::*;
use crate::fs::types::{Errno, SyscallRet};

verus! {

/// Attributes by name, held in a `hashbrown::HashMap`.
#[verifier::external_body]
pub struct Xattrs {
    map: hashbrown::HashMap<String, Vec<u8>>,
}

/// What the map of attributes holds.
pub uninterp spec fn attributes(x: Xattrs) -> Map<Seq<char>, Seq<u8>>;

/// The texts of a list of strings.
pub open spec fn texts(v: Seq<String>) -> Seq<Seq<char>> {
    v.map_values(|s: String| s@)
}

impl Xattrs {
    /// `hashbrown::HashMap::new`: a map that holds nothing.
    #[verifier::external_body]
    pub(crate) fn new() -> (r: Self)
        ensures
            attributes(r).dom() == Set::<Seq<char>>::empty(),
    {
        Xattrs { map: hashbrown::HashMap::new() }
    }

    /// `hashbrown::HashMap::contains_key`: whether the map has this key.
    #[verifier::external_body]
    pub(crate) fn contains_key(&self, key: &str) -> (r: bool)
        ensures
            r == attributes(*self).contains_key(key@),
    {
        self.map.contains_key(key)
    }

    /// `hashbrown::HashMap::insert`: the key now has this value and no other.
    #[verifier::external_body]
    pub(crate) fn insert(&mut self, key: String, value: Vec<u8>)
        ensures
            attributes(*final(self)) == attributes(*old(self)).insert(key@, value@),
    {
        self.map.insert(key, value);
    }

    /// `hashbrown::HashMap::get`: a copy of the key's value, if it has one.
    #[verifier::external_body]
    pub(crate) fn get(&self, key: &str) -> (r: Option<Vec<u8>>)
        ensures
            match r {
                Some(v) => attributes(*self).contains_key(key@) && attributes(*self)[key@] == v@,
                None => !attributes(*self).contains_key(key@),
            },
    {
        self.map.get(key).cloned()
    }

    /// `hashbrown::HashMap::remove`: takes the key out and returns its value, if
    /// it had one.
    #[verifier::external_body]
    pub(crate) fn remove(&mut self, key: &str) -> (r: Option<Vec<u8>>)
        ensures
            attributes(*final(self)) == attributes(*old(self)).remove(key@),
            match r {
                Some(v) => attributes(*old(self)).contains_key(key@) && attributes(
                    *old(self),
                )[key@] == v@,
                None => !attributes(*old(self)).contains_key(key@),
            },
    {
        self.map.remove(key)
    }

    /// `hashbrown::HashMap::keys`: every key once; nothing is said of the order.
    #[verifier::external_body]
    pub(crate) fn keys(&self) -> (r: Vec<String>)
        ensures
            texts(r@).no_duplicates(),
            forall|k: Seq<char>|
                texts(r@).contains(k) <==> #[trigger] attributes(*self).contains_key(k),
    {
        self.map.keys().cloned().collect()
    }
}

/// How an attribute may be set.
#[derive(Debug, Clone, Copy, PartialEq, Eq, Structural)]
pub struct SetXattrFlags(pub u32);

impl SetXattrFlags {
    /// Only a new attribute.
    #[allow(non_snake_case)]
    #[verifier::allow_in_spec]
    pub fn CREATE() -> Self
        returns
            (SetXattrFlags(0x01)),
    {
        SetXattrFlags(0x01)
    }

    /// Only an attribute that exists.
    #[allow(non_snake_case)]
    #[verifier::allow_in_spec]
    pub fn REPLACE() -> Self
        returns
            (SetXattrFlags(0x02)),
    {
        SetXattrFlags(0x02)
    }
}

/// What setting an attribute is answered.
pub open spec fn set_answer(exists: bool, flags: SetXattrFlags) -> SyscallRet {
    if exists && flags == SetXattrFlags::CREATE() {
        Err(Errno::EEXIST)
    } else if !exists && flags == SetXattrFlags::REPLACE() {
        Err(Errno::EINVAL)
    } else {
        Ok(0)
    }
}

/// The attributes after one was to be set.
pub open spec fn attributes_set(
    m: Map<Seq<char>, Seq<u8>>,
    key: Seq<char>,
    value: Seq<u8>,
    flags: SetXattrFlags,
) -> Map<Seq<char>, Seq<u8>> {
    if set_answer(m.contains_key(key), flags) is Ok {
        m.insert(key, value)
    } else {
        m
    }
}

/// An attribute that was set has its value until it is removed; no other
/// attribute changes, and a refused request changes nothing.
pub proof fn law_set_attribute_is_kept(
    m: Map<Seq<char>, Seq<u8>>,
    key: Seq<char>,
    value: Seq<u8>,
    flags: SetXattrFlags,
    other: Seq<char>,
)
    ensures
        ({
            let after = attributes_set(m, key, value, flags);
            let ok = set_answer(m.contains_key(key), flags) is Ok;
            &&& ok ==> after.contains_key(key) && after[key] == value
            &&& !ok ==> after == m
            &&& other != key ==> after.contains_key(other) == m.contains_key(other) && (
            m.contains_key(other) ==> after[other] == m[other])
            &&& !after.remove(key).contains_key(key)
            &&& !m.contains_key(key) && ok ==> after.remove(key) == m
        }),
{
    if !m.contains_key(key) {
        assert(m.insert(key, value).remove(key) =~= m);
    }
}

impl Xattrs {
    /// Set an attribute.
    pub fn setxattr(&mut self, key: String, value: Vec<u8>, flags: &SetXattrFlags) -> (r: SyscallRet)
        ensures
            r == set_answer(attributes(*old(self)).contains_key(key@), *flags),
            attributes(*final(self)) == attributes_set(
                attributes(*old(self)),
                key@,
                value@,
                *flags,
            ),
    {
        let exists: bool = self.contains_key(key.as_str());
        if exists && *flags == SetXattrFlags::CREATE() {
            return Err(Errno::EEXIST);
        }
        if !exists && *flags == SetXattrFlags::REPLACE() {
            return Err(Errno::EINVAL);
        }
        self.insert(key, value);
        Ok(0)
    }

    /// The value of an attribute.
    pub fn getxattr(&self, key: &str) -> (r: Result<Vec<u8>, Errno>)
        ensures
            match r {
                Ok(v) => attributes(*self).contains_key(key@) && attributes(*self)[key@] == v@,
                Err(e) => !attributes(*self).contains_key(key@) && e == Errno::EINVAL,
            },
    {
        match self.get(key) {
            Some(v) => Ok(v),
            None => Err(Errno::EINVAL),
        }
    }

    /// The names of all attributes, in no particular order.
    pub fn listxattr(&self) -> (r: Result<Vec<String>, Errno>)
        ensures
            r is Ok,
            texts(r->Ok_0@).no_duplicates(),
            forall|k: Seq<char>|
                texts(r->Ok_0@).contains(k) <==> #[trigger] attributes(*self).contains_key(k),
    {
        Ok(self.keys())
    }

    /// Remove an attribute.
    pub fn removexattr(&mut self, key: &str) -> (r: SyscallRet)
        ensures
            attributes(*final(self)) == attributes(*old(self)).remove(key@),
            r == (if attributes(*old(self)).contains_key(key@) {
                Ok::<usize, Errno>(0)
            } else {
                Err(Errno::EINVAL)
            }),
    {
        match self.remove(key) {
            Some(_) => Ok(0),
            None => Err(Errno::EINVAL),
        }
    }
}

} // verus!
