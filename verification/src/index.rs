use vstd::prelude::*;
use std::borrow::Cow;
use vstd::std_specs::convert::FromSpecImpl;
use vstd::string::StringSliceAdditionalSpecFns;
use vstd::utf8::encode_utf8;
use crate::model::Key;
use crate::util::Name;

verus! {

/// An index into a table: the canonical path of a resource, or its hash.
#[derive(Debug)]
pub enum TableIndex<'a> {
    HashIndex(u32),
    StringIndex(Cow<'a, str>),
}

/// The string of a path, borrowed or owned.
pub fn path_str<'b>(path: &'b Cow<'_, str>) -> (s: &'b str)
    ensures
        s@ == path@,
{
    match path {
        Cow::Borrowed(borrowed) => borrowed,
        Cow::Owned(owned) => owned.as_str(),
    }
}

impl<'a> TableIndex<'a> {
    /// The key that the index stands for.
    pub open spec fn key(self) -> Key {
        match self {
            TableIndex::HashIndex(hash) => Key::Hash(hash),
            TableIndex::StringIndex(path) => Key::Path(encode_utf8(path@)),
        }
    }

    /// The path of the index, if it holds one.
    pub fn path(&self) -> (r: Option<&str>)
        ensures
            match self.key() {
                Key::Hash(_) => r is None,
                Key::Path(bytes) => r is Some && r->Some_0.spec_bytes() == bytes,
            },
    {
        match self {
            TableIndex::HashIndex(_) => None,
            TableIndex::StringIndex(path) => Some(path_str(path)),
        }
    }
}

impl<'a> From<u32> for TableIndex<'a> {
    fn from(value: u32) -> (r: Self) {
        TableIndex::HashIndex(value)
    }
}

impl<'a> FromSpecImpl<u32> for TableIndex<'a> {
    open spec fn obeys_from_spec() -> bool {
        true
    }

    open spec fn from_spec(value: u32) -> Self {
        TableIndex::HashIndex(value)
    }
}

impl<'a> From<&'a str> for TableIndex<'a> {
    fn from(value: &'a str) -> (r: Self) {
        TableIndex::StringIndex(Cow::Borrowed(value))
    }
}

impl<'a> FromSpecImpl<&'a str> for TableIndex<'a> {
    open spec fn obeys_from_spec() -> bool {
        true
    }

    open spec fn from_spec(value: &'a str) -> Self {
        TableIndex::StringIndex(Cow::Borrowed(value))
    }
}

impl<'a> From<String> for TableIndex<'a> {
    fn from(value: String) -> (r: Self) {
        TableIndex::StringIndex(Cow::Owned(value))
    }
}

impl<'a> FromSpecImpl<String> for TableIndex<'a> {
    open spec fn obeys_from_spec() -> bool {
        true
    }

    open spec fn from_spec(value: String) -> Self {
        TableIndex::StringIndex(Cow::Owned(value))
    }
}

impl<'a> From<&'a Name> for TableIndex<'a> {
    fn from(value: &'a Name) -> (r: Self)
        ensures
            r.key() == Key::Path(value@),
    {
        TableIndex::StringIndex(Cow::Borrowed(value.as_str()))
    }
}

impl<'a> FromSpecImpl<&'a Name> for TableIndex<'a> {
    /// The string that the name is read as has the name's bytes, and that
    /// is all that is known of it: the conversion promises the key only.
    open spec fn obeys_from_spec() -> bool {
        false
    }

    open spec fn from_spec(value: &'a Name) -> Self {
        choose|index: TableIndex<'a>| index.key() == Key::Path(value@)
    }
}

impl<'a> From<Name> for TableIndex<'a> {
    fn from(value: Name) -> (r: Self)
        ensures
            r.key() == Key::Path(value@),
    {
        TableIndex::StringIndex(Cow::Owned(value.as_str().to_owned()))
    }
}

impl<'a> FromSpecImpl<Name> for TableIndex<'a> {
    /// As for a borrowed name: the conversion promises the key only.
    open spec fn obeys_from_spec() -> bool {
        false
    }

    open spec fn from_spec(value: Name) -> Self {
        choose|index: TableIndex<'a>| index.key() == Key::Path(value@)
    }
}

} // verus!
