use std::rc::Rc;

use vstd::prelude::*;

verus! {

/// A piece of mail text that is not to be encoded any further (an atom, an
/// address): owned, or shared behind a reference count once it is used in
/// several places.
#[derive(Debug, Clone, Hash, Eq)]
pub enum InnerUtf8 {
    Owned(String),
    Shared(Rc<String>),
}

impl View for InnerUtf8 {
    type V = Seq<char>;

    open spec fn view(&self) -> Seq<char> {
        match self {
            InnerUtf8::Owned(text) => text@,
            InnerUtf8::Shared(text) => (**text)@,
        }
    }
}

impl InnerUtf8 {
    pub fn new(data: String) -> (r: InnerUtf8)
        ensures
            r@ == data@,
            r is Owned,
    {
        InnerUtf8::Owned(data)
    }

    /// The same text, from now on shared.
    pub fn into_shared(self) -> (r: InnerUtf8)
        ensures
            r@ == self@,
            r is Shared,
    {
        match self {
            InnerUtf8::Owned(text) => InnerUtf8::Shared(Rc::new(text)),
            shared => shared,
        }
    }

    fn text(&self) -> (r: &String)
        ensures
            r@ == self@,
    {
        match self {
            InnerUtf8::Owned(text) => text,
            InnerUtf8::Shared(text) => &**text,
        }
    }

    pub fn as_str(&self) -> (r: &str)
        ensures
            r@ == self@,
    {
        self.text().as_str()
    }

    /// The text as an owned string, copied where it is shared.
    pub fn into_string(self) -> (r: String)
        ensures
            r@ == self@,
    {
        match self {
            InnerUtf8::Owned(text) => text,
            InnerUtf8::Shared(text) => (*text).clone(),
        }
    }
}

impl PartialEq for InnerUtf8 {
    fn eq(&self, other: &InnerUtf8) -> (r: bool) {
        let same = self.text().eq(other.text());
        same
    }
}

impl vstd::std_specs::cmp::PartialEqSpecImpl for InnerUtf8 {
    open spec fn obeys_eq_spec() -> bool {
        true
    }

    open spec fn eq_spec(&self, other: &InnerUtf8) -> bool {
        self@ == other@
    }
}

/// An [`InnerUtf8`]-like piece of mail text that is ASCII only.
#[derive(Debug, Clone, Hash, Eq)]
pub enum InnerAscii {
    Owned(String),
    Shared(Rc<String>),
}

impl View for InnerAscii {
    type V = Seq<char>;

    open spec fn view(&self) -> Seq<char> {
        match self {
            InnerAscii::Owned(text) => text@,
            InnerAscii::Shared(text) => (**text)@,
        }
    }
}

impl InnerAscii {
    pub fn new(data: String) -> (r: InnerAscii)
        requires
            data.is_ascii(),
        ensures
            r@ == data@,
            r is Owned,
    {
        InnerAscii::Owned(data)
    }

    /// The same text, from now on shared.
    pub fn into_shared(self) -> (r: InnerAscii)
        ensures
            r@ == self@,
            r is Shared,
    {
        match self {
            InnerAscii::Owned(text) => InnerAscii::Shared(Rc::new(text)),
            shared => shared,
        }
    }

    fn text(&self) -> (r: &String)
        ensures
            r@ == self@,
    {
        match self {
            InnerAscii::Owned(text) => text,
            InnerAscii::Shared(text) => &**text,
        }
    }

    pub fn as_str(&self) -> (r: &str)
        ensures
            r@ == self@,
    {
        self.text().as_str()
    }

    /// The text as an owned string, copied where it is shared.
    pub fn into_string(self) -> (r: String)
        ensures
            r@ == self@,
    {
        match self {
            InnerAscii::Owned(text) => text,
            InnerAscii::Shared(text) => (*text).clone(),
        }
    }
}

impl PartialEq for InnerAscii {
    fn eq(&self, other: &InnerAscii) -> (r: bool) {
        let same = self.text().eq(other.text());
        same
    }
}

impl vstd::std_specs::cmp::PartialEqSpecImpl for InnerAscii {
    open spec fn obeys_eq_spec() -> bool {
        true
    }

    open spec fn eq_spec(&self, other: &InnerAscii) -> bool {
        self@ == other@
    }
}

} // verus!
