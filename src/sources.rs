use vstd::prelude::*;
use vstd::string::StringSliceAdditionalSpecFns;
use vstd::utf8::encode_utf8;

verus! {

/// A reference to a source of a [`Sources`] collection.
#[derive(Debug, PartialEq, Eq, Structural, PartialOrd, Ord, Hash, Clone, Copy)]
pub struct SrcId(pub usize);

impl From<usize> for SrcId {
    fn from(value: usize) -> (r: Self)
        ensures
            r.0 == value,
    {
        SrcId(value)
    }
}

impl vstd::std_specs::convert::FromSpecImpl<usize> for SrcId {
    open spec fn obeys_from_spec() -> bool {
        true
    }

    open spec fn from_spec(v: usize) -> Self {
        SrcId(v)
    }
}

/// A named source text.
pub trait Src {
    /// The name of the source.
    fn name(&self) -> &str;

    /// The bytes of the source.
    fn content(&self) -> &[u8];

    /// The text of the source.
    fn text(&self) -> &str;
}

/// A source given by its name and its text.
pub struct ContentWithName {
    name: String,
    content: String,
}

impl ContentWithName {
    pub closed spec fn name_view(&self) -> Seq<char> {
        self.name@
    }

    pub closed spec fn content_view(&self) -> Seq<char> {
        self.content@
    }
}

impl Src for ContentWithName {
    fn name(&self) -> (r: &str)
        ensures
            r@ == self.name_view(),
    {
        self.name.as_str()
    }

    fn content(&self) -> (r: &[u8])
        ensures
            r@ == encode_utf8(self.content_view()),
    {
        self.content.as_str().as_bytes()
    }

    fn text(&self) -> (r: &str)
        ensures
            r@ == self.content_view(),
    {
        self.content.as_str()
    }
}

/// A source with name `name` and text `content`.
pub fn src(name: &str, content: &str) -> (r: ContentWithName)
    ensures
        r.name_view() == name@,
        r.content_view() == content@,
{
    ContentWithName { name: name.to_owned(), content: content.to_owned() }
}

/// An ordered collection of sources; each gets the next [`SrcId`].
pub struct Sources {
    srcs: Vec<ContentWithName>,
}

impl Sources {
    /// The sources, in the order they were added.
    pub closed spec fn items(&self) -> Seq<ContentWithName> {
        self.srcs@
    }

    /// An empty collection.
    pub fn new() -> (r: Self)
        ensures
            r.items().len() == 0,
    {
        Sources { srcs: Vec::new() }
    }

    /// Adds a source; its id is the number of sources added before it.
    pub fn add(&mut self, src: ContentWithName) -> (r: SrcId)
        ensures
            r.0 == old(self).items().len(),
            final(self).items() == old(self).items().push(src),
    {
        let id = SrcId(self.srcs.len());
        self.srcs.push(src);
        id
    }

    /// The source with id `id`, or `None` if there is none.
    pub fn get(&self, id: SrcId) -> (r: Option<&ContentWithName>)
        ensures
            id.0 < self.items().len() ==> r == Some(&self.items()[id.0 as int]),
            id.0 >= self.items().len() ==> r is None,
    {
        if id.0 < self.srcs.len() {
            Some(&self.srcs[id.0])
        } else {
            None
        }
    }
}

impl Default for Sources {
    fn default() -> (r: Self)
        ensures
            r.items().len() == 0,
    {
        Sources::new()
    }
}

} // verus!
