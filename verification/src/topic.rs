//! Topics that messages are published to and that peers subscribe to.
use vstd::prelude::*;
use vstd::std_specs::cmp::PartialEqSpecImpl;

verus! {

/// A topic, named by a string.
#[derive(Debug, Clone, Hash)]
pub struct Topic(String);

impl View for Topic {
    type V = Seq<char>;

    closed spec fn view(&self) -> Seq<char> {
        self.0@
    }
}

impl Topic {
    /// Returns the id of the topic.
    pub fn id(&self) -> (r: &str)
        ensures
            r@ == self@,
    {
        self.0.as_str()
    }

    /// The topic with id `name`.
    pub fn new(name: String) -> (r: Topic)
        ensures
            r@ == name@,
    {
        Topic(name)
    }

    /// The id of the topic, as an owned string.
    pub fn into_string(self) -> (r: String)
        ensures
            r@ == self@,
    {
        self.0
    }

    /// A copy of the topic.
    pub fn duplicate(&self) -> (r: Topic)
        ensures
            r@ == self@,
    {
        Topic(self.0.clone())
    }

    /// Whether both topics have the same id.
    pub fn same(&self, other: &Topic) -> (r: bool)
        ensures
            r == (self@ == other@),
    {
        self.0 == other.0
    }
}

impl PartialEq for Topic {
    fn eq(&self, other: &Topic) -> (r: bool) {
        self.0 == other.0
    }
}

impl PartialEqSpecImpl for Topic {
    open spec fn obeys_eq_spec() -> bool {
        true
    }

    open spec fn eq_spec(&self, other: &Topic) -> bool {
        self@ == other@
    }
}

impl From<Topic> for String {
    fn from(topic: Topic) -> (r: String) {
        topic.0
    }
}

impl vstd::std_specs::convert::FromSpecImpl<Topic> for String {
    open spec fn obeys_from_spec() -> bool {
        true
    }

    closed spec fn from_spec(v: Topic) -> String {
        v.0
    }
}

impl Eq for Topic {

}

impl std::str::FromStr for Topic {
    type Err = ();

    fn from_str(s: &str) -> (r: Result<Topic, ()>)
        ensures
            r matches Ok(t) && t@ == s@,
    {
        Ok(Topic::new(s.to_owned()))
    }
}

} // verus!
