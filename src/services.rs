use vstd::prelude::*;
use crate::sync::copy_strings;

verus! {

/// The kinds of view that a rendering front end can show over the store.
#[derive(Clone, Copy, Debug, PartialEq, Eq, Structural)]
pub enum CursedWidget {
    Latest,
    Plot,
}

/// Serves the list of topics that a client may subscribe to.
#[derive(Clone, Debug, PartialEq)]
pub struct TopicServiceImpl {
    pub topics: Vec<String>,
}

impl TopicServiceImpl {
    /// A service offering `topics`.
    pub fn new(topics: Vec<String>) -> (r: TopicServiceImpl)
        ensures
            r.topics@ == topics@,
    {
        TopicServiceImpl { topics }
    }

    /// The topics offered, in order.
    pub fn request_topic_list(&self) -> (r: Vec<String>)
        ensures
            r@ == self.topics@,
    {
        copy_strings(&self.topics)
    }
}

} // verus!
