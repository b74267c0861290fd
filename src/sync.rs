use vstd::prelude::*;
use crate::store::{DataStore, Entry, ascending, entries_map, in_range};
use crate::value::ValueModel;

verus! {

/// A client's request for the series of some topics, optionally restricted to
/// an inclusive time range.
#[derive(Clone, Debug, PartialEq)]
pub struct SyncRequest {
    pub topics: Vec<String>,
    pub range: Option<(u64, u64)>,
}

/// The data of one topic, ascending by time.
#[derive(Clone, Debug, PartialEq)]
pub struct SyncUpdate {
    pub topic: String,
    pub data: Vec<Entry>,
}

/// A message of the sync protocol.
#[derive(Clone, Debug, PartialEq)]
pub enum SyncMessage {
    Request(SyncRequest),
    Update(SyncUpdate),
}

/// Topic names as their characters.
pub open spec fn topics_model(v: Seq<String>) -> Seq<Seq<char>> {
    v.map_values(|s: String| s@)
}

/// The series of `k` that a reply carries: whole, or restricted to the range.
pub open spec fn series_for(
    store: Map<Seq<char>, Map<u64, ValueModel>>,
    k: Seq<char>,
    range: Option<(u64, u64)>,
) -> Map<u64, ValueModel> {
    match range {
        Some((a, b)) => in_range(store[k], a, b),
        None => store[k],
    }
}

/// The updates that answer a request for `topics`: one per requested topic
/// that the store knows, in request order; unknown topics are left out.
pub open spec fn answered(
    store: Map<Seq<char>, Map<u64, ValueModel>>,
    topics: Seq<Seq<char>>,
    range: Option<(u64, u64)>,
) -> Seq<(Seq<char>, Map<u64, ValueModel>)>
    decreases topics.len(),
{
    if topics.len() == 0 {
        Seq::empty()
    } else {
        let prev = answered(store, topics.drop_last(), range);
        let k = topics.last();
        if store.contains_key(k) {
            prev.push((k, series_for(store, k, range)))
        } else {
            prev
        }
    }
}

/// The reply `r` carries exactly the updates `want`, in order.
pub open spec fn reply_matches(r: Seq<SyncMessage>, want: Seq<(Seq<char>, Map<u64, ValueModel>)>) -> bool {
    &&& r.len() == want.len()
    &&& forall|i: int|
        0 <= i < r.len() ==> (#[trigger] r[i] matches SyncMessage::Update(u) && u.topic@ == want[i].0
            && ascending(u.data@) && entries_map(u.data@) == want[i].1)
}

pub(crate) fn copy_strings(v: &Vec<String>) -> (r: Vec<String>)
    ensures
        r@ == v@,
{
    let mut r: Vec<String> = Vec::new();
    let mut i: usize = 0;
    while i < v.len()
        invariant
            i <= v@.len(),
            r@ == v@.subrange(0, i as int),
        decreases v.len() - i,
    {
        r.push(v[i].clone());
        i += 1;
        assert(r@ =~= v@.subrange(0, i as int));
    }
    assert(v@.subrange(0, v@.len() as int) =~= v@);
    r
}

fn copy_entries(v: &Vec<Entry>) -> (r: Vec<Entry>)
    ensures
        r@.len() == v@.len(),
        forall|i: int| 0 <= i < v@.len() ==> (#[trigger] r@[i]).time == v@[i].time && r@[i].value@ == v@[i].value@,
{
    let mut r: Vec<Entry> = Vec::new();
    let mut i: usize = 0;
    while i < v.len()
        invariant
            i <= v@.len(),
            r@.len() == i,
            forall|q: int| 0 <= q < i ==> (#[trigger] r@[q]).time == v@[q].time && r@[q].value@ == v@[q].value@,
        decreases v.len() - i,
    {
        r.push(v[i].copy());
        i += 1;
    }
    r
}

impl SyncRequest {
    /// A request for `topics`, optionally within an inclusive time range.
    pub fn new(topics: Vec<String>, range: Option<(u64, u64)>) -> (r: SyncRequest)
        ensures
            r.topics@ == topics@,
            r.range == range,
    {
        SyncRequest { topics, range }
    }

    /// This request as a protocol message.
    pub fn message(&self) -> (r: SyncMessage)
        ensures
            r matches SyncMessage::Request(q) && q.topics@ == self.topics@ && q.range == self.range,
    {
        SyncMessage::Request(SyncRequest { topics: copy_strings(&self.topics), range: self.range })
    }
}

impl SyncUpdate {
    /// An update carrying `data` for `topic`.
    pub fn new(topic: String, data: Vec<Entry>) -> (r: SyncUpdate)
        ensures
            r.topic@ == topic@,
            r.data@ == data@,
    {
        SyncUpdate { topic, data }
    }

    /// This update as a protocol message, with the same topic and entries.
    pub fn message(&self) -> (r: SyncMessage)
        ensures
            r matches SyncMessage::Update(u) && u.topic@ == self.topic@ && u.data@.len() == self.data@.len()
                && forall|i: int|
                0 <= i < self.data@.len() ==> (#[trigger] u.data@[i]).time == self.data@[i].time
                    && u.data@[i].value@ == self.data@[i].value@,
    {
        SyncMessage::Update(SyncUpdate { topic: self.topic.clone(), data: copy_entries(&self.data) })
    }
}

/// Answers a request from the store: one update per requested topic that the
/// store knows, in request order, holding its whole series or the part inside
/// the requested range. Unknown topics are left out.
pub fn handle_sync_request(request: &SyncRequest, store: &DataStore) -> (r: Vec<SyncMessage>)
    requires
        store.wf(),
    ensures
        reply_matches(r@, answered(store@, topics_model(request.topics@), request.range)),
{
    let ghost ks = topics_model(request.topics@);
    let mut r: Vec<SyncMessage> = Vec::new();
    let mut i: usize = 0;
    while i < request.topics.len()
        invariant
            i <= request.topics@.len(),
            store.wf(),
            ks == topics_model(request.topics@),
            reply_matches(r@, answered(store@, ks.subrange(0, i as int), request.range)),
        decreases request.topics.len() - i,
    {
        let key = &request.topics[i];
        let ghost sub = ks.subrange(0, i + 1);
        proof {
            assert(sub.drop_last() =~= ks.subrange(0, i as int));
            assert(sub.last() == key@);
        }
        let known = match store.get_data(key) {
            Some(_) => true,
            None => false,
        };
        if known {
            let data = match request.range {
                Some((a, b)) => store.range_query(key, a, b),
                None => {
                    let d = store.range_query(key, 0, u64::MAX);
                    assert(in_range(store@[key@], 0, u64::MAX) =~= store@[key@]);
                    d
                },
            };
            let ghost before = r@;
            r.push(SyncMessage::Update(SyncUpdate { topic: key.clone(), data }));
            proof {
                let want = answered(store@, sub, request.range);
                assert forall|q: int| 0 <= q < r@.len() implies (#[trigger] r@[q] matches SyncMessage::Update(u)
                    && u.topic@ == want[q].0 && ascending(u.data@) && entries_map(u.data@) == want[q].1) by {
                    if q < before.len() {
                        assert(r@[q] == before[q]);
                    }
                }
            }
        }
        i += 1;
    }
    assert(ks.subrange(0, request.topics@.len() as int) =~= ks);
    r
}

/// Whether a sync connection still serves requests.
#[derive(Clone, Copy, Debug, PartialEq, Eq, Structural)]
pub enum ConnectionState {
    Open,
    Closed,
}

/// What reaches a sync connection: a decoded message, a frame that did not
/// decode, a transport failure, or the peer closing.
#[derive(Clone, Debug, PartialEq)]
pub enum InboundEvent {
    Message(SyncMessage),
    Malformed,
    TransportError,
    PeerClosed,
}

/// What the connection does next.
#[derive(Clone, Debug, PartialEq)]
pub enum ConnectionAction {
    /// Send these updates as one reply frame.
    Respond(Vec<SyncMessage>),
    /// Log the frame and drop it; the connection stays open.
    Discard,
    /// Close the connection.
    Close,
    /// Nothing: the connection is already closed.
    Idle,
}

/// One step of a sync connection. An open connection answers a request and
/// stays open, drops a malformed frame and stays open, and closes on a
/// transport failure, on the peer closing, or on an update sent by the client.
/// A closed connection stays closed and does nothing.
pub fn on_event(state: ConnectionState, event: InboundEvent, store: &DataStore) -> (r: (
    ConnectionState,
    ConnectionAction,
))
    requires
        store.wf(),
    ensures
        state == ConnectionState::Closed ==> r.0 == ConnectionState::Closed && r.1 is Idle,
        state == ConnectionState::Open ==> match event {
            InboundEvent::Message(SyncMessage::Request(q)) => r.0 == ConnectionState::Open && (
            r.1 matches ConnectionAction::Respond(reply) && reply_matches(
                reply@,
                answered(store@, topics_model(q.topics@), q.range),
            )),
            InboundEvent::Malformed => r.0 == ConnectionState::Open && r.1 is Discard,
            _ => r.0 == ConnectionState::Closed && r.1 is Close,
        },
{
    match state {
        ConnectionState::Closed => (ConnectionState::Closed, ConnectionAction::Idle),
        ConnectionState::Open => match event {
            InboundEvent::Message(SyncMessage::Request(q)) => {
                let reply = handle_sync_request(&q, store);
                (ConnectionState::Open, ConnectionAction::Respond(reply))
            },
            InboundEvent::Malformed => (ConnectionState::Open, ConnectionAction::Discard),
            _ => (ConnectionState::Closed, ConnectionAction::Close),
        },
    }
}

} // verus!
