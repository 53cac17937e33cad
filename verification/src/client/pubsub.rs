//! Pub/sub on the node of the application itself.

use bytes::Bytes;
use vstd::prelude::*;
use vstd::string::*;
use vstd::utf8::*;

use crate::buffer::{bytes_from_slice, bytes_of, bytes_slice};
use crate::cluster::pubsub::{
    hears, lists, names_in, served, served_by, with_names, Delivery, PubSubService, Registry,
    SubKey,
};
use crate::cluster::pubsub_laws::{lemma_taken, named};
use crate::text::bytes_to_vec;

verus! {

/// Messages that may wait for a subscriber.
pub const SUBSCRIPTION_QUEUE: usize = 64;

/// A message that a subscriber gets.
#[derive(Debug)]
pub struct Message {
    /// Channel that the publisher named.
    pub channel: String,
    /// Pattern that the channel matched; `None` for an exact subscription.
    pub pattern: Option<String>,
    /// The payload.
    pub payload: Vec<u8>,
}

/// A subscriber, and what it gets.
#[derive(Debug)]
pub struct Handed {
    pub subscription: u64,
    pub message: Message,
}

/// The subscription that a message serves.
pub open spec fn serves(h: Handed) -> SubKey {
    SubKey {
        is_pattern: h.message.pattern is Some,
        name: match h.message.pattern {
            Some(p) => p@,
            None => h.message.channel@,
        },
        conn: h.subscription,
    }
}

/// The subscriptions that messages serve.
pub open spec fn all_served(s: Seq<Handed>) -> Seq<SubKey> {
    Seq::new(s.len(), |i: int| serves(s[i]))
}

/// Names of a list.
pub open spec fn list_names(s: Seq<&str>) -> Seq<Seq<char>> {
    Seq::new(s.len(), |i: int| s[i]@)
}

/// The registry once a new subscriber has taken these names.
pub open spec fn subscribed(m: Registry, names: Seq<Seq<char>>, is_pattern: bool) -> Registry {
    Registry {
        subs: with_names(m.subs, m.next_id, is_pattern, names, names.len() as int),
        conns: m.conns.insert(m.next_id),
        next_id: if m.next_id == u64::MAX {
            0
        } else {
            (m.next_id + 1) as u64
        },
    }
}

/// Pub/sub within the process.
#[derive(Debug)]
pub struct EmbeddedPubSub {
    service: PubSubService,
}

impl View for EmbeddedPubSub {
    type V = Registry;

    closed spec fn view(&self) -> Registry {
        self.service@
    }
}

impl EmbeddedPubSub {
    /// The registry is well-formed.
    pub closed spec fn wf(&self) -> bool {
        self.service.wf()
    }

    /// Pub/sub over this registry.
    pub fn new(service: PubSubService) -> (r: Self)
        requires
            service.wf(),
        ensures
            r.wf(),
            r@ == service@,
    {
        EmbeddedPubSub { service }
    }

    /// The registry.
    pub fn service(&self) -> (r: &PubSubService)
        requires
            self.wf(),
        ensures
            r.wf(),
            r@ == self@,
    {
        &self.service
    }

    fn open_subscription(&mut self, items: &Vec<&str>, is_pattern: bool) -> (r: u64)
        requires
            old(self).wf(),
        ensures
            final(self).wf(),
            r == old(self)@.next_id,
            final(self)@ == subscribed(old(self)@, list_names(items@), is_pattern),
    {
        let ghost m = self@;
        let id: u64 = self.service.next_conn_id();
        self.service.register_conn(id);
        let mut owned: Vec<Bytes> = Vec::new();
        let mut i: usize = 0;
        while i < items.len()
            invariant
                i <= items@.len(),
                owned@.len() == i,
                forall|k: int|
                    0 <= k < i ==> bytes_of(#[trigger] owned@[k]) == encode_utf8(items@[k]@),
            decreases items@.len() - i,
        {
            owned.push(bytes_from_slice(items[i].as_bytes()));
            i = i + 1;
        }
        if is_pattern {
            let _ = self.service.psubscribe(id, owned.as_slice());
        } else {
            let _ = self.service.subscribe(id, owned.as_slice());
        }
        proof {
            let names = list_names(items@);
            assert forall|k: int| 0 <= k < names.len() implies names_in(owned@)[k]
                == names[k] by {
                assert(bytes_of(owned@[k]) == encode_utf8(items@[k]@));
                encode_utf8_valid_utf8(items@[k]@);
                encode_utf8_decode_utf8(items@[k]@);
            }
            assert(names_in(owned@) =~= names);
            assert(self@ =~= subscribed(m, names, is_pattern));
        }
        id
    }

    /// A new subscriber to channels; gives back its number.
    pub fn subscribe(&mut self, channels: &Vec<&str>) -> (r: u64)
        requires
            old(self).wf(),
        ensures
            final(self).wf(),
            r == old(self)@.next_id,
            final(self)@ == subscribed(old(self)@, list_names(channels@), false),
    {
        self.open_subscription(channels, false)
    }

    /// A new subscriber to patterns; gives back its number.
    pub fn psubscribe(&mut self, patterns: &Vec<&str>) -> (r: u64)
        requires
            old(self).wf(),
        ensures
            final(self).wf(),
            r == old(self)@.next_id,
            final(self)@ == subscribed(old(self)@, list_names(patterns@), true),
    {
        self.open_subscription(patterns, true)
    }

    /// A subscriber goes: so do its subscriptions.
    pub fn drop_subscription(&mut self, subscription: u64)
        requires
            old(self).wf(),
        ensures
            final(self).wf(),
            final(self)@ == (Registry {
                subs: old(self)@.subs.filter(|k: SubKey| k.conn != subscription),
                conns: old(self)@.conns.remove(subscription),
                next_id: old(self)@.next_id,
            }),
    {
        self.service.cleanup_conn(subscription);
    }

    /// Works out who gets a message: one for each subscription that hears the
    /// channel.
    pub fn publish(&self, channel: &str, message: &[u8]) -> (r: Vec<Handed>)
        requires
            self.wf(),
        ensures
            lists(all_served(r@), self@.subs.filter(|k: SubKey| hears(k, channel@))),
            forall|i: int|
                0 <= i < r@.len() ==> (#[trigger] r@[i]).message.channel@ == channel@
                    && r@[i].message.payload@ == message@,
    {
        let payload: Bytes = bytes_from_slice(message);
        let deliveries: Vec<Delivery> = self.service.publish_local(channel, &payload);
        let mut out: Vec<Handed> = Vec::new();
        let mut i: usize = 0;
        while i < deliveries.len()
            invariant
                i <= deliveries@.len(),
                out@.len() == i,
                forall|k: int|
                    0 <= k < deliveries@.len() ==> (#[trigger] deliveries@[k]).message.channel@
                        == channel@ && bytes_of(deliveries@[k].message.payload) == message@,
                forall|k: int|
                    0 <= k < i ==> serves(#[trigger] out@[k]) == served(deliveries@[k])
                        && out@[k].message.channel@ == channel@ && out@[k].message.payload@
                        == message@,
            decreases deliveries@.len() - i,
        {
            let d: &Delivery = &deliveries[i];
            let pattern: Option<String> = match &d.message.pattern {
                Some(p) => Some(p.as_str().to_owned()),
                None => None,
            };
            out.push(
                Handed {
                    subscription: d.conn_id,
                    message: Message {
                        channel: d.message.channel.as_str().to_owned(),
                        pattern,
                        payload: bytes_to_vec(bytes_slice(&d.message.payload)),
                    },
                },
            );
            i = i + 1;
        }
        assert(all_served(out@) =~= served_by(deliveries@));
        out
    }
}

/// A new subscriber holds the names it asked for, of the kind it asked for, and
/// nobody else's subscriptions change. It gets a number that the next one does not
/// get.
pub proof fn law_new_subscribers_hold_their_names(
    m: Registry,
    names: Seq<Seq<char>>,
    is_pattern: bool,
    k: SubKey,
)
    ensures
        ({
            let n = subscribed(m, names, is_pattern);
            &&& n.subs.contains(k) <==> m.subs.contains(k) || (k.conn == m.next_id && k.is_pattern
                == is_pattern && named(names, names.len() as int, k.name))
            &&& n.conns.contains(m.next_id)
            &&& forall|c: u64| c != m.next_id ==> (#[trigger] n.conns.contains(c)
                <==> m.conns.contains(c))
            &&& m.next_id < u64::MAX ==> n.next_id == m.next_id + 1
            &&& n.next_id != m.next_id
        }),
{
    lemma_taken(m.subs, m.next_id, is_pattern, names, names.len() as int, k);
}

} // verus!
