use nattes::fanout::{Fanout, Step};
use nattes::registry::Registry;
use nattes::subject::{NatsError, PublishSubject, SubscribeSubject};

/// Mailboxes that the tests deliver into: the registry's sender is the index of
/// a mailbox, and a closed mailbox refuses every message.
struct Mailboxes {
    received: Vec<Vec<String>>,
    closed: Vec<bool>,
}

impl Mailboxes {
    fn new() -> Mailboxes {
        Mailboxes {
            received: Vec::new(),
            closed: Vec::new(),
        }
    }

    fn subscribe(&mut self, registry: &mut Registry<usize>, text: &str) -> u64 {
        let slot = self.received.len();
        self.received.push(Vec::new());
        self.closed.push(false);
        assert!(registry.can_subscribe());
        registry.subscribe(SubscribeSubject::from_str(text).unwrap(), slot)
    }

    fn publish(
        &mut self,
        registry: &Registry<usize>,
        text: &str,
        payload: &str,
    ) -> Result<(), NatsError> {
        let subject = PublishSubject::from_str(text)?;
        let mut fanout = Fanout::start(registry, &subject);
        loop {
            match fanout.next() {
                Step::Deliver(id) => {
                    let slot = *registry.sender_of(id).unwrap();
                    let accepted = !self.closed[slot];
                    if accepted {
                        self.received[slot].push(payload.to_string());
                    }
                    fanout.record(accepted);
                }
                Step::Finished => return Ok(()),
                Step::Failed => return Err(NatsError::DeliveryFailed),
            }
        }
    }
}

#[test]
fn simple() {
    let mut registry = Registry::new();
    let mut boxes = Mailboxes::new();
    boxes.subscribe(&mut registry, "zebi");
    boxes.publish(&registry, "zebi", "lol").unwrap();
    assert_eq!(boxes.received[0], vec!["lol".to_string()]);
    boxes.publish(&registry, "zeb", "lol2").unwrap();
    boxes.publish(&registry, "zebi", "lol3").unwrap();
    assert_eq!(
        boxes.received[0],
        vec!["lol".to_string(), "lol3".to_string()]
    );
}

#[test]
fn exact_subject_is_delivered() {
    let mut registry = Registry::new();
    let mut boxes = Mailboxes::new();
    boxes.subscribe(&mut registry, "a.b");
    boxes.publish(&registry, "a.b", "x").unwrap();
    assert_eq!(boxes.received[0], vec!["x".to_string()]);
}

#[test]
fn star_subscription_needs_a_token() {
    let mut registry = Registry::new();
    let mut boxes = Mailboxes::new();
    boxes.subscribe(&mut registry, "a.*");
    boxes.publish(&registry, "a.c", "y").unwrap();
    boxes.publish(&registry, "a", "z").unwrap();
    assert_eq!(boxes.received[0], vec!["y".to_string()]);
}

#[test]
fn tail_subscription_needs_a_further_token() {
    let mut registry = Registry::new();
    let mut boxes = Mailboxes::new();
    boxes.subscribe(&mut registry, "a.>");
    boxes.publish(&registry, "a.b.c.d", "deep").unwrap();
    boxes.publish(&registry, "a", "short").unwrap();
    assert_eq!(boxes.received[0], vec!["deep".to_string()]);
}

#[test]
fn overlapping_patterns_each_get_one_copy() {
    let mut registry = Registry::new();
    let mut boxes = Mailboxes::new();
    let first = boxes.subscribe(&mut registry, "x.*");
    let second = boxes.subscribe(&mut registry, "x.y");
    assert_ne!(first, second);
    boxes.publish(&registry, "x.y", "both").unwrap();
    assert_eq!(boxes.received[0], vec!["both".to_string()]);
    assert_eq!(boxes.received[1], vec!["both".to_string()]);
    let subject = PublishSubject::from_str("x.y").unwrap();
    assert_eq!(registry.matching(&subject), vec![first, second]);
}

#[test]
fn removed_subscriber_gets_nothing() {
    let mut registry = Registry::new();
    let mut boxes = Mailboxes::new();
    let id = boxes.subscribe(&mut registry, "a.b");
    registry.unsubscribe(id);
    assert!(!registry.contains(id));
    assert_eq!(registry.len(), 0);
    assert_eq!(boxes.publish(&registry, "a.b", "gone"), Ok(()));
    assert!(boxes.received[0].is_empty());
}

#[test]
fn unsubscribe_twice_is_like_once() {
    let mut registry = Registry::new();
    let mut boxes = Mailboxes::new();
    let a = boxes.subscribe(&mut registry, "a");
    let b = boxes.subscribe(&mut registry, "b");
    registry.unsubscribe(a);
    assert_eq!(registry.len(), 1);
    registry.unsubscribe(a);
    assert_eq!(registry.len(), 1);
    assert!(!registry.contains(a));
    assert!(registry.contains(b));
    registry.unsubscribe(99);
    assert_eq!(registry.len(), 1);
}

#[test]
fn identifiers_are_fresh() {
    let mut registry = Registry::new();
    let mut boxes = Mailboxes::new();
    let a = boxes.subscribe(&mut registry, "a");
    registry.unsubscribe(a);
    let b = boxes.subscribe(&mut registry, "a");
    let c = boxes.subscribe(&mut registry, "a");
    assert!(a < b && b < c);
    assert_eq!(registry.sender_of(b), Some(&1));
    assert_eq!(registry.sender_of(c), Some(&2));
    assert_eq!(registry.sender_of(a), None);
}

#[test]
fn refused_delivery_stops_the_fanout() {
    let mut registry = Registry::new();
    let mut boxes = Mailboxes::new();
    boxes.subscribe(&mut registry, "k.*");
    boxes.subscribe(&mut registry, "k.>");
    boxes.subscribe(&mut registry, "k.v");
    boxes.closed[1] = true;
    assert_eq!(
        boxes.publish(&registry, "k.v", "m"),
        Err(NatsError::DeliveryFailed)
    );
    assert_eq!(boxes.received[0], vec!["m".to_string()]);
    assert!(boxes.received[1].is_empty());
    assert!(boxes.received[2].is_empty());
}

#[test]
fn fanout_steps_and_outcome() {
    let mut registry = Registry::new();
    let a = registry.subscribe(SubscribeSubject::from_str("s").unwrap(), 0usize);
    let subject = PublishSubject::from_str("s").unwrap();
    let mut fanout = Fanout::start(&registry, &subject);
    assert_eq!(fanout.next(), Step::Deliver(a));
    assert_eq!(fanout.outcome(), None);
    fanout.record(true);
    assert_eq!(fanout.next(), Step::Finished);
    assert_eq!(fanout.outcome(), Some(Ok(())));

    let mut refused = Fanout::start(&registry, &subject);
    refused.record(false);
    assert_eq!(refused.next(), Step::Failed);
    assert_eq!(refused.outcome(), Some(Err(NatsError::DeliveryFailed)));

    let other = PublishSubject::from_str("t").unwrap();
    let empty = Fanout::start(&registry, &other);
    assert_eq!(empty.next(), Step::Finished);
}

#[test]
fn invalid_subject_is_refused_before_delivery() {
    let mut registry = Registry::new();
    let mut boxes = Mailboxes::new();
    boxes.subscribe(&mut registry, ">");
    assert_eq!(
        boxes.publish(&registry, "a.*", "m"),
        Err(NatsError::InvalidPublishSubject)
    );
    assert!(boxes.received[0].is_empty());
}
