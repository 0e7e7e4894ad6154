//! The subscriber registry: who is listening, under which pattern, and where
//! their messages go.
use vstd::prelude::*;

use crate::subject::{pattern_matches, PublishSubject, SubscribeSubject};

verus! {

/// What one registration is seen as: its identifier, its pattern's tokens, and
/// the sending end of its mailbox.
pub type Listing<S> = Seq<(u64, Seq<Seq<char>>, S)>;

/// Whether some registration of the listing has the identifier.
pub open spec fn has_id<S>(l: Listing<S>, id: u64) -> bool {
    exists|k: int| 0 <= k < l.len() && (#[trigger] l[k]).0 == id
}

/// No identifier stands twice in the listing.
pub open spec fn unique_ids<S>(l: Listing<S>) -> bool {
    forall|a: int, b: int| 0 <= a < l.len() && 0 <= b < l.len() && a != b ==> (#[trigger] l[a]).0
        != (#[trigger] l[b]).0
}

/// The listing with the registrations of the identifier taken out, the rest kept
/// in order.
pub open spec fn without<S>(l: Listing<S>, id: u64) -> Listing<S>
    decreases l.len(),
{
    if l.len() == 0 {
        l
    } else if l.last().0 == id {
        without(l.drop_last(), id)
    } else {
        without(l.drop_last(), id).push(l.last())
    }
}

/// The identifiers, in order of the listing, whose pattern matches the subject.
pub open spec fn targets<S>(l: Listing<S>, subject: Seq<Seq<char>>) -> Seq<u64>
    decreases l.len(),
{
    if l.len() == 0 {
        Seq::<u64>::empty()
    } else if pattern_matches(l.last().1, subject) {
        targets(l.drop_last(), subject).push(l.last().0)
    } else {
        targets(l.drop_last(), subject)
    }
}

/// Taking an identifier out a second time changes nothing.
pub proof fn lemma_unsubscribe_idempotent<S>(l: Listing<S>, id: u64)
    ensures
        without(without(l, id), id) == without(l, id),
    decreases l.len(),
{
    if l.len() > 0 {
        lemma_unsubscribe_idempotent(l.drop_last(), id);
        if l.last().0 != id {
            let w = without(l.drop_last(), id);
            assert(w.push(l.last()).drop_last() =~= w);
        }
    }
}

/// Once taken out, an identifier is gone, and every other registration stays.
pub proof fn lemma_without_contents<S>(l: Listing<S>, id: u64)
    ensures
        !has_id(without(l, id), id),
        forall|x: u64| x != id ==> (has_id(without(l, id), x) <==> has_id(l, x)),
    decreases l.len(),
{
    if l.len() > 0 {
        let d = l.drop_last();
        lemma_without_contents(d, id);
        let w = without(l, id);
        let wd = without(d, id);
        if l.last().0 == id {
            assert(w == wd);
        } else {
            assert(w == wd.push(l.last()));
        }
        assert forall|x: u64| has_id(w, x) implies x != id && has_id(l, x) by {
            let k = choose|k: int| 0 <= k < w.len() && (#[trigger] w[k]).0 == x;
            if l.last().0 != id && k == w.len() - 1 {
                assert(w[k] == l.last());
                assert(l[l.len() - 1] == l.last());
            } else {
                assert(w[k] == wd[k]);
                assert(has_id(wd, x));
                assert(!has_id(wd, id));
                assert(x != id);
                assert(has_id(d, x));
                let m = choose|m: int| 0 <= m < d.len() && (#[trigger] d[m]).0 == x;
                assert(l[m] == d[m]);
            }
        }
        assert forall|x: u64| x != id && has_id(l, x) implies has_id(w, x) by {
            let k = choose|k: int| 0 <= k < l.len() && (#[trigger] l[k]).0 == x;
            if k == l.len() - 1 {
                assert(w[w.len() - 1] == l.last());
            } else {
                assert(d[k] == l[k]);
                assert(has_id(d, x));
                let m = choose|m: int| 0 <= m < wd.len() && (#[trigger] wd[m]).0 == x;
                assert(w[m] == wd[m]);
            }
        }
    }
}

/// With no registration of the identifier, taking it out changes nothing.
proof fn lemma_without_absent<S>(l: Listing<S>, id: u64)
    requires
        !has_id(l, id),
    ensures
        without(l, id) == l,
    decreases l.len(),
{
    if l.len() > 0 {
        let d = l.drop_last();
        assert forall|k: int| 0 <= k < d.len() implies (#[trigger] d[k]).0 != id by {
            assert(l[k] == d[k]);
        }
        assert(l[l.len() - 1] == l.last());
        lemma_without_absent(d, id);
        assert(d.push(l.last()) =~= l);
    }
}

/// Where the identifier stands at one place only, taking it out removes that place.
proof fn lemma_without_at<S>(l: Listing<S>, id: u64, k: int)
    requires
        0 <= k < l.len(),
        l[k].0 == id,
        unique_ids(l),
    ensures
        without(l, id) == l.remove(k),
    decreases l.len(),
{
    let d = l.drop_last();
    if k == l.len() - 1 {
        assert forall|m: int| 0 <= m < d.len() implies (#[trigger] d[m]).0 != id by {
            assert(l[m] == d[m]);
        }
        lemma_without_absent(d, id);
        assert(d =~= l.remove(k));
    } else {
        assert(l[l.len() - 1] == l.last());
        assert(d[k] == l[k]);
        assert forall|a: int, b: int| 0 <= a < d.len() && 0 <= b < d.len() && a != b implies (
        #[trigger] d[a]).0 != (#[trigger] d[b]).0 by {
            assert(d[a] == l[a] && d[b] == l[b]);
        }
        lemma_without_at(d, id, k);
        assert(d.remove(k).push(l.last()) =~= l.remove(k));
    }
}

/// An identifier is among the targets of a subject exactly when some registration
/// of it has a pattern that matches the subject.
pub proof fn lemma_targets_are_matches<S>(l: Listing<S>, subject: Seq<Seq<char>>, id: u64)
    ensures
        targets(l, subject).contains(id) <==> exists|k: int|
            0 <= k < l.len() && (#[trigger] l[k]).0 == id && pattern_matches(l[k].1, subject),
    decreases l.len(),
{
    if l.len() > 0 {
        let d = l.drop_last();
        lemma_targets_are_matches(d, subject, id);
        let t = targets(l, subject);
        let td = targets(d, subject);
        if t.contains(id) {
            let i = choose|i: int| 0 <= i < t.len() && t[i] == id;
            if pattern_matches(l.last().1, subject) && i == t.len() - 1 {
                assert(l[l.len() - 1] == l.last());
            } else {
                assert(td[i] == id);
                let k = choose|k: int|
                    0 <= k < d.len() && (#[trigger] d[k]).0 == id && pattern_matches(d[k].1, subject);
                assert(l[k] == d[k]);
            }
        }
        if exists|k: int| 0 <= k < l.len() && (#[trigger] l[k]).0 == id && pattern_matches(l[k].1, subject) {
            let k = choose|k: int|
                0 <= k < l.len() && (#[trigger] l[k]).0 == id && pattern_matches(l[k].1, subject);
            if k == l.len() - 1 {
                assert(t[t.len() - 1] == id);
            } else {
                assert(d[k] == l[k]);
                let i = choose|i: int| 0 <= i < td.len() && td[i] == id;
                if pattern_matches(l.last().1, subject) {
                    assert(t[i] == td[i]);
                }
            }
        }
    }
}

/// Where no identifier is registered twice, a published message goes to each
/// matching subscriber once: no identifier repeats among the targets.
pub proof fn lemma_targets_once<S>(l: Listing<S>, subject: Seq<Seq<char>>)
    requires
        unique_ids(l),
    ensures
        targets(l, subject).no_duplicates(),
    decreases l.len(),
{
    if l.len() > 0 {
        let d = l.drop_last();
        assert forall|a: int, b: int| 0 <= a < d.len() && 0 <= b < d.len() && a != b implies (
        #[trigger] d[a]).0 != (#[trigger] d[b]).0 by {
            assert(d[a] == l[a] && d[b] == l[b]);
        }
        lemma_targets_once(d, subject);
        if pattern_matches(l.last().1, subject) {
            let td = targets(d, subject);
            let id = l.last().0;
            lemma_targets_are_matches(d, subject, id);
            if td.contains(id) {
                let k = choose|k: int|
                    0 <= k < d.len() && (#[trigger] d[k]).0 == id && pattern_matches(d[k].1, subject);
                assert(l[k] == d[k]);
                assert(l[l.len() - 1] == l.last());
            }
            let t = td.push(id);
            assert forall|a: int, b: int| 0 <= a < t.len() && 0 <= b < t.len() && a != b implies t[a]
                != t[b] by {
                if a < td.len() && b < td.len() {
                    assert(t[a] == td[a] && t[b] == td[b]);
                } else if a < td.len() {
                    assert(t[a] == td[a]);
                } else {
                    assert(t[b] == td[b]);
                }
            }
        }
    }
}

/// One registration: its identifier, its pattern, and the sending end of its mailbox.
#[derive(Clone)]
pub struct SubscriberHandle<S> {
    id: u64,
    subscribe_subject: SubscribeSubject,
    sender: S,
}

/// The registry of current subscribers, in order of registration.
#[derive(Clone)]
pub struct Registry<S> {
    entries: Vec<SubscriberHandle<S>>,
    next_id: u64,
}

/// What a registration is seen as.
pub closed spec fn listed<S>(e: SubscriberHandle<S>) -> (u64, Seq<Seq<char>>, S) {
    (e.id, e.subscribe_subject@, e.sender)
}

impl<S> View for Registry<S> {
    type V = Listing<S>;

    closed spec fn view(&self) -> Listing<S> {
        self.entries@.map_values(|e: SubscriberHandle<S>| listed(e))
    }
}

impl<S> Registry<S> {
    /// Identifiers grow along the list, and all lie below the next one to issue.
    pub closed spec fn wf(&self) -> bool {
        &&& forall|a: int, b: int|
            0 <= a < b < self.entries@.len() ==> (#[trigger] self.entries@[a]).id
                < (#[trigger] self.entries@[b]).id
        &&& forall|a: int| 0 <= a < self.entries@.len() ==> (#[trigger] self.entries@[a]).id
            < self.next_id
    }

    /// Whether another identifier can still be issued.
    pub closed spec fn has_room(&self) -> bool {
        self.next_id < u64::MAX
    }

    /// No identifier is registered twice.
    pub proof fn lemma_ids_unique(&self)
        requires
            self.wf(),
        ensures
            unique_ids(self@),
    {
        assert forall|a: int, b: int| 0 <= a < self@.len() && 0 <= b < self@.len() && a != b implies (
        #[trigger] self@[a]).0 != (#[trigger] self@[b]).0 by {
            assert(self@[a].0 == self.entries@[a].id);
            assert(self@[b].0 == self.entries@[b].id);
        }
    }

    /// An empty registry.
    pub fn new() -> (r: Registry<S>)
        ensures
            r.wf(),
            r.has_room(),
            r@ == Seq::<(u64, Seq<Seq<char>>, S)>::empty(),
    {
        let r = Registry { entries: Vec::new(), next_id: 0 };
        assert(r@ =~= Seq::<(u64, Seq<Seq<char>>, S)>::empty());
        r
    }

    /// Whether another subscriber can still be registered.
    pub fn can_subscribe(&self) -> (r: bool)
        ensures
            r == self.has_room(),
    {
        self.next_id < u64::MAX
    }

    /// The number of registrations.
    pub fn len(&self) -> (r: usize)
        ensures
            r == self@.len(),
    {
        self.entries.len()
    }

    /// Registers a pattern and its mailbox under a fresh identifier, which is returned.
    pub fn subscribe(&mut self, pattern: SubscribeSubject, sender: S) -> (id: u64)
        requires
            old(self).wf(),
            old(self).has_room(),
        ensures
            final(self).wf(),
            !has_id(old(self)@, id),
            final(self)@ == old(self)@.push((id, pattern@, sender)),
    {
        let id = self.next_id;
        let ghost before = self.entries@;
        let ghost pv = pattern@;
        self.entries.push(SubscriberHandle { id, subscribe_subject: pattern, sender });
        self.next_id = id + 1;
        assert(self@ =~= old(self)@.push((id, pv, sender)));
        assert forall|k: int| 0 <= k < old(self)@.len() implies (#[trigger] old(self)@[k]).0
            != id by {
            assert(old(self)@[k].0 == before[k].id);
        }
        id
    }

    /// Whether a registration of the identifier is present.
    pub fn contains(&self, id: u64) -> (r: bool)
        ensures
            r == has_id(self@, id),
    {
        let mut i: usize = 0;
        while i < self.entries.len()
            invariant
                i <= self.entries@.len(),
                forall|k: int| 0 <= k < i ==> (#[trigger] self.entries@[k]).id != id,
            decreases self.entries@.len() - i,
        {
            if self.entries[i].id == id {
                assert(self@[i as int].0 == id);
                return true;
            }
            i = i + 1;
        }
        assert forall|k: int| 0 <= k < self@.len() implies (#[trigger] self@[k]).0 != id by {
            assert(self@[k].0 == self.entries@[k].id);
        }
        false
    }

    /// Where the registration of the identifier stands, if it is present.
    fn position(&self, id: u64) -> (r: Option<usize>)
        ensures
            match r {
                Some(k) => k < self@.len() && self@[k as int].0 == id,
                None => !has_id(self@, id),
            },
    {
        let mut i: usize = 0;
        while i < self.entries.len()
            invariant
                i <= self.entries@.len(),
                forall|k: int| 0 <= k < i ==> (#[trigger] self.entries@[k]).id != id,
            decreases self.entries@.len() - i,
        {
            if self.entries[i].id == id {
                assert(self@[i as int].0 == self.entries@[i as int].id);
                return Some(i);
            }
            i = i + 1;
        }
        assert forall|k: int| 0 <= k < self@.len() implies (#[trigger] self@[k]).0 != id by {
            assert(self@[k].0 == self.entries@[k].id);
        }
        None
    }

    /// Takes the registration of the identifier out, if present; the others stay,
    /// in order. Taking out an absent identifier changes nothing.
    pub fn unsubscribe(&mut self, id: u64)
        requires
            old(self).wf(),
        ensures
            final(self).wf(),
            final(self).has_room() == old(self).has_room(),
            final(self)@ == without(old(self)@, id),
            !has_id(final(self)@, id),
    {
        proof {
            self.lemma_ids_unique();
            lemma_without_contents(self@, id);
        }
        match self.position(id) {
            Some(k) => {
                let ghost before = self.entries@;
                self.entries.remove(k);
                proof {
                    lemma_without_at(old(self)@, id, k as int);
                    assert(self@ =~= old(self)@.remove(k as int));
                    assert forall|a: int, b: int|
                        0 <= a < b < self.entries@.len() implies (#[trigger] self.entries@[a]).id
                        < (#[trigger] self.entries@[b]).id by {
                        let a0 = if a < k { a } else { a + 1 };
                        let b0 = if b < k { b } else { b + 1 };
                        assert(self.entries@[a] == before[a0]);
                        assert(self.entries@[b] == before[b0]);
                    }
                    assert forall|a: int| 0 <= a < self.entries@.len() implies (
                    #[trigger] self.entries@[a]).id < self.next_id by {
                        let a0 = if a < k { a } else { a + 1 };
                        assert(self.entries@[a] == before[a0]);
                    }
                }
            },
            None => {
                proof {
                    lemma_without_absent(self@, id);
                }
            },
        }
    }

    /// The sending end of the mailbox registered under the identifier, if any.
    pub fn sender_of(&self, id: u64) -> (r: Option<&S>)
        ensures
            match r {
                Some(s) => exists|k: int|
                    0 <= k < self@.len() && (#[trigger] self@[k]).0 == id && self@[k].2 == *s,
                None => !has_id(self@, id),
            },
    {
        match self.position(id) {
            Some(k) => {
                let s = &self.entries[k].sender;
                assert(self@[k as int].2 == *s);
                Some(s)
            },
            None => None,
        }
    }

    /// The identifiers, in order of registration, whose pattern matches the subject:
    /// the subscribers that a message published under it goes to.
    pub fn matching(&self, subject: &PublishSubject) -> (r: Vec<u64>)
        ensures
            r@ == targets(self@, subject@),
    {
        let mut out: Vec<u64> = Vec::new();
        let mut i: usize = 0;
        assert(self@.subrange(0, 0) =~= Seq::<(u64, Seq<Seq<char>>, S)>::empty());
        while i < self.entries.len()
            invariant
                i <= self.entries@.len(),
                self@.len() == self.entries@.len(),
                out@ == targets(self@.subrange(0, i as int), subject@),
            decreases self.entries@.len() - i,
        {
            let e = &self.entries[i];
            proof {
                let next = self@.subrange(0, i + 1);
                assert(next.drop_last() =~= self@.subrange(0, i as int));
                assert(next.last() == listed(*e));
            }
            if e.subscribe_subject.check_subject(subject) {
                out.push(e.id);
            }
            i = i + 1;
        }
        assert(self@.subrange(0, self@.len() as int) =~= self@);
        out
    }
}

} // verus!
