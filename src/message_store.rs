//! The message store: every deferred message, keyed by id, grouped into
//! per-recipient buckets. The persisted form is the flat list of messages;
//! the buckets follow from each message's own recipient.

use vstd::prelude::*;
use crate::message::{Activation, Message, MessageView};
use crate::text::{lower_of, lowercase};

verus! {

pub open spec fn message_views(ms: Seq<Message>) -> Seq<MessageView> {
    ms.map_values(|m: Message| m@)
}

pub open spec fn distinct_ids(ms: Seq<MessageView>) -> bool {
    forall|i: int, j: int|
        0 <= i < ms.len() && 0 <= j < ms.len() && i != j ==> (#[trigger] ms[i]).id != (
        #[trigger] ms[j]).id
}

/// The messages keyed by id; a later message replaces an earlier one with
/// the same id.
pub open spec fn map_of(ms: Seq<MessageView>) -> Map<Seq<char>, MessageView>
    decreases ms.len(),
{
    if ms.len() == 0 {
        Map::empty()
    } else {
        map_of(ms.drop_last()).insert(ms.last().id, ms.last())
    }
}

/// The ids of the messages in `c` whose recipient lower-cases as `r` does.
pub open spec fn bucket_keys(c: Map<Seq<char>, MessageView>, r: Seq<char>) -> Set<Seq<char>> {
    Set::new(|id: Seq<char>| c.contains_key(id) && lower_of(c[id].recipient) == lower_of(r))
}

/// The bucket of recipient `r`.
pub open spec fn bucket(c: Map<Seq<char>, MessageView>, r: Seq<char>) -> Map<Seq<char>, MessageView> {
    c.restrict(bucket_keys(c, r))
}

/// The ids of the messages in the bucket of `r` that wait for `r`'s next
/// chat line.
pub open spec fn pending_keys(c: Map<Seq<char>, MessageView>, r: Seq<char>) -> Set<Seq<char>> {
    keys_where(c, pending_for(r))
}

/// Whether a message is in the bucket of `r` and waits for `r`'s next chat
/// line.
pub open spec fn pending_for(r: Seq<char>) -> spec_fn(MessageView) -> bool {
    |m: MessageView| lower_of(m.recipient) == lower_of(r) && m.activation == Activation::OnNextMessage
}

pub open spec fn keys_where(
    c: Map<Seq<char>, MessageView>,
    p: spec_fn(MessageView) -> bool,
) -> Set<Seq<char>> {
    Set::new(|id: Seq<char>| c.contains_key(id) && p(c[id]))
}

/// The entries of `ms` that satisfy `p`, in order.
pub open spec fn select(ms: Seq<MessageView>, p: spec_fn(MessageView) -> bool) -> Seq<MessageView>
    decreases ms.len(),
{
    if ms.len() == 0 {
        ms
    } else if p(ms.last()) {
        select(ms.drop_last(), p).push(ms.last())
    } else {
        select(ms.drop_last(), p)
    }
}

/// What `pop_pending(r)` takes out of `c`.
pub open spec fn popped(c: Map<Seq<char>, MessageView>, r: Seq<char>) -> Map<Seq<char>, MessageView> {
    c.restrict(pending_keys(c, r))
}

/// What `pop_pending(r)` leaves in `c`.
pub open spec fn remaining(c: Map<Seq<char>, MessageView>, r: Seq<char>) -> Map<Seq<char>, MessageView> {
    c.remove_keys(pending_keys(c, r))
}

proof fn lemma_map_of_dom(ms: Seq<MessageView>, id: Seq<char>)
    ensures
        map_of(ms).contains_key(id) <==> exists|i: int| 0 <= i < ms.len() && (#[trigger] ms[i]).id
            == id,
    decreases ms.len(),
{
    if ms.len() > 0 {
        lemma_map_of_dom(ms.drop_last(), id);
        if map_of(ms).contains_key(id) && id != ms.last().id {
            let i = choose|i: int| 0 <= i < ms.drop_last().len() && (#[trigger] ms.drop_last()[i]).id == id;
            assert(ms[i].id == id);
        }
        if exists|i: int| 0 <= i < ms.len() && (#[trigger] ms[i]).id == id {
            let i = choose|i: int| 0 <= i < ms.len() && (#[trigger] ms[i]).id == id;
            if i < ms.len() - 1 {
                assert(ms.drop_last()[i].id == id);
            }
        }
    }
}

proof fn lemma_map_of_at(ms: Seq<MessageView>, i: int)
    requires
        distinct_ids(ms),
        0 <= i < ms.len(),
    ensures
        map_of(ms).contains_key(ms[i].id),
        map_of(ms)[ms[i].id] == ms[i],
    decreases ms.len(),
{
    if i < ms.len() - 1 {
        assert(distinct_ids(ms.drop_last()));
        lemma_map_of_at(ms.drop_last(), i);
        assert(ms.drop_last()[i] == ms[i]);
        assert(ms[ms.len() - 1].id != ms[i].id);
    }
}

/// A list of messages with distinct ids loads as `c` when it holds exactly
/// the entries of `c`.
proof fn lemma_map_of_ext(ms: Seq<MessageView>, c: Map<Seq<char>, MessageView>)
    requires
        distinct_ids(ms),
        forall|i: int| 0 <= i < ms.len() ==> c.contains_key((#[trigger] ms[i]).id) && c[ms[i].id] == ms[i],
        forall|id: Seq<char>| c.contains_key(id) ==> exists|i: int| 0 <= i < ms.len() && (#[trigger] ms[i]).id == id,
    ensures
        map_of(ms) == c,
{
    assert forall|id: Seq<char>| map_of(ms).contains_key(id) <==> c.contains_key(id) by {
        lemma_map_of_dom(ms, id);
    }
    assert forall|id: Seq<char>| map_of(ms).contains_key(id) implies map_of(ms)[id] == c[id] by {
        lemma_map_of_dom(ms, id);
        let i = choose|i: int| 0 <= i < ms.len() && (#[trigger] ms[i]).id == id;
        lemma_map_of_at(ms, i);
    }
    assert(map_of(ms) =~= c);
}

/// Where the store's contents come from when it is opened.
pub enum StoredFile {
    /// Nothing is stored at the path yet.
    Missing,
    /// The path names a directory.
    Directory,
    /// The file could not be read.
    Unreadable,
    /// The file could not be decoded.
    Corrupt,
    /// The messages that the file holds.
    Records(Vec<Message>),
}

#[derive(Debug, Clone, Copy, PartialEq, Eq)]
pub enum StoreError {
    PathIsDirectory,
    Corrupt,
    Persistence,
}

pub struct MessageStore {
    path: String,
    messages: Vec<Message>,
}

impl MessageStore {
    pub closed spec fn entries(&self) -> Seq<MessageView> {
        message_views(self.messages@)
    }

    /// The messages held, keyed by id.
    pub open spec fn contents(&self) -> Map<Seq<char>, MessageView> {
        map_of(self.entries())
    }

    pub closed spec fn path_spec(&self) -> Seq<char> {
        self.path@
    }

    /// Ids are unique across the whole store.
    pub open spec fn wf(&self) -> bool {
        distinct_ids(self.entries())
    }

    /// An empty store backed by `path`.
    pub fn new(path: String) -> (r: MessageStore)
        ensures
            r.wf(),
            r.contents() == Map::<Seq<char>, MessageView>::empty(),
            r.path_spec() == path@,
    {
        let r = MessageStore { path, messages: Vec::new() };
        assert(r.entries() =~= Seq::<MessageView>::empty());
        r
    }

    pub fn path(&self) -> (r: &str)
        ensures
            r@ == self.path_spec(),
    {
        self.path.as_str()
    }

    /// Adds `message` to its recipient's bucket; a message with the same id
    /// is replaced.
    pub fn insert(&mut self, message: Message)
        requires
            old(self).wf(),
        ensures
            final(self).wf(),
            final(self).contents() == old(self).contents().insert(message@.id, message@),
            final(self).path_spec() == old(self).path_spec(),
    {
        let ghost c0 = self.contents();
        let ghost id = message@.id;
        let ghost mut found = false;
        let mut i: usize = 0;
        while i < self.messages.len()
            invariant
                self.wf(),
                id == message@.id,
                self.path_spec() == old(self).path_spec(),
                !found ==> self.contents() == c0,
                found ==> map_of(self.entries()) == c0.remove(id),
                i <= self.messages@.len(),
                forall|j: int| 0 <= j < i ==> (#[trigger] self.entries()[j]).id != id,
                found ==> i == self.messages@.len(),
            decreases self.messages@.len() - i,
        {
            assert(self.entries()[i as int] == self.messages@[i as int]@);
            if self.messages[i].same_id(&message) {
                let ghost before = self.entries();
                assert(before[i as int].id == id);
                self.messages.remove(i);
                proof {
                    assert(self.entries() =~= before.remove(i as int));
                    lemma_map_of_remove(before, i as int);
                    assert forall|k: int| 0 <= k < self.entries().len() implies (#[trigger] self.entries()[k]).id != id by {
                        if k < i {
                            assert(self.entries()[k] == before[k]);
                        } else {
                            assert(self.entries()[k] == before[k + 1]);
                            assert(before[k + 1].id != before[i as int].id);
                        }
                    }
                    found = true;
                }
                i = self.messages.len();
            } else {
                i = i + 1;
            }
        }
        let ghost mid = self.entries();
        proof {
            if !found {
                lemma_map_of_dom(mid, id);
                assert(c0.remove(id) =~= c0);
            }
        }
        self.messages.push(message);
        proof {
            assert(self.entries() =~= mid.push(message@));
            assert(self.entries().drop_last() =~= mid);
            assert(c0.remove(id).insert(id, message@) =~= c0.insert(id, message@));
        }
    }
}

proof fn lemma_select(ms: Seq<MessageView>, p: spec_fn(MessageView) -> bool)
    requires
        distinct_ids(ms),
    ensures
        distinct_ids(select(ms, p)),
        forall|k: int| 0 <= k < select(ms, p).len() ==> exists|a: int| 0 <= a < ms.len() && #[trigger] select(ms, p)[k] == ms[a],
        map_of(select(ms, p)) == map_of(ms).restrict(keys_where(map_of(ms), p)),
    decreases ms.len(),
{
    if ms.len() > 0 {
        let e = ms.drop_last();
        let x = ms.last();
        assert(distinct_ids(e));
        lemma_select(e, p);
        let se = select(e, p);
        assert forall|a: int| 0 <= a < e.len() implies (#[trigger] e[a]).id != x.id by {
            assert(ms[a] == e[a]);
            assert(ms[ms.len() - 1] == x);
        }
        assert forall|k: int| 0 <= k < se.len() implies (#[trigger] se[k]).id != x.id by {
            let a = choose|a: int| 0 <= a < e.len() && se[k] == e[a];
        }
        lemma_map_of_dom(e, x.id);
        let c = map_of(ms);
        let ce = map_of(e);
        assert(c == ce.insert(x.id, x));
        if p(x) {
            let sm = se.push(x);
            assert(sm.drop_last() =~= se);
            assert(distinct_ids(sm)) by {
                assert forall|i: int, j: int|
                    0 <= i < sm.len() && 0 <= j < sm.len() && i != j implies (#[trigger] sm[i]).id
                        != (#[trigger] sm[j]).id by {
                    if i < se.len() && j < se.len() {
                        assert(sm[i] == se[i] && sm[j] == se[j]);
                    } else if i < se.len() {
                        assert(sm[i] == se[i]);
                    } else {
                        assert(sm[j] == se[j]);
                    }
                }
            }
            assert forall|k: int| 0 <= k < sm.len() implies exists|a: int| 0 <= a < ms.len() && #[trigger] sm[k] == ms[a] by {
                if k < se.len() {
                    let a = choose|a: int| 0 <= a < e.len() && se[k] == e[a];
                    assert(sm[k] == ms[a]);
                } else {
                    assert(sm[k] == ms[ms.len() - 1]);
                }
            }
            assert(map_of(sm) =~= c.restrict(keys_where(c, p)));
        } else {
            assert forall|k: int| 0 <= k < se.len() implies exists|a: int| 0 <= a < ms.len() && #[trigger] se[k] == ms[a] by {
                let a = choose|a: int| 0 <= a < e.len() && se[k] == e[a];
                assert(se[k] == ms[a]);
            }
            assert(map_of(se) =~= c.restrict(keys_where(c, p)));
        }
    }
}

proof fn lemma_map_of_remove(ms: Seq<MessageView>, k: int)
    requires
        distinct_ids(ms),
        0 <= k < ms.len(),
    ensures
        distinct_ids(ms.remove(k)),
        map_of(ms.remove(k)) == map_of(ms).remove(ms[k].id),
{
    let rs = ms.remove(k);
    let c = map_of(ms).remove(ms[k].id);
    assert forall|i: int| 0 <= i < rs.len() implies rs[i] == ms[if i < k { i } else { i + 1 }] by {}
    assert(distinct_ids(rs)) by {
        assert forall|i: int, j: int|
            0 <= i < rs.len() && 0 <= j < rs.len() && i != j implies (#[trigger] rs[i]).id != (
            #[trigger] rs[j]).id by {
            let a = if i < k { i } else { i + 1 };
            let b = if j < k { j } else { j + 1 };
            assert(rs[i] == ms[a] && rs[j] == ms[b]);
        }
    }
    assert forall|i: int| 0 <= i < rs.len() implies c.contains_key((#[trigger] rs[i]).id) && c[rs[i].id] == rs[i] by {
        let a = if i < k { i } else { i + 1 };
        lemma_map_of_at(ms, a);
        assert(ms[a].id != ms[k].id);
    }
    assert forall|id: Seq<char>| c.contains_key(id) implies exists|i: int| 0 <= i < rs.len() && (#[trigger] rs[i]).id == id by {
        lemma_map_of_dom(ms, id);
        let a = choose|a: int| 0 <= a < ms.len() && (#[trigger] ms[a]).id == id;
        let i = if a < k { a } else { a - 1 };
        assert(rs[i].id == id);
    }
    lemma_map_of_ext(rs, c);
}

impl MessageStore {
    /// A store backed by `path` that holds `messages`, grouped by their own
    /// recipients; of two messages with one id the later one stays.
    pub fn from_messages(path: String, messages: Vec<Message>) -> (r: MessageStore)
        ensures
            r.wf(),
            r.contents() == map_of(message_views(messages@)),
            r.path_spec() == path@,
    {
        let mut store = MessageStore::new(path);
        let mut i: usize = 0;
        while i < messages.len()
            invariant
                i <= messages@.len(),
                store.wf(),
                store.path_spec() == path@,
                store.contents() == map_of(message_views(messages@.subrange(0, i as int))),
            decreases messages@.len() - i,
        {
            let m = messages[i].clone();
            store.insert(m);
            proof {
                let pre = message_views(messages@.subrange(0, i as int));
                let post = message_views(messages@.subrange(0, i + 1));
                assert(post.drop_last() =~= pre);
                assert(post.last() == messages@[i as int]@);
            }
            i = i + 1;
        }
        assert(messages@.subrange(0, messages@.len() as int) =~= messages@);
        store
    }

    /// Opens the store at `path` from what was found there: nothing yet is
    /// an empty store, a directory or an unreadable or undecodable file is
    /// an error.
    pub fn from_path(path: String, stored: StoredFile) -> (r: Result<MessageStore, StoreError>)
        ensures
            match stored {
                StoredFile::Missing => r matches Ok(s) && s.wf() && s.path_spec() == path@
                    && s.contents() == Map::<Seq<char>, MessageView>::empty(),
                StoredFile::Directory => r == Err::<MessageStore, StoreError>(StoreError::PathIsDirectory),
                StoredFile::Unreadable => r == Err::<MessageStore, StoreError>(StoreError::Persistence),
                StoredFile::Corrupt => r == Err::<MessageStore, StoreError>(StoreError::Corrupt),
                StoredFile::Records(ms) => r matches Ok(s) && s.wf() && s.path_spec() == path@
                    && s.contents() == map_of(message_views(ms@)),
            },
    {
        match stored {
            StoredFile::Missing => Ok(MessageStore::new(path)),
            StoredFile::Directory => Err(StoreError::PathIsDirectory),
            StoredFile::Unreadable => Err(StoreError::Persistence),
            StoredFile::Corrupt => Err(StoreError::Corrupt),
            StoredFile::Records(ms) => Ok(MessageStore::from_messages(path, ms)),
        }
    }

    /// Every message, each once, as the flat list that the store persists.
    pub fn get_all(&self) -> (r: Vec<Message>)
        requires
            self.wf(),
        ensures
            distinct_ids(message_views(r@)),
            map_of(message_views(r@)) == self.contents(),
    {
        let mut out: Vec<Message> = Vec::new();
        let mut i: usize = 0;
        while i < self.messages.len()
            invariant
                i <= self.messages@.len(),
                message_views(out@) == self.entries().subrange(0, i as int),
            decreases self.messages@.len() - i,
        {
            let c = self.messages[i].clone();
            assert(self.entries()[i as int] == self.messages@[i as int]@);
            assert(c@ == self.messages@[i as int]@);
            let ghost prev = out@;
            out.push(c);
            assert(message_views(out@) =~= message_views(prev).push(c@));
            assert(self.entries().subrange(0, i + 1) =~= self.entries().subrange(0, i as int).push(
                self.entries()[i as int],
            ));
            i = i + 1;
        }
        assert(message_views(out@) =~= self.entries());
        out
    }

    /// The number of messages held.
    pub fn len(&self) -> (r: usize)
        requires
            self.wf(),
        ensures
            r == self.contents().len(),
    {
        proof {
            lemma_map_of_len(self.entries());
        }
        self.messages.len()
    }

    /// The position of the message with `message`'s id.
    fn position(&self, message: &Message) -> (r: Option<usize>)
        requires
            self.wf(),
        ensures
            match r {
                Some(k) => k < self.entries().len() && self.entries()[k as int].id == message@.id,
                None => !self.contents().contains_key(message@.id),
            },
    {
        let mut i: usize = 0;
        while i < self.messages.len()
            invariant
                i <= self.messages@.len(),
                forall|j: int| 0 <= j < i ==> (#[trigger] self.entries()[j]).id != message@.id,
            decreases self.messages@.len() - i,
        {
            assert(self.entries()[i as int] == self.messages@[i as int]@);
            if self.messages[i].same_id(message) {
                return Some(i);
            }
            i = i + 1;
        }
        proof {
            lemma_map_of_dom(self.entries(), message@.id);
        }
        None
    }

    /// Whether a message with `message`'s id is held.
    pub fn contains(&self, message: &Message) -> (r: bool)
        requires
            self.wf(),
        ensures
            r == self.contents().contains_key(message@.id),
    {
        match self.position(message) {
            Some(k) => {
                proof {
                    lemma_map_of_at(self.entries(), k as int);
                }
                true
            },
            None => false,
        }
    }

    fn remove_at(&mut self, k: usize)
        requires
            old(self).wf(),
            k < old(self).entries().len(),
        ensures
            final(self).wf(),
            final(self).contents() == old(self).contents().remove(old(self).entries()[k as int].id),
            final(self).path_spec() == old(self).path_spec(),
    {
        let ghost before = self.entries();
        self.messages.remove(k);
        proof {
            assert(self.entries() =~= before.remove(k as int));
            lemma_map_of_remove(before, k as int);
        }
    }

    /// Removes the message with `message`'s id from whichever bucket holds
    /// it; tells whether one was there.
    pub fn remove(&mut self, message: &Message) -> (r: bool)
        requires
            old(self).wf(),
        ensures
            final(self).wf(),
            r == old(self).contents().contains_key(message@.id),
            final(self).contents() == old(self).contents().remove(message@.id),
            final(self).path_spec() == old(self).path_spec(),
    {
        match self.position(message) {
            Some(k) => {
                proof {
                    lemma_map_of_at(self.entries(), k as int);
                }
                self.remove_at(k);
                true
            },
            None => {
                assert(self.contents().remove(message@.id) =~= self.contents());
                false
            },
        }
    }

    /// Removes the message with `message`'s id only from the bucket of
    /// `recipient`; tells whether one was there.
    pub fn remove_for(&mut self, recipient: &str, message: &Message) -> (r: bool)
        requires
            old(self).wf(),
        ensures
            final(self).wf(),
            r == bucket(old(self).contents(), recipient@).contains_key(message@.id),
            final(self).contents() == if r {
                old(self).contents().remove(message@.id)
            } else {
                old(self).contents()
            },
            final(self).path_spec() == old(self).path_spec(),
    {
        let key = lowercase(recipient);
        match self.position(message) {
            Some(k) => {
                proof {
                    lemma_map_of_at(self.entries(), k as int);
                }
                assert(self.entries()[k as int] == self.messages@[k as int]@);
                if self.messages[k].in_bucket(&key) {
                    self.remove_at(k);
                    true
                } else {
                    false
                }
            },
            None => false,
        }
    }

    /// Takes out and returns every message of `username`'s bucket that waits
    /// for their next chat line; scheduled messages stay.
    pub fn pop_pending(&mut self, username: &str) -> (r: Vec<Message>)
        requires
            old(self).wf(),
        ensures
            final(self).wf(),
            final(self).contents() == remaining(old(self).contents(), username@),
            distinct_ids(message_views(r@)),
            map_of(message_views(r@)) == popped(old(self).contents(), username@),
            final(self).path_spec() == old(self).path_spec(),
    {
        let key = lowercase(username);
        let ghost e = self.entries();
        let ghost p = pending_for(username@);
        let ghost q = |m: MessageView| !p(m);
        let mut kept: Vec<Message> = Vec::new();
        let mut out: Vec<Message> = Vec::new();
        let mut i: usize = 0;
        while i < self.messages.len()
            invariant
                e == self.entries(),
                self.wf(),
                self.path_spec() == old(self).path_spec(),
                *old(self) == *self,
                key@ == lower_of(username@),
                p == pending_for(username@),
                q == (|m: MessageView| !p(m)),
                i <= self.messages@.len(),
                message_views(out@) == select(e.subrange(0, i as int), p),
                message_views(kept@) == select(e.subrange(0, i as int), q),
            decreases self.messages@.len() - i,
        {
            let m = &self.messages[i];
            let ghost sub = e.subrange(0, i + 1);
            proof {
                assert(sub.drop_last() =~= e.subrange(0, i as int));
                assert(sub.last() == m@);
            }
            if m.in_bucket(&key) && m.is_pending() {
                out.push(m.clone());
                assert(message_views(out@) =~= select(sub, p));
                assert(message_views(kept@) =~= select(sub, q));
            } else {
                kept.push(m.clone());
                assert(message_views(out@) =~= select(sub, p));
                assert(message_views(kept@) =~= select(sub, q));
            }
            i = i + 1;
        }
        proof {
            assert(e.subrange(0, e.len() as int) =~= e);
            lemma_select(e, p);
            lemma_select(e, q);
            let c = map_of(e);
            assert(keys_where(c, q) =~= c.dom().difference(pending_keys(c, username@)));
            assert(c.restrict(keys_where(c, q)) =~= remaining(c, username@));
        }
        self.messages = kept;
        out
    }
}

proof fn lemma_map_of_len(ms: Seq<MessageView>)
    requires
        distinct_ids(ms),
    ensures
        map_of(ms).len() == ms.len(),
        map_of(ms).dom().finite(),
    decreases ms.len(),
{
    if ms.len() > 0 {
        assert(distinct_ids(ms.drop_last()));
        lemma_map_of_len(ms.drop_last());
        lemma_map_of_dom(ms.drop_last(), ms.last().id);
        assert forall|a: int| 0 <= a < ms.drop_last().len() implies (#[trigger] ms.drop_last()[a]).id
            != ms.last().id by {
            assert(ms[a] == ms.drop_last()[a]);
        }
    }
}

proof fn lemma_map_of_value(ms: Seq<MessageView>, id: Seq<char>)
    requires
        map_of(ms).contains_key(id),
    ensures
        exists|i: int| 0 <= i < ms.len() && ms[i] == map_of(ms)[id] && (#[trigger] ms[i]).id == id,
    decreases ms.len(),
{
    if ms.last().id != id {
        lemma_map_of_value(ms.drop_last(), id);
        let i = choose|i: int| 0 <= i < ms.drop_last().len() && ms.drop_last()[i] == map_of(ms.drop_last())[id] && (#[trigger] ms.drop_last()[i]).id == id;
        assert(ms[i] == ms.drop_last()[i]);
    } else {
        assert(ms[ms.len() - 1] == ms.last());
    }
}

/// Saving and loading again gives back the same messages: a list with the
/// entries of a saved list, in any order (the order in which buckets were
/// walked), loads as the saved one.
pub proof fn lemma_load_ignores_order(saved: Seq<MessageView>, loaded: Seq<MessageView>)
    requires
        distinct_ids(saved),
        forall|m: MessageView| saved.contains(m) <==> loaded.contains(m),
    ensures
        map_of(loaded) == map_of(saved),
{
    assert forall|id: Seq<char>| #[trigger] map_of(loaded).contains_key(id) <==> map_of(saved).contains_key(id) by {
        lemma_map_of_dom(loaded, id);
        lemma_map_of_dom(saved, id);
        if map_of(loaded).contains_key(id) {
            let i = choose|i: int| 0 <= i < loaded.len() && (#[trigger] loaded[i]).id == id;
            assert(loaded.contains(loaded[i]));
            let j = choose|j: int| 0 <= j < saved.len() && saved[j] == loaded[i];
            assert(saved[j].id == id);
        }
        if map_of(saved).contains_key(id) {
            let i = choose|i: int| 0 <= i < saved.len() && (#[trigger] saved[i]).id == id;
            assert(saved.contains(saved[i]));
            let j = choose|j: int| 0 <= j < loaded.len() && loaded[j] == saved[i];
            assert(loaded[j].id == id);
        }
    }
    assert forall|id: Seq<char>| #[trigger] map_of(loaded).contains_key(id) implies map_of(loaded)[id] == map_of(saved)[id] by {
        lemma_map_of_value(loaded, id);
        let i = choose|i: int| 0 <= i < loaded.len() && loaded[i] == map_of(loaded)[id] && (#[trigger] loaded[i]).id == id;
        assert(loaded.contains(loaded[i]));
        let j = choose|j: int| 0 <= j < saved.len() && saved[j] == loaded[i];
        lemma_map_of_at(saved, j);
    }
    assert(map_of(loaded) =~= map_of(saved));
}

/// What `get_all` hands out, once loaded again in any order, is what the
/// store held.
pub proof fn lemma_save_load_round_trip(
    store: MessageStore,
    saved: Seq<MessageView>,
    loaded: Seq<MessageView>,
)
    requires
        store.wf(),
        distinct_ids(saved),
        map_of(saved) == store.contents(),
        forall|m: MessageView| saved.contains(m) <==> loaded.contains(m),
    ensures
        map_of(loaded) == store.contents(),
{
    lemma_load_ignores_order(saved, loaded);
}

/// Handles that lower-case alike ("Foo" and "foo") name the same bucket,
/// and the same pending messages.
pub proof fn lemma_bucket_case_insensitive(c: Map<Seq<char>, MessageView>, a: Seq<char>, b: Seq<char>)
    requires
        lower_of(a) == lower_of(b),
    ensures
        bucket(c, a) == bucket(c, b),
        popped(c, a) == popped(c, b),
        remaining(c, a) == remaining(c, b),
{
    assert(bucket_keys(c, a) =~= bucket_keys(c, b));
    assert(pending_keys(c, a) =~= pending_keys(c, b));
}

/// Every message lies in the bucket named by its own recipient.
pub proof fn lemma_message_in_own_bucket(c: Map<Seq<char>, MessageView>, id: Seq<char>)
    requires
        c.contains_key(id),
    ensures
        bucket(c, c[id].recipient).contains_key(id),
        bucket(c, c[id].recipient)[id] == c[id],
{
    assert(bucket_keys(c, c[id].recipient).contains(id));
}

/// `pop_pending` hands out only messages that wait for the next chat line,
/// and a second call without an insert in between hands out nothing.
pub proof fn lemma_pop_pending_twice(c: Map<Seq<char>, MessageView>, r: Seq<char>)
    ensures
        forall|id: Seq<char>| #[trigger] popped(c, r).contains_key(id) ==> popped(c, r)[id].activation
            == Activation::OnNextMessage,
        popped(remaining(c, r), r) == Map::<Seq<char>, MessageView>::empty(),
        remaining(remaining(c, r), r) == remaining(c, r),
{
    let c1 = remaining(c, r);
    assert(pending_keys(c1, r) =~= Set::<Seq<char>>::empty());
    assert(popped(c1, r) =~= Map::<Seq<char>, MessageView>::empty());
    assert(remaining(c1, r) =~= c1);
}

/// Removing one id twice is harmless: the second removal finds nothing and
/// changes nothing.
pub proof fn lemma_remove_twice(c: Map<Seq<char>, MessageView>, id: Seq<char>)
    ensures
        !c.remove(id).contains_key(id),
        c.remove(id).remove(id) == c.remove(id),
{
    assert(c.remove(id).remove(id) =~= c.remove(id));
}

impl MessageStore {
    /// The messages with a fixed deadline, for the scheduler to pick up
    /// again at start.
    pub fn scheduled(&self) -> (r: Vec<Message>)
        requires
            self.wf(),
        ensures
            distinct_ids(message_views(r@)),
            map_of(message_views(r@)) == self.contents().restrict(
                keys_where(self.contents(), is_fixed()),
            ),
    {
        let ghost e = self.entries();
        let mut out: Vec<Message> = Vec::new();
        let mut i: usize = 0;
        while i < self.messages.len()
            invariant
                e == self.entries(),
                i <= self.messages@.len(),
                message_views(out@) == select(e.subrange(0, i as int), is_fixed()),
            decreases self.messages@.len() - i,
        {
            let m = &self.messages[i];
            let ghost sub = e.subrange(0, i + 1);
            proof {
                assert(sub.drop_last() =~= e.subrange(0, i as int));
                assert(sub.last() == m@);
            }
            if !m.is_pending() {
                out.push(m.clone());
            }
            assert(message_views(out@) =~= select(sub, is_fixed()));
            i = i + 1;
        }
        proof {
            assert(e.subrange(0, e.len() as int) =~= e);
            lemma_select(e, is_fixed());
        }
        out
    }
}

pub open spec fn is_fixed() -> spec_fn(MessageView) -> bool {
    |m: MessageView| m.activation is Fixed
}

} // verus!
