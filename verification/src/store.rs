//! Collection stores: ordered containers of documents with
//! tombstone-based soft delete and a dirty flag.
//!
//! Every mutation is total: invalid input (the sentinel identifier, a
//! duplicate on `add`, an unknown identifier on `update` or `remove`)
//! is silently ignored rather than reported. `remove` only tombstones
//! the slot in place, so positions of unrelated documents never move;
//! slots disappear only through a compacting save.
//!
//! The specification machinery is shared: document views implement
//! [`DocView`], and liveness, lookup and well-formedness are stated
//! once over `Seq`s of views.

use vstd::prelude::*;

use crate::doc::{Document, Post, PostV, User, UserV};

verus! {

/// What the store specifications need of a document view: its
/// identifier, and the view of the same document once tombstoned.
pub trait DocView: Sized {
    /// The identifier; `0` marks a tombstone.
    spec fn vid(self) -> u128;

    /// The same document with its identifier set to the sentinel.
    spec fn tombstoned(self) -> Self;

    /// Tombstoning yields the sentinel identifier.
    proof fn lemma_tombstoned(self)
        ensures
            self.tombstoned().vid() == 0,
    ;
}

impl DocView for PostV {
    open spec fn vid(self) -> u128 {
        self.id
    }

    open spec fn tombstoned(self) -> Self {
        PostV { id: 0, ..self }
    }

    proof fn lemma_tombstoned(self) {
    }
}

impl DocView for UserV {
    open spec fn vid(self) -> u128 {
        self.id
    }

    open spec fn tombstoned(self) -> Self {
        UserV { id: 0, ..self }
    }

    proof fn lemma_tombstoned(self) {
    }
}

/// Slot `i` of `s` holds a live document with identifier `id`.
pub open spec fn live_at<V: DocView>(s: Seq<V>, i: int, id: u128) -> bool {
    &&& 0 <= i < s.len()
    &&& id != 0
    &&& s[i].vid() == id
}

/// Some slot of `s` holds a live document with identifier `id`.
pub open spec fn contains_live<V: DocView>(s: Seq<V>, id: u128) -> bool {
    exists|i: int| live_at(s, i, id)
}

/// Identifiers of live documents are unique.
pub open spec fn wf_ids<V: DocView>(s: Seq<V>) -> bool {
    forall|i: int, j: int|
        #![trigger s[i].vid(), s[j].vid()]
        0 <= i < s.len() && 0 <= j < s.len() && i != j && s[i].vid() != 0 ==> s[j].vid()
            != s[i].vid()
}

/// The live document with identifier `id`, if any. Under [`wf_ids`]
/// the choice of slot is immaterial.
pub open spec fn spec_get<V: DocView>(s: Seq<V>, id: u128) -> Option<V> {
    if contains_live(s, id) {
        Some(s[choose|i: int| live_at(s, i, id)])
    } else {
        None
    }
}

/// The live documents of `s`, in order, tombstones dropped.
pub open spec fn live_docs<V: DocView>(s: Seq<V>) -> Seq<V> {
    s.filter(|d: V| d.vid() != 0)
}

/// Adding a fresh live document keeps identifiers unique, and the new
/// document is then found by its identifier.
pub proof fn lemma_add_then_get<V: DocView>(s: Seq<V>, d: V)
    requires
        wf_ids(s),
        d.vid() != 0,
        !contains_live(s, d.vid()),
    ensures
        wf_ids(s.push(d)),
        spec_get(s.push(d), d.vid()) == Some(d),
{
    let s2 = s.push(d);
    assert forall|i: int, j: int|
        0 <= i < s2.len() && 0 <= j < s2.len() && i != j && #[trigger] s2[i].vid()
            != 0 implies #[trigger] s2[j].vid() != s2[i].vid() by {
        if i < s.len() && j < s.len() {
            assert(s2[i] == s[i] && s2[j] == s[j]);
        } else if i == s.len() {
            if s2[j].vid() == s2[i].vid() {
                assert(live_at(s, j, d.vid()));
            }
        } else {
            if s2[j].vid() == s2[i].vid() {
                assert(live_at(s, i, d.vid()));
            }
        }
    }
    assert(wf_ids(s2));
    assert(live_at(s2, s.len() as int, d.vid()));
    let j = choose|i: int| live_at(s2, i, d.vid());
    if j < s.len() {
        assert(live_at(s, j, d.vid()));
    }
    assert(s2[j] == d);
}

/// Replacing the live document that holds `d.vid()` by `d` keeps
/// identifiers unique, and `d` is then found by its identifier.
pub proof fn lemma_update_then_get<V: DocView>(s: Seq<V>, i: int, d: V)
    requires
        wf_ids(s),
        live_at(s, i, d.vid()),
    ensures
        wf_ids(s.update(i, d)),
        spec_get(s.update(i, d), d.vid()) == Some(d),
{
    let s2 = s.update(i, d);
    assert forall|p: int, q: int|
        0 <= p < s2.len() && 0 <= q < s2.len() && p != q && #[trigger] s2[p].vid()
            != 0 implies #[trigger] s2[q].vid() != s2[p].vid() by {
        assert(s2[p].vid() == s[p].vid());
        assert(s2[q].vid() == s[q].vid());
    }
    assert(wf_ids(s2));
    assert(live_at(s2, i, d.vid()));
    let j = choose|k: int| live_at(s2, k, d.vid());
    if j != i {
        assert(s2[j].vid() == s[j].vid());
        assert(s[i].vid() != 0);
        assert(false);
    }
}

/// Tombstoning the slot that holds `id` keeps identifiers unique, and
/// `id` is afterwards no longer found, although the slot remains.
pub proof fn lemma_remove_then_get<V: DocView>(s: Seq<V>, i: int)
    requires
        wf_ids(s),
        0 <= i < s.len(),
        s[i].vid() != 0,
    ensures
        wf_ids(s.update(i, s[i].tombstoned())),
        spec_get(s.update(i, s[i].tombstoned()), s[i].vid()) is None,
        s.update(i, s[i].tombstoned()).len() == s.len(),
{
    let id = s[i].vid();
    let s2 = s.update(i, s[i].tombstoned());
    s[i].lemma_tombstoned();
    assert forall|p: int, q: int|
        0 <= p < s2.len() && 0 <= q < s2.len() && p != q && #[trigger] s2[p].vid()
            != 0 implies #[trigger] s2[q].vid() != s2[p].vid() by {
        assert(p != i);
        assert(s2[p].vid() == s[p].vid());
        if q != i {
            assert(s2[q].vid() == s[q].vid());
        }
    }
    assert(wf_ids(s2));
    if contains_live(s2, id) {
        let j = choose|k: int| live_at(s2, k, id);
        assert(j != i);
        assert(s[j].vid() == id);
        assert(s[i].vid() != 0 && s[j].vid() == s[i].vid());
        assert(false);
    }
}

/// One step of the live filter: appending a document either appends it
/// to the live sequence or leaves that sequence unchanged.
proof fn lemma_live_docs_step<V: DocView>(s: Seq<V>, i: int)
    requires
        0 <= i < s.len(),
    ensures
        s[i].vid() != 0 ==> live_docs(s.take(i + 1)) == live_docs(s.take(i)).push(s[i]),
        s[i].vid() == 0 ==> live_docs(s.take(i + 1)) == live_docs(s.take(i)),
{
    assert(s.take(i + 1).drop_last() =~= s.take(i));
    assert(s.take(i + 1).last() == s[i]);
    reveal(Seq::filter);
}

/// The live filter keeps identifiers unique, yields only live
/// documents, and draws them from `s`.
pub proof fn lemma_live_docs_wf<V: DocView>(s: Seq<V>)
    requires
        wf_ids(s),
    ensures
        wf_ids(live_docs(s)),
        forall|p: int| 0 <= p < live_docs(s).len() ==> (#[trigger] live_docs(s)[p]).vid() != 0,
        forall|p: int|
            0 <= p < live_docs(s).len() ==> exists|q: int|
                0 <= q < s.len() && #[trigger] s[q] == #[trigger] live_docs(s)[p],
    decreases s.len(),
{
    reveal(Seq::filter);
    if s.len() == 0 {
    } else {
        let s0 = s.drop_last();
        let d = s.last();
        assert(wf_ids(s0)) by {
            assert forall|p: int, q: int|
                0 <= p < s0.len() && 0 <= q < s0.len() && p != q && #[trigger] s0[p].vid()
                    != 0 implies #[trigger] s0[q].vid() != s0[p].vid() by {
                assert(s0[p] == s[p] && s0[q] == s[q]);
            }
        }
        lemma_live_docs_wf(s0);
        let l0 = live_docs(s0);
        if d.vid() != 0 {
            let l = l0.push(d);
            assert(live_docs(s) == l);
            assert forall|p: int, q: int|
                0 <= p < l.len() && 0 <= q < l.len() && p != q && #[trigger] l[p].vid()
                    != 0 implies #[trigger] l[q].vid() != l[p].vid() by {
                if p < l0.len() && q < l0.len() {
                    assert(l[p] == l0[p] && l[q] == l0[q]);
                } else if q == l0.len() {
                    let pq = choose|k: int| 0 <= k < s0.len() && s0[k] == l0[p];
                    assert(s[pq] == l[p]);
                    assert(s[s.len() - 1] == d);
                } else {
                    let qq = choose|k: int| 0 <= k < s0.len() && s0[k] == l0[q];
                    assert(s[qq] == l[q]);
                    assert(s[s.len() - 1] == d);
                }
            }
            assert forall|p: int| #![trigger l[p]] 0 <= p < l.len() implies exists|q: int|
                0 <= q < s.len() && #[trigger] s[q] == l[p] by {
                if p < l0.len() {
                    let q = choose|k: int| 0 <= k < s0.len() && s0[k] == l0[p];
                    assert(s[q] == l[p]);
                } else {
                    assert(s[s.len() - 1] == l[p]);
                }
            }
        } else {
            assert(live_docs(s) == l0);
            assert forall|p: int| #![trigger l0[p]] 0 <= p < l0.len() implies exists|q: int|
                0 <= q < s.len() && #[trigger] s[q] == l0[p] by {
                let q = choose|k: int| 0 <= k < s0.len() && s0[k] == l0[p];
                assert(s[q] == l0[p]);
            }
        }
    }
}

/// Filtering a sequence of live documents changes nothing: the live
/// filter is idempotent.
pub proof fn lemma_live_docs_idem<V: DocView>(s: Seq<V>)
    requires
        forall|p: int| 0 <= p < s.len() ==> (#[trigger] s[p]).vid() != 0,
    ensures
        live_docs(s) == s,
    decreases s.len(),
{
    reveal(Seq::filter);
    if s.len() > 0 {
        let s0 = s.drop_last();
        lemma_live_docs_idem(s0);
        assert(s[s.len() - 1].vid() != 0);
        assert(live_docs(s) == s0.push(s.last()));
        assert(s0.push(s.last()) =~= s);
    }
}

/// An ordered collection of posts with a dirty flag.
pub struct Posts {
    pub data: Vec<Post>,
    pub changed: bool,
}

impl Posts {
    /// The stored slots, tombstones included, as views.
    pub open spec fn docs(self) -> Seq<PostV> {
        self.data.deep_view()
    }

    /// Identifiers of live documents are unique.
    pub open spec fn wf(self) -> bool {
        wf_ids(self.docs())
    }

    /// A collection with no slots and a clear dirty flag.
    pub fn empty() -> (r: Self)
        ensures
            r.docs() == Seq::<PostV>::empty(),
            !r.changed,
            r.wf(),
    {
        let r = Posts { data: Vec::new(), changed: false };
        proof {
            assert(r.docs() =~= Seq::<PostV>::empty());
        }
        r
    }

    /// Wraps an existing document vector; the dirty flag starts clear.
    pub fn new(data: Vec<Post>) -> (r: Self)
        ensures
            r.docs() == data.deep_view(),
            !r.changed,
    {
        Posts { data, changed: false }
    }

    /// Whether a mutation occurred since the flag was last cleared.
    pub fn changed(&self) -> (r: bool)
        ensures
            r == self.changed,
    {
        self.changed
    }

    /// All slots in order, tombstones included.
    pub fn iterate(&self) -> (r: &Vec<Post>)
        ensures
            r.deep_view() == self.docs(),
    {
        &self.data
    }

    /// Inserts `doc` at the end. A sentinel identifier or one already
    /// live in the collection makes this a no-op; an actual insertion
    /// sets the dirty flag.
    #[verifier::loop_isolation(false)]
    pub fn add(&mut self, doc: Post)
        requires
            old(self).wf(),
        ensures
            final(self).wf(),
            doc@.id == 0 ==> *final(self) == *old(self),
            doc@.id != 0 && contains_live(old(self).docs(), doc@.id) ==> *final(self) == *old(
                self,
            ),
            doc@.id != 0 && !contains_live(old(self).docs(), doc@.id) ==> final(self).docs()
                == old(self).docs().push(doc@) && final(self).changed,
    {
        if doc.id == 0 {
            return ;
        }
        let ghost s = self.docs();
        let mut i: usize = 0;
        while i < self.data.len()
            invariant
                i <= self.data.len(),
                s == self.docs(),
                s.len() == self.data@.len(),
                forall|k: int| 0 <= k < i ==> (#[trigger] s[k]).vid() != doc@.id,
            decreases self.data.len() - i,
        {
            if self.data[i].id() == doc.id() {
                proof {
                    assert(live_at(s, i as int, doc@.id));
                }
                return ;
            }
            i = i + 1;
        }
        proof {
            assert(!contains_live(s, doc@.id));
            lemma_add_then_get(s, doc@);
        }
        self.data.push(doc);
        self.changed = true;
        proof {
            assert(self.docs() =~= s.push(doc@));
        }
    }

    /// Replaces, in place, the live document that shares `doc`'s
    /// identifier. A sentinel or unknown identifier makes this a
    /// no-op; an actual replacement sets the dirty flag.
    #[verifier::loop_isolation(false)]
    pub fn update(&mut self, doc: Post)
        requires
            old(self).wf(),
        ensures
            final(self).wf(),
            doc@.id == 0 ==> *final(self) == *old(self),
            doc@.id != 0 && !contains_live(old(self).docs(), doc@.id) ==> *final(self) == *old(
                self,
            ),
            forall|i: int|
                live_at(old(self).docs(), i, doc@.id) ==> final(self).docs() == old(
                    self,
                ).docs().update(i, doc@) && final(self).changed,
    {
        if doc.id == 0 {
            return ;
        }
        let ghost s = self.docs();
        let n = self.data.len();
        let mut i: usize = 0;
        let mut found = false;
        let mut idx: usize = 0;
        while i < n
            invariant
                n == self.data@.len(),
                i <= n,
                s == self.docs(),
                s.len() == n,
                doc@.id != 0,
                found ==> idx < n && live_at(s, idx as int, doc@.id),
                !found ==> forall|k: int| 0 <= k < i ==> (#[trigger] s[k]).vid() != doc@.id,
            decreases n - i,
        {
            if !found && self.data[i].id() == doc.id() {
                found = true;
                idx = i;
            }
            i = i + 1;
        }
        if found {
            proof {
                lemma_update_then_get(s, idx as int, doc@);
            }
            self.data[idx] = doc;
            self.changed = true;
            proof {
                assert(self.docs() =~= s.update(idx as int, doc@));
                assert forall|i: int| live_at(s, i, doc@.id) implies i == idx as int by {
                    if i != idx as int {
                        assert(s[idx as int].vid() != 0);
                        assert(s[i].vid() != s[idx as int].vid());
                    }
                }
            }
        } else {
            proof {
                assert(!contains_live(s, doc@.id));
            }
        }
    }

    /// Tombstones, in place, the live document with identifier `id`:
    /// its identifier becomes the sentinel, the slot is retained. A
    /// sentinel or unknown identifier makes this a no-op; an actual
    /// removal sets the dirty flag.
    #[verifier::loop_isolation(false)]
    pub fn remove(&mut self, id: u128)
        requires
            old(self).wf(),
        ensures
            final(self).wf(),
            id == 0 ==> *final(self) == *old(self),
            id != 0 && !contains_live(old(self).docs(), id) ==> *final(self) == *old(self),
            forall|i: int|
                live_at(old(self).docs(), i, id) ==> final(self).docs() == old(
                    self,
                ).docs().update(i, old(self).docs()[i].tombstoned()) && final(self).changed,
    {
        if id == 0 {
            return ;
        }
        let ghost s = self.docs();
        let n = self.data.len();
        let mut i: usize = 0;
        let mut found = false;
        let mut idx: usize = 0;
        while i < n
            invariant
                n == self.data@.len(),
                i <= n,
                s == self.docs(),
                s.len() == n,
                id != 0,
                found ==> idx < n && live_at(s, idx as int, id),
                !found ==> forall|k: int| 0 <= k < i ==> (#[trigger] s[k]).vid() != id,
            decreases n - i,
        {
            if !found && self.data[i].id() == id {
                found = true;
                idx = i;
            }
            i = i + 1;
        }
        if found {
            proof {
                lemma_remove_then_get(s, idx as int);
            }
            self.data[idx].id = 0;
            self.changed = true;
            proof {
                assert(self.docs() =~= s.update(idx as int, s[idx as int].tombstoned()));
                assert forall|i: int| live_at(s, i, id) implies i == idx as int by {
                    if i != idx as int {
                        assert(s[idx as int].vid() != 0);
                        assert(s[i].vid() != s[idx as int].vid());
                    }
                }
            }
        } else {
            proof {
                assert(!contains_live(s, id));
            }
        }
    }

    /// Looks the live document with identifier `id` up by linear scan.
    #[verifier::loop_isolation(false)]
    pub fn get(&self, id: u128) -> (r: Option<&Post>)
        requires
            self.wf(),
        ensures
            (match r {
                Some(d) => Some(d@),
                None => None::<PostV>,
            }) == spec_get(self.docs(), id),
    {
        let ghost s = self.docs();
        if id == 0 {
            return None;
        }
        let n = self.data.len();
        let mut i: usize = 0;
        while i < n
            invariant
                n == self.data@.len(),
                i <= n,
                s == self.docs(),
                s.len() == n,
                id != 0,
                forall|k: int| 0 <= k < i ==> (#[trigger] s[k]).vid() != id,
            decreases n - i,
        {
            if self.data[i].id() == id {
                proof {
                    assert(live_at(s, i as int, id));
                    let j = choose|k: int| live_at(s, k, id);
                    if j != i as int {
                        assert(s[i as int].vid() != 0);
                        assert(s[j].vid() != s[i as int].vid());
                    }
                }
                return Some(&self.data[i]);
            }
            i = i + 1;
        }
        proof {
            assert(!contains_live(s, id));
        }
        None
    }

    /// A compacted copy: the live documents in order, tombstones
    /// dropped, with a clear dirty flag.
    #[verifier::loop_isolation(false)]
    pub fn filter(&self) -> (r: Self)
        ensures
            r.docs() == live_docs(self.docs()),
            !r.changed,
    {
        let ghost s = self.docs();
        let mut out: Vec<Post> = Vec::new();
        let mut i: usize = 0;
        proof {
            assert(out.deep_view() =~= Seq::<PostV>::empty());
            assert(s.take(0) =~= Seq::<PostV>::empty());
            reveal(Seq::filter);
        }
        while i < self.data.len()
            invariant
                i <= self.data.len(),
                s == self.docs(),
                s.len() == self.data@.len(),
                out.deep_view() == live_docs(s.take(i as int)),
            decreases self.data.len() - i,
        {
            proof {
                lemma_live_docs_step(s, i as int);
            }
            if self.data[i].id() != 0 {
                let ghost pre = out.deep_view();
                out.push(self.data[i].duplicate());
                proof {
                    assert(out.deep_view() =~= pre.push(s[i as int]));
                }
            }
            i = i + 1;
        }
        proof {
            assert(s.take(self.data@.len() as int) =~= s);
        }
        Posts { data: out, changed: false }
    }
}

/// An ordered collection of users with a dirty flag.
pub struct Users {
    pub data: Vec<User>,
    pub changed: bool,
}

impl Users {
    /// The stored slots, tombstones included, as views.
    pub open spec fn docs(self) -> Seq<UserV> {
        self.data.deep_view()
    }

    /// Identifiers of live documents are unique.
    pub open spec fn wf(self) -> bool {
        wf_ids(self.docs())
    }

    /// A collection with no slots and a clear dirty flag.
    pub fn empty() -> (r: Self)
        ensures
            r.docs() == Seq::<UserV>::empty(),
            !r.changed,
            r.wf(),
    {
        let r = Users { data: Vec::new(), changed: false };
        proof {
            assert(r.docs() =~= Seq::<UserV>::empty());
        }
        r
    }

    /// Wraps an existing document vector; the dirty flag starts clear.
    pub fn new(data: Vec<User>) -> (r: Self)
        ensures
            r.docs() == data.deep_view(),
            !r.changed,
    {
        Users { data, changed: false }
    }

    /// Whether a mutation occurred since the flag was last cleared.
    pub fn changed(&self) -> (r: bool)
        ensures
            r == self.changed,
    {
        self.changed
    }

    /// All slots in order, tombstones included.
    pub fn iterate(&self) -> (r: &Vec<User>)
        ensures
            r.deep_view() == self.docs(),
    {
        &self.data
    }

    /// Inserts `doc` at the end. A sentinel identifier or one already
    /// live in the collection makes this a no-op; an actual insertion
    /// sets the dirty flag.
    #[verifier::loop_isolation(false)]
    pub fn add(&mut self, doc: User)
        requires
            old(self).wf(),
        ensures
            final(self).wf(),
            doc@.id == 0 ==> *final(self) == *old(self),
            doc@.id != 0 && contains_live(old(self).docs(), doc@.id) ==> *final(self) == *old(
                self,
            ),
            doc@.id != 0 && !contains_live(old(self).docs(), doc@.id) ==> final(self).docs()
                == old(self).docs().push(doc@) && final(self).changed,
    {
        if doc.id == 0 {
            return ;
        }
        let ghost s = self.docs();
        let mut i: usize = 0;
        while i < self.data.len()
            invariant
                i <= self.data.len(),
                s == self.docs(),
                s.len() == self.data@.len(),
                forall|k: int| 0 <= k < i ==> (#[trigger] s[k]).vid() != doc@.id,
            decreases self.data.len() - i,
        {
            if self.data[i].id() == doc.id() {
                proof {
                    assert(live_at(s, i as int, doc@.id));
                }
                return ;
            }
            i = i + 1;
        }
        proof {
            assert(!contains_live(s, doc@.id));
            lemma_add_then_get(s, doc@);
        }
        self.data.push(doc);
        self.changed = true;
        proof {
            assert(self.docs() =~= s.push(doc@));
        }
    }

    /// Replaces, in place, the live document that shares `doc`'s
    /// identifier. A sentinel or unknown identifier makes this a
    /// no-op; an actual replacement sets the dirty flag.
    #[verifier::loop_isolation(false)]
    pub fn update(&mut self, doc: User)
        requires
            old(self).wf(),
        ensures
            final(self).wf(),
            doc@.id == 0 ==> *final(self) == *old(self),
            doc@.id != 0 && !contains_live(old(self).docs(), doc@.id) ==> *final(self) == *old(
                self,
            ),
            forall|i: int|
                live_at(old(self).docs(), i, doc@.id) ==> final(self).docs() == old(
                    self,
                ).docs().update(i, doc@) && final(self).changed,
    {
        if doc.id == 0 {
            return ;
        }
        let ghost s = self.docs();
        let n = self.data.len();
        let mut i: usize = 0;
        let mut found = false;
        let mut idx: usize = 0;
        while i < n
            invariant
                n == self.data@.len(),
                i <= n,
                s == self.docs(),
                s.len() == n,
                doc@.id != 0,
                found ==> idx < n && live_at(s, idx as int, doc@.id),
                !found ==> forall|k: int| 0 <= k < i ==> (#[trigger] s[k]).vid() != doc@.id,
            decreases n - i,
        {
            if !found && self.data[i].id() == doc.id() {
                found = true;
                idx = i;
            }
            i = i + 1;
        }
        if found {
            proof {
                lemma_update_then_get(s, idx as int, doc@);
            }
            self.data[idx] = doc;
            self.changed = true;
            proof {
                assert(self.docs() =~= s.update(idx as int, doc@));
                assert forall|i: int| live_at(s, i, doc@.id) implies i == idx as int by {
                    if i != idx as int {
                        assert(s[idx as int].vid() != 0);
                        assert(s[i].vid() != s[idx as int].vid());
                    }
                }
            }
        } else {
            proof {
                assert(!contains_live(s, doc@.id));
            }
        }
    }

    /// Tombstones, in place, the live document with identifier `id`:
    /// its identifier becomes the sentinel, the slot is retained. A
    /// sentinel or unknown identifier makes this a no-op; an actual
    /// removal sets the dirty flag.
    #[verifier::loop_isolation(false)]
    pub fn remove(&mut self, id: u128)
        requires
            old(self).wf(),
        ensures
            final(self).wf(),
            id == 0 ==> *final(self) == *old(self),
            id != 0 && !contains_live(old(self).docs(), id) ==> *final(self) == *old(self),
            forall|i: int|
                live_at(old(self).docs(), i, id) ==> final(self).docs() == old(
                    self,
                ).docs().update(i, old(self).docs()[i].tombstoned()) && final(self).changed,
    {
        if id == 0 {
            return ;
        }
        let ghost s = self.docs();
        let n = self.data.len();
        let mut i: usize = 0;
        let mut found = false;
        let mut idx: usize = 0;
        while i < n
            invariant
                n == self.data@.len(),
                i <= n,
                s == self.docs(),
                s.len() == n,
                id != 0,
                found ==> idx < n && live_at(s, idx as int, id),
                !found ==> forall|k: int| 0 <= k < i ==> (#[trigger] s[k]).vid() != id,
            decreases n - i,
        {
            if !found && self.data[i].id() == id {
                found = true;
                idx = i;
            }
            i = i + 1;
        }
        if found {
            proof {
                lemma_remove_then_get(s, idx as int);
            }
            self.data[idx].id = 0;
            self.changed = true;
            proof {
                assert(self.docs() =~= s.update(idx as int, s[idx as int].tombstoned()));
                assert forall|i: int| live_at(s, i, id) implies i == idx as int by {
                    if i != idx as int {
                        assert(s[idx as int].vid() != 0);
                        assert(s[i].vid() != s[idx as int].vid());
                    }
                }
            }
        } else {
            proof {
                assert(!contains_live(s, id));
            }
        }
    }

    /// Looks the live document with identifier `id` up by linear scan.
    #[verifier::loop_isolation(false)]
    pub fn get(&self, id: u128) -> (r: Option<&User>)
        requires
            self.wf(),
        ensures
            (match r {
                Some(d) => Some(d@),
                None => None::<UserV>,
            }) == spec_get(self.docs(), id),
    {
        let ghost s = self.docs();
        if id == 0 {
            return None;
        }
        let n = self.data.len();
        let mut i: usize = 0;
        while i < n
            invariant
                n == self.data@.len(),
                i <= n,
                s == self.docs(),
                s.len() == n,
                id != 0,
                forall|k: int| 0 <= k < i ==> (#[trigger] s[k]).vid() != id,
            decreases n - i,
        {
            if self.data[i].id() == id {
                proof {
                    assert(live_at(s, i as int, id));
                    let j = choose|k: int| live_at(s, k, id);
                    if j != i as int {
                        assert(s[i as int].vid() != 0);
                        assert(s[j].vid() != s[i as int].vid());
                    }
                }
                return Some(&self.data[i]);
            }
            i = i + 1;
        }
        proof {
            assert(!contains_live(s, id));
        }
        None
    }

    /// A compacted copy: the live documents in order, tombstones
    /// dropped, with a clear dirty flag.
    #[verifier::loop_isolation(false)]
    pub fn filter(&self) -> (r: Self)
        ensures
            r.docs() == live_docs(self.docs()),
            !r.changed,
    {
        let ghost s = self.docs();
        let mut out: Vec<User> = Vec::new();
        let mut i: usize = 0;
        proof {
            assert(out.deep_view() =~= Seq::<UserV>::empty());
            assert(s.take(0) =~= Seq::<UserV>::empty());
            reveal(Seq::filter);
        }
        while i < self.data.len()
            invariant
                i <= self.data.len(),
                s == self.docs(),
                s.len() == self.data@.len(),
                out.deep_view() == live_docs(s.take(i as int)),
            decreases self.data.len() - i,
        {
            proof {
                lemma_live_docs_step(s, i as int);
            }
            if self.data[i].id() != 0 {
                let ghost pre = out.deep_view();
                out.push(self.data[i].duplicate());
                proof {
                    assert(out.deep_view() =~= pre.push(s[i as int]));
                }
            }
            i = i + 1;
        }
        proof {
            assert(s.take(self.data@.len() as int) =~= s);
        }
        Users { data: out, changed: false }
    }
}

} // verus!
