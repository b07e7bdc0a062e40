//! The relation resolver: derives the reference cache of a document's
//! relation from the target collection's current contents.
//!
//! Resolution is clear-then-populate, so running it twice in a row
//! gives the same cache as running it once. A cache is a best-effort
//! snapshot: mutating the target collection afterwards does not touch
//! it, it only makes it stale until resolution is run again.

use vstd::prelude::*;

use crate::doc::{Pointer, Post, PostV, User, UserV};
use crate::store::{spec_get, DocView, Posts, Users};

verus! {

/// The cache that a resolution pass derives: entry `j` holds the live
/// target document for `ids[j]`, or is absent.
pub open spec fn resolved_cache(s: Seq<PostV>, ids: Seq<u128>) -> Seq<Option<PostV>> {
    Seq::new(ids.len(), |j: int| spec_get(s, ids[j]))
}

impl User {
    /// Rebuilds this user's relation cache against `posts`: one entry
    /// per foreign identifier, present exactly when the identifier is
    /// live in `posts`. Everything else about the user is unchanged.
    #[verifier::loop_isolation(false)]
    pub fn resolve(&mut self, posts: &Posts)
        requires
            posts.wf(),
        ensures
            final(self)@.posts == resolved_cache(posts.docs(), old(self)@.post_ids),
            final(self)@ == (UserV { posts: final(self)@.posts, ..old(self)@ }),
    {
        let mut cache: Vec<Pointer<Post>> = Vec::new();
        let n = self.post_ids.len();
        let mut j: usize = 0;
        while j < n
            invariant
                n == self.post_ids@.len(),
                j <= n,
                cache@.len() == j,
                forall|k: int|
                    0 <= k < j ==> (#[trigger] cache@[k])@ == spec_get(
                        posts.docs(),
                        self.post_ids@[k],
                    ),
            decreases n - j,
        {
            let target = posts.get(self.post_ids[j]);
            proof {
                if let Some(d) = target {
                    assert(spec_get(posts.docs(), self.post_ids@[j as int]) == Some(d@));
                    let w = choose|i: int|
                        crate::store::live_at(posts.docs(), i, self.post_ids@[j as int]);
                    assert(posts.docs()[w].vid() != 0);
                }
            }
            cache.push(Pointer::new(target));
            j = j + 1;
        }
        self.posts = cache;
        proof {
            assert(self@.posts =~= resolved_cache(posts.docs(), old(self)@.post_ids));
        }
    }
}

impl Users {
    /// Rebuilds the relation cache of every stored slot against
    /// `posts`, tombstones included. Identifiers, order and the dirty
    /// flag are untouched: a cache is derived data, not a mutation of
    /// the persisted state.
    #[verifier::loop_isolation(false)]
    pub fn resolve_all(&mut self, posts: &Posts)
        requires
            posts.wf(),
        ensures
            final(self).changed == old(self).changed,
            final(self).docs().len() == old(self).docs().len(),
            forall|k: int|
                0 <= k < old(self).docs().len() ==> (#[trigger] final(self).docs()[k]) == (UserV {
                    posts: resolved_cache(posts.docs(), old(self).docs()[k].post_ids),
                    ..old(self).docs()[k]
                }),
            old(self).wf() ==> final(self).wf(),
    {
        let n = self.data.len();
        let mut i: usize = 0;
        while i < n
            invariant
                n == self.data@.len(),
                self.data@.len() == old(self).data@.len(),
                i <= n,
                self.changed == old(self).changed,
                forall|k: int| i <= k < n ==> self.data@[k] == old(self).data@[k],
                forall|k: int|
                    0 <= k < i ==> (#[trigger] self.docs()[k]) == (UserV {
                        posts: resolved_cache(posts.docs(), old(self).docs()[k].post_ids),
                        ..old(self).docs()[k]
                    }),
            decreases n - i,
        {
            let ghost pre = self.data@;
            let ghost predocs = self.docs();
            let u = &mut self.data[i];
            u.resolve(posts);
            proof {
                assert forall|k: int| 0 <= k < i + 1 implies (#[trigger] self.docs()[k]) == (UserV {
                    posts: resolved_cache(posts.docs(), old(self).docs()[k].post_ids),
                    ..old(self).docs()[k]
                }) by {
                    assert(self.docs()[k] == self.data@[k]@);
                    assert(old(self).docs()[k] == old(self).data@[k]@);
                    if k < i as int {
                        assert(self.data@[k] == pre[k]);
                        assert(predocs[k] == pre[k].deep_view());
                        assert(predocs[k] == (UserV {
                            posts: resolved_cache(posts.docs(), old(self).docs()[k].post_ids),
                            ..old(self).docs()[k]
                        }));
                    } else {
                        assert(pre[k] == old(self).data@[k]);
                    }
                }
            }
            i = i + 1;
        }
        proof {
            assert forall|p: int, q: int|
                0 <= p < self.docs().len() && 0 <= q < self.docs().len() && p != q && old(self).wf()
                    && #[trigger] self.docs()[p].vid() != 0 implies #[trigger] self.docs()[q].vid()
                != self.docs()[p].vid() by {
                assert(self.docs()[p].vid() == old(self).docs()[p].vid());
                assert(self.docs()[q].vid() == old(self).docs()[q].vid());
            }
        }
    }
}

} // verus!
