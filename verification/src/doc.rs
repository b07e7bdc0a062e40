//! The document model: typed records with a sentinel-based liveness
//! convention, and the non-owning reference cells that relation caches
//! are made of.
//!
//! A document is *live* when its identifier differs from the sentinel
//! value `0`, and *tombstoned* when the identifier equals it. Documents
//! are compared and specified through their mathematical views
//! ([`PostV`], [`UserV`]), in which text is a `Seq<char>` and the
//! relation cache a `Seq<Option<PostV>>`.

use vstd::prelude::*;

verus! {

/// A record that a collection can hold: it exposes its identifier and
/// can be copied without losing any observable content.
pub trait Document: Sized + DeepView {
    /// The identifier; `0` marks a tombstoned document.
    spec fn spec_id(&self) -> u128;

    /// Returns the identifier.
    fn id(&self) -> (r: u128)
        ensures
            r == self.spec_id(),
    ;

    /// Returns a copy with the same observable content.
    fn duplicate(&self) -> (r: Self)
        ensures
            r.deep_view() == self.deep_view(),
            r.spec_id() == self.spec_id(),
    ;
}

/// A resolved entry of a relation cache: either a copy of the target
/// document taken at resolution time, or nothing when the target was
/// absent or tombstoned.
///
/// The cell never aliases the target collection's storage, so later
/// mutations of that collection cannot invalidate it; they merely make
/// it stale until resolution is run again.
pub struct Pointer<T>(Option<T>);

impl<T: Document> View for Pointer<T> {
    type V = Option<<T as DeepView>::V>;

    closed spec fn view(&self) -> Option<<T as DeepView>::V> {
        match self.0 {
            Some(d) => Some(d.deep_view()),
            None => None,
        }
    }
}

impl<T: Document> DeepView for Pointer<T> {
    type V = Option<<T as DeepView>::V>;

    open spec fn deep_view(&self) -> Option<<T as DeepView>::V> {
        self.view()
    }
}

impl<T: Document> Pointer<T> {
    /// Captures the outcome of a lookup: a live document is copied in,
    /// anything else (no document, or a tombstone) is recorded as absent.
    pub fn new(reference: Option<&T>) -> (r: Self)
        ensures
            reference matches Some(d) ==> r@ == (if d.spec_id() != 0 {
                Some(d.deep_view())
            } else {
                None
            }),
            reference is None ==> r@ is None,
    {
        match reference {
            Some(val) => {
                if val.id() == 0 {
                    Pointer(None)
                } else {
                    Pointer(Some(val.duplicate()))
                }
            },
            None => Pointer(None),
        }
    }

    /// The resolved document, if the entry is present.
    pub fn get(&self) -> (r: Option<&T>)
        ensures
            r is Some <==> self@ is Some,
            r matches Some(d) ==> self@ == Some(d.deep_view()),
    {
        match &self.0 {
            Some(v) => Some(v),
            None => None,
        }
    }

    /// Returns a copy of the entry.
    pub fn duplicate(&self) -> (r: Self)
        ensures
            r@ == self@,
    {
        match &self.0 {
            Some(v) => Pointer(Some(v.duplicate())),
            None => Pointer(None),
        }
    }
}

/// A shared post, the target of user relations.
pub struct Post {
    pub id: u128,
    pub created_at: u64,
    pub updated_at: u64,
    pub caption: String,
}

/// The mathematical view of a [`Post`].
pub struct PostV {
    pub id: u128,
    pub created_at: u64,
    pub updated_at: u64,
    pub caption: Seq<char>,
}

impl View for Post {
    type V = PostV;

    open spec fn view(&self) -> PostV {
        PostV {
            id: self.id,
            created_at: self.created_at,
            updated_at: self.updated_at,
            caption: self.caption@,
        }
    }
}

impl DeepView for Post {
    type V = PostV;

    open spec fn deep_view(&self) -> PostV {
        self.view()
    }
}

impl Document for Post {
    open spec fn spec_id(&self) -> u128 {
        self.id
    }

    fn id(&self) -> (r: u128)
        ensures
            r == self.spec_id(),
    {
        self.id
    }

    fn duplicate(&self) -> (r: Self)
        ensures
            r.deep_view() == self.deep_view(),
            r.spec_id() == self.spec_id(),
    {
        Post {
            id: self.id,
            created_at: self.created_at,
            updated_at: self.updated_at,
            caption: self.caption.clone(),
        }
    }
}

impl Post {
    /// Creates a post stamped with the current time.
    pub fn new(id: u128, caption: String) -> (r: Self)
        ensures
            r@.id == id,
            r@.caption == caption@,
            r@.created_at == r@.updated_at,
    {
        let now = current_seconds();
        Post { id, created_at: now, updated_at: now, caption }
    }
}

/// An account holding an ordered list of foreign post identifiers
/// (`post_ids`, the owned, persisted side of the relation) and the
/// derived cache of resolved entries (`posts`, never persisted).
pub struct User {
    pub id: u128,
    pub created_at: u64,
    pub updated_at: u64,
    pub username: String,
    pub email: String,
    pub hashed_password: u128,
    pub posts: Vec<Pointer<Post>>,
    pub post_ids: Vec<u128>,
}

/// The mathematical view of a [`User`].
pub struct UserV {
    pub id: u128,
    pub created_at: u64,
    pub updated_at: u64,
    pub username: Seq<char>,
    pub email: Seq<char>,
    pub hashed_password: u128,
    pub posts: Seq<Option<PostV>>,
    pub post_ids: Seq<u128>,
}

impl View for User {
    type V = UserV;

    open spec fn view(&self) -> UserV {
        UserV {
            id: self.id,
            created_at: self.created_at,
            updated_at: self.updated_at,
            username: self.username@,
            email: self.email@,
            hashed_password: self.hashed_password,
            posts: self.posts.deep_view(),
            post_ids: self.post_ids@,
        }
    }
}

impl DeepView for User {
    type V = UserV;

    open spec fn deep_view(&self) -> UserV {
        self.view()
    }
}

impl Document for User {
    open spec fn spec_id(&self) -> u128 {
        self.id
    }

    fn id(&self) -> (r: u128)
        ensures
            r == self.spec_id(),
    {
        self.id
    }

    fn duplicate(&self) -> (r: Self)
        ensures
            r.deep_view() == self.deep_view(),
            r.spec_id() == self.spec_id(),
    {
        let mut posts: Vec<Pointer<Post>> = Vec::new();
        let mut i: usize = 0;
        while i < self.posts.len()
            invariant
                i <= self.posts.len(),
                posts@.len() == i,
                forall|k: int| 0 <= k < i ==> #[trigger] posts@[k].deep_view()
                    == self.posts@[k].deep_view(),
            decreases self.posts.len() - i,
        {
            posts.push(self.posts[i].duplicate());
            i = i + 1;
        }
        let mut post_ids: Vec<u128> = Vec::new();
        let mut j: usize = 0;
        while j < self.post_ids.len()
            invariant
                j <= self.post_ids.len(),
                post_ids@ =~= self.post_ids@.take(j as int),
            decreases self.post_ids.len() - j,
        {
            post_ids.push(self.post_ids[j]);
            j = j + 1;
        }
        let r = User {
            id: self.id,
            created_at: self.created_at,
            updated_at: self.updated_at,
            username: self.username.clone(),
            email: self.email.clone(),
            hashed_password: self.hashed_password,
            posts,
            post_ids,
        };
        proof {
            assert(r.posts.deep_view() =~= self.posts.deep_view());
            assert(r.post_ids@ =~= self.post_ids@);
        }
        r
    }
}

impl User {
    /// Creates a user stamped with the current time. The relation id
    /// list is copied; the cache starts empty (all entries absent)
    /// until a resolution pass runs.
    pub fn new(
        id: u128,
        username: String,
        email: String,
        hashed_password: u128,
        post_ids: &Vec<u128>,
    ) -> (r: Self)
        ensures
            r@.id == id,
            r@.username == username@,
            r@.email == email@,
            r@.hashed_password == hashed_password,
            r@.post_ids == post_ids@,
            r@.posts == Seq::<Option<PostV>>::empty(),
            r@.created_at == r@.updated_at,
    {
        let now = current_seconds();
        let mut ids: Vec<u128> = Vec::new();
        let mut j: usize = 0;
        while j < post_ids.len()
            invariant
                j <= post_ids.len(),
                ids@ =~= post_ids@.take(j as int),
            decreases post_ids.len() - j,
        {
            ids.push(post_ids[j]);
            j = j + 1;
        }
        let r = User {
            id,
            created_at: now,
            updated_at: now,
            username,
            email,
            hashed_password,
            posts: Vec::new(),
            post_ids: ids,
        };
        proof {
            assert(r.post_ids@ =~= post_ids@);
            assert(r.posts.deep_view() =~= Seq::<Option<PostV>>::empty());
        }
        r
    }
}

/// Relies on `chrono::Utc::now` and `DateTime::timestamp`: the wall
/// clock as whole seconds since the Unix epoch. Nothing is assumed of
/// the value.
#[verifier::external_body]
fn now_timestamp() -> i64 {
    chrono::Utc::now().timestamp()
}

/// The current time as seconds since the Unix epoch, clamped to zero
/// for clocks set before it.
fn current_seconds() -> u64 {
    let t = now_timestamp();
    if t < 0 {
        0
    } else {
        t as u64
    }
}

} // verus!
