use std::num::NonZeroUsize;

use lru::LruCache;
use vstd::prelude::*;
use vstd::string::StringSliceAdditionalSpecFns;

use crate::examples::{sha1_digest, spec_sha1};

verus! {

/// The `lru::LruCache` type, held opaquely: what it holds is named by
/// [`lru_entries`] and [`lru_capacity`].
#[verifier::external_type_specification]
#[verifier::external_body]
#[verifier::reject_recursive_types(K)]
#[verifier::reject_recursive_types(V)]
#[verifier::reject_recursive_types(S)]
pub struct ExLruCache<K, V, S>(LruCache<K, V, S>);

/// The `lru::DefaultHasher` type, the default hasher parameter of the cache.
#[verifier::external_type_specification]
#[verifier::external_body]
pub struct ExDefaultHasher(lru::DefaultHasher);

/// The entries of a cache of compiled typst sources: digest to SVG.
pub uninterp spec fn lru_entries(c: LruCache<Vec<u8>, String>) -> Map<Seq<u8>, Seq<char>>;

/// The capacity that a cache of compiled typst sources was made with.
pub uninterp spec fn lru_capacity(c: LruCache<Vec<u8>, String>) -> nat;

/// The keys of a cache of compiled typst sources from the least to the
/// most recently used.
pub uninterp spec fn lru_order(c: LruCache<Vec<u8>, String>) -> Seq<Seq<u8>>;

/// Whether a cache holds finitely many entries, at most its capacity, each
/// key once in its recency order.
pub open spec fn lru_within_capacity(c: LruCache<Vec<u8>, String>) -> bool {
    &&& lru_entries(c).dom().finite()
    &&& lru_entries(c).len() <= lru_capacity(c)
    &&& lru_order(c).no_duplicates()
    &&& lru_order(c).len() == lru_entries(c).len()
    &&& forall|k: Seq<u8>| #[trigger] lru_order(c).contains(k) <==> lru_entries(c).contains_key(k)
}

/// The recency order `order` after a use of `k`: `k` moves to the back.
pub open spec fn move_to_back(order: Seq<Seq<u8>>, k: Seq<u8>) -> Seq<Seq<u8>> {
    order.filter(|x: Seq<u8>| x != k).push(k)
}

/// `lru::LruCache::new`: an empty cache with room for `cap` entries.
#[verifier::external_body]
fn lru_new(cap: usize) -> (made: LruCache<Vec<u8>, String>)
    requires
        cap > 0,
    ensures
        lru_entries(made).dom() == Set::<Seq<u8>>::empty(),
        lru_order(made) == Seq::<Seq<u8>>::empty(),
        lru_capacity(made) == cap,
        lru_within_capacity(made),
{
    LruCache::new(NonZeroUsize::new(cap).unwrap())
}

/// `lru::LruCache::get`: the value of `k` when the cache holds it, the entry
/// becoming the most recently used one. The entries stay as they were.
#[verifier::external_body]
fn lru_get(c: &mut LruCache<Vec<u8>, String>, k: &Vec<u8>) -> (r: Option<String>)
    requires
        lru_within_capacity(*old(c)),
    ensures
        lru_entries(*final(c)) == lru_entries(*old(c)),
        lru_capacity(*final(c)) == lru_capacity(*old(c)),
        lru_within_capacity(*final(c)),
        r matches Some(v) ==> lru_entries(*old(c)).contains_key(k@) && v@ == lru_entries(
            *old(c),
        )[k@],
        r is None ==> !lru_entries(*old(c)).contains_key(k@),
        r is Some ==> lru_order(*final(c)) == move_to_back(lru_order(*old(c)), k@),
        r is None ==> lru_order(*final(c)) == lru_order(*old(c)),
{
    c.get(k).cloned()
}

/// `lru::LruCache::put`: the cache maps `k` to `v`, which becomes the most
/// recently used entry. Where `k` is new and the cache is full, the least
/// recently used entry leaves first.
#[verifier::external_body]
fn lru_put(c: &mut LruCache<Vec<u8>, String>, k: Vec<u8>, v: String)
    requires
        lru_within_capacity(*old(c)),
    ensures
        lru_capacity(*final(c)) == lru_capacity(*old(c)),
        lru_within_capacity(*final(c)),
        lru_entries(*old(c)).contains_key(k@) ==> lru_entries(*final(c)) == lru_entries(
            *old(c),
        ).insert(k@, v@) && lru_order(*final(c)) == move_to_back(lru_order(*old(c)), k@),
        !lru_entries(*old(c)).contains_key(k@) && lru_entries(*old(c)).len() < lru_capacity(
            *old(c),
        ) ==> lru_entries(*final(c)) == lru_entries(*old(c)).insert(k@, v@) && lru_order(
            *final(c),
        ) == lru_order(*old(c)).push(k@),
        !lru_entries(*old(c)).contains_key(k@) && lru_entries(*old(c)).len() >= lru_capacity(
            *old(c),
        ) ==> lru_entries(*final(c)) == lru_entries(*old(c)).remove(lru_order(*old(c))[0]).insert(
            k@,
            v@,
        ) && lru_order(*final(c)) == lru_order(*old(c)).drop_first().push(k@),
{
    c.put(k, v);
}

/// A cache of the SVG that typst compiles sources to, keyed by the SHA-1
/// digest of the source.
pub struct TypstLruCache {
    inner: LruCache<Vec<u8>, String>,
}

impl TypstLruCache {
    /// The digests and SVGs that the cache holds.
    pub closed spec fn entries(self) -> Map<Seq<u8>, Seq<char>> {
        lru_entries(self.inner)
    }

    /// How many entries the cache holds at most.
    pub closed spec fn capacity(self) -> nat {
        lru_capacity(self.inner)
    }

    /// The digests the cache holds, from the least to the most recently
    /// used.
    pub closed spec fn recency(self) -> Seq<Seq<u8>> {
        lru_order(self.inner)
    }

    /// Whether the cache holds at most its capacity, each digest once in
    /// its recency order.
    pub closed spec fn wf(self) -> bool {
        lru_within_capacity(self.inner)
    }

    /// An empty cache with room for `cap` entries.
    pub fn new(cap: usize) -> (c: Self)
        requires
            cap > 0,
        ensures
            c.wf(),
            c.entries().dom() == Set::<Seq<u8>>::empty(),
            c.recency() == Seq::<Seq<u8>>::empty(),
            c.capacity() == cap,
    {
        let inner = lru_new(cap);
        TypstLruCache { inner }
    }

    /// The SVG of `typst_str`: the cached one when the cache holds its
    /// digest, else what `compile` returns, which the cache then keeps,
    /// dropping its least recently used entry when it is full. Either way
    /// the digest becomes the most recently used one.
    pub fn get_or_insert<F: FnOnce() -> String>(&mut self, typst_str: &str, compile: F) -> (r:
        String)
        requires
            old(self).wf(),
            call_requires(compile, ()),
        ensures
            final(self).wf(),
            final(self).capacity() == old(self).capacity(),
            final(self).entries().contains_key(spec_sha1(typst_str.spec_bytes())),
            final(self).entries()[spec_sha1(typst_str.spec_bytes())] == r@,
            old(self).entries().contains_key(spec_sha1(typst_str.spec_bytes())) ==> r@ == old(
                self,
            ).entries()[spec_sha1(typst_str.spec_bytes())] && final(self).entries() == old(
                self,
            ).entries() && final(self).recency() == move_to_back(
                old(self).recency(),
                spec_sha1(typst_str.spec_bytes()),
            ),
            !old(self).entries().contains_key(spec_sha1(typst_str.spec_bytes())) ==> call_ensures(
                compile,
                (),
                r,
            ),
            !old(self).entries().contains_key(spec_sha1(typst_str.spec_bytes())) && old(
                self,
            ).entries().len() < old(self).capacity() ==> final(self).entries() == old(
                self,
            ).entries().insert(spec_sha1(typst_str.spec_bytes()), r@) && final(self).recency()
                == old(self).recency().push(spec_sha1(typst_str.spec_bytes())),
            !old(self).entries().contains_key(spec_sha1(typst_str.spec_bytes())) && old(
                self,
            ).entries().len() >= old(self).capacity() ==> final(self).entries() == old(
                self,
            ).entries().remove(old(self).recency()[0]).insert(
                spec_sha1(typst_str.spec_bytes()),
                r@,
            ) && final(self).recency() == old(self).recency().drop_first().push(
                spec_sha1(typst_str.spec_bytes()),
            ),
    {
        let key = sha1_digest(typst_str.as_bytes());
        match lru_get(&mut self.inner, &key) {
            Some(svg) => svg,
            None => {
                let svg = compile();
                lru_put(&mut self.inner, key, svg.clone());
                svg
            },
        }
    }
}

/// Compiles typst string to SVG string, through the cache: `compile` is
/// called only when the cache does not hold the source's digest, and its
/// result then replaces the least recently used entry of a full cache.
pub fn typst_svg<F: FnOnce() -> String>(cache: &mut TypstLruCache, source: &str, compile: F) -> (r:
    String)
    requires
        old(cache).wf(),
        call_requires(compile, ()),
    ensures
        final(cache).wf(),
        final(cache).capacity() == old(cache).capacity(),
        final(cache).entries().contains_key(spec_sha1(source.spec_bytes())),
        final(cache).entries()[spec_sha1(source.spec_bytes())] == r@,
        old(cache).entries().contains_key(spec_sha1(source.spec_bytes())) ==> r@ == old(
            cache,
        ).entries()[spec_sha1(source.spec_bytes())] && final(cache).entries() == old(
            cache,
        ).entries() && final(cache).recency() == move_to_back(
            old(cache).recency(),
            spec_sha1(source.spec_bytes()),
        ),
        !old(cache).entries().contains_key(spec_sha1(source.spec_bytes())) ==> call_ensures(
            compile,
            (),
            r,
        ),
        !old(cache).entries().contains_key(spec_sha1(source.spec_bytes())) && old(
            cache,
        ).entries().len() < old(cache).capacity() ==> final(cache).entries() == old(
            cache,
        ).entries().insert(spec_sha1(source.spec_bytes()), r@) && final(cache).recency() == old(
            cache,
        ).recency().push(spec_sha1(source.spec_bytes())),
        !old(cache).entries().contains_key(spec_sha1(source.spec_bytes())) && old(
            cache,
        ).entries().len() >= old(cache).capacity() ==> final(cache).entries() == old(
            cache,
        ).entries().remove(old(cache).recency()[0]).insert(spec_sha1(source.spec_bytes()), r@)
            && final(cache).recency() == old(cache).recency().drop_first().push(
            spec_sha1(source.spec_bytes()),
        ),
{
    cache.get_or_insert(source, compile)
}

} // verus!
