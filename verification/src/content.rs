//! The in-memory cache for static content: each asset is kept with the
//! instant it was stored, entries past their time-to-live are dropped on
//! lookup, and a full cache is cleared wholesale before a new insert.
//! Serving the bytes over a connection stays outside the library.

use vstd::prelude::*;

use crate::kvmap::lemma_views_dom;
use crate::kvmap::lemma_views_insert;
use crate::kvmap::views_of;
use crate::kvmap::StrMap;

verus! {

use vstd::slice::slice_to_vec;

/// How long a cached asset stays fresh, in seconds.
pub const CACHE_TTL_SECONDS: u64 = 300;

/// How many assets the cache may hold.
pub const MAX_CACHE_SIZE: usize = 50000;

/// One cached asset: its bytes and when they were stored.
pub struct CachedAsset {
    pub data: Vec<u8>,
    pub stored_at: u64,
}

/// What a cached asset says, with the bytes as a sequence.
pub struct AssetView {
    pub data: Seq<u8>,
    pub stored_at: u64,
}

impl View for CachedAsset {
    type V = AssetView;

    open spec fn view(&self) -> AssetView {
        AssetView { data: self.data@, stored_at: self.stored_at }
    }
}

/// Whether an asset stored at `stored_at` is still fresh at `now`.
pub open spec fn fresh_at(stored_at: u64, now: u64) -> bool {
    now < stored_at + CACHE_TTL_SECONDS
}

/// The content cache, keyed by path.
pub struct CDNCache {
    cache: StrMap<CachedAsset>,
}

impl CDNCache {
    /// The cache as a map from path to asset.
    pub closed spec fn table(&self) -> Map<Seq<char>, AssetView> {
        views_of(self.cache@)
    }

    /// An empty cache.
    pub fn new() -> (r: CDNCache)
        ensures
            r.table() == Map::<Seq<char>, AssetView>::empty(),
    {
        let r = CDNCache { cache: StrMap::new() };
        proof {
            assert(r.table() =~= Map::<Seq<char>, AssetView>::empty());
        }
        r
    }

    /// The cached bytes for `path` if they are still fresh at `now`; a
    /// stale entry is dropped and reported as absent.
    pub fn get_asset(&mut self, path: &str, now: u64) -> (r: Option<Vec<u8>>)
        ensures
            match r {
                Some(v) => old(self).table().contains_key(path@) && fresh_at(
                    old(self).table()[path@].stored_at,
                    now,
                ) && v@ == old(self).table()[path@].data && final(self).table() == old(
                    self,
                ).table(),
                None => (!old(self).table().contains_key(path@) && final(self).table() == old(
                    self,
                ).table()) || (old(self).table().contains_key(path@) && !fresh_at(
                    old(self).table()[path@].stored_at,
                    now,
                ) && final(self).table() == old(self).table().remove(path@)),
            },
    {
        let hit = match self.cache.get(path) {
            Some(asset) => {
                let is_fresh = if asset.stored_at > u64::MAX - CACHE_TTL_SECONDS {
                    true
                } else {
                    now < asset.stored_at + CACHE_TTL_SECONDS
                };
                if is_fresh {
                    Some(slice_to_vec(asset.data.as_slice()))
                } else {
                    None
                }
            },
            None => {
                return None;
            },
        };
        match hit {
            Some(v) => Some(v),
            None => {
                let ghost before = self.cache@;
                self.cache.remove(path);
                proof {
                    crate::kvmap::lemma_views_remove(before, path@);
                }
                None
            },
        }
    }

    /// Stores an asset at instant `now`; a cache already holding its
    /// maximum is cleared wholesale first, so the new asset always
    /// lands and the table never grows past the maximum.
    pub fn cache_asset(&mut self, path: &str, data: &[u8], now: u64)
        ensures
            old(self).table().dom().len() < MAX_CACHE_SIZE ==> final(self).table() == old(
                self,
            ).table().insert(path@, AssetView { data: data@, stored_at: now }),
            old(self).table().dom().len() >= MAX_CACHE_SIZE ==> final(self).table() == Map::<
                Seq<char>,
                AssetView,
            >::empty().insert(path@, AssetView { data: data@, stored_at: now }),
    {
        proof {
            lemma_views_dom(self.cache@);
        }
        if self.cache.len() >= MAX_CACHE_SIZE {
            self.cache.clear();
        }
        let ghost before = self.cache@;
        self.cache.insert(path, CachedAsset { data: slice_to_vec(data), stored_at: now });
        proof {
            lemma_views_insert(before, path@, self.cache@[path@]);
            if old(self).table().dom().len() >= MAX_CACHE_SIZE {
                assert(views_of(before) =~= Map::<Seq<char>, AssetView>::empty());
            }
        }
    }
}

} // verus!
