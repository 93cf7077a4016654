//! Client-facing state kept by the frontend services: reactive UI
//! component state, the offline asset cache with its size limit, push
//! subscriptions, and a small keyed local store. All of them are exact
//! maps; the transport around them stays outside the library.

use vstd::prelude::*;

use crate::kvmap::lemma_views_insert;
use crate::kvmap::views_of;
use crate::kvmap::StrMap;

verus! {

use vstd::slice::slice_to_vec;
use vstd::string::StrSliceExecFns;
use vstd::string::StringExecFns;

/// How many assets the offline cache may hold.
pub const PWA_CACHE_LIMIT: usize = 100;

/// UI component state, keyed by component identifier.
pub struct UIState {
    components: StrMap<String>,
}

impl UIState {
    /// The component states as a map.
    pub closed spec fn table(&self) -> Map<Seq<char>, Seq<char>> {
        views_of(self.components@)
    }

    /// No components yet.
    pub fn new() -> (r: UIState)
        ensures
            r.table() == Map::<Seq<char>, Seq<char>>::empty(),
    {
        let r = UIState { components: StrMap::new() };
        proof {
            assert(r.table() =~= Map::<Seq<char>, Seq<char>>::empty());
        }
        r
    }

    /// Sets the state of one component.
    pub fn update_component(&mut self, component_id: &str, state: &str)
        ensures
            final(self).table() == old(self).table().insert(component_id@, state@),
    {
        let ghost before = self.components@;
        self.components.insert(component_id, state.to_owned());
        proof {
            lemma_views_insert(before, component_id@, self.components@[component_id@]);
        }
    }

    /// The state of one component, if it has any.
    pub fn get_component_state(&self, component_id: &str) -> (r: Option<String>)
        ensures
            match r {
                Some(v) => self.table().contains_key(component_id@) && v@
                    == self.table()[component_id@],
                None => !self.table().contains_key(component_id@),
            },
    {
        match self.components.get(component_id) {
            Some(v) => Some(v.as_str().to_owned()),
            None => None,
        }
    }
}

/// The offline asset cache: URL to cached bytes, up to a fixed number
/// of assets.
pub struct PwaCache {
    cache: StrMap<Vec<u8>>,
}

impl PwaCache {
    /// The cached assets as a map from URL to bytes.
    pub closed spec fn table(&self) -> Map<Seq<char>, Seq<u8>> {
        views_of(self.cache@)
    }

    /// An empty cache.
    pub fn new() -> (r: PwaCache)
        ensures
            r.table() == Map::<Seq<char>, Seq<u8>>::empty(),
    {
        let r = PwaCache { cache: StrMap::new() };
        proof {
            assert(r.table() =~= Map::<Seq<char>, Seq<u8>>::empty());
        }
        r
    }

    /// Stores an asset unless the cache is full; a full cache drops the
    /// request rather than evicting.
    pub fn cache_asset(&mut self, url: &str, data: &[u8]) -> (stored: bool)
        ensures
            stored == (old(self).table().dom().len() < PWA_CACHE_LIMIT || old(
                self,
            ).table().contains_key(url@)),
            stored ==> final(self).table() == old(self).table().insert(url@, data@),
            !stored ==> final(self).table() == old(self).table(),
    {
        proof {
            crate::kvmap::lemma_views_dom(self.cache@);
        }
        if self.cache.len() < PWA_CACHE_LIMIT || self.cache.contains_key(url) {
            let ghost before = self.cache@;
            self.cache.insert(url, slice_to_vec(data));
            proof {
                lemma_views_insert(before, url@, self.cache@[url@]);
            }
            true
        } else {
            false
        }
    }

    /// The cached bytes for `url`, if present.
    pub fn get_asset(&self, url: &str) -> (r: Option<Vec<u8>>)
        ensures
            match r {
                Some(v) => self.table().contains_key(url@) && v@ == self.table()[url@],
                None => !self.table().contains_key(url@),
            },
    {
        match self.cache.get(url) {
            Some(v) => Some(slice_to_vec(v.as_slice())),
            None => None,
        }
    }
}

/// Push subscriptions: device identifier to public key.
pub struct WebPushNotifications {
    subscribers: StrMap<String>,
}

impl WebPushNotifications {
    /// The subscriptions as a map.
    pub closed spec fn table(&self) -> Map<Seq<char>, Seq<char>> {
        views_of(self.subscribers@)
    }

    /// No subscribers yet.
    pub fn new() -> (r: WebPushNotifications)
        ensures
            r.table() == Map::<Seq<char>, Seq<char>>::empty(),
    {
        let r = WebPushNotifications { subscribers: StrMap::new() };
        proof {
            assert(r.table() =~= Map::<Seq<char>, Seq<char>>::empty());
        }
        r
    }

    /// Registers (or refreshes) a device's public key.
    pub fn register_device(&mut self, device_id: &str, public_key: &str)
        ensures
            final(self).table() == old(self).table().insert(device_id@, public_key@),
    {
        let ghost before = self.subscribers@;
        self.subscribers.insert(device_id, public_key.to_owned());
        proof {
            lemma_views_insert(before, device_id@, self.subscribers@[device_id@]);
        }
    }

    /// The public key registered for a device, if any.
    pub fn device_key(&self, device_id: &str) -> (r: Option<String>)
        ensures
            match r {
                Some(v) => self.table().contains_key(device_id@) && v@ == self.table()[device_id@],
                None => !self.table().contains_key(device_id@),
            },
    {
        match self.subscribers.get(device_id) {
            Some(v) => Some(v.as_str().to_owned()),
            None => None,
        }
    }
}

/// A small keyed store for client-side values; persisting it to disk is
/// the caller's concern.
pub struct SecureLocalStorage {
    entries: StrMap<String>,
}

impl SecureLocalStorage {
    /// The stored values as a map.
    pub closed spec fn table(&self) -> Map<Seq<char>, Seq<char>> {
        views_of(self.entries@)
    }

    /// An empty store.
    pub fn new() -> (r: SecureLocalStorage)
        ensures
            r.table() == Map::<Seq<char>, Seq<char>>::empty(),
    {
        let r = SecureLocalStorage { entries: StrMap::new() };
        proof {
            assert(r.table() =~= Map::<Seq<char>, Seq<char>>::empty());
        }
        r
    }

    /// Stores `value` under `key`.
    pub fn store_data(&mut self, key: &str, value: &str)
        ensures
            final(self).table() == old(self).table().insert(key@, value@),
    {
        let ghost before = self.entries@;
        self.entries.insert(key, value.to_owned());
        proof {
            lemma_views_insert(before, key@, self.entries@[key@]);
        }
    }

    /// The value stored under `key`, if any.
    pub fn retrieve_data(&self, key: &str) -> (r: Option<String>)
        ensures
            match r {
                Some(v) => self.table().contains_key(key@) && v@ == self.table()[key@],
                None => !self.table().contains_key(key@),
            },
    {
        match self.entries.get(key) {
            Some(v) => Some(v.as_str().to_owned()),
            None => None,
        }
    }
}

} // verus!
