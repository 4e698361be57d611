//! The engine's services over the stores: the reader-protocol stream
//! adapter, subscription management and ingestion, and user sessions.

pub mod feeds;
pub mod stream;
pub mod subscriptions;
pub mod users;

use vstd::prelude::*;
use crate::database::items::ItemStore;
use crate::database::subscriptions::SubscriptionStore;
use crate::database::users::UserStore;

verus! {

/// The engine: every store, under one owner.
pub struct Services {
    pub item_store: ItemStore,
    pub subscription_store: SubscriptionStore,
    pub user_store: UserStore,
}

impl Services {
    /// Whether every store is well formed.
    pub open spec fn wf(&self) -> bool {
        &&& self.item_store.wf()
        &&& self.subscription_store.wf()
        &&& self.user_store.wf()
    }

    /// A fresh engine with empty stores.
    pub fn new() -> (r: Services)
        ensures
            r.wf(),
            r.item_store.rows() =~= Seq::<crate::database::items::ItemView>::empty(),
            r.subscription_store.subs() =~= Seq::<
                crate::database::subscriptions::SubscriptionView,
            >::empty(),
            r.user_store.users() =~= Seq::<crate::database::users::UserView>::empty(),
    {
        Services {
            item_store: ItemStore::new(),
            subscription_store: SubscriptionStore::new(),
            user_store: UserStore::new(),
        }
    }
}

} // verus!
