//! Per-connection limits on the objects a client may hold at once: history
//! searches, subscriptions (callbacks), history items and scenarios.

use vstd::prelude::*;

verus! {

/// Most searches one connection may hold.
pub const MAX_SEARCH_OBJECTS_PER_RPC_CONNECTION: usize = 128;

/// Most subscriptions one connection may hold.
pub const MAX_SUBSCRIPTION_OBJECTS_PER_RPC_CONNECTION: usize = 128;

/// Most history items one connection may hold.
pub const MAX_HISTORY_OBJECTS_PER_RPC_CONNECTION: usize = 128;

/// Most scenario objects one connection may hold.
pub const MAX_SCENARIO_OBJECTS_PER_RPC_CONNECTION: usize = 128;

/// Which limit a request ran into.
#[derive(Clone, Copy, Debug, PartialEq, Eq, Structural)]
pub enum QuotaExceeded {
    Searches,
    Subscriptions,
    HistoryItems,
    Scenarios,
}

impl QuotaExceeded {
    /// The limit that was reached.
    pub fn limit(self) -> (n: usize)
        ensures
            n == match self {
                QuotaExceeded::Searches => MAX_SEARCH_OBJECTS_PER_RPC_CONNECTION,
                QuotaExceeded::Subscriptions => MAX_SUBSCRIPTION_OBJECTS_PER_RPC_CONNECTION,
                QuotaExceeded::HistoryItems => MAX_HISTORY_OBJECTS_PER_RPC_CONNECTION,
                QuotaExceeded::Scenarios => MAX_SCENARIO_OBJECTS_PER_RPC_CONNECTION,
            },
    {
        match self {
            QuotaExceeded::Searches => MAX_SEARCH_OBJECTS_PER_RPC_CONNECTION,
            QuotaExceeded::Subscriptions => MAX_SUBSCRIPTION_OBJECTS_PER_RPC_CONNECTION,
            QuotaExceeded::HistoryItems => MAX_HISTORY_OBJECTS_PER_RPC_CONNECTION,
            QuotaExceeded::Scenarios => MAX_SCENARIO_OBJECTS_PER_RPC_CONNECTION,
        }
    }
}

/// The counts one connection keeps: objects currently held of each kind, and
/// how many subscriptions it ever opened (which numbers the next one).
pub struct ConnectionQuota {
    active_searches: usize,
    active_subscriptions: usize,
    total_subscriptions: usize,
    active_history_items: usize,
    active_scenarios: usize,
}

impl ConnectionQuota {
    pub closed spec fn searches(&self) -> nat {
        self.active_searches as nat
    }

    pub closed spec fn subscriptions(&self) -> nat {
        self.active_subscriptions as nat
    }

    pub closed spec fn subscriptions_opened(&self) -> nat {
        self.total_subscriptions as nat
    }

    pub closed spec fn history_items(&self) -> nat {
        self.active_history_items as nat
    }

    pub closed spec fn scenarios(&self) -> nat {
        self.active_scenarios as nat
    }

    /// No count is above its limit.
    pub open spec fn within_limits(&self) -> bool {
        &&& self.searches() <= MAX_SEARCH_OBJECTS_PER_RPC_CONNECTION
        &&& self.subscriptions() <= MAX_SUBSCRIPTION_OBJECTS_PER_RPC_CONNECTION
        &&& self.history_items() <= MAX_HISTORY_OBJECTS_PER_RPC_CONNECTION
        &&& self.scenarios() <= MAX_SCENARIO_OBJECTS_PER_RPC_CONNECTION
    }

    /// A new connection holds nothing.
    pub fn new() -> (q: ConnectionQuota)
        ensures
            q.searches() == 0,
            q.subscriptions() == 0,
            q.subscriptions_opened() == 0,
            q.history_items() == 0,
            q.scenarios() == 0,
            q.within_limits(),
    {
        ConnectionQuota {
            active_searches: 0,
            active_subscriptions: 0,
            total_subscriptions: 0,
            active_history_items: 0,
            active_scenarios: 0,
        }
    }

    /// Counts a new search, unless the connection already holds the most it may.
    pub fn open_search(&mut self) -> (r: Result<(), QuotaExceeded>)
        ensures
            old(self).within_limits() ==> final(self).within_limits(),
            old(self).searches() >= MAX_SEARCH_OBJECTS_PER_RPC_CONNECTION ==> r == Err::<(), QuotaExceeded>(
                QuotaExceeded::Searches,
            ) && *final(self) == *old(self),
            old(self).searches() < MAX_SEARCH_OBJECTS_PER_RPC_CONNECTION ==> r is Ok && final(self).searches()
                == old(self).searches() + 1 && final(self).subscriptions() == old(self).subscriptions()
                && final(self).subscriptions_opened() == old(self).subscriptions_opened()
                && final(self).history_items() == old(self).history_items() && final(self).scenarios()
                == old(self).scenarios(),
    {
        if self.active_searches >= MAX_SEARCH_OBJECTS_PER_RPC_CONNECTION {
            return Err(QuotaExceeded::Searches);
        }
        self.active_searches = self.active_searches + 1;
        Ok(())
    }

    /// A search was dropped.
    pub fn close_search(&mut self)
        requires
            old(self).searches() > 0,
        ensures
            old(self).within_limits() ==> final(self).within_limits(),
            final(self).searches() == old(self).searches() - 1,
            final(self).subscriptions() == old(self).subscriptions(),
            final(self).subscriptions_opened() == old(self).subscriptions_opened(),
            final(self).history_items() == old(self).history_items(),
            final(self).scenarios() == old(self).scenarios(),
    {
        self.active_searches = self.active_searches - 1;
    }

    /// Counts a new subscription and returns its number (the count of
    /// subscriptions opened before it), unless the connection already holds the
    /// most it may.
    pub fn open_subscription(&mut self) -> (r: Result<usize, QuotaExceeded>)
        requires
            old(self).subscriptions_opened() < usize::MAX,
        ensures
            old(self).within_limits() ==> final(self).within_limits(),
            old(self).subscriptions() >= MAX_SUBSCRIPTION_OBJECTS_PER_RPC_CONNECTION ==> r == Err::<usize, QuotaExceeded>(
                QuotaExceeded::Subscriptions,
            ) && *final(self) == *old(self),
            old(self).subscriptions() < MAX_SUBSCRIPTION_OBJECTS_PER_RPC_CONNECTION ==> r == Ok::<usize, QuotaExceeded>(
                old(self).subscriptions_opened() as usize,
            ) && final(self).subscriptions() == old(self).subscriptions() + 1 && final(self).subscriptions_opened()
                == old(self).subscriptions_opened() + 1 && final(self).searches() == old(self).searches()
                && final(self).history_items() == old(self).history_items() && final(self).scenarios()
                == old(self).scenarios(),
    {
        if self.active_subscriptions >= MAX_SUBSCRIPTION_OBJECTS_PER_RPC_CONNECTION {
            return Err(QuotaExceeded::Subscriptions);
        }
        let id = self.total_subscriptions;
        self.active_subscriptions = self.active_subscriptions + 1;
        self.total_subscriptions = self.total_subscriptions + 1;
        Ok(id)
    }

    /// A subscription was dropped.
    pub fn close_subscription(&mut self)
        requires
            old(self).subscriptions() > 0,
        ensures
            old(self).within_limits() ==> final(self).within_limits(),
            final(self).subscriptions() == old(self).subscriptions() - 1,
            final(self).subscriptions_opened() == old(self).subscriptions_opened(),
            final(self).searches() == old(self).searches(),
            final(self).history_items() == old(self).history_items(),
            final(self).scenarios() == old(self).scenarios(),
    {
        self.active_subscriptions = self.active_subscriptions - 1;
    }

    /// Counts a new history item, unless the connection already holds the most it may.
    pub fn open_history_item(&mut self) -> (r: Result<(), QuotaExceeded>)
        ensures
            old(self).within_limits() ==> final(self).within_limits(),
            old(self).history_items() >= MAX_HISTORY_OBJECTS_PER_RPC_CONNECTION ==> r == Err::<(), QuotaExceeded>(
                QuotaExceeded::HistoryItems,
            ) && *final(self) == *old(self),
            old(self).history_items() < MAX_HISTORY_OBJECTS_PER_RPC_CONNECTION ==> r is Ok && final(self).history_items()
                == old(self).history_items() + 1 && final(self).searches() == old(self).searches()
                && final(self).subscriptions() == old(self).subscriptions() && final(self).subscriptions_opened()
                == old(self).subscriptions_opened() && final(self).scenarios() == old(self).scenarios(),
    {
        if self.active_history_items >= MAX_HISTORY_OBJECTS_PER_RPC_CONNECTION {
            return Err(QuotaExceeded::HistoryItems);
        }
        self.active_history_items = self.active_history_items + 1;
        Ok(())
    }

    /// A history item was dropped.
    pub fn close_history_item(&mut self)
        requires
            old(self).history_items() > 0,
        ensures
            old(self).within_limits() ==> final(self).within_limits(),
            final(self).history_items() == old(self).history_items() - 1,
            final(self).searches() == old(self).searches(),
            final(self).subscriptions() == old(self).subscriptions(),
            final(self).subscriptions_opened() == old(self).subscriptions_opened(),
            final(self).scenarios() == old(self).scenarios(),
    {
        self.active_history_items = self.active_history_items - 1;
    }

    /// Counts a new scenario object, unless the connection already holds the most it may.
    pub fn open_scenario(&mut self) -> (r: Result<(), QuotaExceeded>)
        ensures
            old(self).within_limits() ==> final(self).within_limits(),
            old(self).scenarios() >= MAX_SCENARIO_OBJECTS_PER_RPC_CONNECTION ==> r == Err::<(), QuotaExceeded>(
                QuotaExceeded::Scenarios,
            ) && *final(self) == *old(self),
            old(self).scenarios() < MAX_SCENARIO_OBJECTS_PER_RPC_CONNECTION ==> r is Ok && final(self).scenarios()
                == old(self).scenarios() + 1 && final(self).searches() == old(self).searches()
                && final(self).subscriptions() == old(self).subscriptions() && final(self).subscriptions_opened()
                == old(self).subscriptions_opened() && final(self).history_items() == old(self).history_items(),
    {
        if self.active_scenarios >= MAX_SCENARIO_OBJECTS_PER_RPC_CONNECTION {
            return Err(QuotaExceeded::Scenarios);
        }
        self.active_scenarios = self.active_scenarios + 1;
        Ok(())
    }

    /// A scenario object was dropped.
    pub fn close_scenario(&mut self)
        requires
            old(self).scenarios() > 0,
        ensures
            old(self).within_limits() ==> final(self).within_limits(),
            final(self).scenarios() == old(self).scenarios() - 1,
            final(self).searches() == old(self).searches(),
            final(self).subscriptions() == old(self).subscriptions(),
            final(self).subscriptions_opened() == old(self).subscriptions_opened(),
            final(self).history_items() == old(self).history_items(),
    {
        self.active_scenarios = self.active_scenarios - 1;
    }
}

} // verus!
