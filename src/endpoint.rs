use vstd::prelude::*;
use vstd::string::*;

use crate::error::ArbError;

verus! {

/// Requests allowed to one endpoint within one throttle window.
pub const MAX_REQUESTS_PER_WINDOW: u32 = 50;

/// Length of a throttle window, in milliseconds.
pub const WINDOW_MS: u64 = 1000;

/// Consecutive failures after which an endpoint leaves the rotation.
pub const MAX_CONSECUTIVE_FAILURES: u32 = 5;

/// Public endpoints appended after the credentialed ones.
pub const FALLBACK_DEVNET: &'static str = "https://api.devnet.solana.com";

pub const FALLBACK_TESTNET: &'static str = "https://api.testnet.solana.com";

pub const CREDENTIALED_PREFIX: &'static str = "https://mainnet.helius-rpc.com/?api-key=";

/// Relies on std::time::SystemTime::now and duration_since: milliseconds
/// since the Unix epoch, or 0 where the clock stands before it.
#[verifier::external_body]
fn clock_millis() -> (r: u64) {
    match std::time::SystemTime::now().duration_since(std::time::UNIX_EPOCH) {
        Ok(d) => d.as_millis() as u64,
        Err(_) => 0,
    }
}

/// Time elapsed from `since` to `now`; a clock that went back counts as none.
pub open spec fn elapsed(since: u64, now: u64) -> int {
    if now >= since { now - since } else { 0 }
}

pub open spec fn window_expired(since: u64, now: u64) -> bool {
    elapsed(since, now) > WINDOW_MS
}

/// Counters and health flag of one backend.
#[derive(Debug, Clone)]
pub struct EndpointHealth {
    pub url: String,
    pub request_count: u32,
    /// Start of the current throttle window, in milliseconds.
    pub last_reset: u64,
    pub consecutive_failures: u32,
    pub is_healthy: bool,
}

impl EndpointHealth {
    /// The endpoint has used up its window at time `now`.
    pub open spec fn throttled(&self, now: u64) -> bool {
        !window_expired(self.last_reset, now) && self.request_count >= MAX_REQUESTS_PER_WINDOW
    }

    /// The endpoint may serve a request at time `now`.
    pub open spec fn qualifies(&self, now: u64) -> bool {
        self.is_healthy && !self.throttled(now)
    }

    /// Request count after one more request at `now`.
    pub open spec fn count_after_request(&self, now: u64) -> u32 {
        if window_expired(self.last_reset, now) {
            1
        } else if self.request_count == u32::MAX {
            u32::MAX
        } else {
            (self.request_count + 1) as u32
        }
    }

    pub open spec fn reset_after_request(&self, now: u64) -> u64 {
        if window_expired(self.last_reset, now) { now } else { self.last_reset }
    }

    /// The state after one request at `now`; url and health are kept.
    pub open spec fn after_request(&self, now: u64) -> EndpointHealth {
        EndpointHealth {
            request_count: self.count_after_request(now),
            last_reset: self.reset_after_request(now),
            ..*self
        }
    }

    /// The state after a reported failure.
    pub open spec fn after_failure(&self) -> EndpointHealth {
        let n: u32 = if self.consecutive_failures == u32::MAX {
            u32::MAX
        } else {
            (self.consecutive_failures + 1) as u32
        };
        EndpointHealth {
            consecutive_failures: n,
            is_healthy: self.is_healthy && n < MAX_CONSECUTIVE_FAILURES,
            ..*self
        }
    }

    /// The state after a reported success.
    pub open spec fn after_success(&self) -> EndpointHealth {
        EndpointHealth { consecutive_failures: 0, is_healthy: true, ..*self }
    }

    /// A fresh endpoint whose window starts at `now`.
    pub fn new_at(url: String, now: u64) -> (r: EndpointHealth)
        ensures
            r.url == url,
            r.request_count == 0,
            r.last_reset == now,
            r.consecutive_failures == 0,
            r.is_healthy,
    {
        EndpointHealth {
            url,
            request_count: 0,
            last_reset: now,
            consecutive_failures: 0,
            is_healthy: true,
        }
    }

    /// A fresh endpoint whose window starts at the current time.
    pub fn new(url: String) -> (r: EndpointHealth)
        ensures
            r.url == url,
            r.request_count == 0,
            r.consecutive_failures == 0,
            r.is_healthy,
    {
        EndpointHealth::new_at(url, clock_millis())
    }

    pub fn window_expired_at(&self, now: u64) -> (r: bool)
        ensures
            r == window_expired(self.last_reset, now),
    {
        now >= self.last_reset && now - self.last_reset > WINDOW_MS
    }

    pub fn should_throttle_at(&self, now: u64) -> (r: bool)
        ensures
            r == self.throttled(now),
    {
        if self.window_expired_at(now) {
            return false;
        }
        self.request_count >= MAX_REQUESTS_PER_WINDOW
    }

    /// Whether the endpoint is throttled at the current time.
    pub fn should_throttle(&self) -> (r: bool)
        ensures
            exists|now: u64| r == self.throttled(now),
    {
        self.should_throttle_at(clock_millis())
    }

    /// Counts one request at `now`, opening a new window first where the
    /// current one has run out.
    pub fn record_request_at(&mut self, now: u64)
        ensures
            *final(self) == old(self).after_request(now),
    {
        if self.window_expired_at(now) {
            self.request_count = 0;
            self.last_reset = now;
        }
        self.request_count = self.request_count.saturating_add(1);
    }

    /// Counts one request at the current time.
    pub fn record_request(&mut self)
        ensures
            exists|now: u64| *final(self) == old(self).after_request(now),
    {
        self.record_request_at(clock_millis());
    }

    pub fn record_failure(&mut self)
        ensures
            *final(self) == old(self).after_failure(),
    {
        self.consecutive_failures = self.consecutive_failures.saturating_add(1);
        if self.consecutive_failures >= MAX_CONSECUTIVE_FAILURES {
            self.is_healthy = false;
        }
    }

    pub fn record_success(&mut self)
        ensures
            *final(self) == old(self).after_success(),
    {
        self.consecutive_failures = 0;
        if !self.is_healthy {
            self.is_healthy = true;
        }
    }
}

/// A connection handle: the URL of the chosen backend. Opening the
/// connection is left to the caller.
#[derive(Debug, Clone)]
pub struct RpcHandle {
    pub url: String,
}

/// Round-robin failover over a fixed set of endpoints.
pub struct RpcManager {
    pub endpoints: Vec<EndpointHealth>,
    pub current_index: usize,
}

/// Offset from the cursor of the first qualifying endpoint among offsets
/// `k..n`, if any.
pub open spec fn first_qualifying_from(
    eps: Seq<EndpointHealth>,
    cursor: int,
    now: u64,
    k: int,
) -> Option<int>
    decreases eps.len() - k,
{
    if k >= eps.len() || k < 0 {
        None
    } else if eps[(cursor + k) % eps.len() as int].qualifies(now) {
        Some(k)
    } else {
        first_qualifying_from(eps, cursor, now, k + 1)
    }
}

/// Endpoints and cursor after one selection at `now` from `(eps, cursor)`.
pub open spec fn select_step(eps: Seq<EndpointHealth>, cursor: int, now: u64) -> (
    Seq<EndpointHealth>,
    int,
) {
    match first_qualifying_from(eps, cursor, now, 0) {
        Some(k) => {
            let j = (cursor + k) % eps.len() as int;
            (eps.update(j, eps[j].after_request(now)), (j + 1) % eps.len() as int)
        },
        None => (eps, cursor),
    }
}

/// Endpoints and cursor after `t` selections, the `m`-th at `times[m]`.
pub open spec fn select_steps(eps: Seq<EndpointHealth>, cursor: int, times: Seq<u64>, t: nat) -> (
    Seq<EndpointHealth>,
    int,
)
    decreases t,
{
    if t == 0 {
        (eps, cursor)
    } else {
        let prev = select_steps(eps, cursor, times, (t - 1) as nat);
        select_step(prev.0, prev.1, times[t - 1])
    }
}

/// Index chosen by the selection at `times[t]` that follows `t` selections.
pub open spec fn picked_after(eps: Seq<EndpointHealth>, cursor: int, times: Seq<u64>, t: nat) -> Option<
    int,
> {
    let st = select_steps(eps, cursor, times, t);
    match first_qualifying_from(st.0, st.1, times[t as int], 0) {
        Some(k) => Some((st.1 + k) % eps.len() as int),
        None => None,
    }
}

impl RpcManager {
    pub open spec fn wf(&self) -> bool {
        &&& self.endpoints.len() > 0
        &&& self.current_index < self.endpoints.len()
    }

    /// Index that `select` picks at time `now`, if any endpoint qualifies.
    pub open spec fn pick(&self, now: u64) -> Option<int> {
        match first_qualifying_from(self.endpoints@, self.current_index as int, now, 0) {
            Some(k) => Some((self.current_index + k) % self.endpoints.len() as int),
            None => None,
        }
    }

    /// Builds the endpoint list: one credentialed URL per key, in order,
    /// then the fallback endpoints.
    pub fn new_at(api_keys: Vec<String>, now: u64) -> (r: RpcManager)
        requires
            api_keys.len() + 2 <= usize::MAX,
        ensures
            r.wf(),
            r.current_index == 0,
            r.endpoints.len() == api_keys.len() + 2,
            forall|i: int|
                0 <= i < api_keys.len() ==> r.endpoints[i].url@ == CREDENTIALED_PREFIX@
                    + api_keys[i]@,
            r.endpoints[api_keys.len() as int].url@ == FALLBACK_DEVNET@,
            r.endpoints[api_keys.len() + 1].url@ == FALLBACK_TESTNET@,
            forall|i: int|
                0 <= i < r.endpoints.len() ==> {
                    let e = #[trigger] r.endpoints[i];
                    e.request_count == 0 && e.last_reset == now && e.consecutive_failures == 0
                        && e.is_healthy
                },
    {
        let mut endpoints: Vec<EndpointHealth> = Vec::new();
        let mut i: usize = 0;
        while i < api_keys.len()
            invariant
                i <= api_keys.len(),
                endpoints.len() == i,
                forall|j: int|
                    0 <= j < i ==> endpoints[j].url@ == CREDENTIALED_PREFIX@ + api_keys[j]@,
                forall|j: int|
                    0 <= j < i ==> {
                        let e = #[trigger] endpoints[j];
                        e.request_count == 0 && e.last_reset == now && e.consecutive_failures
                            == 0 && e.is_healthy
                    },
            decreases api_keys.len() - i,
        {
            let url = CREDENTIALED_PREFIX.to_owned().concat(api_keys[i].as_str());
            endpoints.push(EndpointHealth::new_at(url, now));
            i = i + 1;
        }
        endpoints.push(EndpointHealth::new_at(FALLBACK_DEVNET.to_owned(), now));
        endpoints.push(EndpointHealth::new_at(FALLBACK_TESTNET.to_owned(), now));
        RpcManager { endpoints, current_index: 0 }
    }

    /// Builds the endpoint list with every window starting now.
    pub fn new(api_keys: Vec<String>) -> (r: RpcManager)
        requires
            api_keys.len() + 2 <= usize::MAX,
        ensures
            r.wf(),
            r.current_index == 0,
            r.endpoints.len() == api_keys.len() + 2,
            forall|i: int|
                0 <= i < api_keys.len() ==> r.endpoints[i].url@ == CREDENTIALED_PREFIX@
                    + api_keys[i]@,
            r.endpoints[api_keys.len() as int].url@ == FALLBACK_DEVNET@,
            r.endpoints[api_keys.len() + 1].url@ == FALLBACK_TESTNET@,
            forall|i: int|
                0 <= i < r.endpoints.len() ==> {
                    let e = #[trigger] r.endpoints[i];
                    e.request_count == 0 && e.last_reset == r.endpoints[0].last_reset
                        && e.consecutive_failures == 0 && e.is_healthy
                },
    {
        RpcManager::new_at(api_keys, clock_millis())
    }

    pub fn endpoint_count(&self) -> (r: usize)
        ensures
            r == self.endpoints.len(),
    {
        self.endpoints.len()
    }

    /// Round-robin selection at time `now`: the first endpoint from the
    /// cursor on that is healthy and not throttled gets a request counted,
    /// and the cursor moves past it.
    pub fn select_at(&mut self, now: u64) -> (r: Result<RpcHandle, ArbError>)
        requires
            old(self).wf(),
        ensures
            final(self).wf(),
            final(self).endpoints.len() == old(self).endpoints.len(),
            (final(self).endpoints@, final(self).current_index as int) == select_step(
                old(self).endpoints@,
                old(self).current_index as int,
                now,
            ),
            match old(self).pick(now) {
                Some(j) => {
                    &&& r is Ok
                    &&& r->Ok_0.url == old(self).endpoints[j].url
                    &&& final(self).endpoints@ == old(self).endpoints@.update(
                        j,
                        old(self).endpoints[j].after_request(now),
                    )
                    &&& final(self).current_index == (j + 1) % old(self).endpoints.len() as int
                },
                None => {
                    &&& r == Err::<RpcHandle, ArbError>(ArbError::NoEndpointAvailable)
                    &&& *final(self) == *old(self)
                },
            },
    {
        let total = self.endpoints.len();
        let start = self.current_index;
        let mut k: usize = 0;
        while k < total
            invariant
                self == old(self),
                total == self.endpoints.len(),
                start == self.current_index,
                self.wf(),
                k <= total,
                first_qualifying_from(self.endpoints@, start as int, now, 0)
                    == first_qualifying_from(self.endpoints@, start as int, now, k as int),
            decreases total - k,
        {
            let idx = if k >= total - start { k - (total - start) } else { start + k };
            proof {
                assert(idx == (start + k) as int % total as int) by (nonlinear_arith)
                    requires
                        start < total,
                        k < total,
                        idx == if k >= total - start { k - (total - start) } else { start + k },
                ;
            }
            if self.endpoints[idx].is_healthy && !self.endpoints[idx].should_throttle_at(now) {
                let url = self.endpoints[idx].url.clone();
                self.endpoints[idx].record_request_at(now);
                self.current_index = if idx + 1 == total { 0 } else { idx + 1 };
                proof {
                    assert(self.current_index == (idx + 1) as int % total as int) by (nonlinear_arith)
                        requires
                            idx < total,
                            self.current_index == if idx + 1 == total { 0 } else { idx + 1 },
                    ;
                }
                return Ok(RpcHandle { url });
            }
            k = k + 1;
        }
        Err(ArbError::NoEndpointAvailable)
    }

    /// Selection at the current time.
    pub fn get_client(&mut self) -> (r: Result<RpcHandle, ArbError>)
        requires
            old(self).wf(),
        ensures
            final(self).wf(),
            final(self).endpoints.len() == old(self).endpoints.len(),
            exists|now: u64|
                (final(self).endpoints@, final(self).current_index as int) == select_step(
                    old(self).endpoints@,
                    old(self).current_index as int,
                    now,
                ) && match #[trigger] old(self).pick(now) {
                    Some(j) => {
                        &&& r is Ok
                        &&& r->Ok_0.url == old(self).endpoints[j].url
                        &&& final(self).endpoints@ == old(self).endpoints@.update(
                            j,
                            old(self).endpoints[j].after_request(now),
                        )
                        &&& final(self).current_index == (j + 1) % old(self).endpoints.len() as int
                    },
                    None => {
                        &&& r == Err::<RpcHandle, ArbError>(ArbError::NoEndpointAvailable)
                        &&& *final(self) == *old(self)
                    },
                },
    {
        let now = clock_millis();
        self.select_at(now)
    }

    /// Index of the first endpoint whose URL is `url`.
    pub fn find_url(&self, url: &str) -> (r: Option<usize>)
        ensures
            match r {
                Some(j) => {
                    &&& j < self.endpoints.len()
                    &&& self.endpoints[j as int].url@ == url@
                    &&& forall|i: int| 0 <= i < j ==> self.endpoints[i].url@ != url@
                },
                None => forall|i: int|
                    0 <= i < self.endpoints.len() ==> self.endpoints[i].url@ != url@,
            },
    {
        let target = url.to_owned();
        let mut i: usize = 0;
        while i < self.endpoints.len()
            invariant
                i <= self.endpoints.len(),
                target@ == url@,
                forall|k: int| 0 <= k < i ==> self.endpoints[k].url@ != url@,
            decreases self.endpoints.len() - i,
        {
            if self.endpoints[i].url == target {
                return Some(i);
            }
            i = i + 1;
        }
        None
    }

    /// Reports a successful query to `url`: its failure count is cleared and
    /// it is healthy again. Unknown URLs are ignored.
    pub fn record_success(&mut self, url: &str)
        requires
            old(self).wf(),
        ensures
            final(self).wf(),
            old(self).success_reported(*final(self), url@),
    {
        match self.find_url(url) {
            Some(j) => {
                proof {
                    self.lemma_url_index(url@, j as int);
                }
                self.endpoints[j].record_success();
            },
            None => {},
        }
    }

    /// Reports a failed query to `url`: its failure count grows, and it
    /// leaves the rotation once the count reaches the limit. Unknown URLs
    /// are ignored.
    pub fn record_failure(&mut self, url: &str)
        requires
            old(self).wf(),
        ensures
            final(self).wf(),
            old(self).failure_reported(*final(self), url@),
    {
        match self.find_url(url) {
            Some(j) => {
                proof {
                    self.lemma_url_index(url@, j as int);
                }
                self.endpoints[j].record_failure();
            },
            None => {},
        }
    }

    /// `next` is this manager after a failure reported for `url`.
    pub open spec fn failure_reported(&self, next: RpcManager, url: Seq<char>) -> bool {
        &&& next.current_index == self.current_index
        &&& match self.url_index(url) {
            Some(j) => next.endpoints@ == self.endpoints@.update(j, self.endpoints[j].after_failure()),
            None => next.endpoints@ == self.endpoints@,
        }
    }

    /// `next` is this manager after a success reported for `url`.
    pub open spec fn success_reported(&self, next: RpcManager, url: Seq<char>) -> bool {
        &&& next.current_index == self.current_index
        &&& match self.url_index(url) {
            Some(j) => next.endpoints@ == self.endpoints@.update(j, self.endpoints[j].after_success()),
            None => next.endpoints@ == self.endpoints@,
        }
    }

    proof fn lemma_url_index_props(&self, url: Seq<char>, j: int)
        requires
            self.url_index(url) == Some(j),
        ensures
            0 <= j < self.endpoints.len(),
            self.endpoints[j].url@ == url,
            forall|k: int| 0 <= k < j ==> self.endpoints[k].url@ != url,
    {
        let i0 = choose|i: int| 0 <= i < self.endpoints.len() && self.endpoints[i].url@ == url;
        self.lemma_first_url_exists(url, i0);
    }

    proof fn lemma_first_url_exists(&self, url: Seq<char>, i0: int)
        requires
            0 <= i0 < self.endpoints.len(),
            self.endpoints[i0].url@ == url,
        ensures
            exists|i: int|
                0 <= i < self.endpoints.len() && self.endpoints[i].url@ == url && forall|k: int|
                    0 <= k < i ==> self.endpoints[k].url@ != url,
        decreases i0,
    {
        if exists|k: int| 0 <= k < i0 && self.endpoints[k].url@ == url {
            let k = choose|k: int| 0 <= k < i0 && self.endpoints[k].url@ == url;
            self.lemma_first_url_exists(url, k);
        }
    }

    /// The first index whose URL is `url`, if any.
    pub open spec fn url_index(&self, url: Seq<char>) -> Option<int> {
        if exists|i: int| 0 <= i < self.endpoints.len() && self.endpoints[i].url@ == url {
            Some(
                choose|i: int|
                    0 <= i < self.endpoints.len() && self.endpoints[i].url@ == url && forall|
                        k: int,
                    |
                        0 <= k < i ==> self.endpoints[k].url@ != url,
            )
        } else {
            None
        }
    }

    proof fn lemma_url_index(&self, url: Seq<char>, j: int)
        requires
            0 <= j < self.endpoints.len(),
            self.endpoints[j].url@ == url,
            forall|k: int| 0 <= k < j ==> self.endpoints[k].url@ != url,
        ensures
            self.url_index(url) == Some(j),
    {
        let c = choose|i: int|
            0 <= i < self.endpoints.len() && self.endpoints[i].url@ == url && forall|k: int|
                0 <= k < i ==> self.endpoints[k].url@ != url;
        assert(0 <= c < self.endpoints.len() && self.endpoints[c].url@ == url && forall|k: int|
            0 <= k < c ==> self.endpoints[k].url@ != url);
        if c < j {
        } else if c > j {
            assert(self.endpoints[j].url@ != url);
        }
    }

    /// (url, healthy, requests in the current window) of every endpoint, in
    /// order.
    pub fn health_status(&self) -> (r: Vec<(String, bool, u32)>)
        ensures
            r.len() == self.endpoints.len(),
            forall|i: int|
                0 <= i < r.len() ==> {
                    &&& (#[trigger] r[i]).0@ == self.endpoints[i].url@
                    &&& r[i].1 == self.endpoints[i].is_healthy
                    &&& r[i].2 == self.endpoints[i].request_count
                },
    {
        let mut out: Vec<(String, bool, u32)> = Vec::new();
        let mut i: usize = 0;
        while i < self.endpoints.len()
            invariant
                i <= self.endpoints.len(),
                out.len() == i,
                forall|k: int|
                    0 <= k < i ==> {
                        &&& (#[trigger] out[k]).0@ == self.endpoints[k].url@
                        &&& out[k].1 == self.endpoints[k].is_healthy
                        &&& out[k].2 == self.endpoints[k].request_count
                    },
            decreases self.endpoints.len() - i,
        {
            let e = &self.endpoints[i];
            out.push((e.url.clone(), e.is_healthy, e.request_count));
            i = i + 1;
        }
        out
    }
}

/// The state after `k` requests, the `m`-th at `times[m]`.
pub open spec fn after_requests(e: EndpointHealth, times: Seq<u64>, k: nat) -> EndpointHealth
    decreases k,
{
    if k == 0 {
        e
    } else {
        after_requests(e, times, (k - 1) as nat).after_request(times[k - 1])
    }
}

/// The state after `k` failures reported in a row.
pub open spec fn after_failures(e: EndpointHealth, k: nat) -> EndpointHealth
    decreases k,
{
    if k == 0 {
        e
    } else {
        after_failures(e, (k - 1) as nat).after_failure()
    }
}

/// Requests within one window, from an empty count, are counted one by one,
/// and the cap is reached after exactly the allowed number: the endpoint is
/// throttled until its window runs out.
pub proof fn lemma_throttle_at_cap(e: EndpointHealth, times: Seq<u64>, k: nat)
    requires
        e.request_count == 0,
        k <= times.len(),
        forall|m: int| 0 <= m < times.len() ==> !window_expired(e.last_reset, #[trigger] times[m]),
        k <= MAX_REQUESTS_PER_WINDOW,
    ensures
        after_requests(e, times, k).request_count == k,
        after_requests(e, times, k).last_reset == e.last_reset,
        after_requests(e, times, k).is_healthy == e.is_healthy,
        forall|m: int|
            0 <= m < times.len() ==> after_requests(e, times, k).throttled(#[trigger] times[m]) == (k
                == MAX_REQUESTS_PER_WINDOW),
    decreases k,
{
    if k > 0 {
        lemma_throttle_at_cap(e, times, (k - 1) as nat);
        assert(!window_expired(e.last_reset, times[k - 1]));
    }
}

/// A manager whose every endpoint is throttled or unhealthy has nothing to
/// select.
pub proof fn lemma_none_available(m: RpcManager, now: u64)
    requires
        m.wf(),
        forall|i: int| 0 <= i < m.endpoints.len() ==> !(#[trigger] m.endpoints[i]).qualifies(now),
    ensures
        m.pick(now) is None,
{
    lemma_none_from(m.endpoints@, m.current_index as int, now, 0);
}

proof fn lemma_none_from(eps: Seq<EndpointHealth>, cursor: int, now: u64, k: int)
    requires
        eps.len() > 0,
        0 <= k,
        forall|i: int| 0 <= i < eps.len() ==> !(#[trigger] eps[i]).qualifies(now),
    ensures
        first_qualifying_from(eps, cursor, now, k) is None,
    decreases eps.len() - k,
{
    if k < eps.len() {
        let n = eps.len() as int;
        assert(0 <= (cursor + k) % n < n) by (nonlinear_arith)
            requires
                n > 0,
        ;
        assert(!eps[(cursor + k) % n].qualifies(now));
        lemma_none_from(eps, cursor, now, k + 1);
    }
}

/// Failures reported in a row are counted; the endpoint stays healthy
/// until the count reaches the limit and is unhealthy from then on.
pub proof fn lemma_failures_mark_unhealthy(e: EndpointHealth, k: nat)
    requires
        e.consecutive_failures == 0,
        e.is_healthy,
        k <= MAX_CONSECUTIVE_FAILURES,
    ensures
        after_failures(e, k).consecutive_failures == k,
        after_failures(e, k).is_healthy == (k < MAX_CONSECUTIVE_FAILURES),
    decreases k,
{
    if k > 0 {
        lemma_failures_mark_unhealthy(e, (k - 1) as nat);
    }
}

/// One success after the limit of failures brings the endpoint back into
/// the rotation with a cleared failure count.
pub proof fn lemma_success_restores(e: EndpointHealth)
    requires
        e.consecutive_failures == 0,
        e.is_healthy,
    ensures
        !after_failures(e, MAX_CONSECUTIVE_FAILURES as nat).is_healthy,
        after_failures(e, MAX_CONSECUTIVE_FAILURES as nat).after_success().is_healthy,
        after_failures(e, MAX_CONSECUTIVE_FAILURES as nat).after_success().consecutive_failures
            == 0,
{
    lemma_failures_mark_unhealthy(e, MAX_CONSECUTIVE_FAILURES as nat);
}

proof fn lemma_wrap(x: int, n: int)
    requires
        0 <= x < 2 * n,
        n > 0,
    ensures
        x % n == if x < n { x } else { x - n },
{
    if x < n {
        assert(x % n == x) by (nonlinear_arith)
            requires
                0 <= x < n,
        ;
    } else {
        assert(x % n == x - n) by (nonlinear_arith)
            requires
                n <= x < 2 * n,
        ;
    }
}

/// With every endpoint healthy and below the request cap, `n` selections in
/// a row from cursor `c`, at any times, take the endpoints `c, c + 1, ...`
/// modulo `n`: each endpoint exactly once, in insertion order, after which
/// the cursor is back at `c` and the rotation starts over.
pub proof fn lemma_round_robin_cycle(eps: Seq<EndpointHealth>, c: int, times: Seq<u64>, t: nat)
    requires
        eps.len() > 0,
        0 <= c < eps.len(),
        t < eps.len(),
        times.len() >= eps.len(),
        forall|i: int|
            0 <= i < eps.len() ==> (#[trigger] eps[i]).is_healthy && eps[i].request_count
                < MAX_REQUESTS_PER_WINDOW,
    ensures
        picked_after(eps, c, times, t) == Some((c + t) % eps.len() as int),
        select_steps(eps, c, times, (t + 1) as nat).1 == (c + t + 1) % eps.len() as int,
        select_steps(eps, c, times, eps.len()).1 == c,
{
    lemma_steps_visit(eps, c, times, t);
    let n = eps.len() as int;
    let st = select_steps(eps, c, times, t);
    lemma_wrap(c + t, n);
    lemma_wrap(st.1 + 0, n);
    lemma_wrap(st.1 - c + n, n);
    assert((st.1 - c + n) % n == t);
    assert(st.0[st.1] == eps[st.1]);
    assert(st.0[(st.1 + 0) % n].qualifies(times[t as int]));
    lemma_wrap(st.1 + 1, n);
    lemma_wrap(c + t + 1, n);
    lemma_steps_visit(eps, c, times, (n - 1) as nat);
    let last = select_steps(eps, c, times, (n - 1) as nat);
    lemma_wrap(c + n - 1, n);
    lemma_wrap(last.1 + 0, n);
    lemma_wrap(last.1 + 1, n);
    lemma_wrap(last.1 - c + n, n);
    assert((last.1 - c + n) % n == n - 1);
    assert(last.0[last.1] == eps[last.1]);
    assert(last.0[(last.1 + 0) % n].qualifies(times[n - 1]));
    lemma_wrap(c + n, n);
    assert(select_steps(eps, c, times, n as nat) == select_step(last.0, last.1, times[n - 1]));
}

/// After `t < n` selections from a rotation where all are healthy and below
/// the cap, the cursor stands at `c + t` (mod n), and the endpoints not yet
/// passed (those at distance `t` or more from `c`) are untouched.
proof fn lemma_steps_visit(eps: Seq<EndpointHealth>, c: int, times: Seq<u64>, t: nat)
    requires
        eps.len() > 0,
        0 <= c < eps.len(),
        t < eps.len(),
        times.len() >= eps.len(),
        forall|i: int|
            0 <= i < eps.len() ==> (#[trigger] eps[i]).is_healthy && eps[i].request_count
                < MAX_REQUESTS_PER_WINDOW,
    ensures
        select_steps(eps, c, times, t).0.len() == eps.len(),
        select_steps(eps, c, times, t).1 == (c + t) % eps.len() as int,
        forall|i: int|
            0 <= i < eps.len() && (i - c + eps.len()) % (eps.len() as int) >= t
                ==> #[trigger] select_steps(eps, c, times, t).0[i] == eps[i],
    decreases t,
{
    let n = eps.len() as int;
    lemma_wrap(c + t, n);
    if t > 0 {
        let pt = (t - 1) as nat;
        let now = times[pt as int];
        lemma_steps_visit(eps, c, times, pt);
        let prev = select_steps(eps, c, times, pt);
        let j = prev.1;
        lemma_wrap(c + pt, n);
        lemma_wrap(j - c + n, n);
        assert((j - c + n) % n == pt);
        assert(prev.0[j] == eps[j]);
        lemma_wrap(j + 0, n);
        assert(prev.0[(j + 0) % n].qualifies(now));
        assert(first_qualifying_from(prev.0, j, now, 0) == Some(0int));
        lemma_wrap(j + 1, n);
        assert forall|i: int|
            0 <= i < n && (i - c + n) % n >= t implies #[trigger] select_steps(
            eps,
            c,
            times,
            t,
        ).0[i] == eps[i] by {
            assert(i != j);
            assert(prev.0[i] == eps[i]);
        }
    }
}

/// A single healthy endpoint with a fresh window serves exactly the capped
/// number of selections made within that window; the selection after those,
/// still within it, finds nothing.
pub proof fn lemma_single_endpoint_cap(e: EndpointHealth, times: Seq<u64>, t: nat)
    requires
        e.is_healthy,
        e.request_count == 0,
        t < times.len(),
        forall|m: int| 0 <= m < times.len() ==> !window_expired(e.last_reset, #[trigger] times[m]),
        t <= MAX_REQUESTS_PER_WINDOW,
    ensures
        select_steps(seq![e], 0, times, t) == (seq![after_requests(e, times, t)], 0int),
        t < MAX_REQUESTS_PER_WINDOW ==> picked_after(seq![e], 0, times, t) == Some(0int),
        t == MAX_REQUESTS_PER_WINDOW ==> picked_after(seq![e], 0, times, t) is None,
    decreases t,
{
    lemma_throttle_at_cap(e, times, t);
    let cur = after_requests(e, times, t);
    let now = times[t as int];
    assert(cur.throttled(now) == (t == MAX_REQUESTS_PER_WINDOW));
    assert((0int + 0) % 1 == 0);
    assert((0int + 1) % 1 == 0);
    assert(seq![cur][(0int + 0) % 1] == cur);
    if t < MAX_REQUESTS_PER_WINDOW {
        assert(cur.qualifies(now));
        assert(first_qualifying_from(seq![cur], 0, now, 0) == Some(0int));
    }
    if t > 0 {
        let pnow = times[t - 1];
        lemma_single_endpoint_cap(e, times, (t - 1) as nat);
        let prev = after_requests(e, times, (t - 1) as nat);
        lemma_throttle_at_cap(e, times, (t - 1) as nat);
        assert(prev.throttled(pnow) == false);
        assert(seq![prev][(0int + 0) % 1] == prev);
        assert(first_qualifying_from(seq![prev], 0, pnow, 0) == Some(0int));
        assert(seq![prev].update(0, prev.after_request(pnow)) =~= seq![cur]);
    }
    if t == MAX_REQUESTS_PER_WINDOW {
        assert(first_qualifying_from(seq![cur], 0, now, 1) is None);
    }
}

/// States of a manager across `k` failures reported for `url`, whose first
/// endpoint is `j`: the URLs stay, `j` stays the endpoint of `url`, and it
/// has seen `k` failures in a row.
proof fn lemma_failure_reports(ms: Seq<RpcManager>, url: Seq<char>, j: int, k: int)
    requires
        0 <= k < ms.len(),
        ms[0].url_index(url) == Some(j),
        forall|m: int| 0 <= m < k ==> (#[trigger] ms[m]).failure_reported(ms[m + 1], url),
    ensures
        ms[k].endpoints.len() == ms[0].endpoints.len(),
        forall|i: int|
            0 <= i < ms[0].endpoints.len() ==> (#[trigger] ms[k].endpoints[i]).url
                == ms[0].endpoints[i].url,
        ms[k].url_index(url) == Some(j),
        ms[k].endpoints[j] == after_failures(ms[0].endpoints[j], k as nat),
    decreases k,
{
    ms[0].lemma_url_index_props(url, j);
    if k > 0 {
        lemma_failure_reports(ms, url, j, k - 1);
        let prev = ms[k - 1];
        assert(prev.failure_reported(ms[k], url));
        assert forall|i: int| 0 <= i < ms[0].endpoints.len() implies (#[trigger] ms[k].endpoints[
            i]).url == ms[0].endpoints[i].url by {
            assert(prev.endpoints[i].url == ms[0].endpoints[i].url);
        }
        ms[k].lemma_url_index(url, j);
    }
}

/// Five failures reported in a row for one URL take its endpoint out of
/// the rotation (it stays in until the fifth); one success reported after
/// them brings it back with a cleared failure count.
pub proof fn lemma_manager_health_transition(ms: Seq<RpcManager>, url: Seq<char>, j: int)
    requires
        ms.len() == 7,
        ms[0].url_index(url) == Some(j),
        ms[0].endpoints[j].is_healthy,
        ms[0].endpoints[j].consecutive_failures == 0,
        forall|k: int| 0 <= k < 5 ==> (#[trigger] ms[k]).failure_reported(ms[k + 1], url),
        ms[5].success_reported(ms[6], url),
    ensures
        forall|k: int| 0 <= k < 5 ==> (#[trigger] ms[k]).endpoints[j].is_healthy,
        !ms[5].endpoints[j].is_healthy,
        ms[5].endpoints[j].consecutive_failures == 5,
        ms[6].endpoints[j].is_healthy,
        ms[6].endpoints[j].consecutive_failures == 0,
{
    let e = ms[0].endpoints[j];
    assert forall|k: int| 0 <= k < 5 implies (#[trigger] ms[k]).endpoints[j].is_healthy by {
        lemma_failure_reports(ms, url, j, k);
        lemma_failures_mark_unhealthy(e, k as nat);
    }
    lemma_failure_reports(ms, url, j, 5);
    lemma_failures_mark_unhealthy(e, 5);
    ms[0].lemma_url_index_props(url, j);
}

} // verus!
