//! The tracker's watch over the peers: each peer sends heartbeats; every
//! heartbeat starts a deadline one interval away, and a peer whose latest
//! deadline passes with no newer heartbeat is dropped.
//!
//! The clock is the caller's: it calls `on_deadline` once for every deadline
//! that a heartbeat (or a registration) started, when that deadline passes.
use vstd::prelude::*;

verus! {

/// One more, wrapping at 2^32 as the counters do.
pub open spec fn wrap_inc(x: u32) -> u32 {
    if x == u32::MAX {
        0
    } else {
        (x + 1) as u32
    }
}

fn wrap_inc_exec(x: u32) -> (r: u32)
    ensures
        r == wrap_inc(x),
{
    if x == u32::MAX {
        0
    } else {
        x + 1
    }
}

/// How often a peer sends its heartbeat, in milliseconds, when the tracker
/// expects one every `interval` milliseconds: twice per interval, so that
/// each heartbeat comes well within the interval of the one before.
pub fn heartbeat_period(interval: u64) -> (r: u64)
    ensures
        r == interval / 2,
{
    interval / 2
}

/// The watch over one peer: the heartbeats counted so far and the deadlines
/// passed so far.
pub struct KeepAliveTimer {
    keep_alive_interval: u64,
    expected_count: u32,
    inner_count: u32,
    peer_id: u32,
}

pub struct TimerView {
    pub keep_alive_interval: u64,
    pub expected_count: u32,
    pub inner_count: u32,
    pub peer_id: u32,
}

impl View for KeepAliveTimer {
    type V = TimerView;

    closed spec fn view(&self) -> TimerView {
        TimerView {
            keep_alive_interval: self.keep_alive_interval,
            expected_count: self.expected_count,
            inner_count: self.inner_count,
            peer_id: self.peer_id,
        }
    }
}

/// The timer after a heartbeat.
pub open spec fn flushed(t: TimerView) -> TimerView {
    TimerView { expected_count: wrap_inc(t.expected_count), ..t }
}

/// The timer after a deadline passed.
pub open spec fn deadline_passed(t: TimerView) -> TimerView {
    TimerView { inner_count: wrap_inc(t.inner_count), ..t }
}

/// The peer is dropped at a deadline when, once counted, the deadlines passed
/// catch up with the heartbeats: no heartbeat came since the one that started
/// this deadline.
pub open spec fn drops_at_deadline(t: TimerView) -> bool {
    wrap_inc(t.inner_count) == t.expected_count
}

impl KeepAliveTimer {
    /// A timer for `peer_id` with deadlines `interval` milliseconds after each
    /// heartbeat; nothing counted yet.
    pub fn new(interval: u64, peer_id: u32) -> (r: Self)
        ensures
            r@ == (TimerView { keep_alive_interval: interval, expected_count: 0, inner_count: 0, peer_id }),
    {
        KeepAliveTimer { keep_alive_interval: interval, expected_count: 0, inner_count: 0, peer_id }
    }

    /// A heartbeat: one more is counted. Returns the delay after which the
    /// deadline it starts passes. When each such deadline drops the peer, for
    /// heartbeats at given times, is `lemma_drops_after_k_heartbeats`.
    pub fn flush_timing(&mut self) -> (r: u64)
        ensures
            final(self)@ == flushed(old(self)@),
            r == old(self)@.keep_alive_interval,
    {
        self.expected_count = wrap_inc_exec(self.expected_count);
        self.keep_alive_interval
    }

    /// A deadline passed: says whether the peer is to be dropped.
    pub fn on_deadline(&mut self) -> (dropped: bool)
        ensures
            final(self)@ == deadline_passed(old(self)@),
            dropped == drops_at_deadline(old(self)@),
    {
        self.inner_count = wrap_inc_exec(self.inner_count);
        self.inner_count == self.expected_count
    }

    /// The peer watched.
    pub fn peer_id(&self) -> (r: u32)
        ensures
            r == self@.peer_id,
    {
        self.peer_id
    }
}

/// Law: take a timer whose deadlines have all passed. After one heartbeat, its
/// deadline drops the peer. After two heartbeats, the first deadline does not
/// drop it and the second one does. For any number of heartbeats at given
/// times, see `lemma_drops_after_k_heartbeats`.
pub proof fn lemma_quiet_peer_is_dropped(t: TimerView)
    requires
        t.inner_count == t.expected_count,
    ensures
        drops_at_deadline(flushed(t)),
        !drops_at_deadline(flushed(flushed(t))),
        drops_at_deadline(deadline_passed(flushed(flushed(t)))),
{
}

/// The timer after `n` heartbeats.
pub open spec fn flushed_n(t: TimerView, n: nat) -> TimerView
    decreases n,
{
    if n == 0 {
        t
    } else {
        flushed(flushed_n(t, (n - 1) as nat))
    }
}

/// The timer after `n` deadlines passed.
pub open spec fn passed_n(t: TimerView, n: nat) -> TimerView
    decreases n,
{
    if n == 0 {
        t
    } else {
        deadline_passed(passed_n(t, (n - 1) as nat))
    }
}

/// How many of the times `ts` are at or before `x`.
pub open spec fn count_by(ts: Seq<int>, x: int) -> nat
    decreases ts.len(),
{
    if ts.len() == 0 {
        0
    } else {
        count_by(ts.drop_last(), x) + if ts.last() <= x {
            1nat
        } else {
            0nat
        }
    }
}

pub open spec fn strictly_increasing(ts: Seq<int>) -> bool {
    forall|i: int, j: int| 0 <= i < j < ts.len() ==> ts[i] < ts[j]
}

/// A new timer for `peer_id` at the moment the deadline of heartbeat `j`
/// (of heartbeats at times `ts`) is handled: every heartbeat at or before
/// `ts[j] + interval` is counted, and the deadlines of the heartbeats before
/// `j`, which come earlier, have passed.
pub open spec fn timer_at_deadline(interval: u64, peer_id: u32, ts: Seq<int>, j: int) -> TimerView {
    passed_n(
        flushed_n(
            TimerView { keep_alive_interval: interval, expected_count: 0, inner_count: 0, peer_id },
            count_by(ts, ts[j] + interval),
        ),
        j as nat,
    )
}

proof fn lemma_flushed_n(t: TimerView, n: nat)
    requires
        t.expected_count + n <= u32::MAX,
    ensures
        flushed_n(t, n) == (TimerView { expected_count: (t.expected_count + n) as u32, ..t }),
    decreases n,
{
    if n > 0 {
        lemma_flushed_n(t, (n - 1) as nat);
    }
}

proof fn lemma_passed_n(t: TimerView, n: nat)
    requires
        t.inner_count + n <= u32::MAX,
    ensures
        passed_n(t, n) == (TimerView { inner_count: (t.inner_count + n) as u32, ..t }),
    decreases n,
{
    if n > 0 {
        lemma_passed_n(t, (n - 1) as nat);
    }
}

proof fn lemma_count_le_len(ts: Seq<int>, x: int)
    ensures
        count_by(ts, x) <= ts.len(),
    decreases ts.len(),
{
    if ts.len() > 0 {
        lemma_count_le_len(ts.drop_last(), x);
    }
}

/// When the first `m` times are at or before `x`, at least `m` are counted.
proof fn lemma_count_at_least(ts: Seq<int>, x: int, m: int)
    requires
        0 <= m <= ts.len(),
        forall|i: int| 0 <= i < m ==> #[trigger] ts[i] <= x,
    ensures
        count_by(ts, x) >= m,
    decreases ts.len(),
{
    if ts.len() > 0 {
        let pre = ts.drop_last();
        let m2 = if m == ts.len() { m - 1 } else { m };
        assert forall|i: int| 0 <= i < m2 implies #[trigger] pre[i] <= x by {
            assert(pre[i] == ts[i]);
        }
        lemma_count_at_least(pre, x, m2);
        if m == ts.len() {
            assert(ts[ts.len() - 1] <= x);
        }
    }
}

/// When exactly the first `m` times are at or before `x`, `m` are counted.
proof fn lemma_count_exactly(ts: Seq<int>, x: int, m: int)
    requires
        0 <= m <= ts.len(),
        forall|i: int| 0 <= i < m ==> #[trigger] ts[i] <= x,
        forall|i: int| m <= i < ts.len() ==> #[trigger] ts[i] > x,
    ensures
        count_by(ts, x) == m,
    decreases ts.len(),
{
    if ts.len() > 0 {
        let pre = ts.drop_last();
        let m2 = if m == ts.len() { m - 1 } else { m };
        assert forall|i: int| 0 <= i < m2 implies #[trigger] pre[i] <= x by {
            assert(pre[i] == ts[i]);
        }
        assert forall|i: int| m2 <= i < pre.len() implies #[trigger] pre[i] > x by {
            assert(pre[i] == ts[i]);
        }
        lemma_count_exactly(pre, x, m2);
        if m == ts.len() {
            assert(ts[ts.len() - 1] <= x);
        } else {
            assert(ts[ts.len() - 1] > x);
        }
    }
}

/// Law: a new timer gets `flush_timing` calls (heartbeats) at the strictly
/// increasing times `ts` (in milliseconds), `ts.len()` of them and no more,
/// and `on_deadline` is called for each heartbeat's deadline, which comes `interval` later,
/// after any heartbeat at that very time. The peer is dropped at the deadline
/// of heartbeat `j` exactly when no other heartbeat came within the interval
/// after it: `j` is the last heartbeat, or the next one came later than
/// `ts[j] + interval`. So a heartbeat within the interval of the one before
/// cancels that one's drop.
pub proof fn lemma_drops_after_k_heartbeats(interval: u64, peer_id: u32, ts: Seq<int>, j: int)
    requires
        ts.len() < u32::MAX,
        strictly_increasing(ts),
        0 <= j < ts.len(),
    ensures
        drops_at_deadline(timer_at_deadline(interval, peer_id, ts, j)) <==> (j == ts.len() - 1 || ts[j + 1] > ts[j]
            + interval),
{
    let x = ts[j] + interval;
    let t0 = TimerView { keep_alive_interval: interval, expected_count: 0, inner_count: 0, peer_id };
    let c = count_by(ts, x);
    lemma_count_le_len(ts, x);
    lemma_flushed_n(t0, c);
    let t1 = flushed_n(t0, c);
    lemma_passed_n(t1, j as nat);
    assert forall|i: int| 0 <= i < j + 1 implies #[trigger] ts[i] <= x by {
        if i < j {
            assert(ts[i] < ts[j]);
        }
    }
    if j == ts.len() - 1 {
        lemma_count_exactly(ts, x, j + 1);
    } else if ts[j + 1] > x {
        assert forall|i: int| j + 1 <= i < ts.len() implies #[trigger] ts[i] > x by {
            if i > j + 1 {
                assert(ts[j + 1] < ts[i]);
            }
        }
        lemma_count_exactly(ts, x, j + 1);
    } else {
        lemma_count_at_least(ts, x, j + 2);
    }
}

/// The peers watched, by IPv4 address (as a big-endian number): their ids and
/// timers.
pub struct KeepAliveIPTable {
    ip_to_peer_id_and_timer_map: Vec<(u32, KeepAliveTimer)>,
}

/// The entries of the table, in order.
pub open spec fn ka_view(v: Seq<(u32, KeepAliveTimer)>) -> Seq<(u32, TimerView)> {
    v.map_values(|e: (u32, KeepAliveTimer)| (e.0, e.1@))
}

/// `s` without the entries of address `ip`.
pub open spec fn ka_without(s: Seq<(u32, TimerView)>, ip: u32) -> Seq<(u32, TimerView)>
    decreases s.len(),
{
    if s.len() == 0 {
        s
    } else {
        let r = ka_without(s.drop_last(), ip);
        if s.last().0 == ip {
            r
        } else {
            r.push(s.last())
        }
    }
}

/// `s` with the timers of address `ip` changed by `f`.
pub open spec fn ka_update(s: Seq<(u32, TimerView)>, ip: u32, f: spec_fn(TimerView) -> TimerView) -> Seq<
    (u32, TimerView),
> {
    s.map_values(|e: (u32, TimerView)| if e.0 == ip { (e.0, f(e.1)) } else { e })
}

/// The address of the first entry that watches peer `id`.
pub open spec fn first_ip_of(s: Seq<(u32, TimerView)>, id: u32) -> Option<u32>
    decreases s.len(),
{
    if s.len() == 0 {
        None
    } else {
        match first_ip_of(s.drop_last(), id) {
            Some(ip) => Some(ip),
            None => if s.last().1.peer_id == id {
                Some(s.last().0)
            } else {
                None
            },
        }
    }
}

/// `s` once peer `id` is no longer watched: the entry found first for it is
/// removed, unless its address is 0.0.0.0, which stands for "not found".
pub open spec fn ka_remove_peer(s: Seq<(u32, TimerView)>, id: u32) -> Seq<(u32, TimerView)> {
    match first_ip_of(s, id) {
        Some(ip) => if ip != 0 {
            ka_without(s, ip)
        } else {
            s
        },
        None => s,
    }
}

/// No address occurs twice in `s`.
pub open spec fn ka_unique(s: Seq<(u32, TimerView)>) -> bool {
    forall|i: int, j: int| 0 <= i < j < s.len() ==> #[trigger] s[i].0 != #[trigger] s[j].0
}

/// Whether `s` has an entry for `ip`.
pub open spec fn ka_has(s: Seq<(u32, TimerView)>, ip: u32) -> bool {
    exists|i: int| 0 <= i < s.len() && #[trigger] s[i].0 == ip
}

/// Law: taking an address out of the watch list keeps exactly the entries of
/// the other addresses, in their order: it is the list filtered by address.
pub proof fn lemma_ka_without_is_filter(s: Seq<(u32, TimerView)>, ip: u32)
    ensures
        ka_without(s, ip) == s.filter(|e: (u32, TimerView)| e.0 != ip),
    decreases s.len(),
{
    reveal(Seq::filter);
    if s.len() > 0 {
        lemma_ka_without_is_filter(s.drop_last(), ip);
    }
}

/// Law: after taking address `ip` out, no entry has that address, every
/// entry left was in the list, and every entry of another address is still
/// there.
pub proof fn lemma_ka_without_keeps_others(s: Seq<(u32, TimerView)>, ip: u32)
    ensures
        forall|i: int| 0 <= i < ka_without(s, ip).len() ==> (#[trigger] ka_without(s, ip)[i]).0 != ip && s.contains(
            ka_without(s, ip)[i],
        ),
        forall|i: int| 0 <= i < s.len() && (#[trigger] s[i]).0 != ip ==> ka_without(s, ip).contains(s[i]),
        ka_without(s, ip).len() <= s.len(),
    decreases s.len(),
{
    if s.len() > 0 {
        let pre = s.drop_last();
        let r = ka_without(pre, ip);
        lemma_ka_without_keeps_others(pre, ip);
        let w = ka_without(s, ip);
        assert forall|i: int| 0 <= i < w.len() implies (#[trigger] w[i]).0 != ip && s.contains(w[i]) by {
            if i < r.len() {
                assert(w[i] == r[i]);
                let k = choose|k: int| 0 <= k < pre.len() && pre[k] == r[i];
                assert(s[k] == pre[k]);
            } else {
                assert(w[i] == s.last());
                assert(s[s.len() - 1] == s.last());
            }
        }
        assert forall|i: int| 0 <= i < s.len() && (#[trigger] s[i]).0 != ip implies w.contains(s[i]) by {
            if i < pre.len() {
                assert(pre[i] == s[i]);
                let k = choose|k: int| 0 <= k < r.len() && r[k] == pre[i];
                assert(w[k] == r[k]);
            } else {
                assert(s[i] == s.last());
                assert(w[r.len() as int] == s.last());
            }
        }
    }
}

/// Law: the address found for peer `id` is that of the first entry watching
/// `id`; none is found exactly when no entry watches `id`.
pub proof fn lemma_first_ip_of_is_first(s: Seq<(u32, TimerView)>, id: u32)
    ensures
        first_ip_of(s, id) is None <==> forall|i: int| 0 <= i < s.len() ==> (#[trigger] s[i]).1.peer_id != id,
        first_ip_of(s, id) is Some ==> exists|i: int|
            0 <= i < s.len() && (#[trigger] s[i]).1.peer_id == id && s[i].0 == first_ip_of(s, id)->0 && forall|j: int|
                0 <= j < i ==> (#[trigger] s[j]).1.peer_id != id,
    decreases s.len(),
{
    if s.len() > 0 {
        let pre = s.drop_last();
        lemma_first_ip_of_is_first(pre, id);
        if first_ip_of(pre, id) is Some {
            let i = choose|i: int|
                0 <= i < pre.len() && (#[trigger] pre[i]).1.peer_id == id && pre[i].0 == first_ip_of(pre, id)->0
                    && forall|j: int| 0 <= j < i ==> (#[trigger] pre[j]).1.peer_id != id;
            assert(s[i] == pre[i]);
            assert forall|j: int| 0 <= j < i implies (#[trigger] s[j]).1.peer_id != id by {
                assert(s[j] == pre[j]);
            }
        } else {
            assert forall|j: int| 0 <= j < pre.len() implies (#[trigger] s[j]).1.peer_id != id by {
                assert(s[j] == pre[j]);
            }
            assert(s[s.len() - 1] == s.last());
            if first_ip_of(s, id) is None {
                assert forall|j: int| 0 <= j < s.len() implies (#[trigger] s[j]).1.peer_id != id by {
                    if j < pre.len() {
                        assert(s[j] == pre[j]);
                    }
                }
            }
        }
    }
}

impl View for KeepAliveIPTable {
    type V = Seq<(u32, TimerView)>;

    closed spec fn view(&self) -> Seq<(u32, TimerView)> {
        ka_view(self.ip_to_peer_id_and_timer_map@)
    }
}

/// The entries of `s` found before position `n` stay first.
proof fn lemma_first_ip_prefix(s: Seq<(u32, TimerView)>, id: u32, n: int)
    requires
        0 <= n <= s.len(),
        first_ip_of(s.take(n), id) is Some,
    ensures
        first_ip_of(s, id) == first_ip_of(s.take(n), id),
    decreases s.len() - n,
{
    if n < s.len() {
        assert(s.take(n + 1).drop_last() =~= s.take(n));
        lemma_first_ip_prefix(s, id, n + 1);
    } else {
        assert(s.take(n) =~= s);
    }
}

/// What `ka_without` keeps comes from `s` and is not at `ip`.
proof fn lemma_ka_without_drops(s: Seq<(u32, TimerView)>, ip: u32, a: int)
    requires
        0 <= a < ka_without(s, ip).len(),
    ensures
        ka_without(s, ip)[a].0 != ip,
        s.contains(ka_without(s, ip)[a]),
    decreases s.len(),
{
    if s.len() > 0 {
        let r = ka_without(s.drop_last(), ip);
        if a < r.len() {
            lemma_ka_without_drops(s.drop_last(), ip, a);
            let k = choose|k: int| 0 <= k < s.drop_last().len() && s.drop_last()[k] == r[a];
            assert(s[k] == r[a]);
        } else {
            assert(ka_without(s, ip)[a] == s.last());
            assert(s[s.len() - 1] == s.last());
        }
    }
}

/// `ka_without` keeps addresses unique.
proof fn lemma_ka_without_unique(s: Seq<(u32, TimerView)>, ip: u32)
    requires
        ka_unique(s),
    ensures
        ka_unique(ka_without(s, ip)),
    decreases s.len(),
{
    if s.len() > 0 {
        let d = s.drop_last();
        assert(ka_unique(d)) by {
            assert forall|i: int, j: int| 0 <= i < j < d.len() implies #[trigger] d[i].0 != #[trigger] d[j].0 by {
                assert(d[i] == s[i] && d[j] == s[j]);
            }
        }
        lemma_ka_without_unique(d, ip);
        let r = ka_without(d, ip);
        if s.last().0 != ip {
            assert forall|i: int, j: int| 0 <= i < j < r.push(s.last()).len() implies #[trigger] r.push(
                s.last(),
            )[i].0 != #[trigger] r.push(s.last())[j].0 by {
                if j == r.len() {
                    lemma_ka_without_drops(d, ip, i);
                    let k = choose|k: int| 0 <= k < d.len() && d[k] == r[i];
                    assert(s[k] == d[k]);
                    assert(s[s.len() - 1] == s.last());
                }
            }
        }
    }
}

fn without_ip(v: &Vec<(u32, KeepAliveTimer)>, ip: u32) -> (r: Vec<(u32, KeepAliveTimer)>)
    ensures
        ka_view(r@) == ka_without(ka_view(v@), ip),
{
    let mut r: Vec<(u32, KeepAliveTimer)> = Vec::new();
    let mut i: usize = 0;
    while i < v.len()
        invariant
            0 <= i <= v@.len(),
            ka_view(r@) == ka_without(ka_view(v@).take(i as int), ip),
        decreases v@.len() - i,
    {
        assert(ka_view(v@).take(i + 1).drop_last() =~= ka_view(v@).take(i as int));
        if v[i].0 != ip {
            let ghost r0 = ka_view(r@);
            r.push((v[i].0, copy_timer(&v[i].1)));
            assert(ka_view(r@) =~= r0.push(ka_view(v@)[i as int]));
        }
        i = i + 1;
    }
    assert(ka_view(v@).take(v@.len() as int) =~= ka_view(v@));
    r
}

fn copy_timer(t: &KeepAliveTimer) -> (r: KeepAliveTimer)
    ensures
        r@ == t@,
{
    KeepAliveTimer {
        keep_alive_interval: t.keep_alive_interval,
        expected_count: t.expected_count,
        inner_count: t.inner_count,
        peer_id: t.peer_id,
    }
}

impl KeepAliveIPTable {
    /// No peer watched.
    pub fn new() -> (r: Self)
        ensures
            r@ == Seq::<(u32, TimerView)>::empty(),
    {
        let r = KeepAliveIPTable { ip_to_peer_id_and_timer_map: Vec::new() };
        assert(r@ =~= Seq::<(u32, TimerView)>::empty());
        r
    }

    /// A heartbeat from `peer_ip`: counted by its timer when the address is
    /// watched. Returns the delay of the deadline it starts, if any.
    pub fn flush_timing(&mut self, peer_ip: u32) -> (r: Option<u64>)
        requires
            ka_unique(old(self)@),
        ensures
            ka_unique(final(self)@),
            final(self)@ == ka_update(old(self)@, peer_ip, |t: TimerView| flushed(t)),
            r is Some <==> ka_has(old(self)@, peer_ip),
            forall|i: int|
                0 <= i < old(self)@.len() && old(self)@[i].0 == peer_ip ==> r == Some(
                    old(self)@[i].1.keep_alive_interval,
                ),
    {
        let ghost s0 = self@;
        let ghost target = ka_update(s0, peer_ip, |t: TimerView| flushed(t));
        let mut found: Option<u64> = None;
        let mut out: Vec<(u32, KeepAliveTimer)> = Vec::new();
        let mut i: usize = 0;
        while i < self.ip_to_peer_id_and_timer_map.len()
            invariant
                0 <= i <= s0.len(),
                s0 == ka_view(self.ip_to_peer_id_and_timer_map@),
                target == ka_update(s0, peer_ip, |t: TimerView| flushed(t)),
                ka_view(out@) == target.take(i as int),
                found is Some <==> exists|j: int| 0 <= j < i && #[trigger] s0[j].0 == peer_ip,
                forall|j: int| 0 <= j < i && #[trigger] s0[j].0 == peer_ip ==> found == Some(s0[j].1.keep_alive_interval),
                ka_unique(s0),
            decreases s0.len() - i,
        {
            let e = &self.ip_to_peer_id_and_timer_map[i];
            assert(s0[i as int] == (e.0, e.1@));
            let mut t = copy_timer(&e.1);
            if e.0 == peer_ip {
                let d = t.flush_timing();
                found = Some(d);
            }
            let ghost o0 = ka_view(out@);
            out.push((e.0, t));
            assert(ka_view(out@) =~= o0.push(target[i as int]));
            assert(target.take(i + 1) =~= target.take(i as int).push(target[i as int]));
            i = i + 1;
        }
        assert(target.take(s0.len() as int) =~= target);
        self.ip_to_peer_id_and_timer_map = out;
        assert(ka_unique(self@)) by {
            assert forall|a: int, b: int| 0 <= a < b < self@.len() implies #[trigger] self@[a].0 != #[trigger] self@[b].0 by {
                assert(self@[a].0 == s0[a].0);
                assert(self@[b].0 == s0[b].0);
            }
        }
        found
    }

    /// Starts watching peer `peer_id` at `peer_ip`, as if it had just sent a
    /// heartbeat; an older entry for the address is replaced. Returns the delay
    /// of the deadline that starts.
    pub fn add_one_peer(&mut self, peer_id: u32, peer_ip: u32, keep_alive_interval: u64) -> (r: u64)
        requires
            ka_unique(old(self)@),
        ensures
            ka_unique(final(self)@),
            final(self)@ == ka_without(old(self)@, peer_ip).push(
                (
                    peer_ip,
                    TimerView { keep_alive_interval, expected_count: 1, inner_count: 0, peer_id },
                ),
            ),
            r == keep_alive_interval,
    {
        let mut timer = KeepAliveTimer::new(keep_alive_interval, peer_id);
        let d = timer.flush_timing();
        let mut kept = without_ip(&self.ip_to_peer_id_and_timer_map, peer_ip);
        let ghost k0 = ka_view(kept@);
        proof {
            lemma_ka_without_unique(self@, peer_ip);
        }
        kept.push((peer_ip, timer));
        assert(ka_view(kept@) =~= k0.push(ka_view(kept@).last()));
        self.ip_to_peer_id_and_timer_map = kept;
        proof {
            assert forall|a: int, b: int| 0 <= a < b < self@.len() implies #[trigger] self@[a].0 != #[trigger] self@[b].0 by {
                if b == self@.len() - 1 {
                    lemma_ka_without_drops(old(self)@, peer_ip, a);
                }
            }
        }
        d
    }

    /// Stops watching peer `peer_id`: see `ka_remove_peer`.
    pub fn remove_one_peer(&mut self, peer_id: u32)
        requires
            ka_unique(old(self)@),
        ensures
            ka_unique(final(self)@),
            final(self)@ == ka_remove_peer(old(self)@, peer_id),
    {
        let mut ip_addr: u32 = 0;
        let mut found = false;
        let mut i: usize = 0;
        let ghost s0 = self@;
        while i < self.ip_to_peer_id_and_timer_map.len() && !found
            invariant
                0 <= i <= s0.len(),
                s0 == ka_view(self.ip_to_peer_id_and_timer_map@),
                !found ==> first_ip_of(s0.take(i as int), peer_id) is None && ip_addr == 0,
                found ==> first_ip_of(s0, peer_id) == Some(ip_addr),
            decreases s0.len() - i,
        {
            assert(s0.take(i + 1).drop_last() =~= s0.take(i as int));
            let e = &self.ip_to_peer_id_and_timer_map[i];
            assert(s0[i as int] == (e.0, e.1@));
            if e.1.peer_id == peer_id {
                ip_addr = e.0;
                found = true;
                proof {
                    assert(first_ip_of(s0.take(i + 1), peer_id) == Some(ip_addr));
                    lemma_first_ip_prefix(s0, peer_id, i + 1);
                }
            }
            i = i + 1;
        }
        if !found {
            assert(s0.take(s0.len() as int) =~= s0);
        }
        if ip_addr != 0 {
            proof {
                lemma_ka_without_unique(s0, ip_addr);
            }
            self.ip_to_peer_id_and_timer_map = without_ip(&self.ip_to_peer_id_and_timer_map, ip_addr);
        }
    }

    /// A deadline of the timer at `peer_ip` passed. Returns the id of the peer
    /// when it is to be dropped.
    pub fn on_deadline(&mut self, peer_ip: u32) -> (r: Option<u32>)
        requires
            ka_unique(old(self)@),
        ensures
            ka_unique(final(self)@),
            final(self)@ == ka_update(old(self)@, peer_ip, |t: TimerView| deadline_passed(t)),
            !ka_has(old(self)@, peer_ip) ==> r is None,
            forall|i: int|
                0 <= i < old(self)@.len() && #[trigger] old(self)@[i].0 == peer_ip ==> r == (if drops_at_deadline(
                    old(self)@[i].1,
                ) {
                    Some(old(self)@[i].1.peer_id)
                } else {
                    None::<u32>
                }),
    {
        let ghost s0 = self@;
        let ghost target = ka_update(s0, peer_ip, |t: TimerView| deadline_passed(t));
        let mut dropped: Option<u32> = None;
        let mut out: Vec<(u32, KeepAliveTimer)> = Vec::new();
        let mut i: usize = 0;
        while i < self.ip_to_peer_id_and_timer_map.len()
            invariant
                0 <= i <= s0.len(),
                s0 == ka_view(self.ip_to_peer_id_and_timer_map@),
                target == ka_update(s0, peer_ip, |t: TimerView| deadline_passed(t)),
                ka_view(out@) == target.take(i as int),
                (forall|j: int| 0 <= j < i ==> #[trigger] s0[j].0 != peer_ip) ==> dropped is None,
                forall|j: int|
                    0 <= j < i && #[trigger] s0[j].0 == peer_ip ==> dropped == (if drops_at_deadline(s0[j].1) {
                        Some(s0[j].1.peer_id)
                    } else {
                        None::<u32>
                    }),
                ka_unique(s0),
            decreases s0.len() - i,
        {
            let e = &self.ip_to_peer_id_and_timer_map[i];
            assert(s0[i as int] == (e.0, e.1@));
            let mut t = copy_timer(&e.1);
            if e.0 == peer_ip {
                let gone = t.on_deadline();
                dropped = if gone {
                    Some(t.peer_id())
                } else {
                    None
                };
            }
            let ghost o0 = ka_view(out@);
            out.push((e.0, t));
            assert(ka_view(out@) =~= o0.push(target[i as int]));
            assert(target.take(i + 1) =~= target.take(i as int).push(target[i as int]));
            i = i + 1;
        }
        assert(target.take(s0.len() as int) =~= target);
        self.ip_to_peer_id_and_timer_map = out;
        assert(ka_unique(self@)) by {
            assert forall|a: int, b: int| 0 <= a < b < self@.len() implies #[trigger] self@[a].0 != #[trigger] self@[b].0 by {
                assert(self@[a].0 == s0[a].0);
                assert(self@[b].0 == s0[b].0);
            }
        }
        dropped
    }
}

/// The tracker's keep-alive service: where it listens, the interval it asks
/// of the peers, and the peers it watches.
pub struct KeepAliveManager {
    tracker_ip: Vec<u8>,
    keep_alive_interval: u64,
    keep_alive_open_port: u16,
    keep_alive_ip_table: KeepAliveIPTable,
}

pub struct KeepAliveView {
    pub tracker_ip: Seq<u8>,
    pub keep_alive_interval: u64,
    pub keep_alive_open_port: u16,
    pub table: Seq<(u32, TimerView)>,
}

impl View for KeepAliveManager {
    type V = KeepAliveView;

    closed spec fn view(&self) -> KeepAliveView {
        KeepAliveView {
            tracker_ip: self.tracker_ip@,
            keep_alive_interval: self.keep_alive_interval,
            keep_alive_open_port: self.keep_alive_open_port,
            table: self.keep_alive_ip_table@,
        }
    }
}

impl KeepAliveManager {
    /// Addresses in the table are unique.
    pub open spec fn wf(&self) -> bool {
        ka_unique(self@.table)
    }

    /// A service at `tracker_ip` and `keep_alive_open_port` that drops a peer
    /// silent for `keep_alive_interval` milliseconds; no peer watched yet.
    pub fn new(tracker_ip: Vec<u8>, keep_alive_interval: u64, keep_alive_open_port: u16) -> (r: Self)
        ensures
            r.wf(),
            r@ == (KeepAliveView {
                tracker_ip: tracker_ip@,
                keep_alive_interval,
                keep_alive_open_port,
                table: Seq::empty(),
            }),
    {
        KeepAliveManager {
            tracker_ip,
            keep_alive_interval,
            keep_alive_open_port,
            keep_alive_ip_table: KeepAliveIPTable::new(),
        }
    }

    /// The address and port to listen on.
    pub fn get_listen_addr(&self) -> (r: (Vec<u8>, u16))
        ensures
            r.0@ == self@.tracker_ip,
            r.1 == self@.keep_alive_open_port,
    {
        (crate::bytes_map::copy_bytes(&self.tracker_ip), self.keep_alive_open_port)
    }

    /// A datagram of `nbytes` bytes came from `peer_ip`: one of at least five
    /// bytes is a heartbeat. Returns the delay of the deadline it starts.
    pub fn on_heartbeat(&mut self, nbytes: usize, peer_ip: u32) -> (r: Option<u64>)
        requires
            old(self).wf(),
        ensures
            final(self).wf(),
            nbytes < 5 ==> final(self)@ == old(self)@ && r is None,
            nbytes >= 5 ==> final(self)@ == (KeepAliveView {
                table: ka_update(old(self)@.table, peer_ip, |t: TimerView| flushed(t)),
                ..old(self)@
            }) && (r is Some <==> ka_has(old(self)@.table, peer_ip)),
            forall|i: int|
                nbytes >= 5 && 0 <= i < old(self)@.table.len() && #[trigger] old(self)@.table[i].0 == peer_ip
                    ==> r == Some(old(self)@.table[i].1.keep_alive_interval),
    {
        if nbytes < 5 {
            return None;
        }
        self.keep_alive_ip_table.flush_timing(peer_ip)
    }

    /// The tracker registered peer `peer_id` at `peer_ip`: it is watched from
    /// now on. Returns the delay of the first deadline.
    pub fn on_peer_online(&mut self, peer_id: u32, peer_ip: u32) -> (r: u64)
        requires
            old(self).wf(),
        ensures
            final(self).wf(),
            final(self)@ == (KeepAliveView {
                table: ka_without(old(self)@.table, peer_ip).push(
                    (
                        peer_ip,
                        TimerView {
                            keep_alive_interval: old(self)@.keep_alive_interval,
                            expected_count: 1,
                            inner_count: 0,
                            peer_id,
                        },
                    ),
                ),
                ..old(self)@
            }),
            r == old(self)@.keep_alive_interval,
    {
        self.keep_alive_ip_table.add_one_peer(peer_id, peer_ip, self.keep_alive_interval)
    }

    /// A deadline of the timer at `peer_ip` passed. A peer that is dropped is
    /// no longer watched, and its id is returned for the table to forget it.
    pub fn on_deadline(&mut self, peer_ip: u32) -> (r: Option<u32>)
        requires
            old(self).wf(),
        ensures
            final(self).wf(),
            !ka_has(old(self)@.table, peer_ip) ==> r is None,
            forall|i: int|
                0 <= i < old(self)@.table.len() && #[trigger] old(self)@.table[i].0 == peer_ip ==> r == (
                if drops_at_deadline(old(self)@.table[i].1) {
                    Some(old(self)@.table[i].1.peer_id)
                } else {
                    None::<u32>
                }),
            ({
                let passed = ka_update(old(self)@.table, peer_ip, |t: TimerView| deadline_passed(t));
                final(self)@ == (KeepAliveView {
                    table: match r {
                        Some(id) => ka_remove_peer(passed, id),
                        None => passed,
                    },
                    ..old(self)@
                })
            }),
    {
        let r = self.keep_alive_ip_table.on_deadline(peer_ip);
        match r {
            Some(id) => {
                self.keep_alive_ip_table.remove_one_peer(id);
            },
            None => {},
        }
        r
    }
}

} // verus!
