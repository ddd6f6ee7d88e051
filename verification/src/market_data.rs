//! The publish-subscribe bus that carries quotes to the subscribers of each
//! ticker over `crossbeam_channel` channels.
use vstd::prelude::*;
use crossbeam_channel::Receiver;
use crate::subscription::{
    clone_sender, new_channel, receiver_channel, sender_channel, SubView, Subscription,
};
use crate::stock_quote::{QuoteView, StockQuote, Ticker};
use vstd::hash_map::StringHashMap;

verus! {

/// A quote published for a ticker.
#[derive(Debug, Clone)]
pub struct Event {
    pub ticker: Ticker,
    pub quote: StockQuote,
}

/// The mathematical model of an event.
pub struct EventView {
    pub ticker: Seq<char>,
    pub quote: QuoteView,
}

impl View for Event {
    type V = EventView;

    open spec fn view(&self) -> EventView {
        EventView { ticker: self.ticker@, quote: self.quote@ }
    }
}

/// Why the shared bus could not be used.
#[derive(Debug, Clone, Copy, PartialEq, Eq, Structural)]
pub enum BusError {
    /// A thread panicked while it held the bus.
    LockPoisoned,
}

spec fn subs_view(v: Seq<Subscription>) -> Seq<SubView> {
    v.map_values(|s: Subscription| s@)
}

/// The model of the bus: for each ticker subscribed to, its live
/// subscriptions, oldest first; and the subscriptions dropped so far because
/// their channel refused an event, with what they were handed.
pub struct BusView {
    pub subs: Map<Seq<char>, Seq<SubView>>,
    pub dropped: Seq<SubView>,
}

/// The bus: for each ticker, the subscriptions to it, oldest first.
pub struct EventBus {
    subs: StringHashMap<Vec<Subscription>>,
    next_id: u64,
    dropped: Ghost<Seq<SubView>>,
}

impl EventBus {
    /// The number that the next subscription will get.
    pub closed spec fn next_subscriber(&self) -> u64 {
        self.next_id
    }
}

spec fn subs_map(m: Map<Seq<char>, Vec<Subscription>>) -> Map<Seq<char>, Seq<SubView>> {
    m.map_values(|v: Vec<Subscription>| subs_view(v@))
}

impl View for EventBus {
    type V = BusView;

    closed spec fn view(&self) -> BusView {
        BusView { subs: subs_map(self.subs@), dropped: self.dropped@ }
    }
}

/// The subscriptions of `k` in `m`, none when it has none.
pub open spec fn subs_of(m: Map<Seq<char>, Seq<SubView>>, k: Seq<char>) -> Seq<SubView> {
    if m.contains_key(k) {
        m[k]
    } else {
        seq![]
    }
}

/// `m` with subscription `s` added to ticker `k`.
pub open spec fn add_subscription(m: Map<Seq<char>, Seq<SubView>>, k: Seq<char>, s: SubView) -> Map<
    Seq<char>,
    Seq<SubView>,
> {
    m.insert(k, subs_of(m, k).push(s))
}

/// `m` with subscription `s` added to each of `tickers`, once per occurrence.
pub open spec fn subscribe_all(m: Map<Seq<char>, Seq<SubView>>, tickers: Seq<Seq<char>>, s: SubView) -> Map<
    Seq<char>,
    Seq<SubView>,
>
    decreases tickers.len(),
{
    if tickers.len() == 0 {
        m
    } else {
        add_subscription(subscribe_all(m, tickers.drop_last(), s), tickers.last(), s)
    }
}

/// How many times `k` occurs in `ts`.
pub open spec fn count_of(ts: Seq<Seq<char>>, k: Seq<char>) -> nat
    decreases ts.len(),
{
    if ts.len() == 0 {
        0
    } else {
        count_of(ts.drop_last(), k) + if ts.last() == k {
            1nat
        } else {
            0nat
        }
    }
}

/// After a subscription `s` to `tickers`, each ticker has its earlier
/// subscriptions, in order, and then `s` once for each time it is listed;
/// a ticker that is neither listed nor was subscribed to stays absent.
pub proof fn lemma_subscribe_all(m: Map<Seq<char>, Seq<SubView>>, tickers: Seq<Seq<char>>, s: SubView, k: Seq<char>)
    ensures
        subscribe_all(m, tickers, s).contains_key(k) == (m.contains_key(k) || count_of(tickers, k)
            > 0),
        subs_of(subscribe_all(m, tickers, s), k) == subs_of(m, k) + Seq::new(
            count_of(tickers, k),
            |i: int| s,
        ),
    decreases tickers.len(),
{
    if tickers.len() == 0 {
        assert(subs_of(m, k) + Seq::new(0, |i: int| s) =~= subs_of(m, k));
    } else {
        let prev = tickers.drop_last();
        lemma_subscribe_all(m, prev, s, k);
        let c = count_of(prev, k);
        if tickers.last() == k {
            assert((subs_of(m, k) + Seq::new(c, |i: int| s)).push(s) =~= subs_of(m, k) + Seq::new(
                c + 1,
                |i: int| s,
            ));
        }
    }
}

/// The items of `s` whose flag in `keep` is set, in order.
pub open spec fn kept<A>(s: Seq<A>, keep: Seq<bool>) -> Seq<A>
    decreases s.len(),
{
    if s.len() == 0 || keep.len() == 0 {
        seq![]
    } else {
        let prev = kept(s.drop_last(), keep.drop_last());
        if keep.last() {
            prev.push(s.last())
        } else {
            prev
        }
    }
}

/// The items of `s` whose flag in `keep` is not set, in order.
pub open spec fn refused<A>(s: Seq<A>, keep: Seq<bool>) -> Seq<A>
    decreases s.len(),
{
    if s.len() == 0 || keep.len() == 0 {
        seq![]
    } else {
        let prev = refused(s.drop_last(), keep.drop_last());
        if keep.last() {
            prev
        } else {
            prev.push(s.last())
        }
    }
}

/// How many of `flags` are set.
pub open spec fn count_set(flags: Seq<bool>) -> nat
    decreases flags.len(),
{
    if flags.len() == 0 {
        0
    } else {
        count_set(flags.drop_last()) + if flags.last() {
            1nat
        } else {
            0nat
        }
    }
}

/// The flags set, and those not set, among the first `i` of `k` are no more
/// than among all of `k`; the `i`-th flag adds one to its side.
proof fn lemma_count_take(k: Seq<bool>, i: int)
    requires
        0 <= i <= k.len(),
    ensures
        count_set(k.take(i)) <= count_set(k),
        i - count_set(k.take(i)) <= k.len() - count_set(k),
        count_set(k) <= k.len(),
        i < k.len() ==> count_set(k.take(i + 1)) == count_set(k.take(i)) + if k[i] {
            1nat
        } else {
            0nat
        },
    decreases k.len(),
{
    if i < k.len() {
        assert(k.take(i + 1).drop_last() =~= k.take(i));
        assert(k.take(i + 1).last() == k[i]);
    }
    if i == k.len() {
        assert(k.take(i) =~= k);
        if k.len() > 0 {
            lemma_count_take(k.drop_last(), 0);
        }
    } else {
        lemma_count_take(k.drop_last(), i);
        assert(k.drop_last().take(i) =~= k.take(i));
    }
}

/// The flags of `keep`, each turned over.
pub open spec fn flipped(keep: Seq<bool>) -> Seq<bool> {
    keep.map_values(|b: bool| !b)
}

/// Keeping the items whose flag is set keeps each of them, in order, and
/// nothing else: as many items as flags set, the item at `i` (flag set) at
/// the place of the number of flags set before `i`. Dropping the others keeps
/// exactly the items whose flag is not set, in the same way.
pub proof fn lemma_kept_refused<A>(s: Seq<A>, keep: Seq<bool>)
    requires
        keep.len() == s.len(),
    ensures
        kept(s, keep).len() == count_set(keep),
        forall|i: int|
            0 <= i < s.len() && #[trigger] keep[i] ==> kept(s, keep)[count_set(keep.take(i)) as int]
                == s[i],
        refused(s, keep) == kept(s, flipped(keep)),
{
    lemma_kept_positions(s, keep);
    lemma_refused_flipped(s, keep);
}

/// Dropping the items whose flag is set keeps those whose flag is not.
proof fn lemma_refused_flipped<A>(s: Seq<A>, keep: Seq<bool>)
    requires
        keep.len() == s.len(),
    ensures
        refused(s, keep) == kept(s, flipped(keep)),
    decreases s.len(),
{
    if s.len() > 0 {
        lemma_refused_flipped(s.drop_last(), keep.drop_last());
        assert(flipped(keep).drop_last() =~= flipped(keep.drop_last()));
        assert(flipped(keep).last() == !keep.last());
    }
}

proof fn lemma_kept_positions<A>(s: Seq<A>, keep: Seq<bool>)
    requires
        keep.len() == s.len(),
    ensures
        kept(s, keep).len() == count_set(keep),
        forall|i: int|
            0 <= i < s.len() && #[trigger] keep[i] ==> kept(s, keep)[count_set(keep.take(i)) as int]
                == s[i],
    decreases s.len(),
{
    if s.len() > 0 {
        let n = s.len() - 1;
        let ps = s.drop_last();
        let pk = keep.drop_last();
        lemma_kept_positions(ps, pk);
        assert(keep.take(n) =~= pk);
        assert(keep[n] == keep.last());
        assert(s[n] == s.last());
        lemma_count_take(keep, n);
        assert forall|i: int| 0 <= i < s.len() && #[trigger] keep[i] implies kept(s, keep)[count_set(
            keep.take(i),
        ) as int] == s[i] by {
            if i < n {
                lemma_count_take(pk, i);
                lemma_count_take(pk, i + 1);
                assert(keep.take(i) =~= pk.take(i));
                assert(pk[i] == keep[i]);
                assert(ps[i] == s[i]);
            }
        }
    }
}

/// When every subscription took the event, all of them stay, in order, and
/// none is dropped; when none did, none stays.
pub proof fn lemma_kept_all_or_none<A>(s: Seq<A>, keep: Seq<bool>)
    requires
        keep.len() == s.len(),
    ensures
        (forall|i: int| 0 <= i < keep.len() ==> #[trigger] keep[i]) ==> kept(s, keep) == s
            && refused(s, keep).len() == 0,
        (forall|i: int| 0 <= i < keep.len() ==> !#[trigger] keep[i]) ==> kept(s, keep).len() == 0,
    decreases s.len(),
{
    if s.len() > 0 {
        lemma_kept_all_or_none(s.drop_last(), keep.drop_last());
        assert(keep[keep.len() - 1] == keep.last());
        assert(s.drop_last().push(s.last()) =~= s);
    }
}

/// The subscriptions `subs`, each having been handed the events `es` too.
pub open spec fn with_sent(subs: Seq<SubView>, es: Seq<EventView>) -> Seq<SubView> {
    subs.map_values(|s: SubView| SubView { id: s.id, channel: s.channel, sent: s.sent + es })
}

/// The bus `v` after publishing `e` with the delivery outcomes `delivered`:
/// every subscription of `e`'s ticker is handed `e`; those whose channel took
/// it stay, in order, and the others are dropped; every other ticker's
/// subscriptions are untouched.
pub open spec fn publish_view(v: BusView, e: EventView, delivered: Seq<bool>) -> BusView {
    if v.subs.contains_key(e.ticker) {
        let h = with_sent(v.subs[e.ticker], seq![e]);
        BusView {
            subs: v.subs.insert(e.ticker, kept(h, delivered)),
            dropped: v.dropped + refused(h, delivered),
        }
    } else {
        v
    }
}

/// A delivery outcome for every subscription of `e`'s ticker in `v`.
pub open spec fn all_delivered(v: BusView, e: EventView) -> Seq<bool> {
    Seq::new(subs_of(v.subs, e.ticker).len(), |i: int| true)
}

/// The bus `v` after publishing `es` in order, each event taken by every
/// channel it is sent to.
pub open spec fn publish_all_delivered(v: BusView, es: Seq<EventView>) -> BusView
    decreases es.len(),
{
    if es.len() == 0 {
        v
    } else {
        let p = publish_all_delivered(v, es.drop_last());
        publish_view(p, es.last(), all_delivered(p, es.last()))
    }
}

/// The events of `es` for ticker `k`, in order.
pub open spec fn events_for(es: Seq<EventView>, k: Seq<char>) -> Seq<EventView>
    decreases es.len(),
{
    if es.len() == 0 {
        seq![]
    } else if es.last().ticker == k {
        events_for(es.drop_last(), k).push(es.last())
    } else {
        events_for(es.drop_last(), k)
    }
}

/// While every channel takes what it is sent, each subscription of a ticker
/// is handed every event published for that ticker, once, in publish order,
/// and nothing else; no subscription is dropped and none is added.
pub proof fn lemma_publish_all_delivered(v: BusView, es: Seq<EventView>, k: Seq<char>)
    ensures
        publish_all_delivered(v, es).subs.contains_key(k) == v.subs.contains_key(k),
        v.subs.contains_key(k) ==> publish_all_delivered(v, es).subs[k] == with_sent(
            v.subs[k],
            events_for(es, k),
        ),
        publish_all_delivered(v, es).dropped == v.dropped,
    decreases es.len(),
{
    if es.len() == 0 {
        if v.subs.contains_key(k) {
            assert(with_sent(v.subs[k], seq![]) =~= v.subs[k]) by {
                assert forall|i: int| 0 <= i < v.subs[k].len() implies #[trigger] with_sent(
                    v.subs[k],
                    seq![],
                )[i] == v.subs[k][i] by {
                    assert(v.subs[k][i].sent + seq![] =~= v.subs[k][i].sent);
                }
            }
        }
    } else {
        let prev = es.drop_last();
        let e = es.last();
        let p = publish_all_delivered(v, prev);
        lemma_publish_all_delivered(v, prev, k);
        lemma_publish_all_delivered(v, prev, e.ticker);
        if p.subs.contains_key(e.ticker) {
            let h = with_sent(p.subs[e.ticker], seq![e]);
            let flags = all_delivered(p, e);
            lemma_kept_all_or_none(h, flags);
            assert(p.dropped + refused(h, flags) =~= p.dropped);
        }
        if v.subs.contains_key(k) && e.ticker == k {
            let before = with_sent(v.subs[k], events_for(prev, k));
            assert(with_sent(before, seq![e]) =~= with_sent(v.subs[k], events_for(es, k))) by {
                assert forall|i: int| 0 <= i < v.subs[k].len() implies #[trigger] with_sent(
                    before,
                    seq![e],
                )[i] == with_sent(v.subs[k], events_for(es, k))[i] by {
                    assert(v.subs[k][i].sent + events_for(prev, k) + seq![e] =~= v.subs[k][i].sent
                        + events_for(prev, k).push(e));
                }
            }
        }
    }
}

/// What a subscriber gets: after a subscription `s` (handed nothing yet) to
/// `tickers`, and then the events `es` published in order while every channel
/// takes what it is sent, a ticker `k` has its earlier subscriptions, each
/// handed the events for `k` as well, and then `s` once for each time `k` is
/// listed, each copy handed exactly the events for `k`, in publish order.
pub proof fn lemma_subscriber_receives(
    m: BusView,
    tickers: Seq<Seq<char>>,
    s: SubView,
    es: Seq<EventView>,
    k: Seq<char>,
)
    requires
        s.sent == Seq::<EventView>::empty(),
    ensures
        ({
            let v = BusView { subs: subscribe_all(m.subs, tickers, s), dropped: m.dropped };
            subs_of(publish_all_delivered(v, es).subs, k) == with_sent(subs_of(m.subs, k), events_for(es, k))
                + Seq::new(
                count_of(tickers, k),
                |i: int| SubView { id: s.id, channel: s.channel, sent: events_for(es, k) },
            )
        }),
{
    let v = BusView { subs: subscribe_all(m.subs, tickers, s), dropped: m.dropped };
    lemma_subscribe_all(m.subs, tickers, s, k);
    lemma_publish_all_delivered(v, es, k);
    let f = events_for(es, k);
    let c = count_of(tickers, k);
    let rep = Seq::new(c, |i: int| s);
    let want = with_sent(subs_of(m.subs, k), f) + Seq::new(
        c,
        |i: int| SubView { id: s.id, channel: s.channel, sent: f },
    );
    if v.subs.contains_key(k) {
        let got = with_sent(subs_of(m.subs, k) + rep, f);
        assert forall|i: int| 0 <= i < got.len() implies #[trigger] got[i] == want[i] by {
            if i >= subs_of(m.subs, k).len() {
                assert(s.sent + f =~= f);
            }
        }
        assert(got =~= want);
    } else {
        assert(c == 0);
        assert(!m.subs.contains_key(k));
        assert(want =~= seq![]);
    }
}

/// Setting the subscriptions of `k` sets its model.
proof fn lemma_subs_map_insert(m: Map<Seq<char>, Vec<Subscription>>, k: Seq<char>, v: Vec<Subscription>)
    ensures
        subs_map(m.insert(k, v)) == subs_map(m).insert(k, subs_view(v@)),
{
    assert(subs_map(m.insert(k, v)) =~= subs_map(m).insert(k, subs_view(v@)));
}

/// A copy of an event.
fn copy_event(e: &Event) -> (r: Event)
    ensures
        r@ == e@,
{
    Event {
        ticker: e.ticker.clone(),
        quote: StockQuote {
            ticker: e.quote.ticker.clone(),
            price_bits: e.quote.price_bits,
            volume: e.quote.volume,
            timestamp: e.quote.timestamp,
        },
    }
}

/// The same subscriptions, with other senders to the same channels.
fn copy_subs(v: &Vec<Subscription>) -> (r: Vec<Subscription>)
    ensures
        subs_view(r@) == subs_view(v@),
{
    let mut r: Vec<Subscription> = Vec::new();
    let mut i: usize = 0;
    while i < v.len()
        invariant
            i <= v@.len(),
            r@.len() == i,
            subs_view(r@) == subs_view(v@.take(i as int)),
        decreases v@.len() - i,
    {
        let ghost before = r@;
        r.push(v[i].copy());
        assert(subs_view(r@) =~= subs_view(v@.take(i + 1))) by {
            assert(subs_view(before) =~= subs_view(v@.take(i as int)));
            assert forall|k: int| 0 <= k < i + 1 implies #[trigger] subs_view(r@)[k] == subs_view(
                v@.take(i + 1),
            )[k] by {
                if k < i {
                    assert(r@[k] == before[k]);
                    assert(subs_view(before)[k] == subs_view(v@.take(i as int))[k]);
                }
            }
        }
        i = i + 1;
    }
    assert(v@.take(v@.len() as int) =~= v@);
    r
}

impl EventBus {
    /// An empty bus.
    pub fn new() -> (r: Self)
        ensures
            r@.subs == Map::<Seq<char>, Seq<SubView>>::empty(),
            r@.dropped == Seq::<SubView>::empty(),
            r.next_subscriber() == 0,
    {
        let dropped: Ghost<Seq<SubView>> = Ghost(Seq::empty());
        let r = EventBus { subs: StringHashMap::new(), next_id: 0, dropped };
        assert(r@.subs =~= Map::<Seq<char>, Seq<SubView>>::empty());
        r
    }

    /// Subscribes to each of `tickers` (twice to a ticker listed twice) with
    /// one new channel, whose receiver is returned: the new subscription
    /// feeds that receiver's channel, has been handed nothing yet, and gets
    /// the number `next_subscriber()`.
    pub fn subscribe(&mut self, tickers: &[Ticker]) -> (rx: Receiver<Event>)
        ensures
            final(self)@.subs == subscribe_all(
                old(self)@.subs,
                tickers.deep_view(),
                SubView { id: old(self).next_subscriber(), channel: receiver_channel(rx), sent: seq![] },
            ),
            final(self)@.dropped == old(self)@.dropped,
            final(self).next_subscriber() == (if old(self).next_subscriber() < u64::MAX {
                old(self).next_subscriber() + 1
            } else {
                0
            }),
    {
        let (tx, rx) = new_channel();
        let id = self.next_id;
        let ghost start = self@.subs;
        let ghost ts = tickers.deep_view();
        let ghost fresh = SubView { id, channel: receiver_channel(rx), sent: seq![] };
        let mut i: usize = 0;
        while i < tickers.len()
            invariant
                ts == tickers.deep_view(),
                i <= tickers@.len(),
                self.next_id == id,
                self.dropped == old(self).dropped,
                sender_channel(tx) == fresh.channel,
                fresh.id == id,
                fresh.sent == Seq::<EventView>::empty(),
                self@.subs == subscribe_all(start, ts.take(i as int), fresh),
            decreases tickers@.len() - i,
        {
            assert(ts.take(i + 1).drop_last() =~= ts.take(i as int));
            assert(ts[i as int] == tickers@[i as int]@);
            let ghost before = self.subs@;
            let key = &tickers[i];
            let mut v: Vec<Subscription> = match self.subs.get(key.as_str()) {
                Some(old) => copy_subs(old),
                None => Vec::new(),
            };
            let ghost old_subs = subs_view(v@);
            assert(old_subs == subs_of(subs_map(before), key@)) by {
                if !before.contains_key(key@) {
                    assert(old_subs =~= seq![]);
                }
            }
            let sub = Subscription::new(id, clone_sender(&tx));
            assert(sub@ == fresh);
            v.push(sub);
            assert(subs_view(v@) =~= old_subs.push(fresh));
            self.subs.insert(key.clone(), v);
            proof {
                lemma_subs_map_insert(before, key@, v);
            }
            assert(self@.subs == add_subscription(subs_map(before), ts[i as int], fresh));
            i = i + 1;
        }
        assert(ts.take(tickers@.len() as int) =~= ts);
        self.next_id = if id < u64::MAX {
            id + 1
        } else {
            0
        };
        rx
    }

    /// Sends `event` to every subscription to its ticker, oldest first, and
    /// drops the subscriptions whose channel refused it (their receiver is
    /// gone). Returns, for each of those subscriptions in order, whether the
    /// event was delivered; an empty list when nobody subscribed to the ticker.
    pub fn publish(&mut self, event: Event) -> (delivered: Vec<bool>)
        ensures
            final(self).next_subscriber() == old(self).next_subscriber(),
            delivered@.len() == subs_of(old(self)@.subs, event.ticker@).len(),
            final(self)@ == publish_view(old(self)@, event@, delivered@),
            old(self)@.subs.contains_key(event.ticker@) ==> {
                let before = old(self)@.subs[event.ticker@];
                let after = final(self)@.subs[event.ticker@];
                &&& after.len() == count_set(delivered@)
                &&& forall|i: int|
                    0 <= i < before.len() && #[trigger] delivered@[i] ==> after[count_set(
                        delivered@.take(i),
                    ) as int] == (SubView {
                        id: before[i].id,
                        channel: before[i].channel,
                        sent: before[i].sent.push(event@),
                    })
            },
    {
        let mut delivered: Vec<bool> = Vec::new();
        let ghost start = self.subs@;
        let ghost e = event@;
        let cur = match self.subs.get(event.ticker.as_str()) {
            None => {
                return delivered;
            },
            Some(cur) => cur,
        };
        let ghost h = with_sent(subs_view(cur@), seq![e]);
        assert(subs_view(cur@) == self@.subs[event.ticker@]);
        let ghost mut gone: Seq<SubView> = seq![];
        let mut keep: Vec<Subscription> = Vec::new();
        let n = cur.len();
        let mut i: usize = 0;
        while i < n
            invariant
                n == cur@.len(),
                h == with_sent(subs_view(cur@), seq![e]),
                e == event@,
                i <= n,
                delivered@.len() == i,
                subs_view(keep@) == kept(h.take(i as int), delivered@),
                gone == refused(h.take(i as int), delivered@),
            decreases n - i,
        {
            let ghost prev_h = h.take(i as int);
            let ghost prev_flags = delivered@;
            let ghost prev_keep = keep@;
            let mut sub = cur[i].copy();
            let ghost s0 = sub@;
            assert(s0 == subs_view(cur@)[i as int]);
            let ok = sub.send(copy_event(&event));
            assert(sub@.sent =~= s0.sent + seq![e]);
            assert(sub@ == h[i as int]);
            delivered.push(ok);
            if ok {
                keep.push(sub);
                assert(subs_view(keep@) =~= subs_view(prev_keep).push(h[i as int]));
            } else {
                proof {
                    gone = gone.push(sub@);
                }
            }
            assert(h.take(i + 1).drop_last() =~= prev_h);
            assert(h.take(i + 1).last() == h[i as int]);
            assert(delivered@.drop_last() =~= prev_flags);
            i = i + 1;
        }
        assert(h.take(n as int) =~= h);
        let key = event.ticker.clone();
        self.subs.insert(key, keep);
        let dropped: Ghost<Seq<SubView>> = Ghost(self.dropped@ + gone);
        self.dropped = dropped;
        proof {
            lemma_subs_map_insert(start, e.ticker, keep);
            lemma_kept_refused(h, delivered@);
            let before = old(self)@.subs[e.ticker];
            assert forall|i: int| 0 <= i < before.len() implies #[trigger] h[i] == (SubView {
                id: before[i].id,
                channel: before[i].channel,
                sent: before[i].sent.push(e),
            }) by {
                assert(before[i].sent + seq![e] =~= before[i].sent.push(e));
            }
        }
        delivered
    }

    /// How many live subscriptions `ticker` has, or `None` when it has never
    /// been subscribed to.
    pub fn subscriber_count(&self, ticker: &str) -> (r: Option<usize>)
        ensures
            match r {
                Some(n) => self@.subs.contains_key(ticker@) && n == self@.subs[ticker@].len(),
                None => !self@.subs.contains_key(ticker@),
            },
    {
        match self.subs.get(ticker) {
            None => None,
            Some(v) => Some(v.len()),
        }
    }
}

} // verus!
