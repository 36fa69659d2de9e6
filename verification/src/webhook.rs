//! Webhooks: what is sent, when it is sent, and how often it is tried.
use crate::config::WebhookConfig;
use crate::digest::{
    hex_encode, hex_of, hex_value, hmac_sha256, hmac_sha256_of, lemma_hex_spells_the_bytes,
};
use crate::events::{merges_to, EventModel, TileEvent};
use crate::json::{field, json_field, json_of, json_str, parse_json, parsed_json, string_of, Json};
use crate::text::{joined, same_text};
use serde_json::Value;
use vstd::arithmetic::power2::{lemma2_to64, lemma_pow2_adds, lemma_pow2_strictly_increases, pow2};
use vstd::prelude::*;
use vstd::utf8::encode_utf8;

verus! {

/// Whether an event of a kind is sent at all.
pub open spec fn sends(config: WebhookConfig, event: EventModel) -> bool {
    match event {
        EventModel::Generate { source: _, duration_ms: _ } => config.on_generate != Some(false),
        EventModel::Update { source: _, tiles: _, zooms: _, max_zoom: _, layers: _ } => config.on_update
            != Some(false),
    }
}

/// Whether an event is sent at all.
pub fn should_send(config: &WebhookConfig, event: &TileEvent) -> (send: bool)
    ensures
        send == sends(*config, event.model()),
{
    match event {
        TileEvent::GenerateComplete { source: _, duration_ms: _ } => config.on_generate_enabled(),
        TileEvent::UpdateComplete {
            source: _,
            tiles_updated: _,
            affected_zooms: _,
            max_zoom: _,
            layers_affected: _,
        } => config.on_update_enabled(),
    }
}

/// The cooldown window in seconds; none where events are sent at once.
pub fn cooldown_secs(config: &WebhookConfig) -> (window: Option<u64>)
    ensures
        window == (match config.cooldown_secs {
            Some(secs) => if secs == 0 {
                None::<u64>
            } else {
                Some(secs)
            },
            None => None::<u64>,
        }),
{
    match config.cooldown_secs {
        Some(secs) => if secs == 0 {
            None
        } else {
            Some(secs)
        },
        None => None,
    }
}

/// An event that waits for its cooldown to expire, and when the wait began.
#[derive(Debug)]
pub struct Pending {
    pub event: TileEvent,
    pub started_ms: u64,
}

/// What a waiting event is.
pub type PendingModel = (EventModel, u64);

impl Pending {
    pub open spec fn model(self) -> PendingModel {
        (self.event.model(), self.started_ms)
    }
}

/// What some waiting events are.
pub open spec fn pending_models(pending: Seq<Pending>) -> Seq<PendingModel> {
    Seq::new(pending.len(), |i: int| pending[i].model())
}

/// No source waits twice.
pub open spec fn one_per_source(pending: Seq<PendingModel>) -> bool {
    forall|i: int, j: int|
        0 <= i < j < pending.len() ==> (#[trigger] pending[i]).0.source() != (
        #[trigger] pending[j]).0.source()
}

/// An event has been merged into the waiting one at place `i`, that of its
/// source.
pub open spec fn merged_at(
    before: Seq<PendingModel>,
    event: EventModel,
    after: Seq<PendingModel>,
    i: int,
) -> bool {
    &&& 0 <= i < before.len()
    &&& before[i].0.source() == event.source()
    &&& after.len() == before.len()
    &&& merges_to(before[i].0, event, after[i].0)
    &&& after[i].1 == before[i].1
    &&& forall|k: int| 0 <= k < before.len() && k != i ==> #[trigger] after[k] == before[k]
}

/// An event of a source waits.
pub open spec fn waits(pending: Seq<PendingModel>, source: Seq<char>) -> bool {
    exists|i: int| 0 <= i < pending.len() && (#[trigger] pending[i]).0.source() == source
}

/// The waiting events after another one has come: merged into the one of its
/// source, or at the end.
pub open spec fn pends_to(
    before: Seq<PendingModel>,
    event: EventModel,
    now_ms: u64,
    after: Seq<PendingModel>,
) -> bool {
    if waits(before, event.source()) {
        exists|i: int| #[trigger] merged_at(before, event, after, i)
    } else {
        after == before.push((event, now_ms))
    }
}

/// A waiting event's window has passed.
pub open spec fn expired(p: PendingModel, now_ms: u64, cooldown: u64) -> bool {
    now_ms >= p.1 + cooldown
}

/// The waiting events whose window has passed, or those whose has not.
pub open spec fn pending_where(
    pending: Seq<PendingModel>,
    now_ms: u64,
    cooldown: u64,
    passed: bool,
) -> Seq<PendingModel>
    decreases pending.len(),
{
    if pending.len() == 0 {
        Seq::empty()
    } else {
        let front = pending_where(pending.drop_last(), now_ms, cooldown, passed);
        if expired(pending.last(), now_ms, cooldown) == passed {
            front.push(pending.last())
        } else {
            front
        }
    }
}

/// What some events say.
pub open spec fn event_models(events: Seq<TileEvent>) -> Seq<EventModel> {
    Seq::new(events.len(), |i: int| events[i].model())
}

/// The events without the times.
pub open spec fn without_times(pending: Seq<PendingModel>) -> Seq<EventModel> {
    Seq::new(pending.len(), |i: int| pending[i].0)
}

/// Events that accumulate per source until a cooldown window has passed.
#[derive(Debug)]
pub struct Throttle {
    pending: Vec<Pending>,
}

impl Throttle {
    /// The waiting events.
    pub closed spec fn model(&self) -> Seq<PendingModel> {
        pending_models(self.pending@)
    }

    /// Each source waits at most once.
    pub open spec fn wf(&self) -> bool {
        one_per_source(self.model())
    }

    /// Nothing waits.
    pub fn new() -> (throttle: Throttle)
        ensures
            throttle.wf(),
            throttle.model() == Seq::<PendingModel>::empty(),
    {
        let throttle = Throttle { pending: Vec::new() };
        assert(throttle.model() =~= Seq::<PendingModel>::empty());
        throttle
    }

    /// Whether an event can be taken without its tile count overflowing.
    pub fn can_accept(&self, event: &TileEvent) -> (can: bool)
        ensures
            can == forall|i: int|
                0 <= i < self.model().len() && (#[trigger] self.model()[i]).0.source()
                    == event.model().source() ==> self.model()[i].0.tiles() + event.model().tiles()
                    <= usize::MAX,
    {
        let more: usize = tiles_in(event);
        for i in 0..self.pending.len()
            invariant
                more == event.model().tiles(),
                forall|k: int|
                    0 <= k < i && (#[trigger] self.model()[k]).0.source() == event.model().source()
                        ==> self.model()[k].0.tiles() + event.model().tiles() <= usize::MAX,
        {
            assert(self.model()[i as int] == self.pending@[i as int].model());
            if same_text(self.pending[i].event.source(), event.source()) {
                if tiles_in(&self.pending[i].event) > usize::MAX - more {
                    assert(self.model()[i as int].0.tiles() + event.model().tiles() > usize::MAX);
                    return false;
                }
            }
        }
        true
    }

    /// Take an event: merge it into the one that waits for its source, or begin
    /// a window for the source.
    pub fn accept(&mut self, event: TileEvent, now_ms: u64)
        requires
            old(self).wf(),
            forall|i: int|
                0 <= i < old(self).model().len() && (#[trigger] old(self).model()[i]).0.source()
                    == event.model().source() ==> old(self).model()[i].0.tiles()
                    + event.model().tiles() <= usize::MAX,
        ensures
            final(self).wf(),
            pends_to(old(self).model(), event.model(), now_ms, final(self).model()),
    {
        let ghost before = self.model();
        let ghost incoming = event.model();
        let mut i: usize = 0;
        while i < self.pending.len()
            invariant
                i <= self.pending@.len(),
                before == old(self).model(),
                self.model() == before,
                before == pending_models(self.pending@),
                incoming == event.model(),
                one_per_source(before),
                forall|k: int|
                    0 <= k < before.len() && (#[trigger] before[k]).0.source() == incoming.source()
                        ==> before[k].0.tiles() + incoming.tiles() <= usize::MAX,
                forall|k: int|
                    0 <= k < i ==> (#[trigger] before[k]).0.source() != incoming.source(),
            decreases self.pending@.len() - i,
        {
            assert(before[i as int] == self.pending@[i as int].model());
            if same_text(self.pending[i].event.source(), event.source()) {
                let ghost held = self.pending@;
                let mut waiting: Pending = self.pending.remove(i);
                waiting.event.merge(&event);
                let ghost grown = waiting;
                self.pending.insert(i, waiting);
                proof {
                    assert(self.pending@ =~= held.update(i as int, grown));
                    let after = self.model();
                    assert forall|k: int| 0 <= k < before.len() && k != i implies #[trigger] after[k]
                        == before[k] by {
                        assert(self.pending@[k] == held[k]);
                    }
                    assert(after[i as int] == grown.model());
                    assert(merges_to(before[i as int].0, incoming, after[i as int].0));
                    assert(after[i as int].0.source() == incoming.source());
                    assert forall|a: int, b: int| 0 <= a < b < after.len() implies (
                    #[trigger] after[a]).0.source() != (#[trigger] after[b]).0.source() by {
                        assert(before[a].0.source() != before[b].0.source());
                    }
                    assert(merged_at(before, incoming, after, i as int));
                    assert(waits(before, incoming.source()));
                }
                return;
            }
            i = i + 1;
        }
        let ghost held = self.pending@;
        self.pending.push(Pending { event, started_ms: now_ms });
        proof {
            let after = self.model();
            assert(after =~= before.push((incoming, now_ms)));
        }
    }

    /// Take an event as the cooldown says: without one it is given back, to be sent
    /// at once, and with one it waits for its source's window.
    pub fn offer(&mut self, event: TileEvent, now_ms: u64, cooldown: Option<u64>) -> (at_once: Option<
        TileEvent,
    >)
        requires
            old(self).wf(),
            cooldown is Some ==> forall|i: int|
                0 <= i < old(self).model().len() && (#[trigger] old(self).model()[i]).0.source()
                    == event.model().source() ==> old(self).model()[i].0.tiles()
                    + event.model().tiles() <= usize::MAX,
        ensures
            final(self).wf(),
            match cooldown {
                None => at_once == Some(event) && final(self).model() == old(self).model(),
                Some(_) => at_once is None && pends_to(
                    old(self).model(),
                    event.model(),
                    now_ms,
                    final(self).model(),
                ),
            },
    {
        match cooldown {
            None => Some(event),
            Some(_) => {
                self.accept(event, now_ms);
                None
            },
        }
    }

    /// When the earliest window passes.
    pub fn next_flush(&self, cooldown: u64) -> (at_ms: Option<u64>)
        requires
            forall|i: int|
                0 <= i < self.model().len() ==> (#[trigger] self.model()[i]).1 + cooldown
                    <= u64::MAX,
        ensures
            match at_ms {
                None => self.model().len() == 0,
                Some(at) => {
                    &&& exists|i: int|
                        0 <= i < self.model().len() && at == (#[trigger] self.model()[i]).1 + cooldown
                    &&& forall|i: int|
                        0 <= i < self.model().len() ==> at <= (#[trigger] self.model()[i]).1 + cooldown
                },
            },
    {
        let mut earliest: Option<u64> = None;
        for i in 0..self.pending.len()
            invariant
                forall|k: int|
                    0 <= k < self.model().len() ==> (#[trigger] self.model()[k]).1 + cooldown
                        <= u64::MAX,
                earliest is None <==> i == 0,
                earliest is Some ==> {
                    &&& exists|k: int|
                        0 <= k < i && earliest->0 == (#[trigger] self.model()[k]).1 + cooldown
                    &&& forall|k: int|
                        0 <= k < i ==> earliest->0 <= (#[trigger] self.model()[k]).1 + cooldown
                },
        {
            assert(self.model()[i as int].1 == self.pending@[i as int].started_ms);
            let at: u64 = self.pending[i].started_ms + cooldown;
            match earliest {
                None => {
                    earliest = Some(at);
                },
                Some(other) => {
                    if at < other {
                        earliest = Some(at);
                    }
                },
            }
        }
        earliest
    }

    /// Take out the events whose window has passed.
    pub fn take_expired(&mut self, now_ms: u64, cooldown: u64) -> (events: Vec<TileEvent>)
        requires
            old(self).wf(),
        ensures
            final(self).wf(),
            event_models(events@) == without_times(
                pending_where(old(self).model(), now_ms, cooldown, true),
            ),
            final(self).model() == pending_where(old(self).model(), now_ms, cooldown, false),
    {
        let ghost before = self.model();
        let mut waiting: Vec<Pending> = Vec::new();
        core::mem::swap(&mut waiting, &mut self.pending);
        let ghost all = waiting@;
        assert(before == pending_models(all));
        let mut events: Vec<TileEvent> = Vec::new();
        proof {
            assert(before.skip(0) =~= before);
            assert(before.take(0) =~= Seq::<PendingModel>::empty());
            assert(event_models(events@) =~= without_times(
                pending_where(before.take(0), now_ms, cooldown, true),
            ));
            assert(pending_models(self.pending@) =~= pending_where(
                before.take(0),
                now_ms,
                cooldown,
                false,
            ));
        }
        let ghost mut i: int = 0;
        while waiting.len() > 0
            invariant
                0 <= i <= before.len(),
                pending_models(waiting@) == before.skip(i),
                event_models(events@) == without_times(
                    pending_where(before.take(i), now_ms, cooldown, true),
                ),
                pending_models(self.pending@) == pending_where(
                    before.take(i),
                    now_ms,
                    cooldown,
                    false,
                ),
            decreases waiting@.len(),
        {
            let ghost rest = waiting@;
            let ghost given = events@;
            let ghost kept = self.pending@;
            assert(pending_models(rest).len() == rest.len());
            let first: Pending = waiting.remove(0);
            let ghost model = first.model();
            proof {
                assert(pending_models(rest)[0] == model);
                assert(before[i] == model);
                assert(before.take(i + 1).last() == model);
                assert(before.take(i + 1).drop_last() =~= before.take(i));
                assert(pending_models(waiting@) =~= before.skip(i).skip(1));
                assert(before.skip(i).skip(1) =~= before.skip(i + 1));
            }
            let passed: bool = now_ms >= first.started_ms && now_ms - first.started_ms >= cooldown;
            assert(passed == expired(model, now_ms, cooldown));
            if passed {
                events.push(first.event);
                assert(event_models(events@) =~= event_models(given).push(model.0));
                assert(event_models(events@) =~= without_times(
                    pending_where(before.take(i + 1), now_ms, cooldown, true),
                ));
            } else {
                self.pending.push(first);
                assert(pending_models(self.pending@) =~= pending_models(kept).push(model));
            }
            proof {
                i = i + 1;
            }
        }
        proof {
            assert(pending_models(waiting@).len() == 0);
            assert(before.take(before.len() as int) =~= before);
            lemma_pending_where_distinct(before, now_ms, cooldown, false);
        }
        events
    }

    /// Take out all waiting events.
    pub fn drain(&mut self) -> (events: Vec<TileEvent>)
        ensures
            final(self).wf(),
            event_models(events@) == without_times(old(self).model()),
            final(self).model() == Seq::<PendingModel>::empty(),
    {
        let ghost before = self.model();
        let mut waiting: Vec<Pending> = Vec::new();
        core::mem::swap(&mut waiting, &mut self.pending);
        assert(self.model() =~= Seq::<PendingModel>::empty());
        let mut events: Vec<TileEvent> = Vec::new();
        let ghost mut i: int = 0;
        assert(before.skip(0) =~= before);
        while waiting.len() > 0
            invariant
                0 <= i <= before.len(),
                pending_models(waiting@) == before.skip(i),
                event_models(events@) == without_times(before).take(i),
            decreases waiting@.len(),
        {
            let ghost rest = waiting@;
            let ghost given = events@;
            assert(pending_models(rest).len() == rest.len());
            let first: Pending = waiting.remove(0);
            proof {
                assert(pending_models(rest)[0] == first.model());
                assert(before[i] == first.model());
                assert(pending_models(waiting@) =~= before.skip(i).skip(1));
                assert(before.skip(i).skip(1) =~= before.skip(i + 1));
            }
            let ghost model = first.model();
            events.push(first.event);
            proof {
                assert(event_models(events@) =~= event_models(given).push(model.0));
                assert(event_models(events@) =~= without_times(before).take(i + 1));
                i = i + 1;
            }
        }
        proof {
            assert(pending_models(waiting@).len() == 0);
            assert(without_times(before).take(before.len() as int) =~= without_times(before));
        }
        events
    }
}

fn tiles_in(event: &TileEvent) -> (n: usize)
    ensures
        n == event.model().tiles(),
{
    match event {
        TileEvent::GenerateComplete { source: _, duration_ms: _ } => 0,
        TileEvent::UpdateComplete {
            source: _,
            tiles_updated,
            affected_zooms: _,
            max_zoom: _,
            layers_affected: _,
        } => *tiles_updated,
    }
}

proof fn lemma_pending_where_member(
    pending: Seq<PendingModel>,
    now_ms: u64,
    cooldown: u64,
    passed: bool,
    j: int,
) -> (i: int)
    requires
        0 <= j < pending_where(pending, now_ms, cooldown, passed).len(),
    ensures
        0 <= i < pending.len(),
        pending[i] == pending_where(pending, now_ms, cooldown, passed)[j],
    decreases pending.len(),
{
    let front = pending_where(pending.drop_last(), now_ms, cooldown, passed);
    if j < front.len() {
        let i = lemma_pending_where_member(pending.drop_last(), now_ms, cooldown, passed, j);
        assert(pending.drop_last()[i] == pending[i]);
        i
    } else {
        pending.len() - 1
    }
}

proof fn lemma_pending_where_distinct(
    pending: Seq<PendingModel>,
    now_ms: u64,
    cooldown: u64,
    passed: bool,
)
    requires
        one_per_source(pending),
    ensures
        one_per_source(pending_where(pending, now_ms, cooldown, passed)),
    decreases pending.len(),
{
    if pending.len() > 0 {
        let rest = pending.drop_last();
        assert forall|i: int, j: int| 0 <= i < j < rest.len() implies (
        #[trigger] rest[i]).0.source() != (#[trigger] rest[j]).0.source() by {
            assert(rest[i] == pending[i] && rest[j] == pending[j]);
        }
        lemma_pending_where_distinct(rest, now_ms, cooldown, passed);
        let front = pending_where(rest, now_ms, cooldown, passed);
        let all = pending_where(pending, now_ms, cooldown, passed);
        assert forall|i: int, j: int| 0 <= i < j < all.len() implies (#[trigger] all[i]).0.source() != (
        #[trigger] all[j]).0.source() by {
            if j == front.len() {
                let k = lemma_pending_where_member(rest, now_ms, cooldown, passed, i);
                assert(rest[k] == pending[k]);
                assert(pending[k].0.source() != pending[pending.len() - 1].0.source());
            }
        }
    }
}

/// Taking out expired events loses none: every waiting event is either handed
/// out or still waits.
pub proof fn lemma_no_event_is_lost(pending: Seq<PendingModel>, now_ms: u64, cooldown: u64, i: int)
    requires
        0 <= i < pending.len(),
    ensures
        pending_where(
            pending,
            now_ms,
            cooldown,
            expired(pending[i], now_ms, cooldown),
        ).contains(pending[i]),
        pending_where(pending, now_ms, cooldown, true).len() + pending_where(
            pending,
            now_ms,
            cooldown,
            false,
        ).len() == pending.len(),
    decreases pending.len(),
{
    let passed = expired(pending[i], now_ms, cooldown);
    let rest = pending.drop_last();
    let front = pending_where(rest, now_ms, cooldown, passed);
    let all = pending_where(pending, now_ms, cooldown, passed);
    lemma_split_lengths(pending, now_ms, cooldown);
    if i < rest.len() {
        assert(rest[i] == pending[i]);
        lemma_no_event_is_lost(rest, now_ms, cooldown, i);
        let k = choose|k: int| 0 <= k < front.len() && front[k] == pending[i];
        assert(all[k] == pending[i]);
    } else {
        assert(all[front.len() as int] == pending[i]);
    }
}

proof fn lemma_split_lengths(pending: Seq<PendingModel>, now_ms: u64, cooldown: u64)
    ensures
        pending_where(pending, now_ms, cooldown, true).len() + pending_where(
            pending,
            now_ms,
            cooldown,
            false,
        ).len() == pending.len(),
    decreases pending.len(),
{
    if pending.len() > 0 {
        lemma_split_lengths(pending.drop_last(), now_ms, cooldown);
    }
}

/// What to do after an attempt to deliver.
#[derive(Debug, Clone, Copy, PartialEq, Eq, Structural)]
pub enum DeliveryStep {
    Delivered,
    /// Wait, then try again.
    Retry { wait_ms: u64 },
    /// All attempts have failed.
    GiveUp,
}

/// The wait before attempt `attempt`, counted from zero: half a second before
/// the first retry, doubling after that.
pub open spec fn backoff(attempt: nat) -> nat {
    if attempt == 0 {
        0
    } else {
        500 * pow2((attempt - 1) as nat)
    }
}

/// The longest wait that fits in 64 bits is that before this attempt.
pub const MAX_ATTEMPT: u32 = 56;

/// The wait before an attempt.
pub fn backoff_ms(attempt: u32) -> (wait: u64)
    requires
        attempt <= MAX_ATTEMPT,
    ensures
        wait == backoff(attempt as nat),
{
    if attempt == 0 {
        return 0;
    }
    proof {
        lemma2_to64();
        vstd::arithmetic::power2::lemma2_to64_rest();
        if attempt < 56 {
            lemma_pow2_strictly_increases((attempt - 1) as nat, 55);
        }
        vstd::bits::lemma_u64_shl_is_mul(1, (attempt - 1) as u64);
    }
    500 * (1u64 << ((attempt - 1) as u64))
}

/// Decide what follows attempt `attempt`, counted from zero, of at most
/// `max_retries` more after the first.
pub fn after_attempt(attempt: u32, max_retries: u32, delivered: bool) -> (step: DeliveryStep)
    requires
        delivered || attempt >= max_retries || attempt < MAX_ATTEMPT,
    ensures
        step == (if delivered {
            DeliveryStep::Delivered
        } else if attempt < max_retries {
            DeliveryStep::Retry { wait_ms: backoff(attempt as nat + 1) as u64 }
        } else {
            DeliveryStep::GiveUp
        }),
{
    if delivered {
        DeliveryStep::Delivered
    } else if attempt < max_retries {
        DeliveryStep::Retry { wait_ms: backoff_ms(attempt + 1) }
    } else {
        DeliveryStep::GiveUp
    }
}

/// Each retry waits twice as long as the one before.
pub proof fn lemma_backoff_doubles(attempt: nat)
    requires
        attempt >= 1,
    ensures
        backoff(attempt + 1) == 2 * backoff(attempt),
        backoff(1) == 500,
{
    lemma2_to64();
    lemma_pow2_adds(1, (attempt - 1) as nat);
}

/// The event that a payload names.
pub open spec fn named_event(json: Option<Json>) -> Seq<char> {
    match json {
        Some(json) => match field(json, "event"@) {
            Some(value) => match string_of(value) {
                Some(name) => name,
                None => "unknown"@,
            },
            None => "unknown"@,
        },
        None => "unknown"@,
    }
}

/// The event that a parsed payload names, or `unknown`.
pub fn event_in(payload: Option<&Value>) -> (name: String)
    ensures
        name@ == named_event(
            match payload {
                Some(value) => Some(json_of(*value)),
                None => None,
            },
        ),
{
    if let Some(value) = payload {
        if let Some(event) = json_field(value, "event") {
            if let Some(name) = json_str(event) {
                return name.to_owned();
            }
        }
    }
    "unknown".to_owned()
}

/// The event that a payload names, or `unknown`.
pub fn event_type(payload: &str) -> (name: String)
    ensures
        name@ == named_event(parsed_json(payload@)),
{
    match parse_json(payload) {
        Ok(value) => event_in(Some(&value)),
        Err(_) => event_in(None),
    }
}

/// The signature of a payload: its HMAC-SHA-256 under the secret, in
/// hexadecimal.
pub open spec fn signature(secret: Seq<char>, payload: Seq<char>) -> Seq<char> {
    hex_of(hmac_sha256_of(encode_utf8(secret), encode_utf8(payload)))
}

/// The signature of a payload.
pub fn compute_signature(secret: &str, payload: &str) -> (text: String)
    ensures
        text@ == signature(secret@, payload@),
        text@.len() == 64,
{
    let code: [u8; 32] = hmac_sha256(secret.as_bytes(), payload.as_bytes());
    hex_encode(code.as_slice())
}

/// A header's name and value.
pub open spec fn header(h: (String, String), name: Seq<char>, value: Seq<char>) -> bool {
    h.0@ == name && h.1@ == value
}

/// The headers of a delivery. A signature is among them where there is a
/// secret.
pub fn delivery_headers(payload: &str, secret: Option<&str>) -> (headers: Vec<(String, String)>)
    ensures
        headers@.len() == (if secret is Some {
            4nat
        } else {
            3
        }),
        header(headers@[0], "Content-Type"@, "application/json"@),
        header(headers@[1], "User-Agent"@, "tilefeed-webhook"@),
        header(headers@[2], "X-Tilefeed-Event"@, named_event(parsed_json(payload@))),
        secret is Some ==> header(
            headers@[3],
            "X-Tilefeed-Signature"@,
            "sha256="@ + signature(secret->0@, payload@),
        ),
{
    let mut headers: Vec<(String, String)> = Vec::new();
    headers.push(("Content-Type".to_owned(), "application/json".to_owned()));
    headers.push(("User-Agent".to_owned(), "tilefeed-webhook".to_owned()));
    headers.push(("X-Tilefeed-Event".to_owned(), event_type(payload)));
    if let Some(secret) = secret {
        let signed: String = compute_signature(secret, payload);
        headers.push(("X-Tilefeed-Signature".to_owned(), joined("sha256=", signed.as_str())));
    }
    headers
}

/// An event of a kind is held back only where that kind is switched off.
pub proof fn lemma_events_are_sent(config: WebhookConfig, event: EventModel)
    ensures
        event is Generate && config.on_generate is None ==> sends(config, event),
        event is Generate && config.on_generate is Some ==> sends(config, event)
            == config.on_generate->0,
        event is Update && config.on_update is None ==> sends(config, event),
        event is Update && config.on_update is Some ==> sends(config, event) == config.on_update->0,
{
}

/// A waiting event leaves once its window has passed, at that moment already,
/// and stays until that moment. None is lost and none is in both lists.
pub proof fn lemma_windows_pass(pending: Seq<PendingModel>, now_ms: u64, cooldown: u64)
    ensures
        forall|p: PendingModel| #[trigger]
            pending_where(pending, now_ms, cooldown, true).contains(p) <==> pending.contains(p)
                && now_ms >= p.1 + cooldown,
        forall|p: PendingModel| #[trigger]
            pending_where(pending, now_ms, cooldown, false).contains(p) <==> pending.contains(p)
                && now_ms < p.1 + cooldown,
        pending_where(pending, now_ms, cooldown, true).len() + pending_where(
            pending,
            now_ms,
            cooldown,
            false,
        ).len() == pending.len(),
    decreases pending.len(),
{
    let out = pending_where(pending, now_ms, cooldown, true);
    let kept = pending_where(pending, now_ms, cooldown, false);
    if pending.len() > 0 {
        let front = pending.drop_last();
        let last = pending.last();
        lemma_windows_pass(front, now_ms, cooldown);
        let out_front = pending_where(front, now_ms, cooldown, true);
        let kept_front = pending_where(front, now_ms, cooldown, false);
        assert(pending =~= front.push(last));
        assert forall|p: PendingModel| #[trigger] out.contains(p) <==> pending.contains(p)
            && now_ms >= p.1 + cooldown by {
            lemma_pushed_members(front, last, p);
            lemma_pushed_members(out_front, last, p);
            assert(out_front.contains(p) <==> front.contains(p) && now_ms >= p.1 + cooldown);
        }
        assert forall|p: PendingModel| #[trigger] kept.contains(p) <==> pending.contains(p)
            && now_ms < p.1 + cooldown by {
            lemma_pushed_members(front, last, p);
            lemma_pushed_members(kept_front, last, p);
            assert(kept_front.contains(p) <==> front.contains(p) && now_ms < p.1 + cooldown);
        }
    }
}

proof fn lemma_pushed_members(list: Seq<PendingModel>, last: PendingModel, p: PendingModel)
    ensures
        list.push(last).contains(p) <==> list.contains(p) || last == p,
{
    let all = list.push(last);
    if all.contains(p) {
        let k = choose|k: int| 0 <= k < all.len() && all[k] == p;
        if k < list.len() {
            assert(list[k] == p);
        }
    }
    if list.contains(p) {
        let k = choose|k: int| 0 <= k < list.len() && list[k] == p;
        assert(all[k] == p);
    }
    assert(all[list.len() as int] == last);
}

/// The events that leave together leave in the order in which they came to wait.
pub proof fn lemma_windows_pass_in_order(
    a: Seq<PendingModel>,
    b: Seq<PendingModel>,
    now_ms: u64,
    cooldown: u64,
    passed: bool,
)
    ensures
        pending_where(a + b, now_ms, cooldown, passed) == pending_where(
            a,
            now_ms,
            cooldown,
            passed,
        ) + pending_where(b, now_ms, cooldown, passed),
    decreases b.len(),
{
    if b.len() == 0 {
        assert(a + b =~= a);
        assert(pending_where(a, now_ms, cooldown, passed) + Seq::<PendingModel>::empty()
            =~= pending_where(a, now_ms, cooldown, passed));
    } else {
        lemma_windows_pass_in_order(a, b.drop_last(), now_ms, cooldown, passed);
        assert((a + b).drop_last() =~= a + b.drop_last());
        assert((a + b).last() == b.last());
        assert(pending_where(a + b, now_ms, cooldown, passed) =~= pending_where(
            a,
            now_ms,
            cooldown,
            passed,
        ) + pending_where(b, now_ms, cooldown, passed));
    }
}

/// Whatever waits when an event comes still waits afterwards, in its place, for
/// its source, and since the same moment; and so does the event. One that comes to
/// wait begins to wait now. The events of other sources are as they were.
pub proof fn lemma_nothing_waiting_is_lost(
    before: Seq<PendingModel>,
    event: EventModel,
    now_ms: u64,
    after: Seq<PendingModel>,
)
    requires
        pends_to(before, event, now_ms, after),
        before.len() > 0 ==> one_per_source(before),
    ensures
        waits(before, event.source()) ==> after.len() == before.len(),
        !waits(before, event.source()) ==> after.len() == before.len() + 1 && after.last() == (
            event,
            now_ms,
        ),
        forall|k: int|
            0 <= k < before.len() ==> (#[trigger] after[k]).1 == before[k].1 && (before[k].0.source()
                != event.source() ==> after[k] == before[k]),
{
    if waits(before, event.source()) {
        let i = choose|i: int| #[trigger] merged_at(before, event, after, i);
        assert forall|k: int| 0 <= k < before.len() implies (#[trigger] after[k]).1 == before[k].1
            && (before[k].0.source() != event.source() ==> after[k] == before[k]) by {
            assert(k != i ==> after[k] == before[k]);
        }
    }
}

/// A payload's event is the text in its field of that name, and unknown where
/// there is no such text.
pub proof fn lemma_payload_names_its_event(payload: Seq<char>)
    ensures
        match parsed_json(payload) {
            Some(json) => match field(json, "event"@) {
                Some(Json::Text(name)) => named_event(parsed_json(payload)) == name,
                _ => named_event(parsed_json(payload)) == "unknown"@,
            },
            None => named_event(parsed_json(payload)) == "unknown"@,
        },
{
}

/// Nothing is waited for before the first attempt, and before no other.
pub proof fn lemma_only_retries_wait(attempt: nat)
    ensures
        backoff(attempt) == 0 <==> attempt == 0,
{
    if attempt > 0 {
        vstd::arithmetic::power2::lemma_pow2_pos((attempt - 1) as nat);
    }
}

/// A signature spells, two digits for each byte, the code of the payload under the
/// secret: the secret is the key and the payload the message.
pub proof fn lemma_signature_spells_the_code(secret: Seq<char>, payload: Seq<char>, i: int)
    requires
        0 <= i < hmac_sha256_of(encode_utf8(secret), encode_utf8(payload)).len(),
    ensures
        16 * hex_value(signature(secret, payload)[2 * i]) + hex_value(
            signature(secret, payload)[2 * i + 1],
        ) == hmac_sha256_of(encode_utf8(secret), encode_utf8(payload))[i],
{
    lemma_hex_spells_the_bytes(hmac_sha256_of(encode_utf8(secret), encode_utf8(payload)), i);
}

/// The events of a list are taken one for one.
pub proof fn lemma_events_one_for_one(
    events: Seq<TileEvent>,
    pending: Seq<PendingModel>,
    waiting: Seq<Pending>,
)
    ensures
        event_models(events).len() == events.len(),
        forall|i: int| 0 <= i < events.len() ==> #[trigger] event_models(events)[i]
            == events[i].model(),
        without_times(pending).len() == pending.len(),
        forall|i: int| 0 <= i < pending.len() ==> #[trigger] without_times(pending)[i]
            == pending[i].0,
        pending_models(waiting).len() == waiting.len(),
        forall|i: int|
            0 <= i < waiting.len() ==> #[trigger] pending_models(waiting)[i] == (
                waiting[i].event.model(),
                waiting[i].started_ms,
            ),
{
}

} // verus!
