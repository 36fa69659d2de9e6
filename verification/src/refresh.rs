//! The course of an update: from the changes of a source to its stale tiles, to
//! what is written to the store, published and announced.
use crate::config::SourceConfig;
use crate::events::TileEvent;
use crate::tiles::{affected_tiles, ascending_tiles, stale_tiles, tile_key, TileCoord, TileSpan};
use crate::updater::{
    feature_lookups, lookups, report_of, tile_write, update_report, FeatureLookup, TileWrite,
    UpdateEvent,
};
use vstd::prelude::*;

verus! {

/// What came of regenerating a tile.
#[derive(Debug)]
pub enum Regenerated {
    /// It could not be regenerated.
    Failed,
    /// There is nothing to draw in it.
    Empty,
    Tile(Vec<u8>),
}

/// What an outcome holds.
pub enum OutcomeModel {
    Failed,
    Empty,
    Tile(Seq<u8>),
}

impl Regenerated {
    pub open spec fn model(self) -> OutcomeModel {
        match self {
            Regenerated::Failed => OutcomeModel::Failed,
            Regenerated::Empty => OutcomeModel::Empty,
            Regenerated::Tile(data) => OutcomeModel::Tile(data@),
        }
    }
}

/// What a write does to the store.
pub enum WriteModel {
    Delete(TileCoord),
    Put(TileCoord, Seq<u8>),
}

impl WriteModel {
    /// The tile that is written.
    pub open spec fn coord(self) -> TileCoord {
        match self {
            WriteModel::Delete(coord) => coord,
            WriteModel::Put(coord, _) => coord,
        }
    }
}

impl TileWrite {
    pub open spec fn model(self) -> WriteModel {
        match self {
            TileWrite::Delete(coord) => WriteModel::Delete(coord),
            TileWrite::Put(coord, data) => WriteModel::Put(coord, data@),
        }
    }
}

/// What writes do.
pub open spec fn write_models(writes: Seq<TileWrite>) -> Seq<WriteModel> {
    Seq::new(writes.len(), |i: int| writes[i].model())
}

/// What outcomes hold.
pub open spec fn outcome_models(outcomes: Seq<Regenerated>) -> Seq<OutcomeModel> {
    Seq::new(outcomes.len(), |i: int| outcomes[i].model())
}

/// The writes for tiles that were regenerated, given what came of each: a tile
/// with nothing in it is deleted, one that failed is left as it is, any other is
/// stored.
pub open spec fn writes_for(tiles: Seq<TileCoord>, outcomes: Seq<OutcomeModel>) -> Seq<WriteModel>
    decreases outcomes.len(),
{
    if outcomes.len() == 0 {
        Seq::empty()
    } else {
        let front = writes_for(tiles, outcomes.drop_last());
        let tile = tiles[outcomes.len() - 1];
        match outcomes.last() {
            OutcomeModel::Failed => front,
            OutcomeModel::Empty => front.push(WriteModel::Delete(tile)),
            OutcomeModel::Tile(data) => front.push(WriteModel::Put(tile, data)),
        }
    }
}

/// The writes for regenerated tiles.
pub fn tile_writes(tiles: &Vec<TileCoord>, outcomes: Vec<Regenerated>) -> (writes: Vec<TileWrite>)
    requires
        outcomes@.len() <= tiles@.len(),
    ensures
        write_models(writes@) == writes_for(tiles@, outcome_models(outcomes@)),
{
    let ghost all = outcome_models(outcomes@);
    let mut outcomes: Vec<Regenerated> = outcomes;
    let mut backwards: Vec<TileWrite> = Vec::new();
    let mut i: usize = outcomes.len();
    assert(all.take(i as int) =~= all);
    while i > 0
        invariant
            i == outcomes@.len(),
            i <= all.len() <= tiles@.len(),
            outcome_models(outcomes@) == all.take(i as int),
            writes_for(tiles@, all) == writes_for(tiles@, all.take(i as int)) + write_models(
                backwards@,
            ).reverse(),
        decreases i,
    {
        let ghost held = backwards@;
        i = i - 1;
        let ghost outcome = outcomes@[i as int].model();
        proof {
            assert(all.take(i + 1).drop_last() =~= all.take(i as int));
            assert(all.take(i + 1).last() == outcome_models(outcomes@)[i as int]);
        }
        match outcomes.pop() {
            None | Some(Regenerated::Failed) => {
                assert(outcome is Failed);
            },
            Some(Regenerated::Empty) => backwards.push(tile_write(tiles[i], None)),
            Some(Regenerated::Tile(data)) => backwards.push(tile_write(tiles[i], Some(data))),
        }
        proof {
            assert(outcome_models(outcomes@) =~= all.take(i as int));
            let front = writes_for(tiles@, all.take(i as int));
            let before = write_models(held).reverse();
            let after = write_models(backwards@).reverse();
            if outcome is Failed {
                assert(after =~= before);
            } else {
                let write = write_models(backwards@).last();
                assert(write_models(backwards@) =~= write_models(held).push(write));
                assert(front.push(write) + before =~= front + after);
            }
        }
    }
    let mut writes: Vec<TileWrite> = Vec::new();
    let ghost reversed = write_models(backwards@).reverse();
    assert(all.take(0) =~= Seq::<OutcomeModel>::empty());
    assert(writes_for(tiles@, all) =~= reversed);
    let n: usize = backwards.len();
    assert(write_models(writes@) =~= reversed.take(0));
    for k in 0..n
        invariant
            n == reversed.len(),
            backwards@.len() == n - k,
            write_models(writes@) == reversed.take(k as int),
            forall|j: int|
                0 <= j < backwards@.len() ==> (#[trigger] backwards@[j]).model() == reversed[n - 1
                    - j],
    {
        let ghost held = writes@;
        assert(backwards@[n - k - 1].model() == reversed[k as int]);
        if let Some(write) = backwards.pop() {
            writes.push(write);
        }
        assert(write_models(writes@) =~= write_models(held).push(reversed[k as int]));
        assert(reversed.take(k + 1) =~= reversed.take(k as int).push(reversed[k as int]));
    }
    assert(reversed.take(n as int) =~= reversed);
    writes
}

/// Tiles are written in order and none twice, each of them one of those that
/// were regenerated.
pub proof fn lemma_no_tile_is_written_twice(tiles: Seq<TileCoord>, outcomes: Seq<OutcomeModel>)
    requires
        ascending_tiles(tiles),
        outcomes.len() <= tiles.len(),
    ensures
        forall|i: int, j: int|
            0 <= i < j < writes_for(tiles, outcomes).len() ==> tile_key(
                (#[trigger] writes_for(tiles, outcomes)[i]).coord(),
            ) < tile_key((#[trigger] writes_for(tiles, outcomes)[j]).coord()),
        forall|i: int|
            0 <= i < writes_for(tiles, outcomes).len() ==> exists|k: int|
                0 <= k < outcomes.len() && (#[trigger] writes_for(tiles, outcomes)[i]).coord()
                    == #[trigger] tiles[k],
        forall|i: int|
            0 <= i < writes_for(tiles, outcomes).len() ==> tiles.contains(
                (#[trigger] writes_for(tiles, outcomes)[i]).coord(),
            ),
    decreases outcomes.len(),
{
    if outcomes.len() > 0 {
        lemma_no_tile_is_written_twice(tiles, outcomes.drop_last());
        let front = writes_for(tiles, outcomes.drop_last());
        let all = writes_for(tiles, outcomes);
        let last = outcomes.len() - 1;
        assert forall|i: int| 0 <= i < all.len() implies exists|k: int|
            0 <= k < outcomes.len() && (#[trigger] all[i]).coord() == #[trigger] tiles[k] by {
            if i < front.len() {
                assert(all[i] == front[i]);
                let k = choose|k: int|
                    0 <= k < outcomes.drop_last().len() && front[i].coord() == #[trigger] tiles[k];
                assert(all[i].coord() == tiles[k]);
            } else {
                assert(all[i].coord() == tiles[last]);
            }
        }
        assert forall|i: int, j: int| 0 <= i < j < all.len() implies tile_key(
            (#[trigger] all[i]).coord(),
        ) < tile_key((#[trigger] all[j]).coord()) by {
            assert(all[i] == front[i]);
            if j < front.len() {
                assert(all[j] == front[j]);
            } else {
                let k = choose|k: int|
                    0 <= k < outcomes.drop_last().len() && front[i].coord() == #[trigger] tiles[k];
                assert(all[j].coord() == tiles[last]);
                assert(tile_key(tiles[k]) < tile_key(tiles[last]));
            }
        }
    }
}

/// Every tile that could be regenerated is written, with what came of it.
pub proof fn lemma_regenerated_tiles_are_written(
    tiles: Seq<TileCoord>,
    outcomes: Seq<OutcomeModel>,
    k: int,
)
    requires
        outcomes.len() <= tiles.len(),
        0 <= k < outcomes.len(),
    ensures
        outcomes[k] is Empty ==> writes_for(tiles, outcomes).contains(WriteModel::Delete(tiles[k])),
        outcomes[k] is Tile ==> writes_for(tiles, outcomes).contains(
            WriteModel::Put(tiles[k], outcomes[k]->Tile_0),
        ),
    decreases outcomes.len(),
{
    let front = writes_for(tiles, outcomes.drop_last());
    let all = writes_for(tiles, outcomes);
    if k < outcomes.len() - 1 {
        lemma_regenerated_tiles_are_written(tiles, outcomes.drop_last(), k);
        assert(outcomes.drop_last()[k] == outcomes[k]);
        assert forall|w: WriteModel| front.contains(w) implies all.contains(w) by {
            let i = choose|i: int| 0 <= i < front.len() && front[i] == w;
            assert(all[i] == w);
        }
    } else if !(outcomes[k] is Failed) {
        assert(all[all.len() - 1] == all.last());
    }
}

/// What to do next to bring a source up to date.
#[derive(Debug)]
pub enum RefreshAction {
    /// Look up where the changed features are and were.
    LookUp { lookups: Vec<FeatureLookup> },
    Regenerate { tiles: Vec<TileCoord> },
    /// Apply the writes to the store, all of them or none.
    Write { writes: Vec<TileWrite> },
    Publish,
    /// Announce the update. It is the last action.
    Announce { event: TileEvent },
    /// There is nothing to bring up to date.
    Done,
}

/// What came of an action.
#[derive(Debug)]
pub enum RefreshEvent {
    /// The areas where the features are and were.
    Reached(Vec<TileSpan>),
    /// What came of regenerating each of the tiles.
    Regenerated(Vec<Regenerated>),
    Written,
    Published,
}

/// How far an update has come.
#[derive(Debug)]
pub enum RefreshStage {
    LookingUp,
    Regenerating { tiles: Vec<TileCoord> },
    Writing { tiles: Vec<TileCoord> },
    Publishing { tiles: Vec<TileCoord> },
    Finished,
}

/// An event that does not belong to the stage of an update.
#[derive(Debug, Clone, Copy, PartialEq, Eq, Structural)]
pub struct UnexpectedEvent;

/// An update of a source.
#[derive(Debug)]
pub struct SourceRefresh<'a> {
    pub source: &'a SourceConfig,
    pub events: &'a Vec<UpdateEvent>,
    /// The places of the source's changes among the events.
    pub places: &'a Vec<usize>,
    /// Whether the store is to be published once it has been written.
    pub publishes: bool,
    pub stage: RefreshStage,
}

impl<'a> SourceRefresh<'a> {
    /// The places are places of events.
    pub open spec fn wf(&self) -> bool {
        forall|i: int|
            0 <= i < self.places@.len() ==> #[trigger] self.places@[i] < self.events@.len()
    }

    /// Everything but the stage is the same.
    pub open spec fn same_update(&self, other: &SourceRefresh<'a>) -> bool {
        &&& self.source == other.source
        &&& self.events == other.events
        &&& self.places == other.places
        &&& self.publishes == other.publishes
    }

    /// The action announces the update of some tiles.
    pub open spec fn announces(&self, action: RefreshAction, tiles: Seq<TileCoord>) -> bool {
        action is Announce && action->Announce_event.model() == report_of(
            *self.source,
            tiles,
            self.events@,
            self.places@,
        )
    }

    /// Begin: the first action looks up the changed features.
    pub fn begin(
        source: &'a SourceConfig,
        events: &'a Vec<UpdateEvent>,
        places: &'a Vec<usize>,
        publishes: bool,
    ) -> (started: (SourceRefresh<'a>, RefreshAction))
        requires
            forall|i: int| 0 <= i < places@.len() ==> #[trigger] places@[i] < events@.len(),
        ensures
            started.0.wf(),
            started.0.source == source,
            started.0.events == events,
            started.0.places == places,
            started.0.publishes == publishes,
            started.0.stage is LookingUp,
            started.1 is LookUp,
            started.1->LookUp_lookups@ == lookups(*source, events@, places@),
    {
        let found: Vec<FeatureLookup> = feature_lookups(source, events, places);
        (
            SourceRefresh { source, events, places, publishes, stage: RefreshStage::LookingUp },
            RefreshAction::LookUp { lookups: found },
        )
    }

    /// Go on with what came of the last action. Stale tiles are regenerated and
    /// written; only then the store is published, if it is to be, and only then
    /// the update is announced. Without stale tiles nothing is done.
    pub fn advance(&mut self, event: RefreshEvent) -> (res: Result<RefreshAction, UnexpectedEvent>)
        requires
            old(self).wf(),
            event matches RefreshEvent::Reached(spans) ==> forall|i: int|
                0 <= i < spans@.len() ==> (#[trigger] spans@[i]).z <= 31,
        ensures
            final(self).wf(),
            final(self).same_update(old(self)),
            match (old(self).stage, event) {
                (RefreshStage::LookingUp, RefreshEvent::Reached(spans)) => {
                    ||| {
                        &&& res matches Ok(RefreshAction::Regenerate { tiles })
                        &&& stale_tiles(spans@, tiles@)
                        &&& tiles@.len() > 0
                        &&& final(self).stage matches RefreshStage::Regenerating { tiles: kept }
                        &&& kept@ == tiles@
                    }
                    ||| {
                        &&& res matches Ok(RefreshAction::Done)
                        &&& stale_tiles(spans@, Seq::empty())
                        &&& final(self).stage is Finished
                    }
                },
                (RefreshStage::Regenerating { tiles }, RefreshEvent::Regenerated(outcomes)) => {
                    if outcomes@.len() == tiles@.len() {
                        &&& res matches Ok(RefreshAction::Write { writes })
                        &&& write_models(writes@) == writes_for(tiles@, outcome_models(outcomes@))
                        &&& final(self).stage matches RefreshStage::Writing { tiles: kept }
                        &&& kept@ == tiles@
                    } else {
                        res is Err && final(self).stage is Finished
                    }
                },
                (RefreshStage::Writing { tiles }, RefreshEvent::Written) => {
                    if old(self).publishes {
                        &&& res matches Ok(RefreshAction::Publish)
                        &&& final(self).stage matches RefreshStage::Publishing { tiles: kept }
                        &&& kept@ == tiles@
                    } else {
                        &&& res is Ok
                        &&& old(self).announces(res->Ok_0, tiles@)
                        &&& final(self).stage is Finished
                    }
                },
                (RefreshStage::Publishing { tiles }, RefreshEvent::Published) => {
                    &&& res is Ok
                    &&& old(self).announces(res->Ok_0, tiles@)
                    &&& final(self).stage is Finished
                },
                _ => res is Err && final(self).stage is Finished,
            },
    {
        let mut stage: RefreshStage = RefreshStage::Finished;
        core::mem::swap(&mut stage, &mut self.stage);
        match (stage, event) {
            (RefreshStage::LookingUp, RefreshEvent::Reached(spans)) => {
                let tiles: Vec<TileCoord> = affected_tiles(&spans);
                if tiles.len() == 0 {
                    assert(tiles@ =~= Seq::<TileCoord>::empty());
                    return Ok(RefreshAction::Done);
                }
                self.stage = RefreshStage::Regenerating { tiles: tiles.clone() };
                Ok(RefreshAction::Regenerate { tiles })
            },
            (RefreshStage::Regenerating { tiles }, RefreshEvent::Regenerated(outcomes)) => {
                if outcomes.len() != tiles.len() {
                    return Err(UnexpectedEvent);
                }
                let writes: Vec<TileWrite> = tile_writes(&tiles, outcomes);
                self.stage = RefreshStage::Writing { tiles };
                Ok(RefreshAction::Write { writes })
            },
            (RefreshStage::Writing { tiles }, RefreshEvent::Written) => {
                if self.publishes {
                    self.stage = RefreshStage::Publishing { tiles };
                    return Ok(RefreshAction::Publish);
                }
                let event: TileEvent = update_report(
                    self.source,
                    &tiles,
                    self.events,
                    self.places,
                );
                Ok(RefreshAction::Announce { event })
            },
            (RefreshStage::Publishing { tiles }, RefreshEvent::Published) => {
                let event: TileEvent = update_report(
                    self.source,
                    &tiles,
                    self.events,
                    self.places,
                );
                Ok(RefreshAction::Announce { event })
            },
            _ => Err(UnexpectedEvent),
        }
    }
}

/// A write does what came of a tile: it deletes one with nothing in it, and stores any
/// other with its bytes.
pub open spec fn does(write: WriteModel, tile: TileCoord, outcome: OutcomeModel) -> bool {
    match outcome {
        OutcomeModel::Failed => false,
        OutcomeModel::Empty => write == WriteModel::Delete(tile),
        OutcomeModel::Tile(data) => write == WriteModel::Put(tile, data),
    }
}

/// Nothing is written but what came of a tile: a tile that failed stays as it is.
pub proof fn lemma_only_outcomes_are_written(tiles: Seq<TileCoord>, outcomes: Seq<OutcomeModel>)
    requires
        outcomes.len() <= tiles.len(),
    ensures
        forall|i: int|
            0 <= i < writes_for(tiles, outcomes).len() ==> exists|k: int|
                0 <= k < outcomes.len() && does(
                    #[trigger] writes_for(tiles, outcomes)[i],
                    tiles[k],
                    #[trigger] outcomes[k],
                ),
        writes_for(tiles, outcomes).len() <= outcomes.len(),
    decreases outcomes.len(),
{
    if outcomes.len() > 0 {
        let before = outcomes.drop_last();
        let front = writes_for(tiles, before);
        let all = writes_for(tiles, outcomes);
        let last = outcomes.len() - 1;
        lemma_only_outcomes_are_written(tiles, before);
        assert forall|i: int| 0 <= i < all.len() implies exists|k: int|
            0 <= k < outcomes.len() && does(#[trigger] all[i], tiles[k], #[trigger] outcomes[k]) by {
            if i < front.len() {
                assert(all[i] == front[i]);
                let k = choose|k: int|
                    0 <= k < before.len() && does(front[i], tiles[k], #[trigger] before[k]);
                assert(does(all[i], tiles[k], outcomes[k]));
            } else {
                assert(does(all[i], tiles[last], outcomes[last]));
            }
        }
    }
}

/// Outcomes and writes are all that stands in them, and are taken one for one.
pub proof fn lemma_writes_are_all_of_themselves(writes: Seq<TileWrite>, outcomes: Seq<Regenerated>)
    ensures
        write_models(writes).len() == writes.len(),
        outcome_models(outcomes).len() == outcomes.len(),
        forall|i: int|
            0 <= i < writes.len() ==> match (writes[i], #[trigger] write_models(writes)[i]) {
                (TileWrite::Delete(coord), WriteModel::Delete(t)) => t == coord,
                (TileWrite::Put(coord, data), WriteModel::Put(t, bytes)) => t == coord && bytes
                    == data@,
                _ => false,
            },
        forall|i: int|
            0 <= i < outcomes.len() ==> match (
                outcomes[i],
                #[trigger] outcome_models(outcomes)[i],
            ) {
                (Regenerated::Failed, OutcomeModel::Failed) => true,
                (Regenerated::Empty, OutcomeModel::Empty) => true,
                (Regenerated::Tile(data), OutcomeModel::Tile(bytes)) => bytes == data@,
                _ => false,
            },
{
}

/// What is announced is an update of the source: its name, how many tiles it wrote,
/// and its highest zoom.
pub proof fn lemma_update_is_announced(
    refresh: SourceRefresh<'_>,
    action: RefreshAction,
    tiles: Seq<TileCoord>,
)
    requires
        refresh.announces(action, tiles),
    ensures
        match action {
            RefreshAction::Announce {
                event: TileEvent::UpdateComplete { source, tiles_updated, max_zoom, .. },
            } => source@ == refresh.source.name@ && tiles_updated == tiles.len() && max_zoom
                == refresh.source.max_zoom,
            _ => false,
        },
{
}

} // verus!
