//! The scan of a world for its tile entities.
//!
//! The iterator owns the source of chunks and hands out, one at a time, the
//! tile entities of each chunk that the source yields, together with the
//! record of everything that was passed over on the way.

use crate::nbt::document_of;
use crate::region_name::RegionEntry;
use crate::tile_entity::DecodeError;
use crate::tile_entity::extract;
use crate::tile_entity::extraction;
use crate::tile_entity::outcome_view;
use crate::tile_entity::tidy;
use crate::tile_entity::TileEntity;
use crate::tile_entity::TileEntityModel;
use crate::world_fetcher::contents_view;
use crate::world_fetcher::effort;
use crate::world_fetcher::Fetch;
use crate::world_fetcher::FetcherModel;
use crate::world_fetcher::FetchModel;
use crate::world_fetcher::lemma_step_effort;
use crate::world_fetcher::loaded;
use crate::world_fetcher::Skipped;
use crate::world_fetcher::step;
use crate::world_fetcher::WorldFetcher;
use vstd::prelude::*;

verus! {

/// Why the scan yields no tile entity in some place.
#[derive(Clone, Copy, Debug, PartialEq, Eq)]
pub enum ScanError {
    /// A region file or a chunk slot was passed over.
    Region(Skipped),
    /// A chunk or an entry of its tile-entity list could not be read.
    Decode(DecodeError),
}

/// What one call of [`TileEntityIterator::next`] returns.
#[derive(Debug, PartialEq, Eq)]
pub enum Pull {
    /// The next tile entity, or the record of what was passed over.
    Item(Result<TileEntity, ScanError>),
    /// The contents of this file are wanted: hand them to
    /// [`TileEntityIterator::load`].
    Open(RegionEntry),
    /// The scan is over.
    Done,
}

/// The content of a [`Pull`].
pub enum PullModel {
    Item(Result<TileEntityModel, ScanError>),
    Open(RegionEntry),
    Done,
}

impl View for Pull {
    type V = PullModel;

    open spec fn view(&self) -> PullModel {
        match self {
            Pull::Item(Ok(t)) => PullModel::Item(Ok(t@)),
            Pull::Item(Err(e)) => PullModel::Item(Err(*e)),
            Pull::Open(entry) => PullModel::Open(*entry),
            Pull::Done => PullModel::Done,
        }
    }
}

/// The state of a scan for tile entities.
pub struct IteratorModel {
    /// The state of the source of chunks.
    pub fetcher: FetcherModel,
    /// What the chunk at hand still yields.
    pub queue: Seq<Result<TileEntityModel, DecodeError>>,
}

/// An item of a chunk as an item of the scan.
pub open spec fn lift(item: Result<TileEntityModel, DecodeError>) -> Result<
    TileEntityModel,
    ScanError,
> {
    match item {
        Ok(t) => Ok(t),
        Err(e) => Err(ScanError::Decode(e)),
    }
}

/// One pull: the state after it and what it returns. What the chunk at hand
/// still yields comes first; then the source is stepped until it yields a
/// chunk with an item, passes something over, asks for a file or ends.
pub open spec fn pull(m: IteratorModel) -> (IteratorModel, PullModel)
    decreases effort(m.fetcher), m.queue.len(),
    via pull_decreases
{
    if m.queue.len() > 0 {
        (IteratorModel { queue: m.queue.skip(1), ..m }, PullModel::Item(lift(m.queue[0])))
    } else {
        let (fetcher, fetched) = step(m.fetcher);
        let idle = IteratorModel { fetcher, queue: Seq::empty() };
        match fetched {
            FetchModel::Chunk(blob) => match extraction(
                document_of(blob.bytes),
                blob.chunk_x,
                blob.chunk_z,
            ) {
                Ok(items) => pull(IteratorModel { fetcher, queue: items }),
                Err(e) => (idle, PullModel::Item(Err(ScanError::Decode(e)))),
            },
            FetchModel::Skipped(skipped) => (
                idle,
                PullModel::Item(Err(ScanError::Region(skipped))),
            ),
            FetchModel::Open(entry) => (idle, PullModel::Open(entry)),
            FetchModel::Done => (idle, PullModel::Done),
        }
    }
}

/// A step that returns a chunk leaves less to do, so the pulls come to an
/// end.
#[via_fn]
proof fn pull_decreases(m: IteratorModel) {
    lemma_step_effort(m.fetcher);
}

/// The items that a stored queue still yields: the last stored comes first.
pub open spec fn queue_view(stored: Seq<Result<TileEntity, DecodeError>>) -> Seq<
    Result<TileEntityModel, DecodeError>,
> {
    Seq::new(stored.len(), |i: int| outcome_view(stored[stored.len() - 1 - i]))
}

/// A scan of a world directory for its tile entities.
pub struct TileEntityIterator {
    world_fetcher: WorldFetcher,
    /// What the chunk at hand still yields, the next item last.
    queue: Vec<Result<TileEntity, DecodeError>>,
}

impl View for TileEntityIterator {
    type V = IteratorModel;

    closed spec fn view(&self) -> IteratorModel {
        IteratorModel { fetcher: self.world_fetcher@, queue: queue_view(self.queue@) }
    }
}

/// Turns a run of items round.
fn reversed(items: Vec<Result<TileEntity, DecodeError>>) -> (r: Vec<
    Result<TileEntity, DecodeError>,
>)
    ensures
        queue_view(r@) == crate::tile_entity::outcomes_view(items@),
        tidy(items@) ==> tidy(r@),
{
    let mut items = items;
    let ghost all = items@;
    let mut out: Vec<Result<TileEntity, DecodeError>> = Vec::new();
    while items.len() > 0
        invariant
            items@.len() + out@.len() == all.len(),
            items@ == all.take(items@.len() as int),
            forall|k: int| 0 <= k < out@.len() ==> out@[k] == all[all.len() - 1 - k],
        decreases items@.len(),
    {
        match items.pop() {
            Some(item) => {
                out.push(item);
            },
            None => {},
        }
    }
    assert(queue_view(out@) =~= crate::tile_entity::outcomes_view(all));
    out
}

impl TileEntityIterator {
    /// Whether the tile entities that wait in the queue are canonical.
    pub closed spec fn wf(&self) -> bool {
        tidy(self.queue@)
    }

    /// Starts a scan for tile entities over the chunks of `world_fetcher`.
    pub fn new(world_fetcher: WorldFetcher) -> (r: TileEntityIterator)
        ensures
            r@ == (IteratorModel { fetcher: world_fetcher@, queue: Seq::empty() }),
            r.wf(),
    {
        let r = TileEntityIterator { world_fetcher, queue: Vec::new() };
        assert(queue_view(r.queue@) =~= Seq::empty());
        r
    }

    /// Takes the contents of the file that the scan asked for, or `None`
    /// for a file that could not be read.
    pub fn load(&mut self, contents: Option<Vec<u8>>)
        ensures
            final(self)@ == (IteratorModel {
                fetcher: loaded(old(self)@.fetcher, contents_view(contents)),
                queue: old(self)@.queue,
            }),
            old(self).wf() ==> final(self).wf(),
    {
        self.world_fetcher.load(contents);
    }

    /// Pulls the next item of the scan.
    ///
    /// Returns the next tile entity or the record of a region file, a chunk
    /// slot, a chunk or a list entry that was passed over; the file whose
    /// contents are wanted next; or `Done` when the scan is over.
    pub fn next(&mut self) -> (r: Pull)
        ensures
            (final(self)@, r@) == pull(old(self)@),
            old(self).wf() ==> final(self).wf() && match r {
                Pull::Item(Ok(t)) => t.canonical(),
                _ => true,
            },
    {
        loop
            invariant
                pull(self@) == pull(old(self)@),
                old(self).wf() ==> self.wf(),
            decreases effort(self@.fetcher), self@.queue.len(),
        {
            let ghost before = self@;
            let ghost stored = self.queue@;
            match self.queue.pop() {
                Some(item) => {
                    proof {
                        assert(item == stored[stored.len() - 1]);
                        assert(self@.queue =~= before.queue.skip(1));
                        assert(self@ == (IteratorModel { queue: before.queue.skip(1), ..before }));
                    }
                    return match item {
                        Ok(t) => Pull::Item(Ok(t)),
                        Err(e) => Pull::Item(Err(ScanError::Decode(e))),
                    };
                },
                None => {},
            }
            proof {
                assert(before.queue =~= Seq::empty());
                lemma_step_effort(before.fetcher);
            }
            match self.world_fetcher.next() {
                Fetch::Chunk(blob) => match extract(&blob) {
                    Ok(items) => {
                        self.queue = reversed(items);
                    },
                    Err(e) => {
                        return Pull::Item(Err(ScanError::Decode(e)));
                    },
                },
                Fetch::Skipped(skipped) => {
                    return Pull::Item(Err(ScanError::Region(skipped)));
                },
                Fetch::Open(entry) => {
                    return Pull::Open(entry);
                },
                Fetch::Done => {
                    return Pull::Done;
                },
            }
        }
    }
}

} // verus!
