//! The cell index: a derived, periodically rebuilt lookup from fine cell
//! coordinate to the resident tile/unit occupying that cell, for point
//! queries. It is not authoritative: it is rebuilt from a snapshot of the
//! cache's resident tiles on a slower cadence than the control loop, trading
//! freshness for throughput. On a collision (two units mapping to the same
//! cell) the first unit encountered during the rebuild wins and the rest are
//! dropped — an accepted lossy behaviour, not an error.

use vstd::prelude::*;

use crate::assoc::{as_map, distinct_keys, has_key, index_of_key, lemma_as_map_index,
    lemma_as_map_push};
use crate::cache::{payload_in_range, TilePayload, TileUnit};
use crate::coordinates::{cell_axis, cell_input_in_range, cell_of, ADTPosition, ChunkPosition};

verus! {

/// What occupies a cell: the identity of the tile and the unit itself.
#[derive(Debug, Clone, Copy, PartialEq, Eq, Structural)]
pub struct CellEntry {
    pub tile: ADTPosition,
    pub unit: TileUnit,
}

/// The cell a unit's anchor position falls in.
pub open spec fn unit_cell(u: TileUnit) -> ChunkPosition {
    ChunkPosition {
        x: cell_axis(u.position.x as int) as i32,
        y: cell_axis(u.position.y as int) as i32,
    }
}

/// One tile's units folded into the index map, in order, first writer wins.
pub open spec fn insert_units(
    m: Map<ChunkPosition, CellEntry>,
    tile: ADTPosition,
    units: Seq<TileUnit>,
) -> Map<ChunkPosition, CellEntry>
    decreases units.len(),
{
    if units.len() == 0 {
        m
    } else {
        let cell = unit_cell(units[0]);
        let m2 = if m.dom().contains(cell) {
            m
        } else {
            m.insert(cell, CellEntry { tile, unit: units[0] })
        };
        insert_units(m2, tile, units.drop_first())
    }
}

/// A sequence of tiles folded into the index map, in order.
pub open spec fn index_model(
    m: Map<ChunkPosition, CellEntry>,
    tiles: Seq<(ADTPosition, Seq<TileUnit>)>,
) -> Map<ChunkPosition, CellEntry>
    decreases tiles.len(),
{
    if tiles.len() == 0 {
        m
    } else {
        index_model(insert_units(m, tiles[0].0, tiles[0].1), tiles.drop_first())
    }
}

/// The ghost value of a resident-tile snapshot: each payload as its units.
pub open spec fn tile_views(s: Seq<(ADTPosition, TilePayload)>) -> Seq<(ADTPosition, Seq<TileUnit>)> {
    s.map_values(|t: (ADTPosition, TilePayload)| (t.0, t.1@))
}

/// The derived lookup table. Viewed as a `Map<ChunkPosition, CellEntry>`.
pub struct CellIndex {
    entries: Vec<(ChunkPosition, CellEntry)>,
}

impl View for CellIndex {
    type V = Map<ChunkPosition, CellEntry>;

    closed spec fn view(&self) -> Map<ChunkPosition, CellEntry> {
        as_map(self.entries@)
    }
}

impl CellIndex {
    /// Well-formed: no cell appears twice.
    pub closed spec fn inv(&self) -> bool {
        distinct_keys(self.entries@)
    }

    /// An empty index.
    pub fn new() -> (index: Self)
        ensures
            index.inv(),
            index@ =~= Map::<ChunkPosition, CellEntry>::empty(),
    {
        let index = CellIndex { entries: Vec::new() };
        proof {
            assert forall|c: ChunkPosition| !has_key(index.entries@, c) by {}
        }
        index
    }

    /// The position of `cell` among the stored entries, if it is occupied.
    fn find_cell(&self, cell: ChunkPosition) -> (r: Option<usize>)
        ensures
            match r {
                Some(i) => i < self.entries@.len() && self.entries@[i as int].0 == cell,
                None => !has_key(self.entries@, cell),
            },
    {
        let mut i: usize = 0;
        while i < self.entries.len()
            invariant
                i <= self.entries@.len(),
                forall|j: int| 0 <= j < i ==> (#[trigger] self.entries@[j]).0 != cell,
            decreases self.entries@.len() - i,
        {
            if self.entries[i].0 == cell {
                return Some(i);
            }
            i = i + 1;
        }
        None
    }

    /// What occupies `cell`, if anything.
    pub fn lookup(&self, cell: ChunkPosition) -> (r: Option<CellEntry>)
        requires
            self.inv(),
        ensures
            match r {
                Some(entry) => self@.dom().contains(cell) && entry == self@[cell],
                None => !self@.dom().contains(cell),
            },
    {
        match self.find_cell(cell) {
            Some(i) => {
                proof {
                    lemma_as_map_index(self.entries@, i as int);
                }
                Some(self.entries[i].1)
            },
            None => None,
        }
    }

    /// Clear and repopulate the index from a snapshot of resident tiles:
    /// walk every tile's units in order, compute each unit's cell, and keep
    /// the first unit seen for each cell.
    pub fn rebuild(&mut self, tiles: &Vec<(ADTPosition, TilePayload)>)
        requires
            old(self).inv(),
            forall|i: int| 0 <= i < tiles@.len() ==> payload_in_range((#[trigger] tiles@[i]).1@),
        ensures
            final(self).inv(),
            final(self)@ =~= index_model(
                Map::<ChunkPosition, CellEntry>::empty(),
                tile_views(tiles@),
            ),
    {
        let ghost target = index_model(Map::<ChunkPosition, CellEntry>::empty(), tile_views(tiles@));
        self.entries = Vec::new();
        proof {
            assert forall|c: ChunkPosition| !has_key(self.entries@, c) by {}
            assert(self@ =~= Map::<ChunkPosition, CellEntry>::empty());
        }
        let mut ti: usize = 0;
        proof {
            assert(tile_views(tiles@).skip(0) =~= tile_views(tiles@));
            assert(index_model(self@, tile_views(tiles@).skip(0)) == target);
        }
        while ti < tiles.len()
            invariant
                forall|i: int| 0 <= i < tiles@.len() ==> payload_in_range((#[trigger] tiles@[i]).1@),
                ti <= tiles@.len(),
                self.inv(),
                target == index_model(
                    Map::<ChunkPosition, CellEntry>::empty(),
                    tile_views(tiles@),
                ),
                target == index_model(self@, tile_views(tiles@).skip(ti as int)),
            decreases tiles@.len() - ti,
        {
            let tile = tiles[ti].0;
            let ghost units = tiles@[ti as int].1@;
            let ghost outer_rest = tile_views(tiles@).skip(ti as int);
            proof {
                assert(outer_rest[0] == (tiles@[ti as int].0, tiles@[ti as int].1@));
                assert(outer_rest.drop_first() =~= tile_views(tiles@).skip(ti as int + 1));
                assert(index_model(self@, outer_rest) == index_model(
                    insert_units(self@, tile, units),
                    outer_rest.drop_first(),
                ));
            }
            let ghost m_in = self@;
            let mut uj: usize = 0;
            proof {
                assert(units.skip(0) =~= units);
                assert(insert_units(self@, tile, units.skip(0)) == insert_units(m_in, tile, units));
            }
            while uj < tiles[ti].1.units.len()
                invariant
                    forall|i: int|
                        0 <= i < tiles@.len() ==> payload_in_range((#[trigger] tiles@[i]).1@),
                    ti < tiles@.len(),
                    tile == tiles@[ti as int].0,
                    units == tiles@[ti as int].1@,
                    uj <= units.len(),
                    self.inv(),
                    insert_units(self@, tile, units.skip(uj as int)) == insert_units(
                        m_in,
                        tile,
                        units,
                    ),
                decreases units.len() - uj,
            {
                let u = tiles[ti].1.units[uj];
                proof {
                    assert(u == units[uj as int]);
                    assert(cell_input_in_range(u.position));
                }
                let cell = cell_of(&u.position);
                proof {
                    assert(cell == unit_cell(u));
                    assert(units.skip(uj as int)[0] == u);
                    assert(units.skip(uj as int).drop_first() =~= units.skip(uj as int + 1));
                }
                let ghost m_here = self@;
                let ghost entries_here = self.entries@;
                if self.find_cell(cell).is_none() {
                    self.entries.push((cell, CellEntry { tile, unit: u }));
                    proof {
                        lemma_as_map_push(entries_here, cell, CellEntry { tile, unit: u });
                        assert(self@ =~= m_here.insert(cell, CellEntry { tile, unit: u }));
                    }
                } else {
                    proof {
                        assert(self@.dom().contains(cell));
                    }
                }
                proof {
                    assert(insert_units(m_here, tile, units.skip(uj as int)) == insert_units(
                        self@,
                        tile,
                        units.skip(uj as int + 1),
                    ));
                }
                uj = uj + 1;
            }
            proof {
                assert(units.skip(units.len() as int) =~= Seq::<TileUnit>::empty());
                assert(insert_units(self@, tile, units.skip(units.len() as int)) == self@);
                assert(self@ == insert_units(m_in, tile, units));
                assert(target == index_model(self@, tile_views(tiles@).skip(ti as int + 1)));
            }
            ti = ti + 1;
        }
        proof {
            assert(tile_views(tiles@).skip(tiles@.len() as int) =~= Seq::<
                (ADTPosition, Seq<TileUnit>),
            >::empty());
            assert(target == index_model(self@, tile_views(tiles@).skip(tiles@.len() as int)));
            assert(self@ =~= target);
        }
    }
}

/// Folding units into the map only adds entries: existing cells keep their
/// occupant (the first writer wins), and afterwards every unit's cell is
/// occupied.
pub proof fn lemma_insert_units_grows(
    m: Map<ChunkPosition, CellEntry>,
    tile: ADTPosition,
    units: Seq<TileUnit>,
)
    ensures
        forall|c: ChunkPosition| #[trigger] m.dom().contains(c) ==> insert_units(m, tile, units).dom().contains(c)
            && insert_units(m, tile, units)[c] == m[c],
        forall|j: int|
            0 <= j < units.len() ==> insert_units(m, tile, units).dom().contains(
                unit_cell(#[trigger] units[j]),
            ),
    decreases units.len(),
{
    if units.len() > 0 {
        let cell = unit_cell(units[0]);
        let m2 = if m.dom().contains(cell) {
            m
        } else {
            m.insert(cell, CellEntry { tile, unit: units[0] })
        };
        lemma_insert_units_grows(m2, tile, units.drop_first());
        assert forall|c: ChunkPosition| #[trigger] m.dom().contains(c) implies insert_units(
            m,
            tile,
            units,
        ).dom().contains(c) && insert_units(m, tile, units)[c] == m[c] by {
            assert(m2.dom().contains(c));
            assert(m2[c] == m[c]);
            assert(insert_units(m2, tile, units.drop_first()).dom().contains(c));
        }
        assert forall|j: int|
            0 <= j < units.len() implies insert_units(m, tile, units).dom().contains(
            unit_cell(#[trigger] units[j]),
        ) by {
            if j > 0 {
                assert(units.drop_first()[j - 1] == units[j]);
            } else {
                assert(m2.dom().contains(cell));
            }
        }
    }
}

/// The rebuilt index holds exactly what the tile walk put there: cells
/// already occupied before a tile's units are folded in stay as they were,
/// and afterwards every unit of every tile occupies its cell.
pub proof fn lemma_index_model_covers(
    m: Map<ChunkPosition, CellEntry>,
    tiles: Seq<(ADTPosition, Seq<TileUnit>)>,
)
    ensures
        forall|c: ChunkPosition| #[trigger] m.dom().contains(c) ==> index_model(m, tiles).dom().contains(c)
            && index_model(m, tiles)[c] == m[c],
        forall|i: int, j: int|
            0 <= i < tiles.len() && 0 <= j < (#[trigger] tiles[i]).1.len() ==> index_model(
                m,
                tiles,
            ).dom().contains(unit_cell(#[trigger] tiles[i].1[j])),
    decreases tiles.len(),
{
    if tiles.len() > 0 {
        let m2 = insert_units(m, tiles[0].0, tiles[0].1);
        lemma_insert_units_grows(m, tiles[0].0, tiles[0].1);
        lemma_index_model_covers(m2, tiles.drop_first());
        assert forall|i: int, j: int|
            0 <= i < tiles.len() && 0 <= j < (#[trigger] tiles[i]).1.len() implies index_model(
            m,
            tiles,
        ).dom().contains(unit_cell(#[trigger] tiles[i].1[j])) by {
            if i > 0 {
                assert(tiles.drop_first()[i - 1] == tiles[i]);
            } else {
                assert(m2.dom().contains(unit_cell(tiles[0].1[j])));
            }
        }
    }
}

} // verus!
