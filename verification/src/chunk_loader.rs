//! Load/generate scheduling: which chunk coordinates to request, in what
//! order, and the in-flight set that de-duplicates outstanding requests.
//!
//! The loader here is the decision core of the pipeline: the caller owns
//! the worker threads and channels, asks `tick` which coordinates to
//! request, and reports each delivered chunk back through `complete`.

use vstd::prelude::*;

use std::collections::HashSet;

use crate::chunk_map::ChunkMap;
use crate::pos::{chunk_coord_in_range, Vec3i};

verus! {

broadcast use vstd::std_specs::hash::group_hash_axioms;

/// Horizontal and vertical render distance, in chunks.
pub const RENDER_DIST: i32 = 6;

pub const RENDER_DIST_HEIGHT: i32 = 4;

/// At most this many requests may be outstanding at once.
pub const MAX_IN_FLIGHT: usize = 60;

pub struct ChunkLoader {
    loading_chunks: HashSet<u128>,
}

/// The chunk coordinate at a given offset from the player chunk.
pub open spec fn at_offset(player_pos: Vec3i, ox: int, oy: int, oz: int) -> Vec3i {
    Vec3i {
        x: (player_pos.x + ox) as i32,
        y: (player_pos.y + oy) as i32,
        z: (player_pos.z + oz) as i32,
    }
}

/// A coordinate the scheduler owes nothing more for this tick: its chunk
/// is resident, or a request for it is outstanding, or the whole request
/// budget is spent.
pub open spec fn offset_done(loader: ChunkLoader, chunk_map: ChunkMap, cp: Vec3i) -> bool {
    ||| chunk_map.contains_coord(cp)
    ||| loader.in_flight().contains(cp.spec_key())
    ||| loader.in_flight().len() >= MAX_IN_FLIGHT
}

/// The column offset `(0, oy, 0)` has been decided.
spec fn col_done(loader: ChunkLoader, chunk_map: ChunkMap, player_pos: Vec3i, oy: int) -> bool {
    offset_done(loader, chunk_map, at_offset(player_pos, 0, oy, 0))
}

/// All four ring positions of radius `r` at height `side` indexed by `x`
/// have been decided.
spec fn ring_done(
    loader: ChunkLoader,
    chunk_map: ChunkMap,
    player_pos: Vec3i,
    r: int,
    x: int,
    side: int,
) -> bool {
    &&& offset_done(loader, chunk_map, at_offset(player_pos, x, side, r))
    &&& offset_done(loader, chunk_map, at_offset(player_pos, r, side, -x))
    &&& offset_done(loader, chunk_map, at_offset(player_pos, -x, side, -r))
    &&& offset_done(loader, chunk_map, at_offset(player_pos, -r, side, x))
}

impl ChunkLoader {
    /// The packed coordinates of every outstanding request.
    pub closed spec fn in_flight(&self) -> Set<u128> {
        self.loading_chunks@
    }

    /// The scheduler's invariant: the in-flight set is finite and never
    /// holds more than the request channel's capacity.
    pub open spec fn wf(&self) -> bool {
        &&& self.in_flight().finite()
        &&& self.in_flight().len() <= MAX_IN_FLIGHT
    }

    pub fn new() -> (r: ChunkLoader)
        ensures
            r.in_flight() == Set::<u128>::empty(),
            r.wf(),
    {
        ChunkLoader { loading_chunks: HashSet::new() }
    }

    /// Decides whether the chunk at `player_pos + pos` should be requested:
    /// only if it is not resident, not already in flight, and the in-flight
    /// set is not saturated.  A request is returned to the caller to send
    /// and is marked in flight.
    pub fn try_load(&mut self, player_pos: Vec3i, pos: Vec3i, chunk_map: &ChunkMap) -> (r: Option<
        Vec3i,
    >)
        requires
            old(self).wf(),
            chunk_coord_in_range(player_pos),
            -64 <= pos.x <= 64,
            -64 <= pos.y <= 64,
            -64 <= pos.z <= 64,
        ensures
            final(self).wf(),
            old(self).in_flight().subset_of(final(self).in_flight()),
            old(self).in_flight().len() <= final(self).in_flight().len(),
            offset_done(
                *final(self),
                *chunk_map,
                at_offset(player_pos, pos.x as int, pos.y as int, pos.z as int),
            ),
            ({
                let cp = Vec3i {
                    x: (player_pos.x + pos.x) as i32,
                    y: (player_pos.y + pos.y) as i32,
                    z: (player_pos.z + pos.z) as i32,
                };
                match r {
                    Some(c) => {
                        &&& c == cp
                        &&& old(self).in_flight().len() < MAX_IN_FLIGHT
                        &&& !old(self).in_flight().contains(cp.spec_key())
                        &&& !chunk_map.contains_coord(cp)
                        &&& final(self).in_flight() == old(self).in_flight().insert(cp.spec_key())
                    },
                    None => {
                        &&& final(self).in_flight() == old(self).in_flight()
                        &&& (old(self).in_flight().len() >= MAX_IN_FLIGHT || old(
                            self,
                        ).in_flight().contains(cp.spec_key()) || chunk_map.contains_coord(cp))
                    },
                }
            }),
    {
        let chunk_pos = player_pos.offset(pos.x, pos.y, pos.z);
        let key = chunk_pos.key();
        if self.loading_chunks.len() < MAX_IN_FLIGHT && !self.loading_chunks.contains(&key)
            && chunk_map.get_chunk(chunk_pos).is_none() {
            self.loading_chunks.insert(key);
            Some(chunk_pos)
        } else {
            None
        }
    }

    /// Un-marks a request whose send failed, so it is retried on a later
    /// tick rather than stranded.
    pub fn abort_load(&mut self, pos: Vec3i)
        requires
            old(self).wf(),
        ensures
            final(self).wf(),
            final(self).in_flight() == old(self).in_flight().remove(pos.spec_key()),
    {
        self.loading_chunks.remove(&pos.key());
    }

    /// Clears the in-flight marker of a delivered chunk.
    pub fn complete(&mut self, pos: Vec3i)
        requires
            old(self).wf(),
        ensures
            final(self).wf(),
            final(self).in_flight() == old(self).in_flight().remove(pos.spec_key()),
    {
        self.loading_chunks.remove(&pos.key());
    }

    /// Visits every offset within the render distance box — the central
    /// vertical column first (downward half leading), then concentric
    /// square rings outward, an ordering that is a latency heuristic only —
    /// and collects the coordinates to request, in that order.  Afterwards
    /// nothing in the box is left behind: every coordinate there is
    /// resident, in flight, or the request budget is exhausted; everything
    /// newly in flight is in the returned batch; and the in-flight set only
    /// grows, never past its cap.
    pub fn tick(&mut self, chunk_map: &ChunkMap, player_pos: Vec3i) -> (r: Vec<Vec3i>)
        requires
            old(self).wf(),
            chunk_coord_in_range(player_pos),
        ensures
            final(self).wf(),
            forall|i: int|
                0 <= i < r@.len() ==> !chunk_map.contains_coord(#[trigger] r@[i])
                    && final(self).in_flight().contains(r@[i].spec_key()),
            forall|i: int|
                0 <= i < r@.len() ==> player_pos.x - RENDER_DIST <= (#[trigger] r@[i]).x
                    <= player_pos.x + RENDER_DIST && player_pos.y - RENDER_DIST_HEIGHT <= r@[i].y
                    <= player_pos.y + RENDER_DIST_HEIGHT && player_pos.z - RENDER_DIST <= r@[i].z
                    <= player_pos.z + RENDER_DIST,
            old(self).in_flight().subset_of(final(self).in_flight()),
            forall|k: u128|
                final(self).in_flight().contains(k) && !old(self).in_flight().contains(k)
                    ==> exists|i: int| 0 <= i < r@.len() && (#[trigger] r@[i].spec_key()) == k,
            forall|cp: Vec3i| #![trigger cp.spec_key()]
                player_pos.x - RENDER_DIST <= cp.x <= player_pos.x + RENDER_DIST && player_pos.y
                    - RENDER_DIST_HEIGHT <= cp.y <= player_pos.y + RENDER_DIST_HEIGHT
                    && player_pos.z - RENDER_DIST <= cp.z <= player_pos.z + RENDER_DIST
                    ==> offset_done(*final(self), *chunk_map, cp),
    {
        let mut requests: Vec<Vec3i> = Vec::new();
        let mut y: i32 = 1;
        while y <= RENDER_DIST_HEIGHT
            invariant
                chunk_coord_in_range(player_pos),
                1 <= y <= RENDER_DIST_HEIGHT + 1,
                self.wf(),
                self.tick_batch_ok(*old(self), *chunk_map, player_pos, requests@),
                forall|oy: int|
                    1 - y <= oy <= -1 ==> #[trigger] col_done(
                        *self,
                        *chunk_map,
                        player_pos,
                        oy,
                    ),
            decreases RENDER_DIST_HEIGHT + 1 - y,
        {
            let ghost pre = *self;
            self.push_try_load(&mut requests, player_pos, Vec3i { x: 0, y: -y, z: 0 }, chunk_map);
            proof {
                lemma_done_sets_grow(pre, *self, *chunk_map, player_pos, 0);
                assert forall|oy: int| 1 - (y + 1) <= oy <= -1 implies #[trigger] col_done(
                    *self,
                    *chunk_map,
                    player_pos,
                    oy,
                ) by {
                    if oy != -y {
                        assert(col_done(pre, *chunk_map, player_pos, oy));
                    }
                }
            }
            y += 1;
        }
        let mut y2: i32 = 0;
        while y2 < RENDER_DIST_HEIGHT + 1
            invariant
                chunk_coord_in_range(player_pos),
                0 <= y2 <= RENDER_DIST_HEIGHT + 1,
                self.wf(),
                self.tick_batch_ok(*old(self), *chunk_map, player_pos, requests@),
                forall|oy: int|
                    -RENDER_DIST_HEIGHT <= oy <= -1 || 0 <= oy < y2 ==> #[trigger] col_done(
                        *self,
                        *chunk_map,
                        player_pos,
                        oy,
                    ),
            decreases RENDER_DIST_HEIGHT + 1 - y2,
        {
            let ghost pre = *self;
            self.push_try_load(&mut requests, player_pos, Vec3i { x: 0, y: y2, z: 0 }, chunk_map);
            proof {
                lemma_done_sets_grow(pre, *self, *chunk_map, player_pos, 0);
                assert forall|oy: int|
                    -RENDER_DIST_HEIGHT <= oy <= -1 || 0 <= oy < y2 + 1 implies #[trigger] col_done(
                    *self,
                    *chunk_map,
                    player_pos,
                    oy,
                ) by {
                    if oy != y2 {
                        assert(col_done(pre, *chunk_map, player_pos, oy));
                    }
                }
            }
            y2 += 1;
        }
        let mut ring: i32 = 1;
        while ring < RENDER_DIST + 1
            invariant
                chunk_coord_in_range(player_pos),
                1 <= ring <= RENDER_DIST + 1,
                self.wf(),
                self.tick_batch_ok(*old(self), *chunk_map, player_pos, requests@),
                forall|oy: int|
                    -RENDER_DIST_HEIGHT <= oy <= RENDER_DIST_HEIGHT ==> #[trigger] col_done(
                        *self,
                        *chunk_map,
                        player_pos,
                        oy,
                    ),
                forall|r2: int, x2: int, s2: int|
                    1 <= r2 < ring && -r2 <= x2 < r2 && -RENDER_DIST_HEIGHT <= s2
                        <= RENDER_DIST_HEIGHT ==> #[trigger] ring_done(
                        *self,
                        *chunk_map,
                        player_pos,
                        r2,
                        x2,
                        s2,
                    ),
            decreases RENDER_DIST + 1 - ring,
        {
            let mut x: i32 = -ring;
            while x < ring
                invariant
                    chunk_coord_in_range(player_pos),
                    1 <= ring <= RENDER_DIST,
                    -ring <= x <= ring,
                    self.wf(),
                    self.tick_batch_ok(*old(self), *chunk_map, player_pos, requests@),
                    forall|oy: int|
                        -RENDER_DIST_HEIGHT <= oy <= RENDER_DIST_HEIGHT ==> #[trigger] col_done(
                            *self,
                            *chunk_map,
                            player_pos,
                            oy,
                        ),
                    forall|r2: int, x2: int, s2: int|
                        (1 <= r2 < ring && -r2 <= x2 < r2 || r2 == ring && -ring <= x2 < x)
                            && -RENDER_DIST_HEIGHT <= s2 <= RENDER_DIST_HEIGHT
                            ==> #[trigger] ring_done(*self, *chunk_map, player_pos, r2, x2, s2),
                decreases ring - x,
            {
                let mut yn: i32 = 1;
                while yn <= RENDER_DIST_HEIGHT
                    invariant
                        chunk_coord_in_range(player_pos),
                        1 <= ring <= RENDER_DIST,
                        -ring <= x < ring,
                        1 <= yn <= RENDER_DIST_HEIGHT + 1,
                        self.wf(),
                        self.tick_batch_ok(*old(self), *chunk_map, player_pos, requests@),
                        forall|oy: int|
                            -RENDER_DIST_HEIGHT <= oy <= RENDER_DIST_HEIGHT ==> #[trigger] col_done(
                                *self,
                                *chunk_map,
                                player_pos,
                                oy,
                            ),
                        forall|r2: int, x2: int, s2: int|
                            (1 <= r2 < ring && -r2 <= x2 < r2 || r2 == ring && -ring <= x2 < x)
                                && -RENDER_DIST_HEIGHT <= s2 <= RENDER_DIST_HEIGHT
                                ==> #[trigger] ring_done(*self, *chunk_map, player_pos, r2, x2, s2),
                        forall|s2: int|
                            1 - yn <= s2 <= -1 ==> #[trigger] ring_done(
                                *self,
                                *chunk_map,
                                player_pos,
                                ring as int,
                                x as int,
                                s2,
                            ),
                    decreases RENDER_DIST_HEIGHT + 1 - yn,
                {
                    let ghost pre = *self;
                    self.push_ring(&mut requests, player_pos, ring, x, -yn, chunk_map);
                    proof {
                        lemma_done_sets_grow(pre, *self, *chunk_map, player_pos, ring as int);
                        assert forall|oy: int|
                            -RENDER_DIST_HEIGHT <= oy <= RENDER_DIST_HEIGHT implies #[trigger] col_done(
                            *self,
                            *chunk_map,
                            player_pos,
                            oy,
                        ) by {
                            assert(col_done(pre, *chunk_map, player_pos, oy));
                        }
                        assert forall|r2: int, x2: int, s2: int|
                            (1 <= r2 < ring && -r2 <= x2 < r2 || r2 == ring && -ring <= x2 < x)
                                && -RENDER_DIST_HEIGHT <= s2
                                <= RENDER_DIST_HEIGHT implies #[trigger] ring_done(
                            *self,
                            *chunk_map,
                            player_pos,
                            r2,
                            x2,
                            s2,
                        ) by {
                            assert(ring_done(pre, *chunk_map, player_pos, r2, x2, s2));
                        }
                        assert forall|s2: int| 1 - (yn + 1) <= s2 <= -1 implies #[trigger] ring_done(
                            *self,
                            *chunk_map,
                            player_pos,
                            ring as int,
                            x as int,
                            s2,
                        ) by {
                            if s2 != -yn {
                                assert(ring_done(
                                    pre,
                                    *chunk_map,
                                    player_pos,
                                    ring as int,
                                    x as int,
                                    s2,
                                ));
                            }
                        }
                    }
                    yn += 1;
                }
                let mut yp: i32 = 0;
                while yp <= RENDER_DIST_HEIGHT
                    invariant
                        chunk_coord_in_range(player_pos),
                        1 <= ring <= RENDER_DIST,
                        -ring <= x < ring,
                        0 <= yp <= RENDER_DIST_HEIGHT + 1,
                        self.wf(),
                        self.tick_batch_ok(*old(self), *chunk_map, player_pos, requests@),
                        forall|oy: int|
                            -RENDER_DIST_HEIGHT <= oy <= RENDER_DIST_HEIGHT ==> #[trigger] col_done(
                                *self,
                                *chunk_map,
                                player_pos,
                                oy,
                            ),
                        forall|r2: int, x2: int, s2: int|
                            (1 <= r2 < ring && -r2 <= x2 < r2 || r2 == ring && -ring <= x2 < x)
                                && -RENDER_DIST_HEIGHT <= s2 <= RENDER_DIST_HEIGHT
                                ==> #[trigger] ring_done(*self, *chunk_map, player_pos, r2, x2, s2),
                        forall|s2: int|
                            -RENDER_DIST_HEIGHT <= s2 <= -1 || 0 <= s2 < yp ==> #[trigger] ring_done(
                                *self,
                                *chunk_map,
                                player_pos,
                                ring as int,
                                x as int,
                                s2,
                            ),
                    decreases RENDER_DIST_HEIGHT + 1 - yp,
                {
                    let ghost pre = *self;
                    self.push_ring(&mut requests, player_pos, ring, x, yp, chunk_map);
                    proof {
                        lemma_done_sets_grow(pre, *self, *chunk_map, player_pos, ring as int);
                        assert forall|oy: int|
                            -RENDER_DIST_HEIGHT <= oy <= RENDER_DIST_HEIGHT implies #[trigger] col_done(
                            *self,
                            *chunk_map,
                            player_pos,
                            oy,
                        ) by {
                            assert(col_done(pre, *chunk_map, player_pos, oy));
                        }
                        assert forall|r2: int, x2: int, s2: int|
                            (1 <= r2 < ring && -r2 <= x2 < r2 || r2 == ring && -ring <= x2 < x)
                                && -RENDER_DIST_HEIGHT <= s2
                                <= RENDER_DIST_HEIGHT implies #[trigger] ring_done(
                            *self,
                            *chunk_map,
                            player_pos,
                            r2,
                            x2,
                            s2,
                        ) by {
                            assert(ring_done(pre, *chunk_map, player_pos, r2, x2, s2));
                        }
                        assert forall|s2: int|
                            -RENDER_DIST_HEIGHT <= s2 <= -1 || 0 <= s2 < yp + 1 implies #[trigger] ring_done(
                            *self,
                            *chunk_map,
                            player_pos,
                            ring as int,
                            x as int,
                            s2,
                        ) by {
                            if s2 != yp {
                                assert(ring_done(
                                    pre,
                                    *chunk_map,
                                    player_pos,
                                    ring as int,
                                    x as int,
                                    s2,
                                ));
                            }
                        }
                    }
                    yp += 1;
                }
                x += 1;
            }
            ring += 1;
        }
        proof {
            assert forall|cp: Vec3i| #![trigger cp.spec_key()]
                player_pos.x - RENDER_DIST <= cp.x <= player_pos.x + RENDER_DIST && player_pos.y
                    - RENDER_DIST_HEIGHT <= cp.y <= player_pos.y + RENDER_DIST_HEIGHT
                    && player_pos.z - RENDER_DIST <= cp.z <= player_pos.z
                    + RENDER_DIST implies offset_done(*self, *chunk_map, cp) by {
                let ox: int = cp.x - player_pos.x;
                let oy: int = cp.y - player_pos.y;
                let oz: int = cp.z - player_pos.z;
                if ox == 0 && oz == 0 {
                    assert(col_done(*self, *chunk_map, player_pos, oy));
                    assert(at_offset(player_pos, 0, oy, 0) == cp);
                } else {
                    let ax: int = if ox >= 0 {
                        ox
                    } else {
                        -ox
                    };
                    let az: int = if oz >= 0 {
                        oz
                    } else {
                        -oz
                    };
                    let s: int = if ax >= az {
                        ax
                    } else {
                        az
                    };
                    if oz == s && ox < s {
                        assert(ring_done(*self, *chunk_map, player_pos, s, ox, oy));
                        assert(at_offset(player_pos, ox, oy, s) == cp);
                    } else if ox == s && oz > -s {
                        assert(ring_done(*self, *chunk_map, player_pos, s, -oz, oy));
                        assert(at_offset(player_pos, s, oy, oz) == cp);
                    } else if oz == -s && ox > -s {
                        assert(ring_done(*self, *chunk_map, player_pos, s, -ox, oy));
                        assert(at_offset(player_pos, ox, oy, -s) == cp);
                    } else {
                        assert(ox == -s && -s <= oz < s);
                        assert(ring_done(*self, *chunk_map, player_pos, s, oz, oy));
                        assert(at_offset(player_pos, -s, oy, oz) == cp);
                    }
                }
            }
        }
        requests
    }

    /// What `tick` maintains about the requests gathered so far: each is
    /// sound (not resident, marked in flight, inside the box), everything
    /// newly in flight is among them, and the in-flight set only grew.
    pub open spec fn tick_batch_ok(
        &self,
        loader0: ChunkLoader,
        chunk_map: ChunkMap,
        player_pos: Vec3i,
        requests: Seq<Vec3i>,
    ) -> bool {
        &&& forall|i: int|
            0 <= i < requests.len() ==> !chunk_map.contains_coord(#[trigger] requests[i])
                && self.in_flight().contains(requests[i].spec_key())
        &&& forall|i: int|
            0 <= i < requests.len() ==> player_pos.x - RENDER_DIST <= (#[trigger] requests[i]).x
                <= player_pos.x + RENDER_DIST && player_pos.y - RENDER_DIST_HEIGHT <= requests[i].y
                <= player_pos.y + RENDER_DIST_HEIGHT && player_pos.z - RENDER_DIST
                <= requests[i].z <= player_pos.z + RENDER_DIST
        &&& loader0.in_flight().subset_of(self.in_flight())
        &&& forall|k: u128|
            #![trigger self.in_flight().contains(k)]
            self.in_flight().contains(k) && !loader0.in_flight().contains(k) ==> exists|i: int|
                0 <= i < requests.len() && (#[trigger] requests[i].spec_key()) == k
    }

    /// The four positions of one ring layer: one on each side of the
    /// square of radius `ring` around the player.
    fn push_ring(
        &mut self,
        requests: &mut Vec<Vec3i>,
        player_pos: Vec3i,
        ring: i32,
        x: i32,
        side: i32,
        chunk_map: &ChunkMap,
    )
        requires
            old(self).wf(),
            chunk_coord_in_range(player_pos),
            1 <= ring <= RENDER_DIST,
            -ring <= x < ring,
            -RENDER_DIST_HEIGHT <= side <= RENDER_DIST_HEIGHT,
        ensures
            final(self).wf(),
            old(self).in_flight().subset_of(final(self).in_flight()),
            old(self).in_flight().len() <= final(self).in_flight().len(),
            ring_done(
                *final(self),
                *chunk_map,
                player_pos,
                ring as int,
                x as int,
                side as int,
            ),
            forall|l0: ChunkLoader, req0: Seq<Vec3i>|
                old(self).tick_batch_ok(l0, *chunk_map, player_pos, req0) && req0 == old(
                    requests,
                )@ ==> final(self).tick_batch_ok(l0, *chunk_map, player_pos, final(requests)@),
    {
        let ghost s0 = *self;
        self.push_try_load(requests, player_pos, Vec3i { x, y: side, z: ring }, chunk_map);
        let ghost s1 = *self;
        self.push_try_load(requests, player_pos, Vec3i { x: ring, y: side, z: -x }, chunk_map);
        let ghost s2 = *self;
        self.push_try_load(requests, player_pos, Vec3i { x: -x, y: side, z: -ring }, chunk_map);
        let ghost s3 = *self;
        self.push_try_load(requests, player_pos, Vec3i { x: -ring, y: side, z: x }, chunk_map);
        proof {
            lemma_offset_done_grow(
                s1,
                *self,
                *chunk_map,
                at_offset(player_pos, x as int, side as int, ring as int),
            );
            lemma_offset_done_grow(
                s2,
                *self,
                *chunk_map,
                at_offset(player_pos, ring as int, side as int, -x as int),
            );
            lemma_offset_done_grow(
                s3,
                *self,
                *chunk_map,
                at_offset(player_pos, -x as int, side as int, -ring as int),
            );
        }
    }

    /// One `try_load` step inside `tick`, appending any accepted request.
    fn push_try_load(
        &mut self,
        requests: &mut Vec<Vec3i>,
        player_pos: Vec3i,
        pos: Vec3i,
        chunk_map: &ChunkMap,
    )
        requires
            old(self).wf(),
            chunk_coord_in_range(player_pos),
            -RENDER_DIST <= pos.x <= RENDER_DIST,
            -RENDER_DIST_HEIGHT <= pos.y <= RENDER_DIST_HEIGHT,
            -RENDER_DIST <= pos.z <= RENDER_DIST,
        ensures
            final(self).wf(),
            old(self).in_flight().subset_of(final(self).in_flight()),
            old(self).in_flight().len() <= final(self).in_flight().len(),
            offset_done(
                *final(self),
                *chunk_map,
                at_offset(player_pos, pos.x as int, pos.y as int, pos.z as int),
            ),
            forall|l0: ChunkLoader, req0: Seq<Vec3i>|
                old(self).tick_batch_ok(l0, *chunk_map, player_pos, req0) && req0 == old(
                    requests,
                )@ ==> final(self).tick_batch_ok(l0, *chunk_map, player_pos, final(requests)@),
    {
        let ghost req0all = requests@;
        let r = self.try_load(player_pos, pos, chunk_map);
        match r {
            Some(c) => {
                requests.push(c);
            },
            None => {},
        }
        proof {
            assert forall|l0: ChunkLoader, req0: Seq<Vec3i>|
                old(self).tick_batch_ok(l0, *chunk_map, player_pos, req0) && req0
                    == req0all implies self.tick_batch_ok(
                l0,
                *chunk_map,
                player_pos,
                requests@,
            ) by {
                assert(l0.in_flight().subset_of(self.in_flight()));
                assert forall|k: u128|
                    #![trigger self.in_flight().contains(k)]
                    self.in_flight().contains(k) && !l0.in_flight().contains(
                        k,
                    ) implies exists|i: int|
                    0 <= i < requests@.len() && (#[trigger] requests@[i].spec_key()) == k by {
                    if old(self).in_flight().contains(k) {
                        let i = choose|i: int|
                            0 <= i < req0.len() && (#[trigger] req0[i].spec_key()) == k;
                        assert(requests@[i].spec_key() == k);
                    } else {
                        assert(requests@[requests@.len() - 1].spec_key() == k);
                    }
                }
                assert forall|i: int| 0 <= i < requests@.len() implies !chunk_map.contains_coord(
                    #[trigger] requests@[i],
                ) && self.in_flight().contains(requests@[i].spec_key()) by {
                    if i < req0.len() {
                        assert(req0[i] == requests@[i]);
                    }
                }
            }
        }
    }
}

/// A decided coordinate stays decided while the in-flight set only grows:
/// residency is untouched, outstanding requests stay outstanding, and a
/// spent budget stays spent.
proof fn lemma_offset_done_grow(l1: ChunkLoader, l2: ChunkLoader, chunk_map: ChunkMap, cp: Vec3i)
    requires
        offset_done(l1, chunk_map, cp),
        l1.in_flight().subset_of(l2.in_flight()),
        l1.in_flight().finite(),
        l2.in_flight().finite(),
    ensures
        offset_done(l2, chunk_map, cp),
{
    if l1.in_flight().len() >= MAX_IN_FLIGHT && !chunk_map.contains_coord(cp)
        && !l1.in_flight().contains(cp.spec_key()) {
        vstd::set_lib::lemma_len_subset(l1.in_flight(), l2.in_flight());
    }
}

/// Everything already decided — column offsets and whole rings — stays
/// decided across one more scheduling step.
proof fn lemma_done_sets_grow(
    l1: ChunkLoader,
    l2: ChunkLoader,
    chunk_map: ChunkMap,
    player_pos: Vec3i,
    ring_hi: int,
)
    requires
        l1.in_flight().subset_of(l2.in_flight()),
        l1.in_flight().finite(),
        l2.in_flight().finite(),
    ensures
        forall|oy: int|
            #[trigger] col_done(l1, chunk_map, player_pos, oy) ==> col_done(
                l2,
                chunk_map,
                player_pos,
                oy,
            ),
        forall|r2: int, x2: int, s2: int|
            #[trigger] ring_done(l1, chunk_map, player_pos, r2, x2, s2) ==> ring_done(
                l2,
                chunk_map,
                player_pos,
                r2,
                x2,
                s2,
            ),
{
    assert forall|oy: int| #[trigger] col_done(l1, chunk_map, player_pos, oy) implies col_done(
        l2,
        chunk_map,
        player_pos,
        oy,
    ) by {
        lemma_offset_done_grow(l1, l2, chunk_map, at_offset(player_pos, 0, oy, 0));
    }
    assert forall|r2: int, x2: int, s2: int| #[trigger] ring_done(
        l1,
        chunk_map,
        player_pos,
        r2,
        x2,
        s2,
    ) implies ring_done(l2, chunk_map, player_pos, r2, x2, s2) by {
        lemma_offset_done_grow(l1, l2, chunk_map, at_offset(player_pos, x2, s2, r2));
        lemma_offset_done_grow(l1, l2, chunk_map, at_offset(player_pos, r2, s2, -x2));
        lemma_offset_done_grow(l1, l2, chunk_map, at_offset(player_pos, -x2, s2, -r2));
        lemma_offset_done_grow(l1, l2, chunk_map, at_offset(player_pos, -r2, s2, x2));
    }
}

} // verus!
