//! The spatial occupancy index: which entities stand on which grid cell,
//! kept consistent under spawn, movement, and despawn, and the movement
//! resolver that consults it.

use vstd::prelude::*;

verus! {

/// An entity's logical grid cell.  Equality is structural: two entities with
/// the same coordinates stand on the same cell.
#[derive(Clone, Copy, Debug, PartialEq, Eq, Hash, Structural)]
pub struct TilePosition {
    pub x: i32,
    pub y: i32,
}

/// A requested move, as a position delta.
#[derive(Clone, Copy, Debug, PartialEq, Eq, Hash, Structural)]
pub struct MoveIntent {
    pub dx: i32,
    pub dy: i32,
}

/// The bucket key a position maps to: its two coordinates packed into one
/// 64-bit word, which keeps distinct positions in distinct buckets.
pub open spec fn pos_key_spec(p: TilePosition) -> u64 {
    ((p.x as u32 as u64) << 32) | (p.y as u32 as u64)
}

/// Packing is injective: equal keys mean equal positions.
pub proof fn lemma_pos_key_injective(p: TilePosition, q: TilePosition)
    requires
        pos_key_spec(p) == pos_key_spec(q),
    ensures
        p == q,
{
    let px = p.x;
    let py = p.y;
    let qx = q.x;
    let qy = q.y;
    assert((((px as u32 as u64) << 32) | (py as u32 as u64)) == (((qx as u32 as u64) << 32) | (
    qy as u32 as u64)) ==> px == qx && py == qy) by (bit_vector);
}

impl TilePosition {
    /// The position at the given coordinates.
    pub fn new(x: i32, y: i32) -> (r: Self)
        ensures
            r.x == x,
            r.y == y,
    {
        TilePosition { x, y }
    }

    /// The bucket key of this position.
    fn key(&self) -> (r: u64)
        ensures
            r == pos_key_spec(*self),
    {
        ((self.x as u32 as u64) << 32) | (self.y as u32 as u64)
    }
}

/// How many times entity `e` occurs in a bucket.
pub open spec fn occurrences(s: Seq<u64>, e: u64) -> nat
    decreases s.len(),
{
    if s.len() == 0 {
        0
    } else {
        occurrences(s.drop_last(), e) + (if s.last() == e {
            1nat
        } else {
            0nat
        })
    }
}

/// A bucket with every occurrence of entity `e` taken out, the order of the
/// rest kept.
pub open spec fn without(s: Seq<u64>, e: u64) -> Seq<u64>
    decreases s.len(),
{
    if s.len() == 0 {
        s
    } else if s.last() == e {
        without(s.drop_last(), e)
    } else {
        without(s.drop_last(), e).push(s.last())
    }
}

/// The entities of a bucket that a capability filter admits, in bucket
/// order.
pub open spec fn matching_of(s: Seq<u64>, filt: Seq<u64>) -> Seq<u64>
    decreases s.len(),
{
    if s.len() == 0 {
        s
    } else if filt.contains(s.last()) {
        matching_of(s.drop_last(), filt).push(s.last())
    } else {
        matching_of(s.drop_last(), filt)
    }
}

/// Appending one entity to a bucket raises its own count by one and keeps
/// every other count.
pub proof fn lemma_occ_push(s: Seq<u64>, x: u64, e: u64)
    ensures
        occurrences(s.push(x), e) == occurrences(s, e) + (if x == e {
            1nat
        } else {
            0nat
        }),
{
    let t = s.push(x);
    assert(t.drop_last() =~= s);
    assert(t.last() == x);
}

/// Taking an entity out of a bucket leaves none of it and keeps every other
/// entity's count.
pub proof fn lemma_occ_without(s: Seq<u64>, e: u64, e2: u64)
    ensures
        occurrences(without(s, e), e) == 0,
        e2 != e ==> occurrences(without(s, e), e2) == occurrences(s, e2),
    decreases s.len(),
{
    if s.len() == 0 {
    } else {
        let dl = s.drop_last();
        lemma_occ_without(dl, e, e2);
        if s.last() != e {
            lemma_occ_push(without(dl, e), s.last(), e);
            lemma_occ_push(without(dl, e), s.last(), e2);
        }
    }
}

/// An entity occurs in a bucket exactly when its count is positive.
pub proof fn lemma_occ_contains(s: Seq<u64>, e: u64)
    ensures
        occurrences(s, e) > 0 <==> s.contains(e),
    decreases s.len(),
{
    if s.len() == 0 {
    } else {
        let dl = s.drop_last();
        lemma_occ_contains(dl, e);
        if s.last() == e {
            assert(s.contains(e));
        } else {
            if dl.contains(e) {
                let i = choose|i: int| 0 <= i < dl.len() && dl[i] == e;
                assert(s[i] == e);
                assert(s.contains(e));
            }
            if s.contains(e) {
                let i = choose|i: int| 0 <= i < s.len() && s[i] == e;
                assert(i < s.len() - 1);
                assert(dl[i] == e);
                assert(dl.contains(e));
            }
        }
    }
}

/// A bucket holding an admitted entity has a non-empty matching view.
pub proof fn lemma_matching_nonempty(s: Seq<u64>, filt: Seq<u64>, e: u64)
    requires
        s.contains(e),
        filt.contains(e),
    ensures
        matching_of(s, filt).len() > 0,
    decreases s.len(),
{
    if s.len() == 0 {
    } else {
        let dl = s.drop_last();
        if filt.contains(s.last()) {
        } else {
            assert(s.last() != e);
            let i = choose|i: int| 0 <= i < s.len() && s[i] == e;
            assert(i < s.len() - 1);
            assert(dl[i] == e);
            lemma_matching_nonempty(dl, filt, e);
        }
    }
}

/// Whatever the matching view holds came from the bucket and is admitted by
/// the filter.
pub proof fn lemma_matching_members(s: Seq<u64>, filt: Seq<u64>)
    ensures
        forall|i: int|
            0 <= i < matching_of(s, filt).len() ==> s.contains(
                #[trigger] matching_of(s, filt)[i],
            ) && filt.contains(matching_of(s, filt)[i]),
    decreases s.len(),
{
    if s.len() == 0 {
    } else {
        let dl = s.drop_last();
        lemma_matching_members(dl, filt);
        assert forall|e: u64| dl.contains(e) implies s.contains(e) by {
            let i = choose|i: int| 0 <= i < dl.len() && dl[i] == e;
            assert(s[i] == e);
        }
        assert(s.contains(s.last()));
        if filt.contains(s.last()) {
            assert forall|i: int|
                0 <= i < matching_of(s, filt).len() implies s.contains(
                #[trigger] matching_of(s, filt)[i],
            ) && filt.contains(matching_of(s, filt)[i]) by {
                if i < matching_of(s, filt).len() - 1 {
                    assert(matching_of(s, filt)[i] == matching_of(dl, filt)[i]);
                }
            }
        }
    }
}

/// A bucket none of whose entities the filter admits has an empty matching
/// view.
pub proof fn lemma_matching_empty(s: Seq<u64>, filt: Seq<u64>)
    requires
        forall|e: u64| s.contains(e) ==> !filt.contains(e),
    ensures
        matching_of(s, filt).len() == 0,
    decreases s.len(),
{
    if s.len() == 0 {
    } else {
        let dl = s.drop_last();
        assert(s.contains(s.last()));
        assert forall|e: u64| dl.contains(e) implies !filt.contains(e) by {
            let i = choose|i: int| 0 <= i < dl.len() && dl[i] == e;
            assert(s[i] == e);
            assert(s.contains(e));
        }
        lemma_matching_empty(dl, filt);
    }
}

} // verus!

verus! {

/// The spatial occupancy index: each grid position maps to the ordered list
/// of entity identifiers currently registered there.  Several entities may
/// share a cell; exclusivity for solid occupants is the movement resolver's
/// business, not the index's.
pub struct TileIndex {
    map: std::collections::HashMap<u64, Vec<u64>>,
}

impl TileIndex {
    /// The bucket of a position: the entities registered at that cell, in
    /// insertion order, empty if none ever was.
    pub closed spec fn at(self, p: TilePosition) -> Seq<u64> {
        if self.map@.contains_key(pos_key_spec(p)) {
            self.map@[pos_key_spec(p)]@
        } else {
            Seq::empty()
        }
    }

    /// An empty index: every bucket is empty.
    pub fn new() -> (r: TileIndex)
        ensures
            forall|p: TilePosition| #[trigger] r.at(p) == Seq::<u64>::empty(),
    {
        let r = TileIndex { map: std::collections::HashMap::new() };
        proof {
            broadcast use vstd::std_specs::hash::group_hash_axioms;

            assert forall|p: TilePosition| #[trigger] r.at(p) == Seq::<u64>::empty() by {
                assert(!r.map@.contains_key(pos_key_spec(p)));
            }
        }
        r
    }

    /// Registers an entity at a position: its bucket gains the entity at the
    /// end, and no other bucket changes.  Called once when an entity first
    /// receives a position.
    pub fn on_position_set(&mut self, entity: u64, position: TilePosition)
        ensures
            final(self).at(position) == old(self).at(position).push(entity),
            forall|q: TilePosition|
                q != position ==> #[trigger] final(self).at(q) == old(self).at(q),
    {
        proof {
            broadcast use vstd::std_specs::hash::group_hash_axioms;

        }
        let key = position.key();
        let mut bucket = match self.map.remove(&key) {
            Some(b) => b,
            None => Vec::new(),
        };
        bucket.push(entity);
        self.map.insert(key, bucket);
        proof {
            assert(final(self).at(position) =~= old(self).at(position).push(entity));
            assert forall|q: TilePosition| q != position implies #[trigger] final(self).at(q)
                == old(self).at(q) by {
                if pos_key_spec(q) == pos_key_spec(position) {
                    lemma_pos_key_injective(q, position);
                }
            }
        }
    }

    /// Empties the whole index, as level teardown does: afterwards every
    /// bucket is empty.  The index is never partially cleared.
    pub fn clear(&mut self)
        ensures
            forall|p: TilePosition| #[trigger] final(self).at(p) == Seq::<u64>::empty(),
    {
        proof {
            broadcast use vstd::std_specs::hash::group_hash_axioms;

        }
        self.map.clear();
        proof {
            assert forall|p: TilePosition| #[trigger] final(self).at(p) == Seq::<u64>::empty() by {
                assert(!final(self).map@.contains_key(pos_key_spec(p)));
            }
        }
    }

    /// Unregisters an entity from the bucket of its previous position,
    /// removing every occurrence; no other bucket changes.  Called before an
    /// entity's stored position is overwritten, and when it is despawned.
    pub fn on_position_changed(&mut self, entity: u64, position: TilePosition)
        ensures
            final(self).at(position) == without(old(self).at(position), entity),
            forall|q: TilePosition|
                q != position ==> #[trigger] final(self).at(q) == old(self).at(q),
    {
        proof {
            broadcast use vstd::std_specs::hash::group_hash_axioms;

        }
        let key = position.key();
        match self.map.remove(&key) {
            Some(bucket) => {
                let filtered = remove_entity(&bucket, entity);
                self.map.insert(key, filtered);
                proof {
                    assert(final(self).at(position) =~= without(
                        old(self).at(position),
                        entity,
                    ));
                    assert forall|q: TilePosition| q != position implies #[trigger] final(self).at(q)
                        == old(self).at(q) by {
                        if pos_key_spec(q) == pos_key_spec(position) {
                            lemma_pos_key_injective(q, position);
                        }
                    }
                }
            },
            None => {
                proof {
                    assert(old(self).at(position) =~= Seq::<u64>::empty());
                    assert(final(self).at(position) =~= without(
                        old(self).at(position),
                        entity,
                    ));
                }
            },
        }
    }
}

impl Default for TileIndex {
    /// The empty index.
    fn default() -> (r: TileIndex)
        ensures
            forall|p: TilePosition| #[trigger] r.at(p) == Seq::<u64>::empty(),
    {
        TileIndex::new()
    }
}

/// Every occurrence of one entity removed from a bucket, the rest kept in
/// order.
fn remove_entity(v: &Vec<u64>, e: u64) -> (r: Vec<u64>)
    ensures
        r@ == without(v@, e),
{
    let mut out: Vec<u64> = Vec::new();
    let mut i: usize = 0;
    while i < v.len()
        invariant
            i <= v.len(),
            out@ == without(v@.take(i as int), e),
        decreases v.len() - i,
    {
        proof {
            assert(v@.take(i as int + 1).drop_last() =~= v@.take(i as int));
            assert(v@.take(i as int + 1).last() == v@[i as int]);
        }
        if v[i] != e {
            out.push(v[i]);
        }
        i += 1;
    }
    proof {
        assert(v@.take(v@.len() as int) =~= v@);
    }
    out
}

/// Whether a list of entity identifiers holds the given one.
fn contains_entity(v: &Vec<u64>, e: u64) -> (r: bool)
    ensures
        r == v@.contains(e),
{
    let mut i: usize = 0;
    while i < v.len()
        invariant
            i <= v.len(),
            forall|k: int| 0 <= k < i ==> v@[k] != e,
        decreases v.len() - i,
    {
        if v[i] == e {
            return true;
        }
        i += 1;
    }
    false
}

} // verus!

verus! {

/// A failed "exactly one occupant" query.
#[derive(Clone, Copy, Debug, PartialEq, Eq, Structural)]
pub enum PositionQueryError {
    /// No entity at the position satisfies the filter.
    NoMatchingEntity,
    /// More than one entity at the position satisfies the filter.
    MultipleMatches,
}

/// A position-keyed query against the index, restricted to the entities that
/// satisfy some capability (for movement: the solid ones).  `matching` lists
/// exactly the entities the capability admits.
pub struct PositionQuery {
    pub matching: Vec<u64>,
}

impl PositionQuery {
    /// A query admitting exactly the given entities.
    pub fn new(matching: Vec<u64>) -> (r: PositionQuery)
        ensures
            r.matching == matching,
    {
        PositionQuery { matching }
    }

    /// All admitted entities at a position, in bucket order: a snapshot of
    /// the bucket membership at call time.
    pub fn iter(&self, index: &TileIndex, position: &TilePosition) -> (r: Vec<u64>)
        ensures
            r@ == matching_of(index.at(*position), self.matching@),
    {
        proof {
            broadcast use vstd::std_specs::hash::group_hash_axioms;

        }
        let mut out: Vec<u64> = Vec::new();
        let key = position.key();
        match index.map.get(&key) {
            None => {
                proof {
                    assert(index.at(*position) =~= Seq::<u64>::empty());
                }
                out
            },
            Some(bucket) => {
                let ghost whole = index.at(*position);
                proof {
                    assert(whole == bucket@);
                }
                let mut i: usize = 0;
                while i < bucket.len()
                    invariant
                        i <= bucket.len(),
                        whole == bucket@,
                        out@ == matching_of(bucket@.take(i as int), self.matching@),
                    decreases bucket.len() - i,
                {
                    proof {
                        assert(bucket@.take(i as int + 1).drop_last() =~= bucket@.take(
                            i as int,
                        ));
                        assert(bucket@.take(i as int + 1).last() == bucket@[i as int]);
                    }
                    if contains_entity(&self.matching, bucket[i]) {
                        out.push(bucket[i]);
                    }
                    i += 1;
                }
                proof {
                    assert(bucket@.take(bucket@.len() as int) =~= bucket@);
                }
                out
            },
        }
    }

    /// The single admitted occupant of a position: `NoMatchingEntity` when
    /// none satisfies the filter, `MultipleMatches` when more than one does.
    pub fn get(&self, index: &TileIndex, position: &TilePosition) -> (r: Result<
        u64,
        PositionQueryError,
    >)
        ensures
            ({
                let ms = matching_of(index.at(*position), self.matching@);
                &&& ms.len() == 0 ==> r == Err::<u64, PositionQueryError>(
                    PositionQueryError::NoMatchingEntity,
                )
                &&& ms.len() == 1 ==> r == Ok::<u64, PositionQueryError>(ms[0])
                &&& ms.len() > 1 ==> r == Err::<u64, PositionQueryError>(
                    PositionQueryError::MultipleMatches,
                )
                &&& r matches Ok(e) ==> index.at(*position).contains(e)
                    && self.matching@.contains(e)
            }),
    {
        proof {
            lemma_matching_members(index.at(*position), self.matching@);
        }
        let matches = self.iter(index, position);
        if matches.len() == 0 {
            Err(PositionQueryError::NoMatchingEntity)
        } else if matches.len() == 1 {
            Ok(matches[0])
        } else {
            Err(PositionQueryError::MultipleMatches)
        }
    }

    /// The single admitted occupant, for callers about to mutate it.  In
    /// this index the occupant is named by identifier either way, so the
    /// contract coincides with `get`.
    pub fn get_mut(&mut self, index: &TileIndex, position: &TilePosition) -> (r: Result<
        u64,
        PositionQueryError,
    >)
        ensures
            final(self).matching == old(self).matching,
            ({
                let ms = matching_of(index.at(*position), old(self).matching@);
                &&& ms.len() == 0 ==> r == Err::<u64, PositionQueryError>(
                    PositionQueryError::NoMatchingEntity,
                )
                &&& ms.len() == 1 ==> r == Ok::<u64, PositionQueryError>(ms[0])
                &&& ms.len() > 1 ==> r == Err::<u64, PositionQueryError>(
                    PositionQueryError::MultipleMatches,
                )
                &&& r matches Ok(e) ==> index.at(*position).contains(e)
                    && old(self).matching@.contains(e)
            }),
    {
        self.get(index, position)
    }
}

/// Resolves a requested move: the target cell is the current position plus
/// the delta; if no solid occupant is registered there, the move commits --
/// the entity leaves its old bucket and joins the target's, atomically from
/// any caller's view -- and the new position is returned.  A blocked move
/// leaves the index and the position untouched: blocking is silent, not an
/// error.
pub fn move_object(
    index: &mut TileIndex,
    solid: &PositionQuery,
    entity: u64,
    position: TilePosition,
    intent: MoveIntent,
) -> (r: TilePosition)
    requires
        i32::MIN <= position.x + intent.dx <= i32::MAX,
        i32::MIN <= position.y + intent.dy <= i32::MAX,
    ensures
        ({
            let target = TilePosition {
                x: (position.x + intent.dx) as i32,
                y: (position.y + intent.dy) as i32,
            };
            let blockers = matching_of(old(index).at(target), solid.matching@);
            &&& blockers.len() > 0 ==> r == position && (forall|q: TilePosition| #[trigger]
                final(index).at(q) == old(index).at(q))
            &&& blockers.len() == 0 ==> {
                &&& r == target
                &&& final(index).at(target) == (if target == position {
                    without(old(index).at(position), entity)
                } else {
                    old(index).at(target)
                }).push(entity)
                &&& (target != position ==> final(index).at(position) == without(
                    old(index).at(position),
                    entity,
                ))
                &&& (forall|q: TilePosition|
                    q != position && q != target ==> #[trigger] final(index).at(q) == old(
                        index,
                    ).at(q))
            }
        }),
{
    let target = TilePosition::new(position.x + intent.dx, position.y + intent.dy);
    let blockers = solid.iter(index, &target);
    if blockers.len() == 0 {
        index.on_position_changed(entity, position);
        index.on_position_set(entity, target);
        target
    } else {
        position
    }
}

/// The shape of a consistent index: every tracked entity sits exactly once
/// in the bucket of its current position and nowhere else, and untracked
/// entities sit nowhere.
pub open spec fn index_models(idx: TileIndex, m: Map<u64, TilePosition>) -> bool {
    forall|e: u64, p: TilePosition|
        #[trigger] occurrences(idx.at(p), e) == (if m.dom().contains(e) && m[e] == p {
            1nat
        } else {
            0nat
        })
}

/// Registering a fresh entity keeps the index consistent: afterwards it
/// models the position map extended with that entity.
pub proof fn lemma_models_insert(
    idx1: TileIndex,
    idx2: TileIndex,
    m: Map<u64, TilePosition>,
    e: u64,
    p: TilePosition,
)
    requires
        index_models(idx1, m),
        !m.dom().contains(e),
        idx2.at(p) == idx1.at(p).push(e),
        forall|q: TilePosition| q != p ==> #[trigger] idx2.at(q) == idx1.at(q),
    ensures
        index_models(idx2, m.insert(e, p)),
{
    let m2 = m.insert(e, p);
    assert forall|e2: u64, p2: TilePosition| #[trigger] occurrences(idx2.at(p2), e2) == (
    if m2.dom().contains(e2) && m2[e2] == p2 {
        1nat
    } else {
        0nat
    }) by {
        if p2 == p {
            lemma_occ_push(idx1.at(p), e, e2);
        }
    }
}

/// Unregistering an entity from its current bucket keeps the index
/// consistent: afterwards it models the position map without that entity.
pub proof fn lemma_models_remove(
    idx1: TileIndex,
    idx2: TileIndex,
    m: Map<u64, TilePosition>,
    e: u64,
)
    requires
        index_models(idx1, m),
        m.dom().contains(e),
        idx2.at(m[e]) == without(idx1.at(m[e]), e),
        forall|q: TilePosition| q != m[e] ==> #[trigger] idx2.at(q) == idx1.at(q),
    ensures
        index_models(idx2, m.remove(e)),
{
    let m2 = m.remove(e);
    assert forall|e2: u64, p2: TilePosition| #[trigger] occurrences(idx2.at(p2), e2) == (
    if m2.dom().contains(e2) && m2[e2] == p2 {
        1nat
    } else {
        0nat
    }) by {
        if p2 == m[e] {
            lemma_occ_without(idx1.at(p2), e, e2);
        }
    }
}

/// A committed move keeps the index consistent: removal from the old bucket
/// followed by insertion into the target bucket models the position map with
/// the entity's position updated.
pub proof fn lemma_models_move(
    idx1: TileIndex,
    idx_mid: TileIndex,
    idx2: TileIndex,
    m: Map<u64, TilePosition>,
    e: u64,
    target: TilePosition,
)
    requires
        index_models(idx1, m),
        m.dom().contains(e),
        idx_mid.at(m[e]) == without(idx1.at(m[e]), e),
        forall|q: TilePosition| q != m[e] ==> #[trigger] idx_mid.at(q) == idx1.at(q),
        idx2.at(target) == idx_mid.at(target).push(e),
        forall|q: TilePosition| q != target ==> #[trigger] idx2.at(q) == idx_mid.at(q),
    ensures
        index_models(idx2, m.insert(e, target)),
{
    lemma_models_remove(idx1, idx_mid, m, e);
    lemma_models_insert(idx_mid, idx2, m.remove(e), e, target);
    assert(m.remove(e).insert(e, target) =~= m.insert(e, target));
}

/// Movement into a cell with a solid occupant is blocked: with a consistent
/// index, an admitted entity standing on the target cell makes the matching
/// view non-empty, so `move_object` returns the position unchanged and
/// leaves the index untouched.
pub proof fn lemma_movement_blocked(
    idx: TileIndex,
    m: Map<u64, TilePosition>,
    filt: Seq<u64>,
    blocker: u64,
    target: TilePosition,
)
    requires
        index_models(idx, m),
        m.dom().contains(blocker),
        m[blocker] == target,
        filt.contains(blocker),
    ensures
        matching_of(idx.at(target), filt).len() > 0,
{
    assert(occurrences(idx.at(target), blocker) == 1);
    lemma_occ_contains(idx.at(target), blocker);
    lemma_matching_nonempty(idx.at(target), filt, blocker);
}

/// Movement into a cell with no solid occupant goes through: with a
/// consistent index, if no admitted entity stands on the target cell, the
/// matching view is empty, so `move_object` commits the move.
pub proof fn lemma_movement_clear(
    idx: TileIndex,
    m: Map<u64, TilePosition>,
    filt: Seq<u64>,
    target: TilePosition,
)
    requires
        index_models(idx, m),
        forall|e: u64| m.dom().contains(e) && m[e] == target ==> !filt.contains(e),
    ensures
        matching_of(idx.at(target), filt).len() == 0,
{
    assert forall|e: u64| idx.at(target).contains(e) implies !filt.contains(e) by {
        lemma_occ_contains(idx.at(target), e);
        assert(occurrences(idx.at(target), e) > 0);
    }
    lemma_matching_empty(idx.at(target), filt);
}

} // verus!
