//! Landmarks and the landmark database: data association and identity.
//!
//! A detected landmark is either associated with the stored landmark it
//! matches best, or stored as a new landmark under the next identifier.
//! Identifiers are handed out in order from 0: the landmark with
//! identifier `id` is the `id`-th one stored and carries `Some(id)`.
//! Whether and how well a detection matches a stored landmark is given per
//! stored landmark as a key (see `crate::map`): a smaller key is a better
//! match, and a key that is not below the bound is no match at all.

use vstd::prelude::*;
use crate::map::{any_below, is_nearest, nearest_landmark};

verus! {

/// A detected landmark: its identifier once stored, its position and its
/// descriptor (feature vector) for matching, with coordinates of type `C`.
#[derive(Clone, Debug)]
pub struct Landmark<C> {
    pub id: Option<usize>,
    pub x: C,
    pub y: C,
    pub descriptor: Vec<C>,
}

impl<C> Landmark<C> {
    /// A landmark that is not stored yet: it has no identifier.
    pub fn new(x: C, y: C, descriptor: Vec<C>) -> (lm: Self)
        ensures
            lm == (Landmark { id: None, x, y, descriptor }),
    {
        Landmark { id: None, x, y, descriptor }
    }
}

/// Every landmark carries its position in the sequence as identifier.
pub open spec fn identified_in_order<C>(s: Seq<Landmark<C>>) -> bool {
    forall|k: int| 0 <= k < s.len() ==> (#[trigger] s[k]).id == Some(k as usize)
}

/// The match key of each of the first `n` stored landmarks: its key in
/// `keys`, or no match (`u64::MAX`) for a landmark without a key. Keys past
/// the `n`-th are ignored.
pub open spec fn keys_for(keys: Seq<u64>, n: nat) -> Seq<u64> {
    Seq::new(n, |k: int| if k < keys.len() { keys[k] } else { u64::MAX })
}

/// The database after associating `detected`, and the identifier given:
/// the first best-matching stored landmark's identifier when some stored
/// landmark matches, otherwise the next identifier, under which `detected`
/// is stored.
pub open spec fn associate<C>(db: Seq<Landmark<C>>, keys: Seq<u64>, bound: u64, detected: Landmark<C>) -> (
    Seq<Landmark<C>>,
    int,
) {
    let k = keys_for(keys, db.len());
    if any_below(k, bound) {
        (db, choose|i: int| is_nearest(k, bound, i))
    } else {
        (
            db.push(Landmark { id: Some(db.len() as usize), x: detected.x, y: detected.y, descriptor: detected.descriptor }),
            db.len() as int,
        )
    }
}

/// Landmarks stored under consecutive identifiers 0, 1, 2, ...
pub struct LandmarkDB<C> {
    landmarks: Vec<Landmark<C>>,
}

impl<C> View for LandmarkDB<C> {
    type V = Seq<Landmark<C>>;

    closed spec fn view(&self) -> Seq<Landmark<C>> {
        self.landmarks@
    }
}

impl<C> LandmarkDB<C> {
    /// Every stored landmark carries its identifier, in storage order.
    #[verifier::type_invariant]
    spec fn ids_in_order(self) -> bool {
        identified_in_order(self.landmarks@)
    }

    /// An empty database.
    pub fn new() -> (db: Self)
        ensures
            db@ == Seq::<Landmark<C>>::empty(),
    {
        LandmarkDB { landmarks: Vec::new() }
    }

    /// Associates a detected landmark with the stored landmarks, given a
    /// match key per stored landmark, in identifier order. Returns the
    /// identifier of the first best-matching landmark, leaving the
    /// database unchanged, or, when none matches, stores `detected` under
    /// the next identifier and returns that identifier.
    pub fn associate_or_create(&mut self, keys: &Vec<u64>, bound: u64, detected: Landmark<C>) -> (id: usize)
        requires
            old(self)@.len() < usize::MAX,
        ensures
            (final(self)@, id as int) == associate(old(self)@, keys@, bound, detected),
            keys@.len() == old(self)@.len() ==> ({
                &&& (exists|j: int| 0 <= j < keys@.len() && keys@[j] < bound) ==> {
                    &&& final(self)@ == old(self)@
                    &&& id < old(self)@.len()
                    &&& keys@[id as int] < bound
                    &&& forall|j: int| 0 <= j < keys@.len() ==> keys@[id as int] <= #[trigger] keys@[j]
                    &&& forall|j: int| 0 <= j < id ==> keys@[id as int] < #[trigger] keys@[j]
                }
                &&& !(exists|j: int| 0 <= j < keys@.len() && keys@[j] < bound) ==> {
                    &&& id == old(self)@.len()
                    &&& final(self)@ == old(self)@.push(
                        Landmark { id: Some(id), x: detected.x, y: detected.y, descriptor: detected.descriptor },
                    )
                }
            }),
            identified_in_order(final(self)@),
            id < final(self)@.len(),
            final(self)@[id as int].id == Some(id),
            any_below(keys_for(keys@, old(self)@.len()), bound) ==> final(self)@ == old(self)@ && is_nearest(
                keys_for(keys@, old(self)@.len()),
                bound,
                id as int,
            ),
            !any_below(keys_for(keys@, old(self)@.len()), bound) ==> id == old(self)@.len() && final(self)@
                == old(self)@.push(
                Landmark { id: Some(id), x: detected.x, y: detected.y, descriptor: detected.descriptor },
            ),
    {
        proof {
            use_type_invariant(&*self);
            if keys@.len() == self@.len() {
                lemma_associate_picks_best_key(self@, keys@, bound, detected);
            }
        }
        let n: usize = self.landmarks.len();
        let ghost kf = keys_for(keys@, n as nat);
        let mut own: Vec<u64> = Vec::new();
        let mut i: usize = 0;
        while i < n
            invariant
                i <= n,
                own@.len() == i,
                kf == keys_for(keys@, n as nat),
                forall|k: int| 0 <= k < i ==> #[trigger] own@[k] == kf[k],
            decreases n - i,
        {
            if i < keys.len() {
                own.push(keys[i]);
            } else {
                own.push(u64::MAX);
            }
            i = i + 1;
        }
        assert(own@ =~= kf);
        match nearest_landmark(&own, bound) {
            Some(j) => {
                proof {
                    lemma_nearest_unique(kf, bound, j as int, choose|m: int| is_nearest(kf, bound, m));
                }
                j
            },
            None => {
                let mut db = LandmarkDB { landmarks: Vec::new() };
                std::mem::swap(&mut db, self);
                let LandmarkDB { mut landmarks } = db;
                let mut lm = detected;
                lm.id = Some(n);
                landmarks.push(lm);
                *self = LandmarkDB { landmarks };
                n
            },
        }
    }

    /// The landmark stored under `id`, if any.
    pub fn get(&self, id: usize) -> (lm: Option<&Landmark<C>>)
        ensures
            lm == if id < self@.len() { Some(&self@[id as int]) } else { None },
            lm matches Some(l) ==> l.id == Some(id),
    {
        proof {
            use_type_invariant(self);
        }
        if id < self.landmarks.len() {
            Some(&self.landmarks[id])
        } else {
            None
        }
    }

    /// The identifier the next new landmark gets.
    pub fn next_id(&self) -> (id: usize)
        ensures
            id == self@.len(),
            identified_in_order(self@),
    {
        proof {
            use_type_invariant(self);
        }
        self.landmarks.len()
    }

    /// Number of stored landmarks.
    pub fn len(&self) -> (n: usize)
        ensures
            n == self@.len(),
    {
        self.landmarks.len()
    }

    /// Whether no landmark is stored.
    pub fn is_empty(&self) -> (b: bool)
        ensures
            b <==> self@.len() == 0,
    {
        self.landmarks.len() == 0
    }
}

impl<C: Copy> LandmarkDB<C> {
    /// Moves the landmark stored under `id` to `(x, y)`; it keeps its
    /// identifier and descriptor.
    pub fn move_landmark(&mut self, id: usize, x: C, y: C)
        requires
            id < old(self)@.len(),
        ensures
            final(self)@ == old(self)@.update(
                id as int,
                Landmark { id: old(self)@[id as int].id, x, y, descriptor: old(self)@[id as int].descriptor },
            ),
            identified_in_order(final(self)@),
    {
        proof {
            use_type_invariant(&*self);
        }
        let mut db = LandmarkDB { landmarks: Vec::new() };
        std::mem::swap(&mut db, self);
        let LandmarkDB { mut landmarks } = db;
        let mut slot = Landmark { id: None, x, y, descriptor: Vec::new() };
        landmarks.set_and_swap(id, &mut slot);
        let moved = Landmark { id: slot.id, x, y, descriptor: slot.descriptor };
        landmarks.set(id, moved);
        *self = LandmarkDB { landmarks };
    }
}

/// Association with one key per stored landmark: when some stored
/// landmark's key is below the bound, the identifier returned is that of
/// the first stored landmark with the smallest key, and the database is
/// unchanged; when none is, the detection is stored under the next
/// identifier.
pub proof fn lemma_associate_picks_best_key<C>(
    db: Seq<Landmark<C>>,
    keys: Seq<u64>,
    bound: u64,
    detected: Landmark<C>,
)
    requires
        keys.len() == db.len(),
    ensures
        ({
            let (after, id) = associate(db, keys, bound, detected);
            &&& (exists|j: int| 0 <= j < keys.len() && keys[j] < bound) ==> {
                &&& after == db
                &&& 0 <= id < db.len()
                &&& keys[id] < bound
                &&& forall|j: int| 0 <= j < keys.len() ==> keys[id] <= #[trigger] keys[j]
                &&& forall|j: int| 0 <= j < id ==> keys[id] < #[trigger] keys[j]
            }
            &&& !(exists|j: int| 0 <= j < keys.len() && keys[j] < bound) ==> {
                &&& id == db.len()
                &&& after == db.push(
                    Landmark { id: Some(db.len() as usize), x: detected.x, y: detected.y, descriptor: detected.descriptor },
                )
            }
        }),
{
    let k = keys_for(keys, db.len());
    assert(k =~= keys);
    if exists|j: int| 0 <= j < keys.len() && keys[j] < bound {
        let j = choose|j: int| 0 <= j < keys.len() && keys[j] < bound;
        assert(k[j] < bound);
        lemma_nearest_exists(k, bound, j);
    } else {
        assert(!any_below(k, bound));
    }
}

/// At most one position is the first smallest key below the bound.
pub proof fn lemma_nearest_unique(keys: Seq<u64>, bound: u64, i: int, j: int)
    requires
        is_nearest(keys, bound, i),
        is_nearest(keys, bound, j),
    ensures
        i == j,
{
    if i < j {
        assert(keys[j] < keys[i]);
    } else if j < i {
        assert(keys[i] < keys[j]);
    }
}

/// Association keeps every landmark under its own identifier: given a
/// database whose landmarks carry their identifiers in order, associating
/// any detection with any keys returns an identifier under which a
/// landmark carrying that identifier is stored; the database grows by at
/// most one landmark and keeps every landmark stored before; a detection
/// that matches nothing is stored under the next identifier with its
/// position and descriptor, a matching one leaves the database unchanged.
pub proof fn lemma_associate_keeps_identity<C>(
    db: Seq<Landmark<C>>,
    keys: Seq<u64>,
    bound: u64,
    detected: Landmark<C>,
)
    requires
        identified_in_order(db),
    ensures
        ({
            let (after, id) = associate(db, keys, bound, detected);
            &&& identified_in_order(after)
            &&& 0 <= id < after.len()
            &&& after[id].id == Some(id as usize)
            &&& after.len() == db.len() || after.len() == db.len() + 1
            &&& forall|k: int| 0 <= k < db.len() ==> after[k] == db[k]
            &&& (!any_below(keys_for(keys, db.len()), bound) ==> {
                &&& id == db.len()
                &&& after[id].x == detected.x
                &&& after[id].y == detected.y
                &&& after[id].descriptor == detected.descriptor
            })
            &&& (any_below(keys_for(keys, db.len()), bound) ==> after == db && is_nearest(
                keys_for(keys, db.len()),
                bound,
                id,
            ))
        }),
{
    let k = keys_for(keys, db.len());
    if any_below(k, bound) {
        let j = choose|j: int| 0 <= j < k.len() && #[trigger] k[j] < bound;
        lemma_nearest_exists(k, bound, j);
    } else {
        let (after, id) = associate(db, keys, bound, detected);
        assert forall|m: int| 0 <= m < after.len() implies (#[trigger] after[m]).id == Some(m as usize) by {
            if m < db.len() {
                assert(after[m] == db[m]);
            }
        }
    }
}

/// When some key is below the bound, a first smallest key exists.
pub proof fn lemma_nearest_exists(keys: Seq<u64>, bound: u64, j: int)
    requires
        0 <= j < keys.len(),
        keys[j] < bound,
    ensures
        exists|i: int| is_nearest(keys, bound, i),
    decreases keys.len(),
{
    if keys.len() == 1 {
        assert(is_nearest(keys, bound, 0));
    } else {
        let init = keys.drop_last();
        let last = keys.last();
        assert(forall|k: int| 0 <= k < init.len() ==> init[k] == keys[k]);
        if j < init.len() {
            lemma_nearest_exists(init, bound, j);
            let i = choose|i: int| is_nearest(init, bound, i);
            if keys[i] <= last {
                assert(is_nearest(keys, bound, i));
            } else {
                assert(is_nearest(keys, bound, keys.len() - 1));
            }
        } else {
            let jj: int = keys.len() - 1;
            if exists|k: int| 0 <= k < init.len() && #[trigger] init[k] <= last {
                let k = choose|k: int| 0 <= k < init.len() && #[trigger] init[k] <= last;
                lemma_nearest_exists(init, bound, k);
                let i = choose|i: int| is_nearest(init, bound, i);
                assert(is_nearest(keys, bound, i));
            } else {
                assert(is_nearest(keys, bound, jj));
            }
        }
    }
}

} // verus!
