//! The ring itself: a mapping from the 256 positions of the hash circle to
//! server names, with salted placement, clockwise lookup, removal and a
//! deterministic listing.

use vstd::prelude::*;

verus! {

use std::collections::HashMap;
use crate::hashing::position_of;
use crate::text::decimal_of;
use vstd::string::StringExecFns;

broadcast use vstd::std_specs::hash::group_hash_axioms;

/// Why a ring operation was refused.
#[derive(Clone, Copy, Debug, PartialEq, Eq, Structural)]
pub enum RingError {
    /// Admitting another server's positions would exceed the ring's capacity.
    CapacityExceeded,
    /// The ring holds no server, so no key can be routed.
    EmptyRing,
    /// The salted retry loop could not claim enough free positions within
    /// the attempt bound.
    PlacementExhausted,
}

impl RingError {
    /// A short description of the error.
    pub fn message(&self) -> (s: &'static str)
        ensures
            (match self {
                RingError::CapacityExceeded => s@ == "The ring is already full"@,
                RingError::EmptyRing => s@ == "No servers available"@,
                RingError::PlacementExhausted => s@ == "No free positions found"@,
            }),
    {
        match self {
            RingError::CapacityExceeded => "The ring is already full",
            RingError::EmptyRing => "No servers available",
            RingError::PlacementExhausted => "No free positions found",
        }
    }
}

/// Positions each server claims on a ring built by [`Ring::new`].
pub const DEFAULT_POSITIONS_PER_SERVER: u8 = 5;

/// Stride added to the salt after every placement attempt.
pub const SALT_STRIDE: u32 = 217;

/// Cap on the placement attempts of one `add_server` call, so that a
/// pathological run of collisions fails with an error instead of looping.
/// Filling the very last free position of a nearly full ring takes a few
/// hundred attempts, so the cap is generous.
pub const MAX_PLACEMENT_ATTEMPTS: u32 = 65536;

/// The contents of a position map, with server names as character sequences.
pub open spec fn view_of(m: Map<u8, String>) -> Map<u8, Seq<char>> {
    Map::new(|p: u8| m.dom().contains(p), |p: u8| m[p]@)
}

/// The position after `p`, clockwise: the ring wraps from 255 back to 0.
pub open spec fn next_position(p: u8) -> u8 {
    if p == 255 {
        0
    } else {
        (p + 1) as u8
    }
}

/// How many clockwise steps lead from `from` to `to`.
pub open spec fn ring_distance(from: u8, to: u8) -> nat {
    if to >= from {
        (to - from) as nat
    } else {
        (256 + to - from) as nat
    }
}

/// The first occupied position of `m` at or clockwise after `h`, probing at
/// most `fuel` consecutive positions.
pub open spec fn scan(m: Map<u8, Seq<char>>, h: u8, fuel: nat) -> Option<u8>
    decreases fuel,
{
    if fuel == 0 {
        None
    } else if m.dom().contains(h) {
        Some(h)
    } else {
        scan(m, next_position(h), (fuel - 1) as nat)
    }
}

/// The position that owns `key`: the clockwise-nearest occupied position
/// starting from the key's own hash. `None` only on an empty ring.
pub open spec fn owner_position(m: Map<u8, Seq<char>>, key: Seq<char>) -> Option<u8> {
    scan(m, position_of(key), 256)
}

/// Looking `key` up in contents `m` yields the server named `s`.
pub open spec fn lookup_yields(m: Map<u8, Seq<char>>, key: Seq<char>, s: Seq<char>) -> bool {
    owner_position(m, key) matches Some(p) && s == m[p]
}

/// A scan from `h` resolves to `p` whenever `p` is occupied and every
/// position strictly nearer to `h` clockwise is free.
proof fn lemma_scan_reaches(m: Map<u8, Seq<char>>, h: u8, p: u8, fuel: nat)
    requires
        m.dom().contains(p),
        ring_distance(h, p) < fuel,
        forall|q: u8| ring_distance(h, q) < ring_distance(h, p) ==> !m.dom().contains(q),
    ensures
        scan(m, h, fuel) == Some(p),
    decreases fuel,
{
    if h == p {
        assert(scan(m, h, fuel) == Some(p));
    } else {
        assert(ring_distance(h, h) == 0);
        assert(!m.dom().contains(h));
        let n = next_position(h);
        assert(ring_distance(n, p) == ring_distance(h, p) - 1);
        assert forall|q: u8| ring_distance(n, q) < ring_distance(n, p) implies !m.dom().contains(
            q,
        ) by {
            if q == h {
                assert(ring_distance(n, h) == 255);
            } else {
                assert(ring_distance(h, q) == ring_distance(n, q) + 1);
            }
        }
        lemma_scan_reaches(m, n, p, (fuel - 1) as nat);
    }
}

/// Among the occupied positions there is a clockwise-nearest one to `h`.
proof fn lemma_nearest_occupied(m: Map<u8, Seq<char>>, h: u8, p: u8) -> (r: u8)
    requires
        m.dom().contains(p),
    ensures
        m.dom().contains(r),
        ring_distance(h, r) <= ring_distance(h, p),
        forall|q: u8| ring_distance(h, q) < ring_distance(h, r) ==> !m.dom().contains(q),
    decreases ring_distance(h, p),
{
    if exists|q: u8| ring_distance(h, q) < ring_distance(h, p) && m.dom().contains(q) {
        let q = choose|q: u8|
            ring_distance(h, q) < ring_distance(h, p) && m.dom().contains(q);
        lemma_nearest_occupied(m, h, q)
    } else {
        p
    }
}

/// A non-empty ring resolves a scan from any starting position: the probe
/// wraps from 255 back to 0 and meets every position within 256 steps.
pub proof fn lemma_scan_finds(m: Map<u8, Seq<char>>, h: u8)
    requires
        m.dom().finite(),
        m.dom().len() > 0,
    ensures
        scan(m, h, 256) is Some,
{
    if forall|p: u8| !m.dom().contains(p) {
        assert(m.dom() =~= Set::<u8>::empty());
    }
    let p = choose|p: u8| m.dom().contains(p);
    let r = lemma_nearest_occupied(m, h, p);
    lemma_scan_reaches(m, h, r, 256);
}

/// The name hashed for one placement attempt: the server's name, an
/// underscore, then the salt in decimal.
pub open spec fn salted(server: Seq<char>, salt: nat) -> Seq<char> {
    server + seq!['_'] + decimal_of(salt)
}

/// The position one placement attempt claims.
pub open spec fn placement_position(server: Seq<char>, salt: nat) -> u8 {
    position_of(salted(server, salt))
}

/// One placement loop as a function of the ring contents: starting at
/// `salt`, claim `need` more free positions for `server` within `tries`
/// attempts, advancing the salt by [`SALT_STRIDE`] after every attempt and
/// skipping positions that are already occupied.
pub open spec fn place_step(
    m: Map<u8, Seq<char>>,
    server: Seq<char>,
    salt: nat,
    need: nat,
    tries: nat,
) -> Option<Map<u8, Seq<char>>>
    decreases tries,
{
    if need == 0 {
        Some(m)
    } else if tries == 0 {
        None
    } else {
        let p = placement_position(server, salt);
        let next_salt = salt + SALT_STRIDE as nat;
        if m.dom().contains(p) {
            place_step(m, server, next_salt, need, (tries - 1) as nat)
        } else {
            place_step(m.insert(p, server), server, next_salt, (need - 1) as nat, (tries - 1) as nat)
        }
    }
}

/// What adding `server` does to ring contents `m`: refused outright when
/// `replicas` more positions would overflow the 255 the hash can reach,
/// otherwise placed by the salted retry loop.
pub open spec fn spec_add(
    m: Map<u8, Seq<char>>,
    server: Seq<char>,
    replicas: u8,
) -> Result<Map<u8, Seq<char>>, RingError> {
    if m.dom().len() + replicas > 255 {
        Err(RingError::CapacityExceeded)
    } else {
        match place_step(m, server, 0, replicas as nat, MAX_PLACEMENT_ATTEMPTS as nat) {
            Some(placed) => Ok(placed),
            None => Err(RingError::PlacementExhausted),
        }
    }
}

/// What ring construction does: add the named servers in order.
pub open spec fn spec_build(
    m: Map<u8, Seq<char>>,
    names: Seq<Seq<char>>,
    replicas: u8,
) -> Result<Map<u8, Seq<char>>, RingError>
    decreases names.len(),
{
    if names.len() == 0 {
        Ok(m)
    } else {
        match spec_add(m, names[0], replicas) {
            Ok(placed) => spec_build(placed, names.drop_first(), replicas),
            Err(e) => Err(e),
        }
    }
}

/// `m` with every position of `ps` bound to `server`.
pub open spec fn with_positions(
    m: Map<u8, Seq<char>>,
    ps: Seq<u8>,
    server: Seq<char>,
) -> Map<u8, Seq<char>>
    decreases ps.len(),
{
    if ps.len() == 0 {
        m
    } else {
        with_positions(m, ps.drop_last(), server).insert(ps.last(), server)
    }
}

/// The domain of [`with_positions`] is the domain of `m` plus the positions.
proof fn lemma_with_positions_dom(m: Map<u8, Seq<char>>, ps: Seq<u8>, server: Seq<char>)
    ensures
        forall|q: u8|
            with_positions(m, ps, server).dom().contains(q) ==> (m.dom().contains(q)
                || ps.contains(q)),
        forall|q: u8|
            m.dom().contains(q) ==> with_positions(m, ps, server).dom().contains(q),
        forall|q: u8|
            ps.contains(q) ==> with_positions(m, ps, server).dom().contains(q),
        forall|q: u8|
            m.dom().contains(q) && !ps.contains(q) ==> with_positions(m, ps, server)[q] == m[q],
    decreases ps.len(),
{
    if ps.len() > 0 {
        lemma_with_positions_dom(m, ps.drop_last(), server);
        let prior = with_positions(m, ps.drop_last(), server);
        assert(with_positions(m, ps, server) == prior.insert(ps.last(), server));
        assert(ps[ps.len() - 1] == ps.last());
        assert(ps.contains(ps.last()));
        assert forall|q: u8| ps.contains(q) && q != ps.last() implies ps.drop_last().contains(
            q,
        ) by {
            let k = choose|k: int| 0 <= k < ps.len() && ps[k] == q;
            assert(ps.drop_last()[k] == q);
        }
        assert forall|q: u8| ps.drop_last().contains(q) implies ps.contains(q) by {
            let k = choose|k: int| 0 <= k < ps.drop_last().len() && ps.drop_last()[k] == q;
            assert(ps[k] == q);
        }
        assert forall|q: u8| with_positions(m, ps, server).dom().contains(q) implies (
        m.dom().contains(q) || ps.contains(q)) by {
            if q != ps.last() {
                assert(prior.dom().contains(q));
            }
        }
        assert forall|q: u8| m.dom().contains(q) implies with_positions(m, ps, server).dom()
            .contains(q) by {
            if q != ps.last() {
                assert(prior.dom().contains(q));
            }
        }
        assert forall|q: u8| ps.contains(q) implies with_positions(m, ps, server).dom().contains(
            q,
        ) by {
            if q != ps.last() {
                assert(ps.drop_last().contains(q));
                assert(prior.dom().contains(q));
            }
        }
    } else {
        assert(with_positions(m, ps, server) == m);
    }
}

/// The name actually hashed for a placement attempt.
fn salted_name(server: &String, salt: u32) -> (s: String)
    ensures
        s@ == salted(server@, salt as nat),
{
    let mut s = server.clone();
    s.append("_");
    let digits = crate::text::u32_to_decimal(salt);
    s.append(digits.as_str());
    proof {
        reveal_strlit("_");
        assert("_"@ =~= seq!['_']);
        assert(s@ =~= salted(server@, salt as nat));
    }
    s
}

/// A consistent-hashing ring: at most one server name per position.
pub struct Ring {
    replicas: u8,
    servers: HashMap<u8, String>,
}

impl View for Ring {
    type V = Map<u8, Seq<char>>;

    closed spec fn view(&self) -> Map<u8, Seq<char>> {
        view_of(self.servers@)
    }
}

impl Ring {
    /// How many positions each server claims on this ring.
    pub closed spec fn spec_replicas(&self) -> u8 {
        self.replicas
    }

    /// How many positions each server claims on this ring.
    #[verifier::when_used_as_spec(spec_replicas)]
    pub fn replicas(&self) -> (r: u8)
        ensures
            r == self.spec_replicas(),
    {
        self.replicas
    }

    /// How many positions are occupied.
    pub fn len(&self) -> (n: usize)
        ensures
            n == self@.dom().len(),
    {
        proof {
            assert(self@.dom() =~= self.servers@.dom());
        }
        self.servers.len()
    }

    /// Returns the server that holds `key`: the one at the first occupied
    /// position at or clockwise after the key's hash. Fails if and only if
    /// the ring is empty.
    pub fn get_server_for_key(&self, key: &str) -> (r: Result<String, RingError>)
        ensures
            (match r {
                Ok(server) => self@.dom().len() > 0 && lookup_yields(self@, key@, server@),
                Err(e) => e == RingError::EmptyRing && self@.dom().len() == 0,
            }),
    {
        proof {
            assert(self@.dom() =~= self.servers@.dom());
        }
        if self.servers.is_empty() {
            return Err(RingError::EmptyRing);
        }
        let h0 = crate::hashing::hash(key);
        let mut cur = h0;
        let mut i: usize = 0;
        while i < 256
            invariant
                i <= 256,
                h0 == position_of(key@),
                self@.dom().len() > 0,
                self@.dom().finite(),
                i < 256 ==> ring_distance(h0, cur) == i,
                forall|q: u8| ring_distance(h0, q) < i ==> !self@.dom().contains(q),
            decreases 256 - i,
        {
            match self.servers.get(&cur) {
                Some(server) => {
                    proof {
                        assert(self@.dom().contains(cur));
                        assert(self@[cur] == server@);
                        lemma_scan_reaches(self@, h0, cur, 256);
                    }
                    return Ok(server.clone());
                },
                None => {
                    proof {
                        assert(!self@.dom().contains(cur));
                    }
                },
            }
            proof {
                assert forall|q: u8| ring_distance(h0, q) < i + 1 implies !self@.dom().contains(
                    q,
                ) by {
                    if ring_distance(h0, q) == i {
                        assert(q == cur);
                    }
                }
            }
            cur = if cur == 255 {
                0
            } else {
                cur + 1
            };
            i += 1;
        }
        proof {
            assert forall|q: u8| !self@.dom().contains(q) by {
                assert(ring_distance(h0, q) < 256);
            }
            assert(self@.dom() =~= Set::<u8>::empty());
            assert(false);
        }
        vstd::pervasive::unreached()
    }

    /// Adds `server` to the ring at `replicas()` fresh positions, found by
    /// hashing the server's salted name with successive salts. An occupied
    /// position is never overwritten: a colliding attempt is skipped and the
    /// next salt tried. On any error the ring is left unchanged. Re-adding a
    /// name a ring already holds claims another full set of positions.
    pub fn add_server(&mut self, server: String) -> (r: Result<(), RingError>)
        ensures
            final(self).spec_replicas() == old(self).spec_replicas(),
            (match r {
                Ok(()) => spec_add(old(self)@, server@, old(self).spec_replicas()) == Ok::<
                    Map<u8, Seq<char>>,
                    RingError,
                >(final(self)@),
                Err(e) => spec_add(old(self)@, server@, old(self).spec_replicas()) == Err::<
                    Map<u8, Seq<char>>,
                    RingError,
                >(e) && final(self)@ == old(self)@,
            }),
    {
        let replicas = self.replicas;
        proof {
            assert(self@.dom() =~= self.servers@.dom());
        }
        if self.servers.len() > 255 - replicas as usize {
            return Err(RingError::CapacityExceeded);
        }
        let ghost m0 = self@;
        let mut placed: Vec<u8> = Vec::new();
        let mut salt: u32 = 0;
        let mut attempts: u32 = 0;
        while placed.len() < replicas as usize && attempts < MAX_PLACEMENT_ATTEMPTS
            invariant
                self.replicas == old(self).replicas,
                replicas == old(self).replicas,
                m0 == old(self)@,
                placed.len() <= replicas as usize,
                attempts <= MAX_PLACEMENT_ATTEMPTS,
                salt == attempts * SALT_STRIDE,
                place_step(m0, server@, 0, replicas as nat, MAX_PLACEMENT_ATTEMPTS as nat)
                    == place_step(
                    self@,
                    server@,
                    salt as nat,
                    (replicas as usize - placed.len()) as nat,
                    (MAX_PLACEMENT_ATTEMPTS - attempts) as nat,
                ),
                self@ == with_positions(m0, placed@, server@),
                forall|q: u8| m0.dom().contains(q) ==> self@.dom().contains(q),
                forall|k: int|
                    0 <= k < placed.len() ==> self@.dom().contains(#[trigger] placed@[k]),
                forall|k: int| 0 <= k < placed.len() ==> !m0.dom().contains(#[trigger] placed@[k]),
                forall|k: int, l: int| 0 <= k < l < placed.len() ==> placed@[k] != placed@[l],
            decreases MAX_PLACEMENT_ATTEMPTS - attempts,
        {
            let ghost need = (replicas as usize - placed.len()) as nat;
            let ghost rem = (MAX_PLACEMENT_ATTEMPTS - attempts) as nat;
            let name = salted_name(&server, salt);
            let h = crate::hashing::hash(name.as_str());
            proof {
                assert(h == placement_position(server@, salt as nat));
            }
            if self.servers.contains_key(&h) {
                proof {
                    assert(self@.dom().contains(h));
                    assert(place_step(self@, server@, salt as nat, need, rem) == place_step(
                        self@,
                        server@,
                        salt as nat + SALT_STRIDE as nat,
                        need,
                        (rem - 1) as nat,
                    ));
                }
            } else {
                let ghost before = self@;
                let ghost placed_before = placed@;
                proof {
                    assert(!self@.dom().contains(h));
                    assert(place_step(self@, server@, salt as nat, need, rem) == place_step(
                        self@.insert(h, server@),
                        server@,
                        salt as nat + SALT_STRIDE as nat,
                        (need - 1) as nat,
                        (rem - 1) as nat,
                    ));
                }
                self.servers.insert(h, server.clone());
                placed.push(h);
                proof {
                    assert(self@ =~= before.insert(h, server@));
                    assert(placed@.drop_last() =~= placed_before);
                    assert(placed@.last() == h);
                    assert(self@ == with_positions(m0, placed@, server@));
                    assert forall|k: int| 0 <= k < placed@.len() implies !m0.dom().contains(
                        #[trigger] placed@[k],
                    ) by {
                        if k < placed_before.len() {
                            assert(placed@[k] == placed_before[k]);
                            assert(!m0.dom().contains(placed_before[k]));
                        } else {
                            assert(placed@[k] == h);
                            assert(!before.dom().contains(h));
                        }
                    }
                    assert forall|k: int| 0 <= k < placed@.len() implies self@.dom().contains(
                        #[trigger] placed@[k],
                    ) by {
                        if k < placed_before.len() {
                            assert(placed@[k] == placed_before[k]);
                            assert(before.dom().contains(placed_before[k]));
                        } else {
                            assert(placed@[k] == h);
                        }
                    }
                    assert forall|k: int, l: int| 0 <= k < l < placed@.len() implies placed@[k]
                        != placed@[l] by {
                        if l < placed_before.len() {
                            assert(placed@[k] == placed_before[k]);
                            assert(placed@[l] == placed_before[l]);
                        } else {
                            assert(placed@[l] == h);
                            assert(placed@[k] == placed_before[k]);
                            assert(before.dom().contains(placed_before[k]));
                            assert(!before.dom().contains(h));
                        }
                    }
                }
            }
            salt += SALT_STRIDE;
            attempts += 1;
        }
        if placed.len() == replicas as usize {
            proof {
                assert(place_step(
                    self@,
                    server@,
                    salt as nat,
                    0,
                    (MAX_PLACEMENT_ATTEMPTS - attempts) as nat,
                ) == Some(self@));
            }
            return Ok(());
        }
        proof {
            assert(place_step(
                self@,
                server@,
                salt as nat,
                (replicas as usize - placed.len()) as nat,
                0,
            ) == None::<Map<u8, Seq<char>>>);
            assert(spec_add(m0, server@, replicas) == Err::<Map<u8, Seq<char>>, RingError>(
                RingError::PlacementExhausted,
            ));
        }
        proof {
            assert(placed@.take(placed@.len() as int) =~= placed@);
        }
        let mut idx = placed.len();
        while idx > 0
            invariant
                idx <= placed.len(),
                self.replicas == old(self).replicas,
                m0 == old(self)@,
                self@ == with_positions(m0, placed@.take(idx as int), server@),
                forall|k: int| 0 <= k < placed.len() ==> !m0.dom().contains(#[trigger] placed@[k]),
                forall|k: int, l: int| 0 <= k < l < placed.len() ==> placed@[k] != placed@[l],
            decreases idx,
        {
            idx -= 1;
            let p = placed[idx];
            let ghost kept = placed@.take(idx as int);
            let ghost pre = self@;
            proof {
                lemma_with_positions_dom(m0, kept, server@);
                assert forall|k: int| 0 <= k < kept.len() implies kept[k] != p by {
                    assert(kept[k] == placed@[k]);
                    assert(placed@[k] != placed@[idx as int]);
                }
                if kept.contains(p) {
                    let k = choose|k: int| 0 <= k < kept.len() && kept[k] == p;
                    assert(false);
                }
                assert(!m0.dom().contains(p));
                assert(!with_positions(m0, kept, server@).dom().contains(p));
                assert(placed@.take(idx + 1).drop_last() =~= kept);
                assert(placed@.take(idx + 1)[idx as int] == p);
                assert(placed@.take(idx + 1).last() == p);
                assert(pre == with_positions(m0, kept, server@).insert(p, server@));
            }
            self.servers.remove(&p);
            proof {
                assert(self@ =~= pre.remove(p));
                assert(pre.remove(p) =~= with_positions(m0, kept, server@));
            }
        }
        proof {
            assert(placed@.take(0) =~= Seq::<u8>::empty());
            assert(self@ == m0);
        }
        Err(RingError::PlacementExhausted)
    }

    /// Builds a ring on which every server claims `replicas` positions,
    /// adding the given servers in order to an initially empty ring. If any
    /// addition fails, the whole construction fails with that error and no
    /// partial ring is returned.
    pub fn with_replicas(replicas: u8, servers: Vec<String>) -> (r: Result<Ring, RingError>)
        ensures
            (match r {
                Ok(ring) => ring.spec_replicas() == replicas && spec_build(
                    Map::empty(),
                    servers.deep_view(),
                    replicas,
                ) == Ok::<Map<u8, Seq<char>>, RingError>(ring@),
                Err(e) => spec_build(Map::empty(), servers.deep_view(), replicas) == Err::<
                    Map<u8, Seq<char>>,
                    RingError,
                >(e),
            }),
    {
        let ghost names = servers.deep_view();
        let mut ring = Ring { replicas, servers: HashMap::new() };
        proof {
            assert(ring@ =~= Map::<u8, Seq<char>>::empty());
            assert(names.skip(0) =~= names);
        }
        let n = servers.len();
        let mut i: usize = 0;
        while i < n
            invariant
                n == servers.len(),
                i <= n,
                names == servers.deep_view(),
                names.len() == n,
                ring.spec_replicas() == replicas,
                spec_build(Map::empty(), names, replicas) == spec_build(
                    ring@,
                    names.skip(i as int),
                    replicas,
                ),
            decreases n - i,
        {
            let name = servers[i].clone();
            proof {
                assert(names[i as int] == servers@[i as int]@);
                assert(names.skip(i as int)[0] == names[i as int]);
            }
            let ghost pre = ring@;
            match ring.add_server(name) {
                Ok(()) => {
                    proof {
                        assert(names.skip(i as int).drop_first() =~= names.skip(i + 1));
                        assert(spec_build(pre, names.skip(i as int), replicas) == spec_build(
                            ring@,
                            names.skip(i + 1),
                            replicas,
                        ));
                    }
                },
                Err(e) => {
                    proof {
                        assert(spec_build(pre, names.skip(i as int), replicas) == Err::<
                            Map<u8, Seq<char>>,
                            RingError,
                        >(e));
                    }
                    return Err(e);
                },
            }
            i += 1;
        }
        proof {
            assert(names.skip(n as int) =~= Seq::<Seq<char>>::empty());
        }
        Ok(ring)
    }

    /// Builds a ring with the default footprint of
    /// [`DEFAULT_POSITIONS_PER_SERVER`] positions per server.
    pub fn new(servers: Vec<String>) -> (r: Result<Ring, RingError>)
        ensures
            (match r {
                Ok(ring) => ring.spec_replicas() == DEFAULT_POSITIONS_PER_SERVER && spec_build(
                    Map::empty(),
                    servers.deep_view(),
                    DEFAULT_POSITIONS_PER_SERVER,
                ) == Ok::<Map<u8, Seq<char>>, RingError>(ring@),
                Err(e) => spec_build(
                    Map::empty(),
                    servers.deep_view(),
                    DEFAULT_POSITIONS_PER_SERVER,
                ) == Err::<Map<u8, Seq<char>>, RingError>(e),
            }),
    {
        Ring::with_replicas(DEFAULT_POSITIONS_PER_SERVER, servers)
    }

    /// Renders the ring's occupied positions in ascending order, one
    /// `position,server` pair per line.
    pub fn render(&self) -> (out: String)
        ensures
            out@ == listing_from(self@, 0),
    {
        let mut out = String::new();
        proof {
            assert(out@ + listing_from(self@, 0) =~= listing_from(self@, 0));
        }
        let mut p: usize = 0;
        while p < 256
            invariant
                p <= 256,
                out@ + listing_from(self@, p as nat) == listing_from(self@, 0),
            decreases 256 - p,
        {
            let ghost rest = listing_from(self@, p as nat);
            let ghost tail = listing_from(self@, p as nat + 1);
            match self.servers.get(&(p as u8)) {
                Some(name) => {
                    proof {
                        assert(self@.dom().contains(p as u8));
                        assert(self@[p as u8] == name@);
                        assert(rest == (decimal_of(p as nat) + seq![','] + name@ + seq!['\n'])
                            + tail);
                    }
                    let ghost out0 = out@;
                    let digits = crate::text::u32_to_decimal(p as u32);
                    out.append(digits.as_str());
                    out.append(",");
                    out.append(name.as_str());
                    out.append("\n");
                    proof {
                        reveal_strlit(",");
                        reveal_strlit("\n");
                        assert(","@ =~= seq![',']);
                        assert("\n"@ =~= seq!['\n']);
                        assert(out@ =~= out0 + (decimal_of(p as nat) + seq![','] + name@
                            + seq!['\n']));
                        assert(out@ + tail =~= out0 + rest);
                    }
                },
                None => {
                    proof {
                        assert(!self@.dom().contains(p as u8));
                        assert(rest == Seq::<char>::empty() + tail);
                        assert(out@ + tail =~= out@ + rest);
                    }
                },
            }
            p += 1;
        }
        proof {
            assert(listing_from(self@, 256) =~= Seq::<char>::empty());
            assert(out@ + listing_from(self@, 256) =~= out@);
        }
        out
    }

    /// Removes every position `server` owns; the rest of the ring is
    /// untouched. Returns whether the ring held the server at all.
    pub fn remove_server(&mut self, server: String) -> (removed: bool)
        ensures
            final(self).spec_replicas() == old(self).spec_replicas(),
            final(self)@ == old(self)@.remove_keys(positions_of(old(self)@, server@)),
            removed <==> positions_of(old(self)@, server@) != Set::<u8>::empty(),
    {
        let ghost m0 = self@;
        let ghost owned = positions_of(m0, server@);
        let mut removed = false;
        let mut p: usize = 0;
        while p < 256
            invariant
                p <= 256,
                self.replicas == old(self).replicas,
                m0 == old(self)@,
                owned == positions_of(m0, server@),
                self@ == m0.remove_keys(owned.filter(|q: u8| (q as int) < p as int)),
                removed <==> exists|q: u8| (q as int) < p as int && owned.contains(q),
            decreases 256 - p,
        {
            let pos = p as u8;
            let ghost below = owned.filter(|q: u8| (q as int) < p as int);
            let ghost below_next = owned.filter(|q: u8| (q as int) < p as int + 1);
            let is_owned = match self.servers.get(&pos) {
                Some(name) => {
                    proof {
                        assert(self@.dom().contains(pos));
                        assert(self@[pos] == name@);
                        assert(!below.contains(pos));
                        assert(m0.dom().contains(pos) && m0[pos] == name@);
                    }
                    name.eq(&server)
                },
                None => false,
            };
            if is_owned {
                let ghost pre = self@;
                self.servers.remove(&pos);
                proof {
                    assert(owned.contains(pos));
                    assert(self@ =~= pre.remove(pos));
                    assert(below_next =~= below.insert(pos));
                    assert(self@ =~= m0.remove_keys(below_next));
                }
                removed = true;
            } else {
                proof {
                    if owned.contains(pos) {
                        assert(m0.dom().contains(pos) && m0[pos] == server@);
                        assert(!below.contains(pos));
                        assert(self@.dom().contains(pos));
                        assert(self@[pos] == server@);
                        assert(false);
                    }
                    assert(below_next =~= below);
                }
            }
            proof {
                if !removed {
                    assert forall|q: u8| (q as int) < p as int + 1 implies !owned.contains(q) by {
                        if q != pos {
                            assert((q as int) < p as int);
                        }
                    }
                }
            }
            p += 1;
        }
        proof {
            assert(owned.filter(|q: u8| (q as int) < 256) =~= owned);
            if !removed {
                if owned != Set::<u8>::empty() {
                    assert(exists|q: u8| owned.contains(q)) by {
                        if forall|q: u8| !owned.contains(q) {
                            assert(owned =~= Set::<u8>::empty());
                        }
                    }
                    let q = choose|q: u8| owned.contains(q);
                    assert((q as int) < 256);
                }
            }
        }
        removed
    }

    /// Builds a ring directly from explicit `(position, server)` pairs, for
    /// diagnostics and testing. Fails if a position appears twice or if more
    /// than 255 positions are given; each server keeps whatever footprint
    /// the pairs describe, so `replicas` is the default.
    pub fn from_entries(entries: Vec<(u8, String)>) -> (r: Option<Ring>)
        ensures
            (match r {
                Some(ring) => {
                    &&& entries.len() <= 255
                    &&& distinct_positions(entries.deep_view())
                    &&& ring@ == entries_map(entries.deep_view())
                    &&& ring.spec_replicas() == DEFAULT_POSITIONS_PER_SERVER
                },
                None => entries.len() > 255 || !distinct_positions(entries.deep_view()),
            }),
    {
        if entries.len() > 255 {
            return None;
        }
        let mut servers: HashMap<u8, String> = HashMap::new();
        let ghost pairs = entries.deep_view();
        proof {
            assert(view_of(servers@) =~= entries_map(pairs.take(0)));
        }
        let mut i: usize = 0;
        while i < entries.len()
            invariant
                i <= entries.len(),
                pairs == entries.deep_view(),
                pairs.len() == entries.len(),
                forall|k: int|
                    0 <= k < pairs.len() ==> #[trigger] pairs[k] == (entries@[k].0, entries@[k].1@),
                view_of(servers@) == entries_map(pairs.take(i as int)),
                distinct_positions(pairs.take(i as int)),
                forall|k: int|
                    0 <= k < i ==> servers@.dom().contains(#[trigger] pairs[k].0),
                forall|p: u8| servers@.dom().contains(p)
                    ==> exists|k: int| 0 <= k < i && #[trigger] pairs[k].0 == p,
            decreases entries.len() - i,
        {
            let (position, name) = (entries[i].0, entries[i].1.clone());
            if servers.contains_key(&position) {
                proof {
                    let k = choose|k: int| 0 <= k < i && #[trigger] pairs[k].0 == position;
                    assert(pairs[k].0 == pairs[i as int].0);
                    assert(!distinct_positions(pairs));
                }
                return None;
            }
            servers.insert(position, name);
            proof {
                assert(pairs.take(i + 1).drop_last() =~= pairs.take(i as int));
                assert(view_of(servers@) =~= entries_map(pairs.take(i + 1)));
                assert forall|k: int, l: int|
                    0 <= k < l < i + 1 implies (#[trigger] pairs.take(i + 1)[k]).0 != (
                #[trigger] pairs.take(i + 1)[l]).0 by {
                    if l < i {
                        assert(distinct_positions(pairs.take(i as int)));
                        assert(pairs.take(i as int)[k] == pairs[k]);
                        assert(pairs.take(i as int)[l] == pairs[l]);
                    }
                }
            }
            i += 1;
        }
        proof {
            assert(pairs.take(i as int) =~= pairs);
        }
        Some(Ring { replicas: DEFAULT_POSITIONS_PER_SERVER, servers })
    }
}

/// The listing of `m` from position `p` upward: one `position,server` line
/// per occupied position, in ascending position order.
pub open spec fn listing_from(m: Map<u8, Seq<char>>, p: nat) -> Seq<char>
    decreases 256 - p,
{
    if p >= 256 {
        Seq::empty()
    } else {
        (if m.dom().contains(p as u8) {
            decimal_of(p) + seq![','] + m[p as u8] + seq!['\n']
        } else {
            Seq::<char>::empty()
        }) + listing_from(m, p + 1)
    }
}

/// The positions of `m` owned by `server`.
pub open spec fn positions_of(m: Map<u8, Seq<char>>, server: Seq<char>) -> Set<u8> {
    m.dom().filter(|p: u8| m[p] == server)
}

/// No position occurs twice among the pairs.
pub open spec fn distinct_positions(pairs: Seq<(u8, Seq<char>)>) -> bool {
    forall|k: int, l: int|
        0 <= k < l < pairs.len() ==> (#[trigger] pairs[k]).0 != (#[trigger] pairs[l]).0
}

/// The position map described by a sequence of `(position, server)` pairs;
/// a later pair wins where positions repeat.
pub open spec fn entries_map(pairs: Seq<(u8, Seq<char>)>) -> Map<u8, Seq<char>>
    decreases pairs.len(),
{
    if pairs.len() == 0 {
        Map::empty()
    } else {
        entries_map(pairs.drop_last()).insert(pairs.last().0, pairs.last().1)
    }
}

} // verus!
