//! The ring's general guarantees, stated over the same spec functions the
//! operations' contracts use and proved once and for all.

use vstd::prelude::*;

verus! {

use crate::ring::{
    lookup_yields, owner_position, place_step, positions_of, spec_add, spec_build, RingError,
    SALT_STRIDE,
};
use crate::ring::lemma_scan_finds;
use crate::hashing::position_of;

/// Lookup is deterministic: for fixed ring contents and a fixed key there is
/// only one server a lookup can yield.
pub proof fn lemma_lookup_deterministic(
    m: Map<u8, Seq<char>>,
    key: Seq<char>,
    s1: Seq<char>,
    s2: Seq<char>,
)
    requires
        lookup_yields(m, key, s1),
        lookup_yields(m, key, s2),
    ensures
        s1 == s2,
{
}

/// Coverage: on a non-empty ring every key resolves to an owner, whatever
/// position its hash probes first — the scan wraps from 255 back to 0.
pub proof fn lemma_nonempty_ring_resolves(m: Map<u8, Seq<char>>, key: Seq<char>)
    requires
        m.dom().finite(),
        m.dom().len() > 0,
    ensures
        owner_position(m, key) is Some,
{
    lemma_scan_finds(m, position_of(key));
}

/// No overwrite: two distinct servers never share a ring position.
pub proof fn lemma_no_shared_positions(m: Map<u8, Seq<char>>, s: Seq<char>, t: Seq<char>)
    requires
        s != t,
    ensures
        positions_of(m, s).disjoint(positions_of(m, t)),
{
    assert forall|q: u8| positions_of(m, s).contains(q) implies !positions_of(m, t).contains(
        q,
    ) by {
        assert(m[q] == s);
    }
}

/// What one placement loop run changes: every map it yields extends the old
/// contents by exactly `need` fresh positions, all owned by `server`, and
/// leaves every other server's footprint untouched.
proof fn lemma_place_step_properties(
    m: Map<u8, Seq<char>>,
    server: Seq<char>,
    salt: nat,
    need: nat,
    tries: nat,
    m2: Map<u8, Seq<char>>,
)
    requires
        m.dom().finite(),
        place_step(m, server, salt, need, tries) == Some(m2),
    ensures
        m2.dom().finite(),
        forall|q: u8| #[trigger] m.dom().contains(q) ==> m2.dom().contains(q) && m2[q] == m[q],
        m2.dom().len() == m.dom().len() + need,
        forall|q: u8| m2.dom().contains(q) && !m.dom().contains(q) ==> m2[q] == server,
        positions_of(m2, server).len() == positions_of(m, server).len() + need,
        forall|t: Seq<char>| t != server ==> positions_of(m2, t) == positions_of(m, t),
    decreases tries,
{
    if need == 0 {
        assert(m2 == m);
        assert forall|t: Seq<char>| t != server implies positions_of(m2, t) == positions_of(
            m,
            t,
        ) by {
            assert(positions_of(m2, t) =~= positions_of(m, t));
        }
    } else {
        let p = crate::ring::placement_position(server, salt);
        let next_salt = salt + SALT_STRIDE as nat;
        if m.dom().contains(p) {
            lemma_place_step_properties(m, server, next_salt, need, (tries - 1) as nat, m2);
        } else {
            let m1 = m.insert(p, server);
            assert(m1.dom() =~= m.dom().insert(p));
            lemma_place_step_properties(m1, server, next_salt, (need - 1) as nat, (tries - 1) as nat, m2);
            assert forall|q: u8| #[trigger] m.dom().contains(q) implies m2.dom().contains(q)
                && m2[q] == m[q] by {
                assert(m1.dom().contains(q));
                assert(m1[q] == m[q]);
            }
            assert forall|q: u8| m2.dom().contains(q) && !m.dom().contains(q) implies m2[q]
                == server by {
                if q == p {
                    assert(m1.dom().contains(p));
                    assert(m2[p] == m1[p]);
                } else {
                    assert(!m1.dom().contains(q));
                }
            }
            assert(positions_of(m1, server) =~= positions_of(m, server).insert(p));
            m.dom().lemma_len_filter(|q: u8| m[q] == server);
            assert(!positions_of(m, server).contains(p));
            assert(positions_of(m1, server).len() == positions_of(m, server).len() + 1);
            assert forall|t: Seq<char>| t != server implies positions_of(m2, t) == positions_of(
                m,
                t,
            ) by {
                assert(positions_of(m2, t) == positions_of(m1, t));
                assert(positions_of(m1, t) =~= positions_of(m, t));
            }
        }
    }
}

/// Placement count: adding a server to ring contents with room for it
/// places exactly `replicas` fresh positions, all owned by the new server;
/// every other server keeps exactly the positions it had.
pub proof fn lemma_add_places_exactly(
    m: Map<u8, Seq<char>>,
    server: Seq<char>,
    replicas: u8,
    m2: Map<u8, Seq<char>>,
)
    requires
        m.dom().finite(),
        spec_add(m, server, replicas) == Ok::<Map<u8, Seq<char>>, RingError>(m2),
    ensures
        m2.dom().finite(),
        forall|q: u8| #[trigger] m.dom().contains(q) ==> m2.dom().contains(q) && m2[q] == m[q],
        m2.dom().len() == m.dom().len() + replicas,
        forall|q: u8| m2.dom().contains(q) && !m.dom().contains(q) ==> m2[q] == server,
        positions_of(m2, server).len() == positions_of(m, server).len() + replicas,
        forall|t: Seq<char>| t != server ==> positions_of(m2, t) == positions_of(m, t),
{
    lemma_place_step_properties(
        m,
        server,
        0,
        replicas as nat,
        crate::ring::MAX_PLACEMENT_ATTEMPTS as nat,
        m2,
    );
}

/// Capacity rejection: when the ring is too full to hold one more server's
/// positions, adding is refused with the capacity error — and only then.
pub proof fn lemma_capacity_rejection(m: Map<u8, Seq<char>>, server: Seq<char>, replicas: u8)
    ensures
        spec_add(m, server, replicas) == Err::<Map<u8, Seq<char>>, RingError>(
            RingError::CapacityExceeded,
        ) <==> m.dom().len() + replicas > 255,
{
}

/// How often `name` occurs among `names`.
pub open spec fn count_of(names: Seq<Seq<char>>, name: Seq<char>) -> nat
    decreases names.len(),
{
    if names.len() == 0 {
        0
    } else {
        (if names[0] == name {
            1nat
        } else {
            0nat
        }) + count_of(names.drop_first(), name)
    }
}

/// Building a ring gives every server `replicas` positions per time it was
/// named, and the occupied positions add up to exactly `replicas` per name:
/// nothing is overwritten and nothing extra appears.
pub proof fn lemma_build_counts(
    m: Map<u8, Seq<char>>,
    names: Seq<Seq<char>>,
    replicas: u8,
    m2: Map<u8, Seq<char>>,
)
    requires
        m.dom().finite(),
        spec_build(m, names, replicas) == Ok::<Map<u8, Seq<char>>, RingError>(m2),
    ensures
        m2.dom().finite(),
        forall|q: u8| #[trigger] m.dom().contains(q) ==> m2.dom().contains(q) && m2[q] == m[q],
        m2.dom().len() == m.dom().len() + (replicas as nat) * names.len(),
        forall|t: Seq<char>|
            #[trigger] positions_of(m2, t).len() == positions_of(m, t).len() + (replicas as nat)
                * count_of(names, t),
    decreases names.len(),
{
    if names.len() == 0 {
        assert(m2 == m);
        assert forall|t: Seq<char>|
            #[trigger] positions_of(m2, t).len() == positions_of(m, t).len() + (replicas as nat)
                * count_of(names, t) by {
            assert(count_of(names, t) == 0);
            assert(positions_of(m2, t) =~= positions_of(m, t));
        }
    } else {
        match spec_add(m, names[0], replicas) {
            Ok(m1) => {
                lemma_add_places_exactly(m, names[0], replicas, m1);
                lemma_build_counts(m1, names.drop_first(), replicas, m2);
                assert((replicas as nat) * names.len() == replicas + (replicas as nat) * (
                names.len() - 1)) by (nonlinear_arith)
                    requires
                        names.len() >= 1,
                ;
                assert forall|t: Seq<char>|
                    #[trigger] positions_of(m2, t).len() == positions_of(m, t).len() + (
                replicas as nat) * count_of(names, t) by {
                    assert(count_of(names, t) == (if names[0] == t {
                        1nat
                    } else {
                        0nat
                    }) + count_of(names.drop_first(), t));
                    if t == names[0] {
                        assert(positions_of(m1, t).len() == positions_of(m, t).len() + replicas);
                        assert((replicas as nat) * count_of(names, t) == replicas + (
                        replicas as nat) * count_of(names.drop_first(), t)) by (nonlinear_arith)
                            requires
                                count_of(names, t) == 1 + count_of(names.drop_first(), t),
                        ;
                    } else {
                        assert(positions_of(m1, t) == positions_of(m, t));
                    }
                }
            },
            Err(e) => {
                assert(false);
            },
        }
    }
}

} // verus!
