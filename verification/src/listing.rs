use vstd::prelude::*;
use vstd::std_specs::btree::increasing_seq;
use vstd::std_specs::cmp::OrdSpec;
use crate::bin::HashEntry;

verus! {

/// The hashes are in strictly ascending order.
pub open spec fn hashes_ascending(entries: Seq<HashEntry>) -> bool {
    forall|i: int, j: int|
        0 <= i < j < entries.len() ==> (#[trigger] entries[i]).hash < (#[trigger] entries[j]).hash
}

/// `entries` are the pairs of `map`, each once, in ascending order.
pub open spec fn lists(entries: Seq<HashEntry>, map: Map<u32, u32>) -> bool {
    &&& hashes_ascending(entries)
    &&& forall|i: int|
        0 <= i < entries.len() ==> map.contains_key((#[trigger] entries[i]).hash) && map[entries[i].hash]
            == entries[i].value
    &&& forall|hash: u32| #[trigger]
        map.contains_key(hash) ==> exists|i: int|
            0 <= i < entries.len() && (#[trigger] entries[i]).hash == hash
}

/// What the standard library calls an increasing sequence of `u32` is
/// strictly ascending.
pub proof fn lemma_increasing(keys: Seq<u32>)
    requires
        increasing_seq(keys),
    ensures
        forall|i: int, j: int| 0 <= i < j < keys.len() ==> keys[i] < keys[j],
{
    broadcast use vstd::std_specs::btree::group_btree_axioms;

    vstd::std_specs::btree::axiom_increasing_seq_meaning::<u32>(keys);
    assert forall|i: int, j: int| 0 <= i < j < keys.len() implies keys[i] < keys[j] by {
        assert(keys[i].cmp_spec(&keys[j]) is Less);
    }
}

/// The pairs of `map` whose hash is below `bound`, in ascending order.
pub open spec fn ascending_below(map: Map<u32, u32>, bound: int) -> Seq<HashEntry>
    decreases bound,
{
    if bound <= 0 {
        Seq::empty()
    } else {
        let hash = (bound - 1) as u32;
        let before = ascending_below(map, bound - 1);
        if map.contains_key(hash) {
            before.push(HashEntry { hash, value: map[hash] })
        } else {
            before
        }
    }
}

/// The pairs of `map` in ascending order of their hashes.
pub open spec fn ascending(map: Map<u32, u32>) -> Seq<HashEntry> {
    ascending_below(map, 0x1_0000_0000)
}

/// `ascending_below` lists the pairs of the map whose hash is below the
/// bound.
proof fn lemma_ascending_below(map: Map<u32, u32>, bound: int)
    requires
        0 <= bound <= 0x1_0000_0000,
    ensures
        hashes_ascending(ascending_below(map, bound)),
        forall|i: int|
            0 <= i < ascending_below(map, bound).len() ==> {
                let entry = #[trigger] ascending_below(map, bound)[i];
                entry.hash < bound && map.contains_key(entry.hash) && map[entry.hash]
                    == entry.value
            },
        forall|hash: u32|
            hash < bound && #[trigger] map.contains_key(hash) ==> exists|i: int|
                0 <= i < ascending_below(map, bound).len() && (#[trigger] ascending_below(
                    map,
                    bound,
                )[i]).hash == hash,
    decreases bound,
{
    if bound > 0 {
        lemma_ascending_below(map, bound - 1);
        let last = (bound - 1) as u32;
        let before = ascending_below(map, bound - 1);
        let now = ascending_below(map, bound);
        assert forall|hash: u32| hash < bound && #[trigger] map.contains_key(hash) implies exists|
            i: int,
        |
            0 <= i < now.len() && (#[trigger] now[i]).hash == hash by {
            if hash == last {
                assert(now[now.len() - 1].hash == hash);
            } else {
                let i = choose|i: int| 0 <= i < before.len() && (#[trigger] before[i]).hash == hash;
                assert(now[i].hash == hash);
            }
        }
    }
}

/// `ascending` lists the map.
pub proof fn lemma_ascending_lists(map: Map<u32, u32>)
    ensures
        lists(ascending(map), map),
{
    lemma_ascending_below(map, 0x1_0000_0000);
}

/// A map has one listing only.
pub proof fn lemma_listing_unique(a: Seq<HashEntry>, b: Seq<HashEntry>, map: Map<u32, u32>)
    requires
        lists(a, map),
        lists(b, map),
    ensures
        a == b,
    decreases a.len(),
{
    if a.len() == 0 {
        if b.len() > 0 {
            assert(map.contains_key(b[0].hash));
        }
        assert(a =~= b);
    } else {
        let x = a.last();
        let xi = a.len() - 1;
        assert(map.contains_key(a[xi].hash));
        let bi = choose|i: int| 0 <= i < b.len() && (#[trigger] b[i]).hash == x.hash;
        let y = b.last();
        let yi = b.len() - 1;
        assert(map.contains_key(b[yi].hash));
        let ai = choose|i: int| 0 <= i < a.len() && (#[trigger] a[i]).hash == y.hash;
        assert(x.hash == y.hash) by {
            if ai < xi {
                assert(a[ai].hash < a[xi].hash);
            }
            if bi < yi {
                assert(b[bi].hash < b[yi].hash);
            }
        }
        assert(x == y);
        let rest = map.remove(x.hash);
        let a0 = a.drop_last();
        let b0 = b.drop_last();
        assert(lists(a0, rest)) by {
            assert forall|i: int| 0 <= i < a0.len() implies rest.contains_key(
                (#[trigger] a0[i]).hash,
            ) && rest[a0[i].hash] == a0[i].value by {
                assert(a0[i] == a[i]);
                assert(a[i].hash < a[xi].hash);
            }
            assert forall|hash: u32| #[trigger] rest.contains_key(hash) implies exists|i: int|
                0 <= i < a0.len() && (#[trigger] a0[i]).hash == hash by {
                assert(map.contains_key(hash));
                let i = choose|i: int| 0 <= i < a.len() && (#[trigger] a[i]).hash == hash;
                assert(a0[i] == a[i]);
            }
            assert forall|i: int, j: int| 0 <= i < j < a0.len() implies (#[trigger] a0[i]).hash < (
            #[trigger] a0[j]).hash by {
                assert(a0[i] == a[i]);
                assert(a0[j] == a[j]);
            }
        }
        assert(lists(b0, rest)) by {
            assert forall|i: int| 0 <= i < b0.len() implies rest.contains_key(
                (#[trigger] b0[i]).hash,
            ) && rest[b0[i].hash] == b0[i].value by {
                assert(b0[i] == b[i]);
                assert(b[i].hash < b[yi].hash);
            }
            assert forall|hash: u32| #[trigger] rest.contains_key(hash) implies exists|i: int|
                0 <= i < b0.len() && (#[trigger] b0[i]).hash == hash by {
                assert(map.contains_key(hash));
                let i = choose|i: int| 0 <= i < b.len() && (#[trigger] b[i]).hash == hash;
                assert(b0[i] == b[i]);
            }
            assert forall|i: int, j: int| 0 <= i < j < b0.len() implies (#[trigger] b0[i]).hash < (
            #[trigger] b0[j]).hash by {
                assert(b0[i] == b[i]);
                assert(b0[j] == b[j]);
            }
        }
        lemma_listing_unique(a0, b0, rest);
        assert(a =~= a0.push(x));
        assert(b =~= b0.push(y));
    }
}

/// A listing is as long as its map is large.
pub proof fn lemma_lists_len(entries: Seq<HashEntry>, map: Map<u32, u32>)
    requires
        lists(entries, map),
        map.dom().finite(),
    ensures
        entries.len() == map.len(),
    decreases entries.len(),
{
    if entries.len() == 0 {
        assert(map.dom() =~= Set::<u32>::empty());
    } else {
        let last = entries.last();
        let at = entries.len() - 1;
        assert(map.contains_key(entries[at].hash));
        let rest = map.remove(last.hash);
        let before = entries.drop_last();
        assert(lists(before, rest)) by {
            assert forall|i: int| 0 <= i < before.len() implies rest.contains_key(
                (#[trigger] before[i]).hash,
            ) && rest[before[i].hash] == before[i].value by {
                assert(before[i] == entries[i]);
                assert(entries[i].hash < entries[at].hash);
            }
            assert forall|hash: u32| #[trigger] rest.contains_key(hash) implies exists|i: int|
                0 <= i < before.len() && (#[trigger] before[i]).hash == hash by {
                assert(map.contains_key(hash));
                let i = choose|i: int| 0 <= i < entries.len() && (#[trigger] entries[i]).hash == hash;
                assert(before[i] == entries[i]);
            }
            assert forall|i: int, j: int| 0 <= i < j < before.len() implies (
            #[trigger] before[i]).hash < (#[trigger] before[j]).hash by {
                assert(before[i] == entries[i]);
                assert(before[j] == entries[j]);
            }
        }
        lemma_lists_len(before, rest);
    }
}

/// The listing of a map is `ascending` of it.
pub proof fn lemma_listing_is_ascending(entries: Seq<HashEntry>, map: Map<u32, u32>)
    requires
        lists(entries, map),
    ensures
        entries == ascending(map),
{
    lemma_ascending_lists(map);
    lemma_listing_unique(entries, ascending(map), map);
}

} // verus!
