//! Walking a table: when it ends, and that the bound on its depth is no
//! restriction.

use vstd::prelude::*;
use crate::bytes::get_u64;
use crate::fat::{
    children, file_fields_at, first_child_at, flags_at, hard_link_at, kind_for, listing, name_at,
    root_at, siblings, visit, NodeKind, BASE_NODE_NEXT,
};

verus! {

/// Whether the walk over the node at `c`, the siblings after it and all below
/// them ends within `fuel` pointers in depth.
pub open spec fn ends(buf: Seq<u8>, c: int, fuel: nat) -> bool {
    siblings(buf, c, Seq::empty(), fuel) is Some
}

/// Whether the walk from `c` ends, given where the walks that it leads to end.
spec fn ends_given(buf: Seq<u8>, c: int, deeper: spec_fn(int) -> bool) -> bool {
    c == 0 || {
        &&& flags_at(buf, c) is Some
        &&& name_at(buf, c) is Some
        &&& match kind_for(flags_at(buf, c)->0) {
            NodeKind::Folder => first_child_at(buf, c, flags_at(buf, c)->0) is Some && deeper(
                first_child_at(buf, c, flags_at(buf, c)->0)->0 as int,
            ),
            NodeKind::File { .. } => file_fields_at(
                buf,
                c,
                flags_at(buf, c)->0,
                Seq::empty(),
            ) is Some,
            NodeKind::HardLink => hard_link_at(buf, c, Seq::empty()) is Some,
            _ => true,
        }
        &&& get_u64(buf, c + BASE_NODE_NEXT) is Some
        &&& deeper(get_u64(buf, c + BASE_NODE_NEXT)->0 as int)
    }
}

/// Whether a walk ends does not depend on the path that it starts with.
proof fn lemma_any_prefix(buf: Seq<u8>, c: int, p: Seq<char>, q: Seq<char>, fuel: nat)
    ensures
        siblings(buf, c, p, fuel) is Some <==> siblings(buf, c, q, fuel) is Some,
    decreases fuel,
{
    if c != 0 && fuel > 0 {
        let f = (fuel - 1) as nat;
        match (flags_at(buf, c), name_at(buf, c)) {
            (Some(flags), Some(name)) => {
                let a = crate::fat::join_path(p, crate::fat::text_of(name));
                let b = crate::fat::join_path(q, crate::fat::text_of(name));
                match first_child_at(buf, c, flags) {
                    Some(child) => {
                        lemma_any_prefix(buf, child as int, a, b, f);
                    },
                    None => {},
                }
                assert(visit(buf, c, p, f) is Some <==> visit(buf, c, q, f) is Some);
            },
            _ => {},
        }
        match get_u64(buf, c + BASE_NODE_NEXT) {
            Some(next) => {
                lemma_any_prefix(buf, next as int, p, q, f);
            },
            None => {},
        }
    }
}

proof fn lemma_ends_step(buf: Seq<u8>, c: int, fuel: nat)
    ensures
        ends(buf, c, fuel + 1) == ends_given(buf, c, |x: int| ends(buf, x, fuel)),
{
    if c != 0 {
        match (flags_at(buf, c), name_at(buf, c)) {
            (Some(flags), Some(name)) => {
                let path = crate::fat::join_path(Seq::empty(), crate::fat::text_of(name));
                match first_child_at(buf, c, flags) {
                    Some(child) => {
                        lemma_any_prefix(buf, child as int, path, Seq::empty(), fuel);
                    },
                    None => {},
                }
                assert(visit(buf, c, Seq::empty(), fuel) is Some <==> match kind_for(flags) {
                    NodeKind::Folder => first_child_at(buf, c, flags) is Some && ends(
                        buf,
                        first_child_at(buf, c, flags)->0 as int,
                        fuel,
                    ),
                    NodeKind::File { .. } => file_fields_at(buf, c, flags, path) is Some,
                    NodeKind::HardLink => hard_link_at(buf, c, path) is Some,
                    _ => true,
                });
            },
            _ => {},
        }
    }
}

/// More fuel does not change a walk that ends.
proof fn lemma_more_fuel(buf: Seq<u8>, c: int, p: Seq<char>, fuel: nat, more: nat)
    requires
        siblings(buf, c, p, fuel) is Some,
        fuel <= more,
    ensures
        siblings(buf, c, p, more) == siblings(buf, c, p, fuel),
    decreases fuel,
{
    if c != 0 {
        let f = (fuel - 1) as nat;
        let g = (more - 1) as nat;
        let flags = flags_at(buf, c)->0;
        let name = name_at(buf, c)->0;
        let path = crate::fat::join_path(p, crate::fat::text_of(name));
        if kind_for(flags) is Folder {
            let child = first_child_at(buf, c, flags)->0;
            assert(visit(buf, c, p, f) == children(buf, c, path, f));
            assert(children(buf, c, path, f) == siblings(buf, child as int, path, f));
            lemma_more_fuel(buf, child as int, path, f, g);
            assert(children(buf, c, path, g) == siblings(buf, child as int, path, g));
        }
        assert(visit(buf, c, p, f) == visit(buf, c, p, g));
        let next = get_u64(buf, c + BASE_NODE_NEXT)->0;
        lemma_more_fuel(buf, next as int, p, f, g);
    }
}

/// Whether no further walk ends with one more step of fuel.
spec fn settled(buf: Seq<u8>, fuel: nat) -> bool {
    forall|c: int| 0 <= c ==> (#[trigger] ends(buf, c, fuel)) == ends(buf, c, fuel + 1)
}

proof fn lemma_stays_settled(buf: Seq<u8>, fuel: nat, more: nat)
    requires
        settled(buf, fuel),
        fuel <= more,
    ensures
        settled(buf, more),
        forall|c: int| 0 <= c ==> (#[trigger] ends(buf, c, more)) == ends(buf, c, fuel),
    decreases more - fuel,
{
    if fuel < more {
        let g = (more - 1) as nat;
        lemma_stays_settled(buf, fuel, g);
        assert forall|c: int| 0 <= c implies (#[trigger] ends(buf, c, more)) == ends(
            buf,
            c,
            more + 1,
        ) by {
            lemma_ends_step(buf, c, g);
            lemma_ends_step(buf, c, more);
            assert(forall|x: int| 0 <= x ==> (#[trigger] ends(buf, x, g)) == ends(buf, x, more));
        }
        assert forall|c: int| 0 <= c implies (#[trigger] ends(buf, c, more)) == ends(buf, c, fuel) by {
            assert(ends(buf, c, g) == ends(buf, c, g + 1));
        }
    }
}

/// The offsets from which a walk ends.
spec fn ending(buf: Seq<u8>, fuel: nat) -> Set<int> {
    vstd::set_lib::set_int_range(1, buf.len() as int).filter(|c: int| ends(buf, c, fuel))
}

/// Either the walks have settled before `fuel`, or at least `fuel` walks end.
proof fn lemma_settles(buf: Seq<u8>, fuel: nat)
    requires
        buf.len() > 0,
    ensures
        (exists|f: nat| f < fuel && #[trigger] settled(buf, f)) || ending(buf, fuel).len() >= fuel,
        ending(buf, fuel).finite(),
    decreases fuel,
{
    vstd::set_lib::lemma_int_range(1, buf.len() as int);
    vstd::set_lib::lemma_len_subset(
        ending(buf, fuel),
        vstd::set_lib::set_int_range(1, buf.len() as int),
    );
    if fuel > 0 {
        let f = (fuel - 1) as nat;
        lemma_settles(buf, f);
        if !(exists|g: nat| g < fuel && #[trigger] settled(buf, g)) {
            assert(!settled(buf, f));
            let c = choose|c: int| 0 <= c && (#[trigger] ends(buf, c, f)) != ends(buf, c, f + 1);
            if ends(buf, c, f) {
                lemma_more_fuel(buf, c, Seq::empty(), f, f + 1);
            }
            lemma_ends_step(buf, c, f);
            let small = ending(buf, f);
            let large = ending(buf, fuel);
            assert forall|x: int| small.contains(x) implies large.contains(x) by {
                lemma_more_fuel(buf, x, Seq::empty(), f, fuel);
            }
            assert(large.contains(c) && !small.contains(c));
            assert(small.insert(c).subset_of(large));
            vstd::set_lib::lemma_len_subset(small.insert(c), large);
        }
    }
}

/// The bound on the depth of a walk is no restriction: a walk over a table that
/// ends within any depth ends within the bound of `listing`, and gives the same
/// entries.
pub proof fn law_listing_is_complete(buf: Seq<u8>, fuel: nat)
    requires
        root_at(buf) is Some,
        children(buf, root_at(buf)->0, Seq::empty(), fuel) is Some,
    ensures
        listing(buf) == children(buf, root_at(buf)->0, Seq::empty(), fuel),
{
    let root = root_at(buf)->0;
    let n = buf.len();
    let child = first_child_at(buf, root, flags_at(buf, root)->0)->0 as int;
    if fuel <= n {
        lemma_more_fuel(buf, child, Seq::empty(), fuel, n);
    } else {
        lemma_settles(buf, n);
        vstd::set_lib::lemma_int_range(1, n as int);
        vstd::set_lib::lemma_len_subset(
            ending(buf, n),
            vstd::set_lib::set_int_range(1, n as int),
        );
        let f = choose|f: nat| f < n && #[trigger] settled(buf, f);
        lemma_stays_settled(buf, f, n);
        lemma_stays_settled(buf, f, fuel);
        assert(ends(buf, child, fuel));
        assert(ends(buf, child, n));
        lemma_more_fuel(buf, child, Seq::empty(), n, fuel);
    }
}

} // verus!
