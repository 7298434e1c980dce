//! The order in which a directory lists its entries does not matter.
//!
//! A file system may list the entries of a directory in any order. The scan
//! puts the region files in the order of their coordinates, and a region has
//! one name, so two listings of the same names lead to the same scan.

use crate::region_name::alike;
use crate::region_name::arranged;
use crate::region_name::before;
use crate::region_name::lemma_arranged;
use crate::region_name::lemma_region_coords_injective;
use crate::region_name::listed;
use crate::region_name::region_coords;
use crate::region_name::RegionCoords;
use crate::region_name::RegionEntry;
use crate::region_name::scan_order;
use vstd::prelude::*;
use vstd::relations::sorted_by;
use vstd::relations::total_ordering;
use vstd::utf8::encode_utf8;

verus! {

/// How often the name `v` stands among `names`.
pub open spec fn occurrences(names: Seq<String>, v: Seq<char>) -> nat
    decreases names.len(),
{
    if names.len() == 0 {
        0
    } else {
        occurrences(names.drop_last(), v) + if names.last()@ == v {
            1nat
        } else {
            0nat
        }
    }
}

/// Whether two listings hold the same names, each as often as the other, in
/// whatever order.
pub open spec fn same_entries(a: Seq<String>, b: Seq<String>) -> bool {
    forall|v: Seq<char>| occurrences(a, v) == occurrences(b, v)
}

/// How many of `names` are names of the region file `c`.
pub open spec fn files_of(names: Seq<String>, c: RegionCoords) -> nat
    decreases names.len(),
{
    if names.len() == 0 {
        0
    } else {
        files_of(names.drop_last(), c) + if region_coords(encode_utf8(names.last()@)) == Some(c) {
            1nat
        } else {
            0nat
        }
    }
}

/// The coordinates of a run of entries.
pub open spec fn coords_of(s: Seq<RegionEntry>) -> Seq<RegionCoords> {
    Seq::new(s.len(), |i: int| s[i].coords)
}

/// Whether each entry bears the coordinates that its name gives.
pub open spec fn genuine(s: Seq<RegionEntry>) -> bool {
    forall|i: int|
        0 <= i < s.len() ==> region_coords(encode_utf8((#[trigger] s[i]).name@)) == Some(
            s[i].coords,
        )
}

/// Whether region `a` is not scanned after region `b`.
pub open spec fn not_after(a: RegionCoords, b: RegionCoords) -> bool {
    !before(b, a)
}

/// A name that stands among the names occurs at some place, and a name of
/// a region file among them stands at some place.
proof fn lemma_found(names: Seq<String>, v: Seq<char>, c: RegionCoords)
    ensures
        occurrences(names, v) > 0 <==> exists|i: int|
            0 <= i < names.len() && (#[trigger] names[i])@ == v,
        files_of(names, c) > 0 <==> exists|i: int|
            0 <= i < names.len() && region_coords(encode_utf8((#[trigger] names[i])@)) == Some(c),
    decreases names.len(),
{
    if names.len() > 0 {
        let front = names.drop_last();
        lemma_found(front, v, c);
        assert(names.last() == names[names.len() - 1]);
        if occurrences(front, v) > 0 {
            let i = choose|i: int| 0 <= i < front.len() && (#[trigger] front[i])@ == v;
            assert(names[i] == front[i]);
        }
        if files_of(front, c) > 0 {
            let i = choose|i: int|
                0 <= i < front.len() && region_coords(encode_utf8((#[trigger] front[i])@)) == Some(
                    c,
                );
            assert(names[i] == front[i]);
        }
        if exists|i: int| 0 <= i < names.len() && (#[trigger] names[i])@ == v {
            let i = choose|i: int| 0 <= i < names.len() && (#[trigger] names[i])@ == v;
            if i < front.len() {
                assert(front[i] == names[i]);
            }
        }
        if exists|i: int|
            0 <= i < names.len() && region_coords(encode_utf8((#[trigger] names[i])@)) == Some(c) {
            let i = choose|i: int|
                0 <= i < names.len() && region_coords(encode_utf8((#[trigger] names[i])@)) == Some(
                    c,
                );
            if i < front.len() {
                assert(front[i] == names[i]);
            }
        }
    }
}

/// The names of one region file among the names are the occurrences of its
/// one name.
proof fn lemma_files_of_name(names: Seq<String>, c: RegionCoords, v: Seq<char>)
    requires
        region_coords(encode_utf8(v)) == Some(c),
    ensures
        files_of(names, c) == occurrences(names, v),
    decreases names.len(),
{
    if names.len() > 0 {
        lemma_files_of_name(names.drop_last(), c, v);
        let last = names.last()@;
        if region_coords(encode_utf8(last)) == Some(c) {
            lemma_region_coords_injective(encode_utf8(last), encode_utf8(v));
            vstd::utf8::encode_utf8_decode_utf8(last);
            vstd::utf8::encode_utf8_decode_utf8(v);
        }
    }
}

/// Listings with the same entries hold as many names of each region file.
proof fn lemma_same_files(a: Seq<String>, b: Seq<String>, c: RegionCoords)
    requires
        same_entries(a, b),
    ensures
        files_of(a, c) == files_of(b, c),
{
    if files_of(a, c) > 0 {
        lemma_found(a, Seq::empty(), c);
        let i = choose|i: int|
            0 <= i < a.len() && region_coords(encode_utf8((#[trigger] a[i])@)) == Some(c);
        lemma_files_of_name(a, c, a[i]@);
        lemma_files_of_name(b, c, a[i]@);
    } else if files_of(b, c) > 0 {
        lemma_found(b, Seq::empty(), c);
        let i = choose|i: int|
            0 <= i < b.len() && region_coords(encode_utf8((#[trigger] b[i])@)) == Some(c);
        lemma_files_of_name(a, c, b[i]@);
        lemma_files_of_name(b, c, b[i]@);
    }
}

/// The region files of a listing bear the coordinates that their names
/// give, and each region occurs among them as often as names of its file
/// occur in the listing.
proof fn lemma_listed(names: Seq<String>, c: RegionCoords)
    ensures
        genuine(listed(names)),
        coords_of(listed(names)).to_multiset().count(c) == files_of(names, c),
    decreases names.len(),
{
    broadcast use vstd::multiset::group_multiset_axioms;

    if names.len() == 0 {
        assert(coords_of(listed(names)) =~= Seq::empty());
        coords_of(listed(names)).to_multiset_ensures();
    } else {
        let front = listed(names.drop_last());
        lemma_listed(names.drop_last(), c);
        match region_coords(encode_utf8(names.last()@)) {
            Some(coords) => {
                let e = RegionEntry { name: names.last(), coords };
                assert(listed(names) == front.push(e));
                assert(coords_of(front.push(e)) =~= coords_of(front).push(coords));
                vstd::seq_lib::to_multiset_build(coords_of(front), coords);
                assert forall|i: int| 0 <= i < listed(names).len() implies region_coords(
                    encode_utf8((#[trigger] listed(names)[i]).name@),
                ) == Some(listed(names)[i].coords) by {
                    if i < front.len() {
                        assert(listed(names)[i] == front[i]);
                    }
                }
            },
            None => {},
        }
    }
}

/// The order of the scan keeps the coordinates of the entries, each as
/// often as before, and keeps the entries genuine.
proof fn lemma_arranged_coords(s: Seq<RegionEntry>)
    ensures
        coords_of(arranged(s)).to_multiset() == coords_of(s).to_multiset(),
        genuine(s) ==> genuine(arranged(s)),
        sorted_by(coords_of(arranged(s)), |a: RegionCoords, b: RegionCoords| not_after(a, b)),
    decreases s.len(),
{
    lemma_arranged(s);
    let out = arranged(s);
    assert forall|i: int, j: int| 0 <= i < j < out.len() implies not_after(
        #[trigger] coords_of(out)[i],
        #[trigger] coords_of(out)[j],
    ) by {
        assert(!before(out[j].coords, out[i].coords));
    }
    if s.len() == 0 {
        assert(coords_of(arranged(s)) =~= coords_of(s));
    } else {
        let front = arranged(s.drop_last());
        lemma_arranged_coords(s.drop_last());
        lemma_arranged(s.drop_last());
        crate::region_name::lemma_place(front, s.last().coords);
        let at = crate::region_name::place(front, s.last().coords);
        front.insert_ensures(at, s.last());
        coords_of(front).insert_ensures(at, s.last().coords);
        assert(coords_of(out) =~= coords_of(front).insert(at, s.last().coords)) by {
            assert forall|i: int| 0 <= i < out.len() implies coords_of(out)[i] == coords_of(
                front,
            ).insert(at, s.last().coords)[i] by {
                if i < at {
                    assert(out[i] == front[i]);
                } else if i > at {
                    assert(out[i] == front[i - 1]);
                    assert(coords_of(front).insert(at, s.last().coords)[i] == coords_of(front)[i
                        - 1]);
                }
            }
        }
        vstd::seq_lib::to_multiset_insert(coords_of(front), at, s.last().coords);
        assert(coords_of(s) =~= coords_of(s.drop_last()).push(s.last().coords));
        vstd::seq_lib::to_multiset_build(coords_of(s.drop_last()), s.last().coords);
        if genuine(s) {
            assert(genuine(s.drop_last())) by {
                assert forall|i: int| 0 <= i < s.len() - 1 implies region_coords(
                    encode_utf8((#[trigger] s.drop_last()[i]).name@),
                ) == Some(s.drop_last()[i].coords) by {
                    assert(s.drop_last()[i] == s[i]);
                }
            }
            assert(s.last() == s[s.len() - 1]);
            assert forall|i: int| 0 <= i < out.len() implies region_coords(
                encode_utf8((#[trigger] out[i]).name@),
            ) == Some(out[i].coords) by {
                if i < at {
                    assert(out[i] == front[i]);
                } else if i > at {
                    assert(out[i] == front[i - 1]);
                }
            }
        }
    }
}

/// Not being scanned after is a total order of the regions.
proof fn lemma_not_after_total()
    ensures
        total_ordering(|a: RegionCoords, b: RegionCoords| not_after(a, b)),
{
    let leq = |a: RegionCoords, b: RegionCoords| not_after(a, b);
    assert forall|x: RegionCoords, y: RegionCoords| #[trigger] leq(x, y) && #[trigger] leq(
        y,
        x,
    ) implies x == y by {
        assert(x.x == y.x && x.z == y.z && x.legacy == y.legacy);
    }
    assert(vstd::relations::reflexive(leq));
    assert(vstd::relations::antisymmetric(leq));
    assert(vstd::relations::transitive(leq));
    assert(vstd::relations::strongly_connected(leq));
}

/// Two listings with the same entries, in whatever order, give the same
/// region files in the same order of the scan.
pub proof fn lemma_scan_order_of_listing(a: Seq<String>, b: Seq<String>)
    requires
        same_entries(a, b),
    ensures
        alike(scan_order(a), scan_order(b)),
{
    broadcast use vstd::multiset::group_multiset_axioms;

    let leq = |a: RegionCoords, b: RegionCoords| not_after(a, b);
    let first = scan_order(a);
    let second = scan_order(b);
    let c = RegionCoords { x: 0, z: 0, legacy: false };
    lemma_listed(a, c);
    lemma_listed(b, c);
    lemma_arranged_coords(listed(a));
    lemma_arranged_coords(listed(b));
    assert(coords_of(listed(a)).to_multiset() =~= coords_of(listed(b)).to_multiset()) by {
        assert forall|c: RegionCoords|
            coords_of(listed(a)).to_multiset().count(c) == coords_of(listed(b)).to_multiset().count(
                c,
            ) by {
            lemma_listed(a, c);
            lemma_listed(b, c);
            lemma_same_files(a, b, c);
        }
    }
    lemma_not_after_total();
    vstd::seq_lib::lemma_sorted_unique(coords_of(first), coords_of(second), leq);
    assert(first.len() == second.len()) by {
        assert(coords_of(first).len() == coords_of(second).len());
    }
    assert forall|i: int| 0 <= i < first.len() implies (#[trigger] first[i]).name@ == (
    #[trigger] second[i]).name@ && first[i].coords == second[i].coords by {
        assert(coords_of(first)[i] == coords_of(second)[i]);
        lemma_region_coords_injective(
            encode_utf8(first[i].name@),
            encode_utf8(second[i].name@),
        );
        vstd::utf8::encode_utf8_decode_utf8(first[i].name@);
        vstd::utf8::encode_utf8_decode_utf8(second[i].name@);
    }
}

} // verus!
