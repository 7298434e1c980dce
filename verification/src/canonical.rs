//! A document has one value.
//!
//! Two values with the same content may differ in the order of the entries
//! of their compounds. A canonical value keeps them in the order of their
//! names, and so two canonical values with the same content have the same
//! shape: they are equal entry by entry.

use crate::names::lemma_name_order;
use crate::names::name_before;
use crate::nbt::entry_map;
use crate::nbt::lemma_entry_map_names;
use crate::nbt::names_rise;
use crate::nbt::NbtShape;
use crate::nbt::NbtValue;
use crate::nbt::shape;
use crate::tile_entity::TileEntity;
use vstd::prelude::*;

verus! {

/// Whether some entry bears the name `v`.
pub open spec fn has_name(entries: Seq<(String, NbtValue)>, v: Seq<char>) -> bool {
    exists|i: int| 0 <= i < entries.len() && (#[trigger] entries[i]).0@ == v
}

/// Whether the entries bear the same names.
pub open spec fn same_name_set(es: Seq<(String, NbtValue)>, fs: Seq<(String, NbtValue)>) -> bool {
    forall|v: Seq<char>| #[trigger] has_name(es, v) == has_name(fs, v)
}

/// The place of an entry that bears the name `v`.
pub open spec fn place_of(entries: Seq<(String, NbtValue)>, v: Seq<char>) -> int {
    choose|i: int| 0 <= i < entries.len() && (#[trigger] entries[i]).0@ == v
}

/// Entries whose names rise bear each name once, with the value of its
/// entry.
pub proof fn lemma_entry_map_at(entries: Seq<(String, NbtValue)>, i: int)
    requires
        names_rise(entries),
        0 <= i < entries.len(),
    ensures
        entry_map(entries).contains_key(entries[i].0@),
        entry_map(entries)[entries[i].0@] == entries[i].1@,
    decreases entries.len(),
{
    let front = entries.drop_last();
    let last = entries.len() - 1;
    let name = entries[last].0@;
    lemma_entry_map_names(front);
    assert(entries.last() == entries[last]);
    if entry_map(front).contains_key(name) {
        let j = choose|j: int| 0 <= j < front.len() && (#[trigger] front[j]).0@ == name;
        assert(front[j] == entries[j]);
        assert(name_before(entries[j].0@, entries[last].0@));
        lemma_name_order(name, name, name);
    }
    if i < last {
        assert(names_rise(front)) by {
            assert forall|a: int, b: int| 0 <= a < b < front.len() implies name_before(
                (#[trigger] front[a]).0@,
                (#[trigger] front[b]).0@,
            ) by {
                assert(front[a] == entries[a] && front[b] == entries[b]);
            }
        }
        assert(front[i] == entries[i]);
        lemma_entry_map_at(front, i);
        assert(name_before(entries[i].0@, entries[last].0@));
        lemma_name_order(name, name, name);
    }
}

/// Whether both runs of entries end before place `i` or bear the same name
/// there.
pub open spec fn agree_at(es: Seq<(String, NbtValue)>, fs: Seq<(String, NbtValue)>, i: int) -> bool {
    &&& i < es.len() <==> i < fs.len()
    &&& i < es.len() ==> es[i].0@ == fs[i].0@
}

/// Entries whose names rise and that bear the same names bear them at the
/// same places, up to place `n`.
proof fn lemma_rising_prefix(es: Seq<(String, NbtValue)>, fs: Seq<(String, NbtValue)>, n: int)
    requires
        names_rise(es),
        names_rise(fs),
        same_name_set(es, fs),
        0 <= n,
    ensures
        forall|i: int| 0 <= i < n ==> #[trigger] agree_at(es, fs, i),
    decreases n,
{
    if n > 0 {
        lemma_rising_prefix(es, fs, n - 1);
        let i = n - 1;
        if i < es.len() {
            let v = es[i].0@;
            assert(has_name(es, v));
            assert(has_name(fs, v));
            let j = place_of(fs, v);
            lemma_name_order(v, v, v);
            if j < i {
                assert(agree_at(es, fs, j));
                assert(name_before(es[j].0@, es[i].0@));
            }
            assert(i < fs.len());
            let w = fs[i].0@;
            assert(has_name(fs, w));
            assert(has_name(es, w));
            let k = place_of(es, w);
            lemma_name_order(w, w, v);
            if k < i {
                assert(agree_at(es, fs, k));
                assert(name_before(fs[k].0@, fs[i].0@));
            }
            if j > i {
                assert(name_before(fs[i].0@, fs[j].0@));
            }
            if k > i {
                assert(name_before(es[i].0@, es[k].0@));
            }
            lemma_name_order(v, w, v);
            assert(agree_at(es, fs, i));
        } else if i < fs.len() {
            let w = fs[i].0@;
            assert(has_name(fs, w));
            assert(has_name(es, w));
            let k = place_of(es, w);
            lemma_name_order(w, w, w);
            assert(agree_at(es, fs, k));
            assert(name_before(fs[k].0@, fs[i].0@));
        }
        assert(agree_at(es, fs, i));
    }
}

/// Entries whose names rise and that bear the same names bear them at the
/// same places.
pub proof fn lemma_rising_names(es: Seq<(String, NbtValue)>, fs: Seq<(String, NbtValue)>)
    requires
        names_rise(es),
        names_rise(fs),
        same_name_set(es, fs),
    ensures
        es.len() == fs.len(),
        forall|i: int| 0 <= i < es.len() ==> (#[trigger] es[i]).0@ == fs[i].0@,
{
    let n = es.len() + fs.len() + 1;
    lemma_rising_prefix(es, fs, n as int);
    assert(agree_at(es, fs, es.len() as int));
    assert(agree_at(es, fs, fs.len() as int));
    assert forall|i: int| 0 <= i < es.len() implies (#[trigger] es[i]).0@ == fs[i].0@ by {
        assert(agree_at(es, fs, i));
    }
}

/// Entries that spell the same compound bear the same names.
proof fn lemma_same_names(es: Seq<(String, NbtValue)>, fs: Seq<(String, NbtValue)>)
    requires
        entry_map(es) == entry_map(fs),
    ensures
        same_name_set(es, fs),
{
    lemma_entry_map_names(es);
    lemma_entry_map_names(fs);
    assert forall|v: Seq<char>| #[trigger] has_name(es, v) == has_name(fs, v) by {
        if has_name(es, v) {
            let i = place_of(es, v);
            assert(entry_map(es).contains_key(es[i].0@));
        }
        if has_name(fs, v) {
            let j = place_of(fs, v);
            assert(entry_map(fs).contains_key(fs[j].0@));
        }
    }
}

/// Two canonical values with the same content have the same shape.
pub proof fn lemma_canonical_unique(a: NbtValue, b: NbtValue)
    requires
        a.canonical(),
        b.canonical(),
        a@ == b@,
    ensures
        shape(a) == shape(b),
    decreases a,
{
    match (a, b) {
        (NbtValue::List(xs), NbtValue::List(ys)) => {
            assert(a@->List_0.len() == xs@.len() && b@->List_0.len() == ys@.len());
            assert forall|i: int| 0 <= i < xs@.len() implies shape(#[trigger] xs@[i]) == shape(
                ys@[i],
            ) by {
                assert(a@->List_0[i] == xs@[i]@ && b@->List_0[i] == ys@[i]@);
                assert(a->List_0 == xs);
                lemma_canonical_unique(xs@[i], ys@[i]);
            }
            assert(shape(a)->List_0 =~= shape(b)->List_0);
        },
        (NbtValue::Compound(es), NbtValue::Compound(fs)) => {
            let m = entry_map(es@);
            assert(m == entry_map(fs@));
            lemma_entry_map_names(es@);
            lemma_entry_map_names(fs@);
            lemma_same_names(es@, fs@);
            lemma_rising_names(es@, fs@);
            assert forall|i: int| 0 <= i < es@.len() implies shape(a)->Compound_0[i] == shape(
                b,
            )->Compound_0[i] by {
                lemma_entry_map_at(es@, i);
                lemma_entry_map_at(fs@, i);
                assert(es@[i].0@ == fs@[i].0@);
                assert(a->Compound_0 == es);
                lemma_canonical_unique(es@[i].1, fs@[i].1);
            }
            assert(shape(a)->Compound_0 =~= shape(b)->Compound_0);
        },
        _ => {},
    }
}

/// The shape of a value decides its content and whether it is canonical.
pub proof fn lemma_shape_decides(a: NbtValue, b: NbtValue)
    requires
        shape(a) == shape(b),
    ensures
        a@ == b@,
        a.canonical() == b.canonical(),
    decreases a,
{
    match (a, b) {
        (NbtValue::List(xs), NbtValue::List(ys)) => {
            assert(shape(a)->List_0.len() == xs@.len() && shape(b)->List_0.len() == ys@.len());
            assert forall|i: int| 0 <= i < xs@.len() implies (#[trigger] xs@[i])@ == ys@[i]@
                && xs@[i].canonical() == ys@[i].canonical() by {
                assert(shape(a)->List_0[i] == shape(xs@[i]) && shape(b)->List_0[i] == shape(
                    ys@[i],
                ));
                assert(a->List_0 == xs);
                lemma_shape_decides(xs@[i], ys@[i]);
            }
            assert(a@->List_0 =~= b@->List_0);
            assert(a.canonical() == b.canonical()) by {
                assert forall|i: int| 0 <= i < xs@.len() implies (#[trigger] ys@[i]).canonical()
                    == xs@[i].canonical() by {}
            }
        },
        (NbtValue::Compound(es), NbtValue::Compound(fs)) => {
            assert(shape(a)->Compound_0.len() == es@.len() && shape(b)->Compound_0.len()
                == fs@.len());
            assert forall|i: int| 0 <= i < es@.len() implies (#[trigger] es@[i]).0@ == fs@[i].0@
                && es@[i].1@ == fs@[i].1@ && es@[i].1.canonical() == fs@[i].1.canonical() by {
                assert(shape(a)->Compound_0[i] == (es@[i].0@, shape(es@[i].1)));
                assert(shape(b)->Compound_0[i] == (fs@[i].0@, shape(fs@[i].1)));
                assert(a->Compound_0 == es);
                lemma_shape_decides(es@[i].1, fs@[i].1);
            }
            lemma_entry_map_alike(es@, fs@);
            assert(names_rise(es@) == names_rise(fs@)) by {
                assert forall|i: int| 0 <= i < es@.len() implies (#[trigger] fs@[i]).0@
                    == es@[i].0@ by {}
            }
            assert(a.canonical() == b.canonical()) by {
                assert forall|i: int| 0 <= i < es@.len() implies (#[trigger] fs@[i]).1.canonical()
                    == es@[i].1.canonical() by {}
            }
        },
        _ => {},
    }
}

/// Entries with the same names and contents, place by place, spell the
/// same compound.
proof fn lemma_entry_map_alike(es: Seq<(String, NbtValue)>, fs: Seq<(String, NbtValue)>)
    requires
        es.len() == fs.len(),
        forall|i: int|
            0 <= i < es.len() ==> (#[trigger] es[i]).0@ == fs[i].0@ && es[i].1@ == fs[i].1@,
    ensures
        entry_map(es) == entry_map(fs),
    decreases es.len(),
{
    if es.len() > 0 {
        let last = es.len() - 1;
        assert(es.last() == es[last] && fs.last() == fs[last]);
        assert forall|i: int| 0 <= i < last implies (#[trigger] es.drop_last()[i]).0@
            == fs.drop_last()[i].0@ && es.drop_last()[i].1@ == fs.drop_last()[i].1@ by {
            assert(es.drop_last()[i] == es[i] && fs.drop_last()[i] == fs[i]);
        }
        lemma_entry_map_alike(es.drop_last(), fs.drop_last());
    }
}

/// A tile entity as it is laid out.
pub struct TileShape {
    pub x: int,
    pub y: int,
    pub z: int,
    pub id: Seq<char>,
    pub fields: Seq<(Seq<char>, NbtShape)>,
}

/// The shape of a tile entity.
pub open spec fn tile_shape(t: TileEntity) -> TileShape {
    TileShape {
        x: t.x as int,
        y: t.y as int,
        z: t.z as int,
        id: t.id@,
        fields: shape(NbtValue::Compound(t.fields))->Compound_0,
    }
}

/// Two canonical tile entities with the same content have the same shape.
pub proof fn lemma_tile_entity_unique(a: TileEntity, b: TileEntity)
    requires
        a.canonical(),
        b.canonical(),
        a@ == b@,
    ensures
        tile_shape(a) == tile_shape(b),
{
    lemma_canonical_unique(NbtValue::Compound(a.fields), NbtValue::Compound(b.fields));
}

} // verus!
