//! NBT documents as values of this crate.
//!
//! `fastnbt` decodes the bytes; what it hands out is copied, node by node,
//! into [`NbtValue`], on which the rest of the crate works. A value has a
//! content, [`NbtTree`], in which a compound is a map, and a shape,
//! [`NbtShape`], in which it is the run of its entries.

use fastnbt::DeOpts;
use fastnbt::Value;
use crate::names::comes_before;
use crate::names::lemma_name_order;
use crate::names::name_before;
use crate::nesting::nesting_within;
use crate::nesting::nests_within;
use vstd::prelude::*;

verus! {

/// The mathematical content of an NBT value. Floating-point numbers stand as
/// their IEEE 754 bit patterns; a compound is a map, with no order among its
/// entries.
#[verifier::ext_equal]
pub enum NbtTree {
    Byte(i8),
    Short(i16),
    Int(i32),
    Long(i64),
    Float(u32),
    Double(u64),
    String(Seq<char>),
    ByteArray(Seq<i8>),
    IntArray(Seq<i32>),
    LongArray(Seq<i64>),
    List(Seq<NbtTree>),
    Compound(Map<Seq<char>, NbtTree>),
}

/// An NBT value. A compound keeps its entries in a vector; of two entries
/// with one name the first counts.
#[derive(Debug, PartialEq, Eq)]
pub enum NbtValue {
    Byte(i8),
    Short(i16),
    Int(i32),
    Long(i64),
    /// The bit pattern of a 32-bit float.
    Float(u32),
    /// The bit pattern of a 64-bit float.
    Double(u64),
    String(String),
    ByteArray(Vec<i8>),
    IntArray(Vec<i32>),
    LongArray(Vec<i64>),
    List(Vec<NbtValue>),
    Compound(Vec<(String, NbtValue)>),
}

/// The compound that `entries` spell out: each name with the value of the
/// first entry that bears it.
pub open spec fn entry_map(entries: Seq<(String, NbtValue)>) -> Map<Seq<char>, NbtTree>
    decreases entries, 0nat,
{
    if entries.len() == 0 {
        Map::empty()
    } else {
        let before = entry_map(entries.drop_last());
        if before.contains_key(entries.last().0@) {
            before
        } else {
            before.insert(entries.last().0@, entries.last().1.tree())
        }
    }
}

impl NbtValue {
    /// The content of this value.
    pub open spec fn tree(&self) -> NbtTree
        decreases self, 1nat,
    {
        match self {
            NbtValue::Byte(n) => NbtTree::Byte(*n),
            NbtValue::Short(n) => NbtTree::Short(*n),
            NbtValue::Int(n) => NbtTree::Int(*n),
            NbtValue::Long(n) => NbtTree::Long(*n),
            NbtValue::Float(bits) => NbtTree::Float(*bits),
            NbtValue::Double(bits) => NbtTree::Double(*bits),
            NbtValue::String(s) => NbtTree::String(s@),
            NbtValue::ByteArray(a) => NbtTree::ByteArray(a@),
            NbtValue::IntArray(a) => NbtTree::IntArray(a@),
            NbtValue::LongArray(a) => NbtTree::LongArray(a@),
            NbtValue::List(items) => NbtTree::List(
                Seq::new(
                    items@.len(),
                    |i: int|
                        if 0 <= i < items@.len() {
                            items@[i].tree()
                        } else {
                            arbitrary()
                        },
                ),
            ),
            NbtValue::Compound(entries) => NbtTree::Compound(entry_map(entries@)),
        }
    }
}

impl NbtValue {
    /// Whether every compound in this value keeps its entries in the order
    /// of their names, each name once.
    pub open spec fn canonical(&self) -> bool
        decreases self,
    {
        match self {
            NbtValue::List(items) => forall|i: int|
                0 <= i < items@.len() ==> (#[trigger] items@[i]).canonical(),
            NbtValue::Compound(entries) => names_rise(entries@) && forall|i: int|
                0 <= i < entries@.len() ==> (#[trigger] entries@[i]).1.canonical(),
            _ => true,
        }
    }
}

/// A value as it is laid out: as its content, but a compound is the run of
/// its entries, in their order.
pub enum NbtShape {
    Byte(i8),
    Short(i16),
    Int(i32),
    Long(i64),
    Float(u32),
    Double(u64),
    String(Seq<char>),
    ByteArray(Seq<i8>),
    IntArray(Seq<i32>),
    LongArray(Seq<i64>),
    List(Seq<NbtShape>),
    Compound(Seq<(Seq<char>, NbtShape)>),
}

/// The shape of a value.
pub open spec fn shape(v: NbtValue) -> NbtShape
    decreases v,
{
    match v {
        NbtValue::Byte(n) => NbtShape::Byte(n),
        NbtValue::Short(n) => NbtShape::Short(n),
        NbtValue::Int(n) => NbtShape::Int(n),
        NbtValue::Long(n) => NbtShape::Long(n),
        NbtValue::Float(bits) => NbtShape::Float(bits),
        NbtValue::Double(bits) => NbtShape::Double(bits),
        NbtValue::String(s) => NbtShape::String(s@),
        NbtValue::ByteArray(a) => NbtShape::ByteArray(a@),
        NbtValue::IntArray(a) => NbtShape::IntArray(a@),
        NbtValue::LongArray(a) => NbtShape::LongArray(a@),
        NbtValue::List(items) => NbtShape::List(
            Seq::new(
                items@.len(),
                |i: int|
                    if 0 <= i < items@.len() {
                        shape(items@[i])
                    } else {
                        arbitrary()
                    },
            ),
        ),
        NbtValue::Compound(entries) => NbtShape::Compound(
            Seq::new(
                entries@.len(),
                |i: int|
                    if 0 <= i < entries@.len() {
                        (entries@[i].0@, shape(entries@[i].1))
                    } else {
                        arbitrary()
                    },
            ),
        ),
    }
}

/// Whether each of the values is canonical.
pub open spec fn all_canonical(items: Seq<NbtValue>) -> bool {
    forall|i: int| 0 <= i < items.len() ==> (#[trigger] items[i]).canonical()
}

/// The contents of a run of values.
pub open spec fn trees_of(items: Seq<NbtValue>) -> Seq<NbtTree> {
    Seq::new(items.len(), |i: int| items[i]@)
}

impl NbtTree {
    /// The value of the entry `name` of a compound; `None` where this is no
    /// compound or has no such entry.
    pub open spec fn field(self, name: Seq<char>) -> Option<NbtTree> {
        if self is Compound && self->Compound_0.contains_key(name) {
            Some(self->Compound_0[name])
        } else {
            None
        }
    }

    /// The number of an `Int` entry `name`.
    pub open spec fn int_field(self, name: Seq<char>) -> Option<i32> {
        match self.field(name) {
            Some(NbtTree::Int(n)) => Some(n),
            _ => None,
        }
    }

    /// The number of a `Byte` entry `name`.
    pub open spec fn byte_field(self, name: Seq<char>) -> Option<i8> {
        match self.field(name) {
            Some(NbtTree::Byte(n)) => Some(n),
            _ => None,
        }
    }

    /// The text of a `String` entry `name`.
    pub open spec fn string_field(self, name: Seq<char>) -> Option<Seq<char>> {
        match self.field(name) {
            Some(NbtTree::String(s)) => Some(s),
            _ => None,
        }
    }

    /// The items of a `List` entry `name`; none where there is no such list.
    pub open spec fn list_field(self, name: Seq<char>) -> Seq<NbtTree> {
        match self.field(name) {
            Some(NbtTree::List(items)) => items,
            _ => Seq::empty(),
        }
    }
}

/// A name that the first `i` entries bind keeps its value in the whole.
pub proof fn lemma_entry_map_prefix(entries: Seq<(String, NbtValue)>, i: int, name: Seq<char>)
    requires
        0 <= i <= entries.len(),
        entry_map(entries.take(i)).contains_key(name),
    ensures
        entry_map(entries).contains_key(name),
        entry_map(entries)[name] == entry_map(entries.take(i))[name],
    decreases entries.len() - i,
{
    if i < entries.len() {
        assert(entries.take(i + 1).drop_last() =~= entries.take(i));
        lemma_entry_map_prefix(entries, i + 1, name);
    } else {
        assert(entries.take(i) =~= entries);
    }
}

impl NbtValue {
    /// Looks up the entry `name` of a compound.
    pub fn get(&self, name: &str) -> (r: Option<&NbtValue>)
        ensures
            match r {
                Some(v) => self@.field(name@) == Some(v@) && (self.canonical() ==> v.canonical()),
                None => self@.field(name@) is None,
            },
    {
        match self {
            NbtValue::Compound(entries) => {
                let wanted: String = name.to_owned();
                let mut i: usize = 0;
                while i < entries.len()
                    invariant
                        i <= entries@.len(),
                        wanted@ == name@,
                        *self == NbtValue::Compound(*entries),
                        !entry_map(entries@.take(i as int)).contains_key(name@),
                    decreases entries@.len() - i,
                {
                    proof {
                        assert(entries@.take(i + 1).drop_last() =~= entries@.take(i as int));
                    }
                    if entries[i].0 == wanted {
                        proof {
                            let upto = entries@.take(i + 1);
                            assert(upto.last() == entries@[i as int]);
                            assert(entry_map(upto)[name@] == entries@[i as int].1@);
                            lemma_entry_map_prefix(entries@, i + 1, name@);
                        }
                        return Some(&entries[i].1);
                    }
                    i += 1;
                }
                proof {
                    assert(entries@.take(i as int) =~= entries@);
                }
                None
            },
            _ => None,
        }
    }

    /// The number of an `Int`.
    pub fn as_int(&self) -> (r: Option<i32>)
        ensures
            r == (match self@ {
                NbtTree::Int(n) => Some(n),
                _ => None,
            }),
    {
        match self {
            NbtValue::Int(n) => Some(*n),
            _ => None,
        }
    }

    /// The number of a `Byte`.
    pub fn as_byte(&self) -> (r: Option<i8>)
        ensures
            r == (match self@ {
                NbtTree::Byte(n) => Some(n),
                _ => None,
            }),
    {
        match self {
            NbtValue::Byte(n) => Some(*n),
            _ => None,
        }
    }

    /// The text of a `String`.
    pub fn as_str(&self) -> (r: Option<&str>)
        ensures
            match r {
                Some(s) => self@ == NbtTree::String(s@),
                None => !(self@ is String),
            },
    {
        match self {
            NbtValue::String(s) => Some(s.as_str()),
            _ => None,
        }
    }

    /// The items of a `List`.
    pub fn as_list(&self) -> (r: Option<&Vec<NbtValue>>)
        ensures
            match r {
                Some(items) => self@ == NbtTree::List(trees_of(items@)) && (self.canonical()
                    ==> all_canonical(items@)),
                None => !(self@ is List),
            },
    {
        match self {
            NbtValue::List(items) => {
                assert(self@->List_0 =~= trees_of(items@));
                Some(items)
            },
            _ => None,
        }
    }

    /// The items of the `List` entry `name` of a compound; `None` where
    /// there is no such list.
    pub fn list_field(&self, name: &str) -> (r: Option<&Vec<NbtValue>>)
        ensures
            match r {
                Some(items) => self@.field(name@) == Some(NbtTree::List(trees_of(items@))) && (
                self.canonical() ==> all_canonical(items@)),
                None => !(self@.field(name@) is Some && self@.field(name@).unwrap() is List),
            },
    {
        match self.get(name) {
            Some(v) => v.as_list(),
            None => None,
        }
    }
}

impl Clone for NbtValue {
    fn clone(&self) -> (r: NbtValue)
        ensures
            r@ == self@,
            shape(r) == shape(*self),
    {
        self.duplicate()
    }
}

impl NbtValue {
    /// A copy with the same content and shape. The copy descends once for
    /// each list and compound; a value that `decode_document` returned nests
    /// no deeper than [`MAX_NESTING`].
    pub fn duplicate(&self) -> (r: NbtValue)
        ensures
            r@ == self@,
            shape(r) == shape(*self),
        decreases self,
    {
        match self {
            NbtValue::Byte(n) => NbtValue::Byte(*n),
            NbtValue::Short(n) => NbtValue::Short(*n),
            NbtValue::Int(n) => NbtValue::Int(*n),
            NbtValue::Long(n) => NbtValue::Long(*n),
            NbtValue::Float(bits) => NbtValue::Float(*bits),
            NbtValue::Double(bits) => NbtValue::Double(*bits),
            NbtValue::String(s) => NbtValue::String(s.clone()),
            NbtValue::ByteArray(a) => {
                let copy = a.clone();
                assert(copy@ =~= a@);
                NbtValue::ByteArray(copy)
            },
            NbtValue::IntArray(a) => {
                let copy = a.clone();
                assert(copy@ =~= a@);
                NbtValue::IntArray(copy)
            },
            NbtValue::LongArray(a) => {
                let copy = a.clone();
                assert(copy@ =~= a@);
                NbtValue::LongArray(copy)
            },
            NbtValue::List(items) => {
                let mut out: Vec<NbtValue> = Vec::new();
                let mut i: usize = 0;
                while i < items.len()
                    invariant
                        i <= items@.len(),
                        out@.len() == i,
                        *self == NbtValue::List(*items),
                        forall|k: int| 0 <= k < i ==> (#[trigger] out@[k])@ == items@[k]@,
                        forall|k: int| 0 <= k < i ==> shape(#[trigger] out@[k]) == shape(items@[k]),
                    decreases items@.len() - i,
                {
                    proof {
                        assert(self->List_0 == *items);
                    }
                    let item = items[i].duplicate();
                    out.push(item);
                    i += 1;
                }
                let r = NbtValue::List(out);
                assert(r@->List_0 =~= self@->List_0);
                assert(shape(r)->List_0 =~= shape(*self)->List_0);
                r
            },
            NbtValue::Compound(entries) => {
                let mut out: Vec<(String, NbtValue)> = Vec::new();
                let mut i: usize = 0;
                while i < entries.len()
                    invariant
                        i <= entries@.len(),
                        out@.len() == i,
                        *self == NbtValue::Compound(*entries),
                        entry_map(out@) == entry_map(entries@.take(i as int)),
                        forall|k: int|
                            0 <= k < i ==> (#[trigger] out@[k]).0@ == entries@[k].0@ && shape(
                                out@[k].1,
                            ) == shape(entries@[k].1),
                    decreases entries@.len() - i,
                {
                    let ghost before = out@;
                    let name: String = entries[i].0.clone();
                    proof {
                        assert(self->Compound_0 == *entries);
                    }
                    let value = entries[i].1.duplicate();
                    out.push((name, value));
                    proof {
                        assert(out@.drop_last() =~= before);
                        assert(entries@.take(i + 1).drop_last() =~= entries@.take(i as int));
                    }
                    i += 1;
                }
                proof {
                    assert(entries@.take(i as int) =~= entries@);
                }
                let r = NbtValue::Compound(out);
                assert(shape(r)->Compound_0 =~= shape(*self)->Compound_0);
                r
            },
        }
    }
}

impl View for NbtValue {
    type V = NbtTree;

    open spec fn view(&self) -> NbtTree {
        self.tree()
    }
}

/// Whether the names of the entries rise: each comes before all behind it.
pub open spec fn names_rise(entries: Seq<(String, NbtValue)>) -> bool {
    forall|i: int, j: int|
        0 <= i < j < entries.len() ==> name_before(
            (#[trigger] entries[i]).0@,
            (#[trigger] entries[j]).0@,
        )
}

/// The names of a compound are the names of its entries.
pub proof fn lemma_entry_map_names(entries: Seq<(String, NbtValue)>)
    ensures
        forall|name: Seq<char>| #[trigger]
            entry_map(entries).contains_key(name) ==> exists|i: int|
                0 <= i < entries.len() && (#[trigger] entries[i]).0@ == name,
        forall|i: int|
            0 <= i < entries.len() ==> entry_map(entries).contains_key((#[trigger] entries[i]).0@),
    decreases entries.len(),
{
    if entries.len() > 0 {
        let front = entries.drop_last();
        let last = entries.len() - 1;
        lemma_entry_map_names(front);
        assert forall|name: Seq<char>| #[trigger]
            entry_map(entries).contains_key(name) implies exists|i: int|
            0 <= i < entries.len() && (#[trigger] entries[i]).0@ == name by {
            if entry_map(front).contains_key(name) {
                let i = choose|i: int| 0 <= i < front.len() && (#[trigger] front[i]).0@ == name;
                assert(entries[i] == front[i]);
            } else {
                assert(entries[last].0@ == name);
            }
        }
        assert forall|i: int| 0 <= i < entries.len() implies entry_map(entries).contains_key(
            (#[trigger] entries[i]).0@,
        ) by {
            if i < last {
                assert(front[i] == entries[i]);
            } else {
                assert(entries[i] == entries.last());
            }
        }
    }
}

/// A new name put anywhere among the entries adds its entry to the
/// compound.
proof fn lemma_entry_map_insert(entries: Seq<(String, NbtValue)>, at: int, e: (String, NbtValue))
    requires
        0 <= at <= entries.len(),
        !entry_map(entries).contains_key(e.0@),
    ensures
        entry_map(entries.insert(at, e)) == entry_map(entries).insert(e.0@, e.1@),
    decreases entries.len(),
{
    let out = entries.insert(at, e);
    entries.insert_ensures(at, e);
    if at == entries.len() {
        assert(out.drop_last() =~= entries);
    } else {
        let front = entries.drop_last();
        assert(out.drop_last() =~= front.insert(at, e));
        assert(out.last() == entries.last());
        lemma_entry_map_insert(front, at, e);
        assert(entry_map(out) =~= entry_map(entries).insert(e.0@, e.1@));
    }
}

/// An entry put between the names that come before its own and those that
/// come after leaves the names rising.
proof fn lemma_insert_rises(entries: Seq<(String, NbtValue)>, at: int, e: (String, NbtValue))
    requires
        names_rise(entries),
        0 <= at <= entries.len(),
        forall|j: int| at <= j < entries.len() ==> name_before(e.0@, (#[trigger] entries[j]).0@),
        forall|j: int| 0 <= j < at ==> name_before((#[trigger] entries[j]).0@, e.0@),
    ensures
        names_rise(entries.insert(at, e)),
{
    let out = entries.insert(at, e);
    entries.insert_ensures(at, e);
    assert forall|i: int, j: int| 0 <= i < j < out.len() implies name_before(
        (#[trigger] out[i]).0@,
        (#[trigger] out[j]).0@,
    ) by {
        if i < at && j > at {
            assert(out[i] == entries[i] && out[j] == entries[j - 1]);
        } else if i < at && j < at {
            assert(out[i] == entries[i] && out[j] == entries[j]);
        } else if i > at {
            assert(out[i] == entries[i - 1] && out[j] == entries[j - 1]);
        } else if i == at {
            assert(out[j] == entries[j - 1]);
        } else {
            assert(out[i] == entries[i]);
        }
    }
}

/// A canonical value put among canonical values leaves them canonical.
proof fn lemma_insert_canonical(entries: Seq<(String, NbtValue)>, at: int, e: (String, NbtValue))
    requires
        0 <= at <= entries.len(),
        e.1.canonical(),
        forall|i: int| 0 <= i < entries.len() ==> (#[trigger] entries[i]).1.canonical(),
    ensures
        forall|i: int|
            0 <= i < entries.insert(at, e).len() ==> (#[trigger] entries.insert(
                at,
                e,
            )[i]).1.canonical(),
{
    let out = entries.insert(at, e);
    entries.insert_ensures(at, e);
    assert forall|i: int| 0 <= i < out.len() implies (#[trigger] out[i]).1.canonical() by {
        if i < at {
            assert(out[i] == entries[i]);
        } else if i > at {
            assert(out[i] == entries[i - 1]);
        }
    }
}

/// The names that stand in front of a name that does not come before the
/// last of them, and is none of them, come before it.
proof fn lemma_front_before(entries: Seq<(String, NbtValue)>, at: int, name: Seq<char>)
    requires
        names_rise(entries),
        0 <= at <= entries.len(),
        !entry_map(entries).contains_key(name),
        at > 0 ==> !name_before(name, entries[at - 1].0@),
    ensures
        forall|j: int| 0 <= j < at ==> name_before((#[trigger] entries[j]).0@, name),
{
    lemma_entry_map_names(entries);
    assert forall|j: int| 0 <= j < at implies name_before((#[trigger] entries[j]).0@, name) by {
        let behind = entries[at - 1].0@;
        assert(entry_map(entries).contains_key(entries[at - 1].0@));
        lemma_name_order(behind, name, name);
        if j < at - 1 {
            assert(name_before(entries[j].0@, entries[at - 1].0@));
            lemma_name_order(entries[j].0@, behind, name);
        }
    }
}

/// Puts an entry with a new name among the entries, behind those whose
/// names do not come after its own.
fn insert_entry(out: &mut Vec<(String, NbtValue)>, name: String, value: NbtValue)
    requires
        !entry_map(old(out)@).contains_key(name@),
    ensures
        entry_map(final(out)@) == entry_map(old(out)@).insert(name@, value@),
        names_rise(old(out)@) ==> names_rise(final(out)@),
        value.canonical() && (forall|i: int|
            0 <= i < old(out)@.len() ==> (#[trigger] old(out)@[i]).1.canonical()) ==> forall|
            i: int,
        | 0 <= i < final(out)@.len() ==> (#[trigger] final(out)@[i]).1.canonical(),
{
    let ghost start = out@;
    let mut at: usize = out.len();
    while at > 0 && comes_before(name.as_str(), out[at - 1].0.as_str())
        invariant
            at <= out@.len(),
            out@ == start,
            forall|j: int| at <= j < out@.len() ==> name_before(name@, (#[trigger] out@[j]).0@),
        decreases at,
    {
        at -= 1;
    }
    out.insert(at, (name, value));
    proof {
        let e = (name, value);
        lemma_entry_map_insert(start, at as int, e);
        if names_rise(start) {
            lemma_front_before(start, at as int, name@);
            lemma_insert_rises(start, at as int, e);
        }
        if value.canonical() && (forall|i: int|
            0 <= i < start.len() ==> (#[trigger] start[i]).1.canonical()) {
            lemma_insert_canonical(start, at as int, e);
        }
    }
}

/// `fastnbt::Value`, the tree that `fastnbt` decodes a document into.
#[verifier::external_type_specification]
#[verifier::external_body]
pub struct ExValue(Value);

/// The content of a `fastnbt::Value`.
pub uninterp spec fn value_tree(v: Value) -> NbtTree;

/// The content of the document that `fastnbt` decodes from `bytes`, or `None`
/// where it reports an error.
pub uninterp spec fn nbt_document(bytes: Seq<u8>) -> Option<NbtTree>;

/// The deepest nesting of lists and compounds with which a document is
/// decoded. The root compound counts as one.
pub const MAX_NESTING: usize = 512;

/// The content of the document in `bytes`: what `fastnbt` decodes from
/// them, if their lists and compounds nest at most [`MAX_NESTING`] deep.
/// Bytes that nest deeper hold no document.
pub open spec fn document_of(bytes: Seq<u8>) -> Option<NbtTree> {
    if nesting_within(bytes, MAX_NESTING as nat) {
        nbt_document(bytes)
    } else {
        None
    }
}

/// Whether `tree` is one of the six numbers.
pub open spec fn is_number(tree: NbtTree) -> bool {
    tree is Byte || tree is Short || tree is Int || tree is Long || tree is Float
        || tree is Double
}

/// Whether `tree` is a string or one of the three arrays.
pub open spec fn is_text_or_array(tree: NbtTree) -> bool {
    tree is String || tree is ByteArray || tree is IntArray || tree is LongArray
}

/// One level of a `fastnbt::Value`: its children, where it has any.
enum Node<'a> {
    Leaf,
    List(&'a Vec<Value>),
    Compound(Vec<(&'a String, &'a Value)>),
}

/// Whether `entries` are the entries of the compound `fields`, each once.
spec fn lists_compound(entries: Seq<(&String, &Value)>, fields: Map<Seq<char>, NbtTree>) -> bool {
    &&& fields.dom().finite()
    &&& forall|i: int|
        0 <= i < entries.len() ==> fields.contains_key((#[trigger] entries[i]).0@) && fields[entries[i].0@]
            == value_tree(*entries[i].1)
    &&& forall|name: Seq<char>| #[trigger]
        fields.contains_key(name) ==> exists|i: int|
            0 <= i < entries.len() && (#[trigger] entries[i]).0@ == name
    &&& forall|i: int, j: int|
        0 <= i < j < entries.len() ==> (#[trigger] entries[i]).0@ != (#[trigger] entries[j]).0@
}

/// Calls `fastnbt::from_bytes_with_opts` for a `Value` and names what comes
/// back; an error comes back as `None`. No list or array may claim more
/// elements than the document has bytes, so a short document cannot ask for
/// a large allocation.
///
/// The decoder descends once for each list and compound that it enters and
/// has no limit of its own, so documents that nest deeper than
/// [`MAX_NESTING`] are left out here. It reads tags and lengths as the scan
/// of [`crate::nesting`] does and stops at the latest where that scan ends,
/// so on the documents that are let in it has never more than `MAX_NESTING`
/// lists and compounds open.
#[verifier::external_body]
fn parse_value(bytes: &[u8]) -> (r: Option<Value>)
    requires
        nesting_within(bytes@, MAX_NESTING as nat),
    ensures
        r is Some <==> nbt_document(bytes@) is Some,
        r is Some ==> value_tree(r.unwrap()) == nbt_document(bytes@).unwrap(),
{
    let opts = DeOpts::new().max_seq_len(bytes.len());
    match fastnbt::from_bytes_with_opts::<Value>(bytes, opts) {
        Ok(v) => Some(v),
        Err(_) => None,
    }
}

/// Tells the variants `List` and `Compound` of `fastnbt::Value` from the
/// rest and hands out their children. The entries of a compound come in the
/// order in which its hash map is walked, each name once.
#[verifier::external_body]
fn node_of(v: &Value) -> (r: Node<'_>)
    ensures
        match r {
            Node::Leaf => !(value_tree(*v) is List) && !(value_tree(*v) is Compound),
            Node::List(items) => value_tree(*v) is List && value_tree(*v)->List_0.len()
                == items@.len() && forall|i: int|
                0 <= i < items@.len() ==> value_tree(*v)->List_0[i] == value_tree(
                    #[trigger] items@[i],
                ),
            Node::Compound(entries) => value_tree(*v) is Compound && lists_compound(
                entries@,
                value_tree(*v)->Compound_0,
            ),
        },
{
    match v {
        Value::List(items) => Node::List(items),
        Value::Compound(fields) => Node::Compound(fields.iter().collect()),
        _ => Node::Leaf,
    }
}

/// Copies a number out of a `fastnbt::Value`, a float as the bits that
/// `to_bits` gives; `None` for the other variants.
#[verifier::external_body]
fn number_of(v: &Value) -> (r: Option<NbtValue>)
    ensures
        r is Some <==> is_number(value_tree(*v)),
        r is Some ==> r.unwrap()@ == value_tree(*v),
{
    match v {
        Value::Byte(n) => Some(NbtValue::Byte(*n)),
        Value::Short(n) => Some(NbtValue::Short(*n)),
        Value::Int(n) => Some(NbtValue::Int(*n)),
        Value::Long(n) => Some(NbtValue::Long(*n)),
        Value::Float(n) => Some(NbtValue::Float(n.to_bits())),
        Value::Double(n) => Some(NbtValue::Double(n.to_bits())),
        _ => None,
    }
}

/// Copies a string or an array out of a `fastnbt::Value`; `None` for the
/// other variants.
#[verifier::external_body]
fn text_or_array_of(v: &Value) -> (r: Option<NbtValue>)
    ensures
        r is Some <==> is_text_or_array(value_tree(*v)),
        r is Some ==> r.unwrap()@ == value_tree(*v),
{
    match v {
        Value::String(s) => Some(NbtValue::String(s.clone())),
        Value::ByteArray(a) => Some(NbtValue::ByteArray(a.to_vec())),
        Value::IntArray(a) => Some(NbtValue::IntArray(a.to_vec())),
        Value::LongArray(a) => Some(NbtValue::LongArray(a.to_vec())),
        _ => None,
    }
}

/// Copies a decoded tree into a value of this crate.
fn copy_value(v: &Value) -> (r: NbtValue)
    ensures
        r@ == value_tree(*v),
        r.canonical(),
    decreases value_tree(*v),
{
    match node_of(v) {
        Node::List(items) => {
            let mut out: Vec<NbtValue> = Vec::new();
            let mut i: usize = 0;
            while i < items.len()
                invariant
                    i <= items@.len(),
                    out@.len() == i,
                    value_tree(*v) is List,
                    value_tree(*v)->List_0.len() == items@.len(),
                    forall|k: int|
                        0 <= k < items@.len() ==> value_tree(*v)->List_0[k] == value_tree(
                            #[trigger] items@[k],
                        ),
                    forall|k: int| 0 <= k < i ==> (#[trigger] out@[k])@ == value_tree(items@[k]),
                    forall|k: int| 0 <= k < i ==> (#[trigger] out@[k]).canonical(),
                decreases items@.len() - i,
            {
                let item = copy_value(&items[i]);
                out.push(item);
                i += 1;
            }
            let r = NbtValue::List(out);
            assert(r@->List_0 =~= value_tree(*v)->List_0);
            r
        },
        Node::Compound(entries) => {
            let ghost fields = value_tree(*v)->Compound_0;
            let mut out: Vec<(String, NbtValue)> = Vec::new();
            let mut i: usize = 0;
            while i < entries.len()
                invariant
                    i <= entries@.len(),
                    names_rise(out@),
                    forall|k: int| 0 <= k < out@.len() ==> (#[trigger] out@[k]).1.canonical(),
                    value_tree(*v) is Compound,
                    fields == value_tree(*v)->Compound_0,
                    lists_compound(entries@, fields),
                    forall|name: Seq<char>| #[trigger]
                        entry_map(out@).contains_key(name) <==> exists|k: int|
                            0 <= k < i && (#[trigger] entries@[k]).0@ == name,
                    forall|name: Seq<char>| #[trigger]
                        entry_map(out@).contains_key(name) ==> entry_map(out@)[name]
                            == fields[name],
                decreases entries@.len() - i,
            {
                let ghost before = out@;
                let name: String = entries[i].0.clone();
                let value = copy_value(entries[i].1);
                proof {
                    let added = entries@[i as int].0@;
                    if entry_map(before).contains_key(added) {
                        let k = choose|k: int|
                            0 <= k < i && (#[trigger] entries@[k]).0@ == added;
                        assert(entries@[k].0@ != entries@[i as int].0@);
                    }
                }
                insert_entry(&mut out, name, value);
                proof {
                    let added = entries@[i as int].0@;
                    assert(fields.contains_key(added) && fields[added] == value@);
                    assert forall|name: Seq<char>| #[trigger]
                        entry_map(out@).contains_key(name) implies exists|k: int|
                        0 <= k < i + 1 && (#[trigger] entries@[k]).0@ == name by {
                        if name != added {
                            assert(entry_map(before).contains_key(name));
                            let k = choose|k: int|
                                0 <= k < i && (#[trigger] entries@[k]).0@ == name;
                            assert(0 <= k < i + 1 && entries@[k].0@ == name);
                        }
                    }
                    assert forall|name: Seq<char>|
                        (exists|k: int|
                            0 <= k < i + 1 && (#[trigger] entries@[k]).0@ == name) implies #[trigger]
                        entry_map(out@).contains_key(name) by {
                        let k = choose|k: int|
                            0 <= k < i + 1 && (#[trigger] entries@[k]).0@ == name;
                        if k < i {
                            assert(entry_map(before).contains_key(name));
                        }
                    }
                }
                i += 1;
            }
            let ghost copied = entry_map(out@);
            let r = NbtValue::Compound(out);
            assert(r@ == NbtTree::Compound(copied));
            assert(copied =~= fields) by {
                assert forall|name: Seq<char>| #[trigger]
                    fields.contains_key(name) implies entry_map(out@).contains_key(name) by {
                    let k = choose|k: int|
                        0 <= k < entries@.len() && (#[trigger] entries@[k]).0@ == name;
                    assert(0 <= k < i && entries@[k].0@ == name);
                }
                assert forall|name: Seq<char>| #[trigger]
                    entry_map(out@).contains_key(name) implies fields.contains_key(name) by {
                    let k = choose|k: int| 0 <= k < i && (#[trigger] entries@[k]).0@ == name;
                    assert(fields.contains_key(entries@[k].0@));
                }
            }
            r
        },
        Node::Leaf => match number_of(v) {
            Some(n) => n,
            None => match text_or_array_of(v) {
                Some(t) => t,
                None => {
                    proof {
                        assert(false);
                    }
                    NbtValue::Byte(0)
                },
            },
        },
    }
}

/// Decodes an NBT document.
///
/// Returns `None` for bytes whose lists and compounds nest deeper than
/// [`MAX_NESTING`], without decoding them. Else returns the document that
/// `fastnbt` decodes from `bytes`, or `None` where `fastnbt` reports an
/// error. The entries of each compound stand in the order of their names,
/// so the value does not depend on the order in which `fastnbt` keeps them.
pub fn decode_document(bytes: &[u8]) -> (r: Option<NbtValue>)
    ensures
        r is Some <==> nesting_within(bytes@, MAX_NESTING as nat) && nbt_document(bytes@) is Some,
        r is Some <==> document_of(bytes@) is Some,
        r is Some ==> r.unwrap()@ == document_of(bytes@).unwrap() && r.unwrap().canonical(),
{
    if !nests_within(bytes, MAX_NESTING) {
        return None;
    }
    match parse_value(bytes) {
        Some(v) => Some(copy_value(&v)),
        None => None,
    }
}

} // verus!
