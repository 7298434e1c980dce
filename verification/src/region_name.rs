//! The names of region files.
//!
//! A region file is named `r.<x>.<z>.mca`, or `r.<x>.<z>.mcr` in the legacy
//! format, where `<x>` and `<z>` are the region's coordinates in decimal: an
//! optional minus sign and digits, without a leading zero and without `-0`.

use vstd::prelude::*;
use vstd::utf8::encode_utf8;

verus! {

/// The place of a region in the world, and whether its file is in the legacy
/// format.
#[derive(Clone, Copy, Debug, PartialEq, Eq, Structural)]
pub struct RegionCoords {
    pub x: i32,
    pub z: i32,
    pub legacy: bool,
}

/// Whether every byte of `s` is a decimal digit.
pub open spec fn all_digits(s: Seq<u8>) -> bool {
    forall|i: int| 0 <= i < s.len() ==> 48 <= #[trigger] s[i] <= 57
}

/// The number that the decimal digits `s` spell.
pub open spec fn digits_value(s: Seq<u8>) -> int
    decreases s.len(),
{
    if s.len() == 0 {
        0
    } else {
        digits_value(s.drop_last()) * 10 + (s.last() - 48)
    }
}

/// The number that `s` spells in the decimal notation of region names, if it
/// spells one that fits in 32 bits.
pub open spec fn decimal(s: Seq<u8>) -> Option<i32> {
    let negative = s.len() > 0 && s[0] == 45;
    let body = if negative {
        s.skip(1)
    } else {
        s
    };
    let value = if negative {
        -digits_value(body)
    } else {
        digits_value(body)
    };
    if body.len() >= 1 && all_digits(body) && (body.len() == 1 || body[0] != 48) && !(negative
        && value == 0) && i32::MIN <= value <= i32::MAX {
        Some(value as i32)
    } else {
        None
    }
}

/// Whether `at` is where the first dot of `s` at or after `from` stands, or
/// the end of `s` if there is none.
pub open spec fn is_first_dot(s: Seq<u8>, from: int, at: int) -> bool {
    &&& from <= at <= s.len()
    &&& at < s.len() ==> s[at] == 46
    &&& forall|j: int| from <= j < at ==> s[j] != 46
}

/// Where the first dot of `s` at or after `from` stands.
pub open spec fn first_dot(s: Seq<u8>, from: int) -> int {
    choose|at: int| is_first_dot(s, from, at)
}

/// Whether the extension `s` names the legacy format; `None` where it is
/// neither `mca` nor `mcr`.
pub open spec fn extension(s: Seq<u8>) -> Option<bool> {
    if s =~= seq![109u8, 99u8, 97u8] {
        Some(false)
    } else if s =~= seq![109u8, 99u8, 114u8] {
        Some(true)
    } else {
        None
    }
}

/// What the file name `name` says of its region, if it is the name of a
/// region file.
pub open spec fn region_coords(name: Seq<u8>) -> Option<RegionCoords> {
    if name.len() >= 2 && name[0] == 114 && name[1] == 46 {
        let a = first_dot(name, 2);
        let b = first_dot(name, a + 1);
        if a < name.len() && b < name.len() {
            match (
                decimal(name.subrange(2, a)),
                decimal(name.subrange(a + 1, b)),
                extension(name.skip(b + 1)),
            ) {
                (Some(x), Some(z), Some(legacy)) => Some(RegionCoords { x, z, legacy }),
                _ => None,
            }
        } else {
            None
        }
    } else {
        None
    }
}

/// Whether `s` is a number without sign in the notation of region names:
/// digits, at least one, without a leading zero.
pub open spec fn plain_digits(s: Seq<u8>) -> bool {
    all_digits(s) && s.len() >= 1 && (s.len() == 1 || s[0] != 48)
}

/// Digits spell no negative number, and digits that start with another
/// digit than zero spell a positive one.
pub proof fn lemma_digits_value_bounds(s: Seq<u8>)
    requires
        all_digits(s),
    ensures
        digits_value(s) >= 0,
        s.len() >= 1 && s[0] != 48 ==> digits_value(s) >= 1,
    decreases s.len(),
{
    if s.len() > 0 {
        let front = s.drop_last();
        assert(all_digits(front)) by {
            assert forall|i: int| 0 <= i < front.len() implies 48 <= #[trigger] front[i] <= 57 by {
                assert(front[i] == s[i]);
            }
        }
        lemma_digits_value_bounds(front);
        assert(48 <= s[s.len() - 1] <= 57);
        if s.len() >= 2 {
            assert(front[0] == s[0]);
        } else {
            assert(s[0] == s.last());
        }
    }
}

/// Two numbers in plain notation with the same value are the same digits.
pub proof fn lemma_plain_digits_injective(a: Seq<u8>, b: Seq<u8>)
    requires
        plain_digits(a),
        plain_digits(b),
        digits_value(a) == digits_value(b),
    ensures
        a == b,
    decreases a.len(),
{
    let fa = a.drop_last();
    let fb = b.drop_last();
    assert(all_digits(fa)) by {
        assert forall|i: int| 0 <= i < fa.len() implies 48 <= #[trigger] fa[i] <= 57 by {
            assert(fa[i] == a[i]);
        }
    }
    assert(all_digits(fb)) by {
        assert forall|i: int| 0 <= i < fb.len() implies 48 <= #[trigger] fb[i] <= 57 by {
            assert(fb[i] == b[i]);
        }
    }
    assert(48 <= a[a.len() - 1] <= 57 && 48 <= b[b.len() - 1] <= 57);
    lemma_digits_value_bounds(fa);
    lemma_digits_value_bounds(fb);
    if a.len() >= 2 {
        assert(fa[0] == a[0]);
    }
    if b.len() >= 2 {
        assert(fb[0] == b[0]);
    }
    if a.len() == 1 && b.len() == 1 {
        assert(fa =~= fb);
        assert(a =~= b);
    } else if a.len() >= 2 && b.len() >= 2 {
        lemma_plain_digits_injective(fa, fb);
        assert(a =~= fa.push(a.last()));
        assert(b =~= fb.push(b.last()));
    } else if a.len() == 1 {
        assert(digits_value(fa) == 0);
        assert(digits_value(fb) >= 1);
    } else {
        assert(digits_value(fb) == 0);
        assert(digits_value(fa) >= 1);
    }
}

/// A number has one spelling in the notation of region names.
pub proof fn lemma_decimal_injective(s: Seq<u8>, t: Seq<u8>)
    requires
        decimal(s) is Some,
        decimal(s) == decimal(t),
    ensures
        s == t,
{
    let s_negative = s.len() > 0 && s[0] == 45;
    let t_negative = t.len() > 0 && t[0] == 45;
    let s_body = if s_negative {
        s.skip(1)
    } else {
        s
    };
    let t_body = if t_negative {
        t.skip(1)
    } else {
        t
    };
    lemma_digits_value_bounds(s_body);
    lemma_digits_value_bounds(t_body);
    assert(s_negative == t_negative);
    lemma_plain_digits_injective(s_body, t_body);
    if s_negative {
        assert(s =~= seq![45u8] + s_body);
        assert(t =~= seq![45u8] + t_body);
    }
}

/// The first dot of `s` at or after `from` is where `first_dot` says.
pub proof fn lemma_first_dot(s: Seq<u8>, from: int)
    requires
        0 <= from <= s.len(),
    ensures
        is_first_dot(s, from, first_dot(s, from)),
    decreases s.len() - from,
{
    if from == s.len() || s[from] == 46 {
        assert(is_first_dot(s, from, from));
    } else {
        lemma_first_dot(s, from + 1);
        assert(is_first_dot(s, from, first_dot(s, from + 1)));
    }
}

/// A region has one name: two names that say the same of their region are
/// the same name.
pub proof fn lemma_region_coords_injective(n: Seq<u8>, m: Seq<u8>)
    requires
        region_coords(n) is Some,
        region_coords(n) == region_coords(m),
    ensures
        n == m,
{
    lemma_first_dot(n, 2);
    lemma_first_dot(m, 2);
    let a = first_dot(n, 2);
    let c = first_dot(m, 2);
    lemma_first_dot(n, a + 1);
    lemma_first_dot(m, c + 1);
    let b = first_dot(n, a + 1);
    let d = first_dot(m, c + 1);
    lemma_decimal_injective(n.subrange(2, a), m.subrange(2, c));
    assert(a == c) by {
        assert(n.subrange(2, a).len() == m.subrange(2, c).len());
    }
    lemma_decimal_injective(n.subrange(a + 1, b), m.subrange(c + 1, d));
    assert(b == d) by {
        assert(n.subrange(a + 1, b).len() == m.subrange(c + 1, d).len());
    }
    assert(n.skip(b + 1) =~= m.skip(d + 1));
    assert(n.len() == m.len()) by {
        assert(n.skip(b + 1).len() == m.skip(d + 1).len());
    }
    assert forall|i: int| 0 <= i < n.len() implies n[i] == m[i] by {
        if 2 <= i < a {
            assert(n.subrange(2, a)[i - 2] == m.subrange(2, c)[i - 2]);
        } else if a < i < b {
            assert(n.subrange(a + 1, b)[i - a - 1] == m.subrange(c + 1, d)[i - a - 1]);
        } else if i > b {
            assert(n.skip(b + 1)[i - b - 1] == m.skip(d + 1)[i - b - 1]);
        }
    }
    assert(n =~= m);
}

/// Finds the first dot of `s` at or after `from`.
fn find_dot(s: &[u8], from: usize) -> (at: usize)
    requires
        from <= s@.len(),
    ensures
        at == first_dot(s@, from as int),
        is_first_dot(s@, from as int, at as int),
{
    let mut at: usize = from;
    while at < s.len() && s[at] != 46
        invariant
            from <= at <= s@.len(),
            forall|j: int| from <= j < at ==> s@[j] != 46,
        decreases s@.len() - at,
    {
        at += 1;
    }
    assert(is_first_dot(s@, from as int, at as int));
    at
}

/// Reads the decimal number in `s[from..to]`.
fn parse_decimal(s: &[u8], from: usize, to: usize) -> (r: Option<i32>)
    requires
        from <= to <= s@.len(),
    ensures
        r == decimal(s@.subrange(from as int, to as int)),
{
    let ghost text = s@.subrange(from as int, to as int);
    let negative: bool = from < to && s[from] == 45;
    let start: usize = if negative {
        from + 1
    } else {
        from
    };
    let ghost body = s@.subrange(start as int, to as int);
    assert(body =~= if negative {
        text.skip(1)
    } else {
        text
    });
    if start == to {
        return None;
    }
    if to - start > 1 && s[start] == 48 {
        return None;
    }
    let mut acc: i64 = 0;
    let mut i: usize = start;
    assert(body.take(0) =~= Seq::empty());
    while i < to
        invariant
            from <= start <= i <= to <= s@.len(),
            text == s@.subrange(from as int, to as int),
            negative == (text.len() > 0 && text[0] == 45),
            body == s@.subrange(start as int, to as int),
            body == if negative {
                text.skip(1)
            } else {
                text
            },
            all_digits(body.take(i - start)),
            0 <= acc <= 2147483649,
            acc == if digits_value(body.take(i - start)) < 2147483649 {
                digits_value(body.take(i - start))
            } else {
                2147483649
            },
        decreases to - i,
    {
        let b: u8 = s[i];
        proof {
            assert(body.take(i - start + 1).drop_last() =~= body.take(i - start));
            assert(body.take(i - start + 1).last() == b);
        }
        if b < 48 || b > 57 {
            proof {
                assert(body[i - start] == b);
            }
            return None;
        }
        let next: i64 = acc * 10 + (b - 48) as i64;
        acc = if next < 2147483649 {
            next
        } else {
            2147483649
        };
        i += 1;
    }
    proof {
        assert(body.take(i - start) =~= body);
    }
    if negative {
        if acc == 0 || acc > 2147483648 {
            None
        } else {
            Some((-acc) as i32)
        }
    } else {
        if acc > 2147483647 {
            None
        } else {
            Some(acc as i32)
        }
    }
}

/// Reads the name of a region file.
///
/// Returns the region's coordinates and format, or `None` where `name` is
/// not the name of a region file.
pub fn parse_region_name(name: &[u8]) -> (r: Option<RegionCoords>)
    ensures
        r == region_coords(name@),
{
    let n: usize = name.len();
    if n < 2 || name[0] != 114 || name[1] != 46 {
        return None;
    }
    let a: usize = find_dot(name, 2);
    if a >= n {
        return None;
    }
    let b: usize = find_dot(name, a + 1);
    if b >= n {
        return None;
    }
    let legacy: bool = if n - b == 4 && name[b + 1] == 109 && name[b + 2] == 99 && name[b + 3]
        == 97 {
        false
    } else if n - b == 4 && name[b + 1] == 109 && name[b + 2] == 99 && name[b + 3] == 114 {
        true
    } else {
        return None;
    };
    let x = parse_decimal(name, 2, a);
    let z = parse_decimal(name, a + 1, b);
    match (x, z) {
        (Some(x), Some(z)) => Some(RegionCoords { x, z, legacy }),
        _ => None,
    }
}

/// A region file of a world directory.
#[derive(Debug, PartialEq, Eq)]
pub struct RegionEntry {
    /// The name of the file in its directory.
    pub name: String,
    /// What the name says of the region.
    pub coords: RegionCoords,
}

impl Clone for RegionEntry {
    fn clone(&self) -> (r: RegionEntry)
        ensures
            r == *self,
    {
        RegionEntry { name: self.name.clone(), coords: self.coords }
    }
}

/// The region file that a directory entry named `name` is, if it is one.
pub open spec fn entry_of(name: String) -> Option<RegionEntry> {
    match region_coords(encode_utf8(name@)) {
        Some(coords) => Some(RegionEntry { name, coords }),
        None => None,
    }
}

/// The region files among the directory entries `names`, in their order.
pub open spec fn listed(names: Seq<String>) -> Seq<RegionEntry>
    decreases names.len(),
{
    if names.len() == 0 {
        Seq::empty()
    } else {
        match entry_of(names.last()) {
            Some(e) => listed(names.drop_last()).push(e),
            None => listed(names.drop_last()),
        }
    }
}

/// Whether region `a` is scanned before region `b`: by `x`, then by `z`,
/// then the current format before the legacy one.
pub open spec fn before(a: RegionCoords, b: RegionCoords) -> bool {
    a.x < b.x || (a.x == b.x && (a.z < b.z || (a.z == b.z && !a.legacy && b.legacy)))
}

/// Whether no entry of `s` stands behind one that it is scanned before.
pub open spec fn ordered(s: Seq<RegionEntry>) -> bool {
    forall|i: int, j: int| 0 <= i < j < s.len() ==> !before(s[j].coords, s[i].coords)
}

/// Whether region `a` is scanned before region `b`.
pub fn comes_first(a: &RegionCoords, b: &RegionCoords) -> (r: bool)
    ensures
        r == before(*a, *b),
{
    a.x < b.x || (a.x == b.x && (a.z < b.z || (a.z == b.z && !a.legacy && b.legacy)))
}

/// Where an entry with the coordinates `c` goes into `s`: behind the last
/// entry that it is not scanned before.
pub open spec fn place(s: Seq<RegionEntry>, c: RegionCoords) -> int
    decreases s.len(),
{
    if s.len() == 0 {
        0
    } else if before(c, s.last().coords) {
        place(s.drop_last(), c)
    } else {
        s.len() as int
    }
}

/// The entries `s` in the order of the scan; entries with the same
/// coordinates and format keep their order.
pub open spec fn arranged(s: Seq<RegionEntry>) -> Seq<RegionEntry>
    decreases s.len(),
{
    if s.len() == 0 {
        Seq::empty()
    } else {
        let front = arranged(s.drop_last());
        front.insert(place(front, s.last().coords), s.last())
    }
}

/// The region files among the directory entries `names`, in the order of
/// the scan.
pub open spec fn scan_order(names: Seq<String>) -> Seq<RegionEntry> {
    arranged(listed(names))
}

/// The place of an entry lies in the sequence, and the entry is scanned
/// before all that stand behind it and before none that stands in front.
pub proof fn lemma_place(s: Seq<RegionEntry>, c: RegionCoords)
    requires
        ordered(s),
    ensures
        0 <= place(s, c) <= s.len(),
        forall|j: int| place(s, c) <= j < s.len() ==> before(c, #[trigger] s[j].coords),
        forall|j: int| 0 <= j < place(s, c) ==> !before(c, #[trigger] s[j].coords),
    decreases s.len(),
{
    if s.len() > 0 {
        if before(c, s.last().coords) {
            let front = s.drop_last();
            assert forall|i: int, j: int| 0 <= i < j < front.len() implies !before(
                front[j].coords,
                front[i].coords,
            ) by {
                assert(front[i] == s[i] && front[j] == s[j]);
            }
            lemma_place(front, c);
            assert forall|j: int| place(s, c) <= j < s.len() implies before(
                c,
                #[trigger] s[j].coords,
            ) by {
                if j < front.len() {
                    assert(s[j] == front[j]);
                }
            }
            assert forall|j: int| 0 <= j < place(s, c) implies !before(
                c,
                #[trigger] s[j].coords,
            ) by {
                assert(s[j] == front[j]);
            }
        } else {
            assert forall|j: int| 0 <= j < s.len() implies !before(c, #[trigger] s[j].coords) by {
                if j < s.len() - 1 {
                    assert(!before(s[s.len() - 1].coords, s[j].coords));
                }
            }
        }
    }
}

/// An entry put in its place leaves the sequence ordered.
pub proof fn lemma_insert_ordered(s: Seq<RegionEntry>, e: RegionEntry)
    requires
        ordered(s),
    ensures
        ordered(s.insert(place(s, e.coords), e)),
        s.insert(place(s, e.coords), e).to_multiset() == s.to_multiset().insert(e),
{
    lemma_place(s, e.coords);
    let at = place(s, e.coords);
    let out = s.insert(at, e);
    s.insert_ensures(at, e);
    vstd::seq_lib::to_multiset_insert(s, at, e);
    assert forall|i: int, j: int| 0 <= i < j < out.len() implies !before(
        out[j].coords,
        out[i].coords,
    ) by {
        if i < at && j > at {
            assert(out[i] == s[i] && out[j] == s[j - 1]);
        } else if i < at && j < at {
            assert(out[i] == s[i] && out[j] == s[j]);
        } else if i > at {
            assert(out[i] == s[i - 1] && out[j] == s[j - 1]);
        } else if i == at {
            assert(out[j] == s[j - 1]);
        } else {
            assert(j == at && out[i] == s[i]);
        }
    }
}

/// The order of the scan is ascending and holds each entry as often as the
/// directory does.
pub proof fn lemma_arranged(s: Seq<RegionEntry>)
    ensures
        ordered(arranged(s)),
        arranged(s).to_multiset() == s.to_multiset(),
    decreases s.len(),
{
    if s.len() == 0 {
        assert(s =~= Seq::empty());
    } else {
        lemma_arranged(s.drop_last());
        lemma_insert_ordered(arranged(s.drop_last()), s.last());
        vstd::seq_lib::to_multiset_build(s.drop_last(), s.last());
        assert(s.drop_last().push(s.last()) =~= s);
    }
}

/// Whether two runs of entries are alike: of the same length, with the same
/// names and coordinates at each place.
pub open spec fn alike(s: Seq<RegionEntry>, t: Seq<RegionEntry>) -> bool {
    &&& s.len() == t.len()
    &&& forall|i: int|
        0 <= i < s.len() ==> (#[trigger] s[i]).name@ == (#[trigger] t[i]).name@ && s[i].coords
            == t[i].coords
}

/// Whether two directory listings give the same names in the same order.
pub open spec fn same_names(a: Seq<String>, b: Seq<String>) -> bool {
    &&& a.len() == b.len()
    &&& forall|i: int| 0 <= i < a.len() ==> (#[trigger] a[i])@ == (#[trigger] b[i])@
}

/// Listings with the same names hold region files that are alike.
pub proof fn lemma_listed_alike(a: Seq<String>, b: Seq<String>)
    requires
        same_names(a, b),
    ensures
        alike(listed(a), listed(b)),
    decreases a.len(),
{
    if a.len() > 0 {
        assert(a.last()@ == b.last()@) by {
            assert(a.last() == a[a.len() - 1] && b.last() == b[b.len() - 1]);
        }
        assert(same_names(a.drop_last(), b.drop_last())) by {
            assert forall|i: int| 0 <= i < a.len() - 1 implies (#[trigger] a.drop_last()[i])@ == (
            #[trigger] b.drop_last()[i])@ by {
                assert(a.drop_last()[i] == a[i] && b.drop_last()[i] == b[i]);
            }
        }
        lemma_listed_alike(a.drop_last(), b.drop_last());
    }
}

/// An entry goes to the same place in runs of entries that are alike.
pub proof fn lemma_place_alike(s: Seq<RegionEntry>, t: Seq<RegionEntry>, c: RegionCoords)
    requires
        alike(s, t),
    ensures
        place(s, c) == place(t, c),
    decreases s.len(),
{
    if s.len() > 0 {
        assert(s.last().coords == t.last().coords) by {
            assert(s.last() == s[s.len() - 1] && t.last() == t[t.len() - 1]);
        }
        assert(alike(s.drop_last(), t.drop_last())) by {
            assert forall|i: int| 0 <= i < s.len() - 1 implies (#[trigger] s.drop_last()[i]).name@
                == (#[trigger] t.drop_last()[i]).name@ && s.drop_last()[i].coords == t.drop_last()[i].coords by {
                assert(s.drop_last()[i] == s[i] && t.drop_last()[i] == t[i]);
            }
        }
        lemma_place_alike(s.drop_last(), t.drop_last(), c);
    }
}

/// Runs of entries that are alike are alike in the order of the scan.
pub proof fn lemma_arranged_alike(s: Seq<RegionEntry>, t: Seq<RegionEntry>)
    requires
        alike(s, t),
    ensures
        alike(arranged(s), arranged(t)),
    decreases s.len(),
{
    if s.len() > 0 {
        assert(s.last().coords == t.last().coords && s.last().name@ == t.last().name@) by {
            assert(s.last() == s[s.len() - 1] && t.last() == t[t.len() - 1]);
        }
        assert(alike(s.drop_last(), t.drop_last())) by {
            assert forall|i: int| 0 <= i < s.len() - 1 implies (#[trigger] s.drop_last()[i]).name@
                == (#[trigger] t.drop_last()[i]).name@ && s.drop_last()[i].coords == t.drop_last()[i].coords by {
                assert(s.drop_last()[i] == s[i] && t.drop_last()[i] == t[i]);
            }
        }
        let front_s = arranged(s.drop_last());
        let front_t = arranged(t.drop_last());
        lemma_arranged_alike(s.drop_last(), t.drop_last());
        lemma_place_alike(front_s, front_t, s.last().coords);
        lemma_arranged(s.drop_last());
        lemma_place(front_s, s.last().coords);
        let at = place(front_s, s.last().coords);
        front_s.insert_ensures(at, s.last());
        front_t.insert_ensures(at, t.last());
        let out_s = front_s.insert(at, s.last());
        let out_t = front_t.insert(at, t.last());
        assert forall|i: int| 0 <= i < out_s.len() implies (#[trigger] out_s[i]).name@ == (
        #[trigger] out_t[i]).name@ && out_s[i].coords == out_t[i].coords by {
            if i < at {
                assert(out_s[i] == front_s[i] && out_t[i] == front_t[i]);
            } else if i > at {
                assert(out_s[i] == front_s[i - 1] && out_t[i] == front_t[i - 1]);
            }
        }
    }
}

/// Puts `entry` into the ordered `out`, behind the entries that are not
/// scanned after it.
fn insert_ordered(out: &mut Vec<RegionEntry>, entry: RegionEntry)
    ensures
        final(out)@ == old(out)@.insert(place(old(out)@, entry.coords), entry),
{
    let ghost start = out@;
    let mut at: usize = out.len();
    assert(start.take(at as int) =~= start);
    while at > 0 && comes_first(&entry.coords, &out[at - 1].coords)
        invariant
            at <= out@.len(),
            out@ == start,
            place(start, entry.coords) == place(start.take(at as int), entry.coords),
        decreases at,
    {
        proof {
            assert(start.take(at as int).drop_last() =~= start.take(at - 1));
        }
        at -= 1;
    }
    out.insert(at, entry);
}

/// Picks the region files out of the names of a directory's entries and
/// puts them in the order of the scan: ascending by `x`, then by `z`.
pub fn region_entries(names: &Vec<String>) -> (r: Vec<RegionEntry>)
    ensures
        r@ == scan_order(names@),
{
    let mut out: Vec<RegionEntry> = Vec::new();
    let mut i: usize = 0;
    assert(names@.take(0) =~= Seq::empty());
    while i < names.len()
        invariant
            i <= names@.len(),
            out@ == scan_order(names@.take(i as int)),
        decreases names@.len() - i,
    {
        let name: &String = &names[i];
        proof {
            assert(names@.take(i + 1).drop_last() =~= names@.take(i as int));
            assert(names@.take(i + 1).last() == *name);
        }
        match parse_region_name(name.as_str().as_bytes()) {
            Some(coords) => {
                let entry = RegionEntry { name: name.clone(), coords };
                proof {
                    let front = listed(names@.take(i as int));
                    assert(front.push(entry).drop_last() =~= front);
                }
                insert_ordered(&mut out, entry);
            },
            None => {},
        }
        i += 1;
    }
    proof {
        assert(names@.take(i as int) =~= names@);
    }
    out
}

} // verus!
