//! The order of local paths: component by component, and within a name byte by byte.

use vstd::prelude::*;

use crate::local_path;
use crate::local_path::{Component, Part};

verus! {

/// How two byte strings are ordered: negative where `a` comes first, zero where
/// they are equal, positive where `b` comes first. A proper prefix comes first.
pub open spec fn bytes_order(a: Seq<u8>, b: Seq<u8>) -> int
    decreases a.len(),
{
    if a.len() == 0 && b.len() == 0 {
        0
    } else if a.len() == 0 {
        -1
    } else if b.len() == 0 {
        1
    } else if a[0] < b[0] {
        -1
    } else if a[0] > b[0] {
        1
    } else {
        bytes_order(a.skip(1), b.skip(1))
    }
}

/// The place of a kind of component among the kinds.
pub open spec fn part_rank(part: Part) -> int {
    match part {
        Part::Root => 0,
        Part::Current => 1,
        Part::Parent => 2,
        Part::Name(_) => 3,
    }
}

/// The bytes of a component's name.
pub open spec fn part_bytes(part: Part) -> Seq<u8> {
    match part {
        Part::Name(name) => vstd::utf8::encode_utf8(name),
        _ => Seq::empty(),
    }
}

/// How two components are ordered: by kind, then by name.
pub open spec fn part_order(a: Part, b: Part) -> int {
    if part_rank(a) < part_rank(b) {
        -1
    } else if part_rank(a) > part_rank(b) {
        1
    } else {
        bytes_order(part_bytes(a), part_bytes(b))
    }
}

/// How two paths are ordered, by their components.
pub open spec fn path_order(a: Seq<Part>, b: Seq<Part>) -> int
    decreases a.len(),
{
    if a.len() == 0 && b.len() == 0 {
        0
    } else if a.len() == 0 {
        -1
    } else if b.len() == 0 {
        1
    } else if part_order(a[0], b[0]) != 0 {
        part_order(a[0], b[0])
    } else {
        path_order(a.skip(1), b.skip(1))
    }
}

proof fn lemma_bytes_order(a: Seq<u8>, b: Seq<u8>)
    ensures
        bytes_order(a, b) == -bytes_order(b, a),
        bytes_order(a, b) == 0 <==> a == b,
    decreases a.len(),
{
    if a.len() > 0 && b.len() > 0 {
        lemma_bytes_order(a.skip(1), b.skip(1));
        if a[0] == b[0] && a.skip(1) == b.skip(1) {
            assert(a =~= seq![a[0]] + a.skip(1));
            assert(b =~= seq![b[0]] + b.skip(1));
        }
    } else if a.len() == 0 && b.len() == 0 {
        assert(a =~= b);
    }
}

proof fn lemma_bytes_transitive(a: Seq<u8>, b: Seq<u8>, c: Seq<u8>)
    requires
        bytes_order(a, b) <= 0,
        bytes_order(b, c) <= 0,
    ensures
        bytes_order(a, c) <= 0,
    decreases a.len(),
{
    if a.len() > 0 && b.len() > 0 && c.len() > 0 && a[0] == b[0] && b[0] == c[0] {
        lemma_bytes_transitive(a.skip(1), b.skip(1), c.skip(1));
    }
}

proof fn lemma_part_order(a: Part, b: Part)
    ensures
        part_order(a, b) == -part_order(b, a),
        part_order(a, b) == 0 <==> part_rank(a) == part_rank(b) && part_bytes(a) == part_bytes(b),
{
    lemma_bytes_order(part_bytes(a), part_bytes(b));
}

/// Turning two paths round turns their order round.
pub proof fn lemma_path_order(a: Seq<Part>, b: Seq<Part>)
    ensures
        path_order(a, b) == -path_order(b, a),
    decreases a.len(),
{
    if a.len() > 0 && b.len() > 0 {
        lemma_part_order(a[0], b[0]);
        lemma_path_order(a.skip(1), b.skip(1));
    }
}

/// Only equal paths stand at the same place in the order.
pub proof fn lemma_path_order_distinguishes(a: Seq<Part>, b: Seq<Part>)
    requires
        path_order(a, b) == 0,
    ensures
        a == b,
    decreases a.len(),
{
    if a.len() > 0 && b.len() > 0 {
        lemma_part_order(a[0], b[0]);
        if let (Part::Name(x), Part::Name(y)) = (a[0], b[0]) {
            vstd::utf8::encode_utf8_decode_utf8(x);
            vstd::utf8::encode_utf8_decode_utf8(y);
        }
        lemma_path_order_distinguishes(a.skip(1), b.skip(1));
        assert(a =~= seq![a[0]] + a.skip(1));
        assert(b =~= seq![b[0]] + b.skip(1));
    } else {
        assert(a =~= b);
    }
}

/// The order of paths is transitive.
pub proof fn lemma_path_transitive(a: Seq<Part>, b: Seq<Part>, c: Seq<Part>)
    requires
        path_order(a, b) <= 0,
        path_order(b, c) <= 0,
    ensures
        path_order(a, c) <= 0,
    decreases a.len(),
{
    if a.len() > 0 && b.len() > 0 && c.len() > 0 {
        let (x, y, z) = (a[0], b[0], c[0]);
        lemma_part_order(x, y);
        lemma_part_order(y, z);
        lemma_part_order(x, z);
        if part_rank(x) == part_rank(y) && part_rank(y) == part_rank(z) {
            lemma_bytes_transitive(part_bytes(x), part_bytes(y), part_bytes(z));
        }
        if part_order(x, y) == 0 && part_order(y, z) == 0 {
            lemma_path_transitive(a.skip(1), b.skip(1), c.skip(1));
        } else if part_order(x, z) == 0 {
            // The outer two have the same bytes, so the middle one would have to
            // come both after and before them.
            assert(part_order(y, z) == part_order(y, x));
        }
    }
}

fn order_bytes(a: &[u8], b: &[u8]) -> (out: i8)
    ensures
        out == bytes_order(a@, b@),
{
    let mut i: usize = 0;
    assert(a@.skip(0) =~= a@);
    assert(b@.skip(0) =~= b@);
    loop
        invariant
            i <= a@.len(),
            i <= b@.len(),
            bytes_order(a@, b@) == bytes_order(a@.skip(i as int), b@.skip(i as int)),
        decreases a@.len() - i,
    {
        if i >= a.len() || i >= b.len() {
            return if a.len() == b.len() {
                0
            } else if a.len() < b.len() {
                -1
            } else {
                1
            };
        }
        assert(a@.skip(i as int)[0] == a@[i as int]);
        assert(b@.skip(i as int)[0] == b@[i as int]);
        if a[i] < b[i] {
            return -1;
        }
        if a[i] > b[i] {
            return 1;
        }
        assert(a@.skip(i as int).skip(1) =~= a@.skip(i + 1));
        assert(b@.skip(i as int).skip(1) =~= b@.skip(i + 1));
        i += 1;
    }
}

fn rank(component: &Component) -> (out: u8)
    ensures
        out == part_rank(component@),
{
    match component {
        Component::RootDir => 0,
        Component::CurDir => 1,
        Component::ParentDir => 2,
        Component::Normal(_) => 3,
    }
}

fn order_components(a: &Component, b: &Component) -> (out: i8)
    ensures
        out == part_order(a@, b@),
{
    if rank(a) < rank(b) {
        return -1;
    }
    if rank(a) > rank(b) {
        return 1;
    }
    match (a, b) {
        (Component::Normal(x), Component::Normal(y)) => order_bytes(
            x.as_str().as_bytes(),
            y.as_str().as_bytes(),
        ),
        _ => 0,
    }
}

/// How two lists of components are ordered.
pub fn order_paths(a: &Vec<Component>, b: &Vec<Component>) -> (out: i8)
    ensures
        out == path_order(
            local_path::components_view(a@),
            local_path::components_view(b@),
        ),
{
    let ghost x = local_path::components_view(a@);
    let ghost y = local_path::components_view(b@);
    let mut i: usize = 0;
    assert(x.skip(0) =~= x);
    assert(y.skip(0) =~= y);
    loop
        invariant
            i <= a@.len(),
            i <= b@.len(),
            x == local_path::components_view(a@),
            y == local_path::components_view(b@),
            path_order(x, y) == path_order(x.skip(i as int), y.skip(i as int)),
        decreases a@.len() - i,
    {
        if i >= a.len() || i >= b.len() {
            return if a.len() == b.len() {
                0
            } else if a.len() < b.len() {
                -1
            } else {
                1
            };
        }
        assert(x.skip(i as int)[0] == a@[i as int]@);
        assert(y.skip(i as int)[0] == b@[i as int]@);
        let first = order_components(&a[i], &b[i]);
        if first != 0 {
            return first;
        }
        assert(x.skip(i as int).skip(1) =~= x.skip(i + 1));
        assert(y.skip(i as int).skip(1) =~= y.skip(i + 1));
        i += 1;
    }
}

/// Byte strings are ordered by the first byte in which they differ, and where there is none
/// the shorter comes first.
pub proof fn law_first_different_byte_decides(
    common: Seq<u8>,
    x: u8,
    y: u8,
    left: Seq<u8>,
    right: Seq<u8>,
)
    ensures
        x < y ==> bytes_order(common + seq![x] + left, common + seq![y] + right) < 0,
        x > y ==> bytes_order(common + seq![x] + left, common + seq![y] + right) > 0,
        bytes_order(common, common + seq![y] + right) < 0,
        bytes_order(common + seq![x] + left, common) > 0,
        bytes_order(common, common) == 0,
    decreases common.len(),
{
    let a = common + seq![x] + left;
    let b = common + seq![y] + right;
    if common.len() > 0 {
        let rest = common.skip(1);
        law_first_different_byte_decides(rest, x, y, left, right);
        assert(a.skip(1) =~= rest + seq![x] + left);
        assert(b.skip(1) =~= rest + seq![y] + right);
    }
}

/// Components are ordered by kind, the root before `.`, that before `..` and that before
/// every name, and two names by their UTF-8 bytes.
pub proof fn law_kinds_come_before_names(a: Seq<char>, b: Seq<char>)
    ensures
        part_order(Part::Root, Part::Current) < 0,
        part_order(Part::Current, Part::Parent) < 0,
        part_order(Part::Parent, Part::Name(a)) < 0,
        part_order(Part::Root, Part::Parent) < 0,
        part_order(Part::Root, Part::Name(a)) < 0,
        part_order(Part::Current, Part::Name(a)) < 0,
        part_order(Part::Name(a), Part::Name(b)) == bytes_order(
            vstd::utf8::encode_utf8(a),
            vstd::utf8::encode_utf8(b),
        ),
{
}

/// Paths are ordered by the first component in which they differ, and where there is none
/// the shorter comes first.
pub proof fn law_first_different_component_decides(
    common: Seq<Part>,
    x: Part,
    y: Part,
    left: Seq<Part>,
    right: Seq<Part>,
)
    ensures
        part_order(x, y) < 0 ==> path_order(
            common + seq![x] + left,
            common + seq![y] + right,
        ) < 0,
        part_order(x, y) > 0 ==> path_order(
            common + seq![x] + left,
            common + seq![y] + right,
        ) > 0,
        path_order(common, common + seq![y] + right) < 0,
        path_order(common + seq![x] + left, common) > 0,
        path_order(common, common) == 0,
    decreases common.len(),
{
    let a = common + seq![x] + left;
    let b = common + seq![y] + right;
    if common.len() > 0 {
        let rest = common.skip(1);
        law_first_different_component_decides(rest, x, y, left, right);
        lemma_part_order(common[0], common[0]);
        assert(a.skip(1) =~= rest + seq![x] + left);
        assert(b.skip(1) =~= rest + seq![y] + right);
        assert(a[0] == common[0] && b[0] == common[0]);
    } else {
        assert(a[0] == x && b[0] == y);
    }
}

} // verus!
