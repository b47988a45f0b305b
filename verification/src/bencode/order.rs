//! The order of items that their derived `Ord` gives: strings before
//! integers before lists before dictionaries, and within each kind the
//! order of the bytes, of the numbers, or of the elements one after another.

use super::{lemma_item_value, list_values, pairs_values, Item, Value};
use vstd::prelude::*;

verus! {

/// The outcome of comparing two things.
#[derive(Debug, Clone, Copy, PartialEq, Eq, Structural)]
pub enum Order {
    Less,
    Equal,
    Greater,
}

/// The order of two integers.
pub open spec fn int_order(a: int, b: int) -> Order {
    if a < b {
        Order::Less
    } else if a == b {
        Order::Equal
    } else {
        Order::Greater
    }
}

/// The lexicographic order of two byte strings: the first differing byte
/// decides, and a proper prefix comes first.
pub open spec fn bytes_order(a: Seq<u8>, b: Seq<u8>) -> Order
    decreases a.len(),
{
    if a.len() == 0 {
        if b.len() == 0 {
            Order::Equal
        } else {
            Order::Less
        }
    } else if b.len() == 0 {
        Order::Greater
    } else if a[0] != b[0] {
        int_order(a[0] as int, b[0] as int)
    } else {
        bytes_order(a.skip(1), b.skip(1))
    }
}

/// The rank of a value's kind.
pub open spec fn kind_rank(v: Value) -> int {
    match v {
        Value::Str(_) => 0,
        Value::Int(_) => 1,
        Value::List(_) => 2,
        Value::Dict(_) => 3,
    }
}

/// The order of two values.
pub open spec fn value_order(a: Value, b: Value) -> Order
    decreases a,
{
    if kind_rank(a) != kind_rank(b) {
        int_order(kind_rank(a), kind_rank(b))
    } else {
        match (a, b) {
            (Value::Str(x), Value::Str(y)) => bytes_order(x, y),
            (Value::Int(x), Value::Int(y)) => int_order(x as int, y as int),
            (Value::List(xs), Value::List(ys)) => list_order(xs, ys),
            (Value::Dict(xs), Value::Dict(ys)) => pairs_order(xs, ys),
            _ => Order::Equal,
        }
    }
}

/// The lexicographic order of two sequences of values.
pub open spec fn list_order(a: Seq<Value>, b: Seq<Value>) -> Order
    decreases a,
{
    if a.len() == 0 {
        if b.len() == 0 {
            Order::Equal
        } else {
            Order::Less
        }
    } else if b.len() == 0 {
        Order::Greater
    } else {
        match value_order(a[0], b[0]) {
            Order::Equal => list_order(a.subrange(1, a.len() as int), b.subrange(1, b.len() as int)),
            o => o,
        }
    }
}

/// The lexicographic order of two sequences of pairs, each pair ordered by
/// its first and then its second value.
pub open spec fn pairs_order(a: Seq<(Value, Value)>, b: Seq<(Value, Value)>) -> Order
    decreases a,
{
    if a.len() == 0 {
        if b.len() == 0 {
            Order::Equal
        } else {
            Order::Less
        }
    } else if b.len() == 0 {
        Order::Greater
    } else {
        match value_order(a[0].0, b[0].0) {
            Order::Equal => match value_order(a[0].1, b[0].1) {
                Order::Equal => pairs_order(
                    a.subrange(1, a.len() as int),
                    b.subrange(1, b.len() as int),
                ),
                o => o,
            },
            o => o,
        }
    }
}

/// The order of two byte strings, either way round, is `Equal` exactly when
/// they are the same, and swapping them turns `Less` into `Greater`.
pub proof fn lemma_bytes_order(a: Seq<u8>, b: Seq<u8>)
    ensures
        (bytes_order(a, b) == Order::Equal) == (a =~= b),
        (bytes_order(b, a) == Order::Equal) == (a =~= b),
        (bytes_order(a, b) == Order::Less) == (bytes_order(b, a) == Order::Greater),
        (bytes_order(a, b) == Order::Greater) == (bytes_order(b, a) == Order::Less),
    decreases a.len(),
{
    if a.len() == 0 || b.len() == 0 {
        if a.len() != b.len() {
            assert(!(a =~= b));
        }
    } else if a[0] != b[0] {
        assert(!(a =~= b));
    } else {
        let ta = a.skip(1);
        let tb = b.skip(1);
        lemma_bytes_order(ta, tb);
        assert(a =~= seq![a[0]] + ta);
        assert(b =~= seq![b[0]] + tb);
        if a =~= b {
            assert(ta =~= tb);
        }
    }
}

/// The order of two values, either way round, is `Equal` exactly when they
/// are the same, and swapping them turns `Less` into `Greater`.
pub proof fn lemma_value_order(a: Value, b: Value)
    ensures
        (value_order(a, b) == Order::Equal) == (a == b),
        (value_order(b, a) == Order::Equal) == (a == b),
        (value_order(a, b) == Order::Less) == (value_order(b, a) == Order::Greater),
        (value_order(a, b) == Order::Greater) == (value_order(b, a) == Order::Less),
    decreases a,
{
    if kind_rank(a) == kind_rank(b) {
        match (a, b) {
            (Value::Str(x), Value::Str(y)) => {
                lemma_bytes_order(x, y);
            },
            (Value::List(xs), Value::List(ys)) => {
                assert(decreases_to!(a => a->List_0));
                lemma_list_order(xs, ys);
            },
            (Value::Dict(xs), Value::Dict(ys)) => {
                assert(decreases_to!(a => a->Dict_0));
                lemma_pairs_order(xs, ys);
            },
            _ => {},
        }
    }
}

/// The order of two sequences of values, either way round, is `Equal`
/// exactly when they are the same, and swapping them turns `Less` into
/// `Greater`.
pub proof fn lemma_list_order(a: Seq<Value>, b: Seq<Value>)
    ensures
        (list_order(a, b) == Order::Equal) == (a =~= b),
        (list_order(b, a) == Order::Equal) == (a =~= b),
        (list_order(a, b) == Order::Less) == (list_order(b, a) == Order::Greater),
        (list_order(a, b) == Order::Greater) == (list_order(b, a) == Order::Less),
    decreases a,
{
    if a.len() == 0 || b.len() == 0 {
        if a.len() != b.len() {
            assert(!(a =~= b));
        }
    } else {
        lemma_value_order(a[0], b[0]);
        let ta = a.subrange(1, a.len() as int);
        let tb = b.subrange(1, b.len() as int);
        assert(a =~= seq![a[0]] + ta);
        assert(b =~= seq![b[0]] + tb);
        if a[0] != b[0] {
            assert(!(a =~= b));
        } else {
            lemma_list_order(ta, tb);
            if a =~= b {
                assert(ta =~= tb);
            }
        }
    }
}

/// The order of two sequences of pairs, either way round, is `Equal`
/// exactly when they are the same, and swapping them turns `Less` into
/// `Greater`.
pub proof fn lemma_pairs_order(a: Seq<(Value, Value)>, b: Seq<(Value, Value)>)
    ensures
        (pairs_order(a, b) == Order::Equal) == (a =~= b),
        (pairs_order(b, a) == Order::Equal) == (a =~= b),
        (pairs_order(a, b) == Order::Less) == (pairs_order(b, a) == Order::Greater),
        (pairs_order(a, b) == Order::Greater) == (pairs_order(b, a) == Order::Less),
    decreases a,
{
    if a.len() == 0 || b.len() == 0 {
        if a.len() != b.len() {
            assert(!(a =~= b));
        }
    } else {
        assert(decreases_to!(a => a[0]));
        lemma_value_order(a[0].0, b[0].0);
        lemma_value_order(a[0].1, b[0].1);
        let ta = a.subrange(1, a.len() as int);
        let tb = b.subrange(1, b.len() as int);
        assert(a =~= seq![a[0]] + ta);
        assert(b =~= seq![b[0]] + tb);
        if a[0] != b[0] {
            assert(!(a =~= b));
        } else {
            lemma_pairs_order(ta, tb);
            if a =~= b {
                assert(ta =~= tb);
            }
        }
    }
}

/// Compares two integers.
fn compare_ints(a: i64, b: i64) -> (r: Order)
    ensures
        r == int_order(a as int, b as int),
{
    if a < b {
        Order::Less
    } else if a == b {
        Order::Equal
    } else {
        Order::Greater
    }
}

/// Compares two byte strings lexicographically.
pub fn compare_bytes(a: &Vec<u8>, b: &Vec<u8>) -> (r: Order)
    ensures
        r == bytes_order(a@, b@),
{
    let mut i: usize = 0;
    proof {
        assert(a@.skip(0) =~= a@);
        assert(b@.skip(0) =~= b@);
    }
    while i < a.len() && i < b.len() && a[i] == b[i]
        invariant
            i <= a@.len(),
            i <= b@.len(),
            bytes_order(a@, b@) == bytes_order(a@.skip(i as int), b@.skip(i as int)),
        decreases a@.len() - i,
    {
        proof {
            assert(a@.skip(i as int).skip(1) =~= a@.skip(i + 1));
            assert(b@.skip(i as int).skip(1) =~= b@.skip(i + 1));
        }
        i = i + 1;
    }
    if i == a.len() {
        if i == b.len() {
            Order::Equal
        } else {
            Order::Less
        }
    } else if i == b.len() {
        Order::Greater
    } else {
        compare_ints(a[i] as i64, b[i] as i64)
    }
}

/// Compares two items in the order [`value_order`] gives their values: by
/// kind (byte string, integer, list, dictionary), then by content.
pub fn compare(a: &Item, b: &Item) -> (r: Order)
    ensures
        r == value_order(a@, b@),
    decreases a,
{
    proof {
        lemma_item_value(*a);
        lemma_item_value(*b);
    }
    match (a, b) {
        (Item::String(x), Item::String(y)) => compare_bytes(&x.bytes, &y.bytes),
        (Item::Integer(x), Item::Integer(y)) => compare_ints(*x, *y),
        (Item::List(xs), Item::List(ys)) => {
            let ghost va = list_values(xs@);
            let ghost vb = list_values(ys@);
            let mut i: usize = 0;
            proof {
                assert(va.subrange(0, va.len() as int) =~= va);
                assert(vb.subrange(0, vb.len() as int) =~= vb);
            }
            while i < xs.len() && i < ys.len()
                invariant
                    *a == Item::List(*xs),
                    a@ == Value::List(va),
                    b@ == Value::List(vb),
                    va == list_values(xs@),
                    vb == list_values(ys@),
                    i <= xs@.len(),
                    i <= ys@.len(),
                    list_order(va, vb) == list_order(
                        va.subrange(i as int, va.len() as int),
                        vb.subrange(i as int, vb.len() as int),
                    ),
                decreases xs@.len() - i,
            {
                proof {
                    assert(decreases_to!(*a => (*a)->List_0));
                    assert(decreases_to!(xs@ => xs@[i as int]));
                    let sa = va.subrange(i as int, va.len() as int);
                    let sb = vb.subrange(i as int, vb.len() as int);
                    assert(sa[0] == va[i as int]);
                    assert(sb[0] == vb[i as int]);
                    assert(sa.subrange(1, sa.len() as int) =~= va.subrange(i + 1, va.len() as int));
                    assert(sb.subrange(1, sb.len() as int) =~= vb.subrange(i + 1, vb.len() as int));
                }
                let o = compare(&xs[i], &ys[i]);
                assert(o == value_order(va[i as int], vb[i as int]));
                match o {
                    Order::Equal => {},
                    _ => return o,
                }
                i = i + 1;
            }
            if i == xs.len() {
                if i == ys.len() {
                    Order::Equal
                } else {
                    Order::Less
                }
            } else {
                Order::Greater
            }
        },
        (Item::Dictionary(xs), Item::Dictionary(ys)) => {
            let ghost va = pairs_values(xs.items@);
            let ghost vb = pairs_values(ys.items@);
            let mut i: usize = 0;
            proof {
                assert(va.subrange(0, va.len() as int) =~= va);
                assert(vb.subrange(0, vb.len() as int) =~= vb);
            }
            while i < xs.items.len() && i < ys.items.len()
                invariant
                    *a == Item::Dictionary(*xs),
                    a@ == Value::Dict(va),
                    b@ == Value::Dict(vb),
                    va == pairs_values(xs.items@),
                    vb == pairs_values(ys.items@),
                    i <= xs.items@.len(),
                    i <= ys.items@.len(),
                    pairs_order(va, vb) == pairs_order(
                        va.subrange(i as int, va.len() as int),
                        vb.subrange(i as int, vb.len() as int),
                    ),
                decreases xs.items@.len() - i,
            {
                proof {
                    assert(decreases_to!(*a => (*a)->Dictionary_0));
                    assert(decreases_to!(xs.items@ => xs.items@[i as int]));
                    let sa = va.subrange(i as int, va.len() as int);
                    let sb = vb.subrange(i as int, vb.len() as int);
                    assert(sa[0] == va[i as int]);
                    assert(sb[0] == vb[i as int]);
                    assert(sa.subrange(1, sa.len() as int) =~= va.subrange(i + 1, va.len() as int));
                    assert(sb.subrange(1, sb.len() as int) =~= vb.subrange(i + 1, vb.len() as int));
                }
                let o = compare(&xs.items[i].0, &ys.items[i].0);
                assert(o == value_order(va[i as int].0, vb[i as int].0));
                match o {
                    Order::Equal => {},
                    _ => return o,
                }
                let o = compare(&xs.items[i].1, &ys.items[i].1);
                assert(o == value_order(va[i as int].1, vb[i as int].1));
                match o {
                    Order::Equal => {},
                    _ => return o,
                }
                i = i + 1;
            }
            if i == xs.items.len() {
                if i == ys.items.len() {
                    Order::Equal
                } else {
                    Order::Less
                }
            } else {
                Order::Greater
            }
        },
        _ => compare_ints(kind(a), kind(b)),
    }
}

/// The rank of an item's kind.
fn kind(a: &Item) -> (r: i64)
    ensures
        r == kind_rank(a@),
{
    match a {
        Item::String(_) => 0,
        Item::Integer(_) => 1,
        Item::List(_) => 2,
        Item::Dictionary(_) => 3,
    }
}

/// Byte strings are ordered lexicographically: after a common prefix, the
/// first differing byte decides, the smaller byte first, whatever follows.
pub proof fn law_bytes_order_first_difference(p: Seq<u8>, x: u8, y: u8, a: Seq<u8>, b: Seq<u8>)
    requires
        x != y,
    ensures
        bytes_order(p + seq![x] + a, p + seq![y] + b) == (if x < y {
            Order::Less
        } else {
            Order::Greater
        }),
    decreases p.len(),
{
    let u = p + seq![x] + a;
    let v = p + seq![y] + b;
    if p.len() == 0 {
        assert(u[0] == x && v[0] == y);
    } else {
        assert(u[0] == p[0] && v[0] == p[0]);
        assert(u.skip(1) =~= p.skip(1) + seq![x] + a);
        assert(v.skip(1) =~= p.skip(1) + seq![y] + b);
        law_bytes_order_first_difference(p.skip(1), x, y, a, b);
    }
}

/// A proper prefix comes before the byte strings that extend it, and a byte
/// string is equal only to itself.
pub proof fn law_bytes_order_prefix(p: Seq<u8>, x: u8, a: Seq<u8>)
    ensures
        bytes_order(p, p + seq![x] + a) == Order::Less,
        bytes_order(p + seq![x] + a, p) == Order::Greater,
        bytes_order(p, p) == Order::Equal,
    decreases p.len(),
{
    let u = p + seq![x] + a;
    if p.len() > 0 {
        assert(u[0] == p[0]);
        assert(u.skip(1) =~= p.skip(1) + seq![x] + a);
        law_bytes_order_prefix(p.skip(1), x, a);
    }
    lemma_bytes_order(p, p);
}

/// The order of byte strings is transitive.
pub proof fn law_bytes_order_transitive(a: Seq<u8>, b: Seq<u8>, c: Seq<u8>)
    requires
        bytes_order(a, b) == Order::Less,
        bytes_order(b, c) == Order::Less,
    ensures
        bytes_order(a, c) == Order::Less,
    decreases a.len(),
{
    if a.len() > 0 && b.len() > 0 && c.len() > 0 && a[0] == b[0] && b[0] == c[0] {
        law_bytes_order_transitive(a.skip(1), b.skip(1), c.skip(1));
    }
}

/// Byte-string keys are ordered by their bytes: two byte strings compare as
/// values exactly as their bytes do.
pub proof fn law_string_values_ordered_by_bytes(a: Seq<u8>, b: Seq<u8>)
    ensures
        value_order(Value::Str(a), Value::Str(b)) == bytes_order(a, b),
{
}

} // verus!
