//! The order of names. Names are compared byte by byte over their UTF-8
//! encoding, which is how Rust orders strings; every listing by name that the
//! library emits follows this order.

use vstd::prelude::*;
use vstd::utf8::*;

verus! {

/// `a` comes strictly before `b`: at the first position where they differ `a`
/// holds the smaller byte, or `a` ends there and `b` goes on.
pub open spec fn bytes_lt(a: Seq<u8>, b: Seq<u8>) -> bool
    decreases a.len(),
{
    if b.len() == 0 {
        false
    } else if a.len() == 0 {
        true
    } else if a[0] != b[0] {
        a[0] < b[0]
    } else {
        bytes_lt(a.drop_first(), b.drop_first())
    }
}

/// The strict order of names.
pub open spec fn name_lt(a: Seq<char>, b: Seq<char>) -> bool {
    bytes_lt(encode_utf8(a), encode_utf8(b))
}

/// Every name of `names` comes strictly before the names that follow it.
pub open spec fn strictly_ascending(names: Seq<Seq<char>>) -> bool {
    forall|i: int, j: int| 0 <= i < j < names.len() ==> name_lt(names[i], names[j])
}

/// `listing` holds exactly the names of `names`, each once, in ascending order.
pub open spec fn lists_ascending(listing: Seq<Seq<char>>, names: Set<Seq<char>>) -> bool {
    &&& strictly_ascending(listing)
    &&& forall|n: Seq<char>| listing.contains(n) <==> names.contains(n)
}

/// The names of a finite set in ascending order.
pub open spec fn ascending(names: Set<Seq<char>>) -> Seq<Seq<char>> {
    choose|listing: Seq<Seq<char>>| lists_ascending(listing, names)
}

/// No row of bytes comes before itself.
pub proof fn lemma_bytes_lt_irreflexive(a: Seq<u8>)
    ensures
        !bytes_lt(a, a),
    decreases a.len(),
{
    if a.len() > 0 {
        lemma_bytes_lt_irreflexive(a.drop_first());
    }
}

/// The order of rows of bytes is transitive.
pub proof fn lemma_bytes_lt_transitive(a: Seq<u8>, b: Seq<u8>, c: Seq<u8>)
    requires
        bytes_lt(a, b),
        bytes_lt(b, c),
    ensures
        bytes_lt(a, c),
    decreases a.len(),
{
    if a.len() > 0 && a[0] == b[0] && b[0] == c[0] {
        lemma_bytes_lt_transitive(a.drop_first(), b.drop_first(), c.drop_first());
    }
}

/// Of two different rows of bytes one comes before the other.
pub proof fn lemma_bytes_lt_total(a: Seq<u8>, b: Seq<u8>)
    ensures
        bytes_lt(a, b) || bytes_lt(b, a) || a == b,
    decreases a.len(),
{
    if a.len() == 0 || b.len() == 0 {
        if a.len() == 0 && b.len() == 0 {
            assert(a =~= b);
        }
    } else if a[0] == b[0] {
        lemma_bytes_lt_total(a.drop_first(), b.drop_first());
        if a.drop_first() == b.drop_first() {
            assert(a =~= seq![a[0]] + a.drop_first());
            assert(b =~= seq![b[0]] + b.drop_first());
        }
    }
}

/// No name comes before itself.
pub proof fn lemma_name_lt_irreflexive(a: Seq<char>)
    ensures
        !name_lt(a, a),
{
    lemma_bytes_lt_irreflexive(encode_utf8(a));
}

/// The order of names is transitive.
pub proof fn lemma_name_lt_transitive(a: Seq<char>, b: Seq<char>, c: Seq<char>)
    requires
        name_lt(a, b),
        name_lt(b, c),
    ensures
        name_lt(a, c),
{
    lemma_bytes_lt_transitive(encode_utf8(a), encode_utf8(b), encode_utf8(c));
}

/// Of two different names one comes before the other.
pub proof fn lemma_name_lt_total(a: Seq<char>, b: Seq<char>)
    ensures
        name_lt(a, b) || name_lt(b, a) || a == b,
{
    lemma_bytes_lt_total(encode_utf8(a), encode_utf8(b));
    if encode_utf8(a) == encode_utf8(b) {
        encode_utf8_decode_utf8(a);
        encode_utf8_decode_utf8(b);
    }
}

/// No two names are ordered both ways.
pub proof fn lemma_name_lt_asymmetric(a: Seq<char>, b: Seq<char>)
    requires
        name_lt(a, b),
    ensures
        !name_lt(b, a),
        a != b,
{
    lemma_name_lt_irreflexive(a);
    if name_lt(b, a) {
        lemma_name_lt_transitive(a, b, a);
    }
}

/// The order of names, character by character: it is the order of names
/// for names of ASCII characters.
pub open spec fn ascii_lt(a: Seq<char>, b: Seq<char>) -> bool
    decreases a.len(),
{
    if b.len() == 0 {
        false
    } else if a.len() == 0 {
        true
    } else if a[0] != b[0] {
        a[0] < b[0]
    } else {
        ascii_lt(a.drop_first(), b.drop_first())
    }
}

/// Names of ASCII characters are ordered as their characters are.
pub proof fn lemma_name_lt_ascii(a: Seq<char>, b: Seq<char>)
    requires
        is_ascii_chars(a),
        is_ascii_chars(b),
    ensures
        name_lt(a, b) == ascii_lt(a, b),
    decreases a.len(),
{
    is_ascii_chars_encode_utf8(a);
    is_ascii_chars_encode_utf8(b);
    if a.len() > 0 && b.len() > 0 {
        let rest_a = a.drop_first();
        let rest_b = b.drop_first();
        assert(is_ascii_chars(rest_a)) by {
            assert forall|i: int| 0 <= i < rest_a.len() implies '\0' <= #[trigger] rest_a[i]
                <= '\u{7f}' by {
                assert(rest_a[i] == a[i + 1]);
            }
        }
        assert(is_ascii_chars(rest_b)) by {
            assert forall|i: int| 0 <= i < rest_b.len() implies '\0' <= #[trigger] rest_b[i]
                <= '\u{7f}' by {
                assert(rest_b[i] == b[i + 1]);
            }
        }
        is_ascii_chars_encode_utf8(rest_a);
        is_ascii_chars_encode_utf8(rest_b);
        assert(encode_utf8(a).drop_first() =~= encode_utf8(rest_a)) by {
            assert forall|i: int| 0 <= i < rest_a.len() implies encode_utf8(a).drop_first()[i]
                == encode_utf8(rest_a)[i] by {
                assert(rest_a[i] == a[i + 1]);
            }
        }
        assert(encode_utf8(b).drop_first() =~= encode_utf8(rest_b)) by {
            assert forall|i: int| 0 <= i < rest_b.len() implies encode_utf8(b).drop_first()[i]
                == encode_utf8(rest_b)[i] by {
                assert(rest_b[i] == b[i + 1]);
            }
        }
        lemma_name_lt_ascii(rest_a, rest_b);
        let x = a[0];
        let y = b[0];
        assert('\0' <= x <= '\u{7f}');
        assert('\0' <= y <= '\u{7f}');
        assert(x as u8 == encode_utf8(a)[0]);
        assert(y as u8 == encode_utf8(b)[0]);
        assert((x as u8 == y as u8) == (x == y));
        assert((x as u8) < (y as u8) <==> x < y);
    }
}

/// The last position of `names` that holds `name`.
pub open spec fn last_position(names: Seq<Seq<char>>, name: Seq<char>) -> Option<int>
    decreases names.len(),
{
    if names.len() == 0 {
        None
    } else if names.last() == name {
        Some(names.len() - 1)
    } else {
        last_position(names.drop_last(), name)
    }
}

/// The names that stand at the positions `order` of `names`.
pub open spec fn picked(names: Seq<Seq<char>>, order: Seq<usize>) -> Seq<Seq<char>> {
    Seq::new(order.len(), |k: int| names[order[k] as int])
}

/// What `last_position` finds is the last occurrence, and it finds one
/// wherever the name occurs.
pub proof fn lemma_last_position(names: Seq<Seq<char>>, name: Seq<char>)
    ensures
        match last_position(names, name) {
            Some(i) => 0 <= i < names.len() && names[i] == name && forall|j: int|
                i < j < names.len() ==> names[j] != name,
            None => !names.contains(name),
        },
    decreases names.len(),
{
    if names.len() > 0 && names.last() != name {
        lemma_last_position(names.drop_last(), name);
        match last_position(names, name) {
            Some(i) => {
                assert forall|j: int| i < j < names.len() implies names[j] != name by {
                    if j < names.len() - 1 {
                        assert(names.drop_last()[j] == names[j]);
                    }
                }
            },
            None => {
                assert forall|j: int| 0 <= j < names.len() implies names[j] != name by {
                    if j < names.len() - 1 {
                        assert(names.drop_last()[j] == names[j]);
                        assert(names.drop_last().contains(names[j]));
                    }
                }
            },
        }
    }
}

/// A position is the last one of its name exactly when the name does not
/// occur behind it.
pub proof fn lemma_last_position_is(names: Seq<Seq<char>>, i: int)
    requires
        0 <= i < names.len(),
        forall|j: int| i < j < names.len() ==> names[j] != names[i],
    ensures
        last_position(names, names[i]) == Some(i),
{
    lemma_last_position(names, names[i]);
    assert(names.contains(names[i]));
}

/// In an ascending listing no name occurs twice.
pub proof fn lemma_ascending_distinct(listing: Seq<Seq<char>>, i: int, j: int)
    requires
        strictly_ascending(listing),
        0 <= i < listing.len(),
        0 <= j < listing.len(),
        i != j,
    ensures
        listing[i] != listing[j],
{
    if i < j {
        lemma_name_lt_asymmetric(listing[i], listing[j]);
    } else {
        lemma_name_lt_asymmetric(listing[j], listing[i]);
    }
}

/// A set of names has at most one ascending listing.
pub proof fn lemma_ascending_unique(v: Seq<Seq<char>>, w: Seq<Seq<char>>, names: Set<Seq<char>>)
    requires
        lists_ascending(v, names),
        lists_ascending(w, names),
    ensures
        v == w,
    decreases v.len(),
{
    if v.len() == 0 {
        if w.len() > 0 {
            assert(w.contains(w[0]));
            assert(v.contains(w[0]));
        }
        assert(v =~= w);
    } else if w.len() == 0 {
        assert(v.contains(v[0]));
        assert(w.contains(v[0]));
    } else {
        let top = v.last();
        assert(v.contains(top));
        assert(w.contains(top));
        let at = choose|k: int| 0 <= k < w.len() && w[k] == top;
        assert(w.contains(w.last()));
        assert(v.contains(w.last()));
        let back = choose|k: int| 0 <= k < v.len() && v[k] == w.last();
        if at < w.len() - 1 {
            // top < w.last() == v[back], while v[back] is top or comes before it
            if back < v.len() - 1 {
                lemma_name_lt_asymmetric(v[back], top);
            } else {
                lemma_name_lt_irreflexive(top);
            }
            assert(false);
        }
        let rest = names.remove(top);
        assert forall|n: Seq<char>| v.drop_last().contains(n) <==> rest.contains(n) by {
            if v.drop_last().contains(n) {
                let k = choose|k: int| 0 <= k < v.drop_last().len() && v.drop_last()[k] == n;
                assert(v[k] == n);
                assert(v.contains(n));
                lemma_ascending_distinct(v, k, v.len() - 1);
            }
            if rest.contains(n) {
                assert(v.contains(n));
                let k = choose|k: int| 0 <= k < v.len() && v[k] == n;
                assert(v.drop_last()[k] == n);
            }
        }
        assert forall|n: Seq<char>| w.drop_last().contains(n) <==> rest.contains(n) by {
            if w.drop_last().contains(n) {
                let k = choose|k: int| 0 <= k < w.drop_last().len() && w.drop_last()[k] == n;
                assert(w[k] == n);
                assert(w.contains(n));
                lemma_ascending_distinct(w, k, w.len() - 1);
            }
            if rest.contains(n) {
                assert(w.contains(n));
                let k = choose|k: int| 0 <= k < w.len() && w[k] == n;
                assert(w.drop_last()[k] == n);
            }
        }
        assert(strictly_ascending(v.drop_last())) by {
            assert forall|i: int, j: int| 0 <= i < j < v.drop_last().len() implies name_lt(
                v.drop_last()[i],
                v.drop_last()[j],
            ) by {
                assert(name_lt(v[i], v[j]));
            }
        }
        assert(strictly_ascending(w.drop_last())) by {
            assert forall|i: int, j: int| 0 <= i < j < w.drop_last().len() implies name_lt(
                w.drop_last()[i],
                w.drop_last()[j],
            ) by {
                assert(name_lt(w[i], w[j]));
            }
        }
        lemma_ascending_unique(v.drop_last(), w.drop_last(), rest);
        assert(v =~= v.drop_last().push(top));
        assert(w =~= w.drop_last().push(top));
    }
}

/// A listing that is ascending and holds exactly the names of a set is the
/// ascending listing of that set.
pub proof fn lemma_ascending_is(listing: Seq<Seq<char>>, names: Set<Seq<char>>)
    requires
        lists_ascending(listing, names),
    ensures
        ascending(names) == listing,
{
    lemma_ascending_unique(ascending(names), listing, names);
}

/// An ascending listing with one more name put in its place.
pub open spec fn inserted(listing: Seq<Seq<char>>, name: Seq<char>) -> Seq<Seq<char>>
    decreases listing.len(),
{
    if listing.len() == 0 || name_lt(listing.last(), name) {
        listing.push(name)
    } else {
        inserted(listing.drop_last(), name).push(listing.last())
    }
}

/// Putting a new name in its place keeps a listing ascending and adds that
/// name only.
pub proof fn lemma_inserted(listing: Seq<Seq<char>>, name: Seq<char>)
    requires
        strictly_ascending(listing),
        !listing.contains(name),
    ensures
        strictly_ascending(inserted(listing, name)),
        forall|n: Seq<char>| inserted(listing, name).contains(n) <==> listing.contains(n) || n == name,
    decreases listing.len(),
{
    let result = inserted(listing, name);
    if listing.len() == 0 {
        assert forall|n: Seq<char>| result.contains(n) <==> listing.contains(n) || n == name by {
            if n == name {
                assert(result[0] == n);
            }
        }
    } else if name_lt(listing.last(), name) {
        assert forall|i: int, j: int| 0 <= i < j < result.len() implies name_lt(
            result[i],
            result[j],
        ) by {
            if j == result.len() - 1 {
                if i < listing.len() - 1 {
                    assert(name_lt(listing[i], listing.last()));
                    lemma_name_lt_transitive(listing[i], listing.last(), name);
                }
            } else {
                assert(name_lt(listing[i], listing[j]));
            }
        }
        assert forall|n: Seq<char>| result.contains(n) <==> listing.contains(n) || n == name by {
            if n == name {
                assert(result[result.len() - 1] == n);
            }
            if listing.contains(n) {
                let k = choose|k: int| 0 <= k < listing.len() && listing[k] == n;
                assert(result[k] == n);
            }
            if result.contains(n) {
                let k = choose|k: int| 0 <= k < result.len() && result[k] == n;
                if k < listing.len() {
                    assert(listing[k] == n);
                }
            }
        }
    } else {
        let front = listing.drop_last();
        let top = listing.last();
        assert(strictly_ascending(front)) by {
            assert forall|i: int, j: int| 0 <= i < j < front.len() implies name_lt(
                front[i],
                front[j],
            ) by {
                assert(name_lt(listing[i], listing[j]));
            }
        }
        assert(!front.contains(name)) by {
            if front.contains(name) {
                let k = choose|k: int| 0 <= k < front.len() && front[k] == name;
                assert(listing[k] == name);
            }
        }
        lemma_inserted(front, name);
        let inner = inserted(front, name);
        assert(listing.contains(top));
        lemma_name_lt_total(top, name);
        assert(name_lt(name, top));
        assert forall|i: int, j: int| 0 <= i < j < result.len() implies name_lt(
            result[i],
            result[j],
        ) by {
            if j == result.len() - 1 {
                assert(inner.contains(inner[i]));
                if inner[i] != name {
                    assert(front.contains(inner[i]));
                    let k = choose|k: int| 0 <= k < front.len() && front[k] == inner[i];
                    assert(name_lt(listing[k], listing[listing.len() - 1]));
                }
            } else {
                assert(name_lt(inner[i], inner[j]));
            }
        }
        assert forall|n: Seq<char>| result.contains(n) <==> listing.contains(n) || n == name by {
            if result.contains(n) {
                let k = choose|k: int| 0 <= k < result.len() && result[k] == n;
                if k < inner.len() {
                    assert(inner.contains(n));
                    if n != name {
                        assert(front.contains(n));
                        let q = choose|q: int| 0 <= q < front.len() && front[q] == n;
                        assert(listing[q] == n);
                    }
                }
            }
            if n == name {
                assert(inner.contains(n));
                let q = choose|q: int| 0 <= q < inner.len() && inner[q] == n;
                assert(result[q] == n);
            }
            if listing.contains(n) {
                let k = choose|k: int| 0 <= k < listing.len() && listing[k] == n;
                if k < front.len() {
                    assert(front[k] == n);
                    assert(front.contains(n));
                    assert(inner.contains(n));
                    let q = choose|q: int| 0 <= q < inner.len() && inner[q] == n;
                    assert(result[q] == n);
                } else {
                    assert(result[result.len() - 1] == n);
                }
            }
        }
    }
}

/// A set of names that all occur in a list has an ascending listing, and
/// `ascending` is it.
pub proof fn lemma_ascending_lists_within(names: Seq<Seq<char>>, some: Set<Seq<char>>)
    requires
        forall|n: Seq<char>| some.contains(n) ==> names.contains(n),
    ensures
        lists_ascending(ascending(some), some),
    decreases names.len(),
{
    if names.len() == 0 {
        let nothing = Seq::<Seq<char>>::empty();
        assert forall|n: Seq<char>| !some.contains(n) by {
            if some.contains(n) {
                assert(names.contains(n));
            }
        }
        assert(lists_ascending(nothing, some));
    } else {
        let front = names.drop_last();
        let top = names.last();
        let rest = some.remove(top);
        assert forall|n: Seq<char>| rest.contains(n) implies front.contains(n) by {
            assert(names.contains(n));
            let k = choose|k: int| 0 <= k < names.len() && names[k] == n;
            assert(front[k] == n);
        }
        lemma_ascending_lists_within(front, rest);
        let listed = ascending(rest);
        if some.contains(top) {
            lemma_inserted(listed, top);
            assert(lists_ascending(inserted(listed, top), some));
        } else {
            assert(lists_ascending(listed, some));
        }
    }
}

/// The names of a list have an ascending listing, and `ascending` is it.
pub proof fn lemma_ascending_lists(names: Seq<Seq<char>>)
    ensures
        lists_ascending(ascending(names.to_set()), names.to_set()),
{
    lemma_ascending_lists_within(names, names.to_set());
}

/// Whether `a` comes strictly before `b` in the order of names.
pub fn name_before(a: &String, b: &String) -> (before: bool)
    ensures
        before == name_lt(a@, b@),
{
    let x = a.as_str().as_bytes();
    let y = b.as_str().as_bytes();
    let mut i: usize = 0;
    proof {
        assert(x@.skip(0) =~= x@);
        assert(y@.skip(0) =~= y@);
    }
    while i < x.len() && i < y.len()
        invariant
            i <= x.len(),
            i <= y.len(),
            x@ == encode_utf8(a@),
            y@ == encode_utf8(b@),
            bytes_lt(x@, y@) == bytes_lt(x@.skip(i as int), y@.skip(i as int)),
        decreases x.len() - i,
    {
        proof {
            assert(x@.skip(i as int).drop_first() =~= x@.skip(i as int + 1));
            assert(y@.skip(i as int).drop_first() =~= y@.skip(i as int + 1));
        }
        if x[i] != y[i] {
            return x[i] < y[i];
        }
        i += 1;
    }
    i < y.len()
}

/// Finds the last position of `names` that holds `name`.
pub fn position_of(names: &Vec<String>, name: &String) -> (position: Option<usize>)
    ensures
        match position {
            Some(i) => i < names.len() && names[i as int]@ == name@ && last_position(
                names.deep_view(),
                name@,
            ) == Some(i as int),
            None => last_position(names.deep_view(), name@) is None,
        },
{
    let mut position: Option<usize> = None;
    let mut i: usize = 0;
    while i < names.len()
        invariant
            i <= names.len(),
            match position {
                Some(at) => at < i && names[at as int]@ == name@ && last_position(
                    names.deep_view().take(i as int),
                    name@,
                ) == Some(at as int),
                None => last_position(names.deep_view().take(i as int), name@) is None,
            },
        decreases names.len() - i,
    {
        proof {
            let next = names.deep_view().take(i as int + 1);
            assert(next.drop_last() =~= names.deep_view().take(i as int));
            assert(next.last() == names[i as int]@);
        }
        if names[i] == *name {
            position = Some(i);
        }
        i += 1;
    }
    assert(names.deep_view().take(names.len() as int) =~= names.deep_view());
    position
}

/// Lists the positions of `names` in the ascending order of the names they
/// hold. Of a name that occurs more than once only the last position is
/// listed.
pub fn ascending_order(names: &Vec<String>) -> (order: Vec<usize>)
    ensures
        forall|k: int| 0 <= k < order.len() ==> order[k] < names.len(),
        picked(names.deep_view(), order@) == ascending(names.deep_view().to_set()),
        lists_ascending(picked(names.deep_view(), order@), names.deep_view().to_set()),
        forall|k: int|
            0 <= k < order.len() ==> last_position(
                names.deep_view(),
                #[trigger] names.deep_view()[order[k] as int],
            ) == Some(order[k] as int),
{
    let ghost all = names.deep_view();
    let mut order: Vec<usize> = Vec::new();
    let mut i: usize = 0;
    while i < names.len()
        invariant
            i <= names.len(),
            all == names.deep_view(),
            forall|k: int| 0 <= k < order.len() ==> order[k] < i,
            strictly_ascending(picked(all, order@)),
            forall|n: Seq<char>| picked(all, order@).contains(n) <==> all.take(i as int).contains(n),
            forall|k: int|
                0 <= k < order.len() ==> last_position(
                    all.take(i as int),
                    #[trigger] all[order[k] as int],
                ) == Some(order[k] as int),
        decreases names.len() - i,
    {
        let name = &names[i];
        let ghost before = order@;
        let ghost listed = picked(all, before);
        let mut p: usize = 0;
        while p < order.len() && name_before(&names[order[p]], name)
            invariant
                p <= order.len(),
                order@ == before,
                all == names.deep_view(),
                name@ == all[i as int],
                i < names.len(),
                forall|k: int| 0 <= k < order.len() ==> order[k] < i,
                forall|q: int| 0 <= q < p ==> name_lt(#[trigger] listed[q], name@),
                listed == picked(all, before),
            decreases order.len() - p,
        {
            assert(listed[p as int] == all[order[p as int] as int]);
            p += 1;
        }
        let replace = p < order.len() && names[order[p]] == *name;
        if replace {
            order.set(p, i);
        } else {
            order.insert(p, i);
        }
        proof {
            lemma_step(all, i, before, order@, p as int, replace);
        }
        i += 1;
    }
    proof {
        assert(all.take(names.len() as int) =~= all);
        assert forall|n: Seq<char>| picked(all, order@).contains(n) <==> all.to_set().contains(
            n,
        ) by {}
        lemma_ascending_is(picked(all, order@), all.to_set());
    }
    order
}

/// One step of listing positions in ascending order: the position `i` takes
/// the place `p` of the listing, in place of an earlier position of the same
/// name or between its neighbours.
proof fn lemma_step(
    all: Seq<Seq<char>>,
    at: usize,
    before: Seq<usize>,
    after: Seq<usize>,
    p: int,
    replace: bool,
)
    requires
        at < all.len(),
        0 <= p <= before.len(),
        forall|k: int| 0 <= k < before.len() ==> before[k] < at,
        strictly_ascending(picked(all, before)),
        forall|n: Seq<char>| picked(all, before).contains(n) <==> all.take(at as int).contains(n),
        forall|k: int|
            0 <= k < before.len() ==> last_position(
                all.take(at as int),
                #[trigger] all[before[k] as int],
            ) == Some(before[k] as int),
        forall|q: int| 0 <= q < p ==> name_lt(#[trigger] picked(all, before)[q], all[at as int]),
        p < before.len() ==> !name_lt(picked(all, before)[p], all[at as int]),
        replace == (p < before.len() && picked(all, before)[p] == all[at as int]),
        replace ==> after == before.update(p, at),
        !replace ==> after == before.insert(p, at),
    ensures
        forall|k: int| 0 <= k < after.len() ==> after[k] < at + 1,
        strictly_ascending(picked(all, after)),
        forall|n: Seq<char>| picked(all, after).contains(n) <==> all.take(at + 1).contains(n),
        forall|k: int|
            0 <= k < after.len() ==> last_position(
                all.take(at + 1),
                #[trigger] all[after[k] as int],
            ) == Some(after[k] as int),
{
    let i = at as int;
    let old_names = picked(all, before);
    let new_names = picked(all, after);
    let name = all[i];
    let next = all.take(i + 1);
    assert(next.drop_last() =~= all.take(i));
    assert(next.last() == name);
    // every listed name behind the place comes after the new name
    assert forall|q: int| p <= q < before.len() && !(replace && q == p) implies name_lt(
        name,
        #[trigger] old_names[q],
    ) by {
        lemma_name_lt_total(old_names[p], name);
        if !replace {
            assert(old_names[p] != name);
        }
        if q > p {
            assert(name_lt(old_names[p], old_names[q]));
            if old_names[p] != name {
                lemma_name_lt_transitive(name, old_names[p], old_names[q]);
            }
        }
    }
    if replace {
        assert(new_names =~= old_names);
        assert forall|n: Seq<char>| new_names.contains(n) <==> next.contains(n) by {
            if next.contains(n) {
                let k = choose|k: int| 0 <= k < next.len() && next[k] == n;
                if k < i {
                    assert(all.take(i)[k] == n);
                    assert(all.take(i).contains(n));
                } else {
                    assert(old_names[p] == n);
                }
            }
            if new_names.contains(n) {
                assert(all.take(i).contains(n));
                let k = choose|k: int| 0 <= k < all.take(i).len() && all.take(i)[k] == n;
                assert(next[k] == n);
            }
        }
        assert forall|k: int| 0 <= k < after.len() implies last_position(
            next,
            #[trigger] all[after[k] as int],
        ) == Some(after[k] as int) by {
            if k != p {
                lemma_ascending_distinct(old_names, k, p);
                assert(old_names[k] == all[before[k] as int]);
            }
        }
    } else {
        assert(new_names =~= old_names.insert(p, name));
        assert forall|a: int, b: int| 0 <= a < b < new_names.len() implies name_lt(
            new_names[a],
            new_names[b],
        ) by {
            if b < p {
                assert(name_lt(old_names[a], old_names[b]));
            } else if b == p {
                assert(name_lt(old_names[a], name));
            } else if a < p {
                assert(name_lt(old_names[a], old_names[b - 1]));
            } else if a == p {
                assert(name_lt(name, old_names[b - 1]));
            } else {
                assert(name_lt(old_names[a - 1], old_names[b - 1]));
            }
        }
        assert forall|n: Seq<char>| new_names.contains(n) <==> next.contains(n) by {
            if next.contains(n) {
                let k = choose|k: int| 0 <= k < next.len() && next[k] == n;
                if k < i {
                    assert(all.take(i)[k] == n);
                    assert(all.take(i).contains(n));
                    assert(old_names.contains(n));
                    let q = choose|q: int| 0 <= q < old_names.len() && old_names[q] == n;
                    if q < p {
                        assert(new_names[q] == n);
                    } else {
                        assert(new_names[q + 1] == n);
                    }
                } else {
                    assert(new_names[p] == n);
                }
            }
            if new_names.contains(n) {
                let q = choose|q: int| 0 <= q < new_names.len() && new_names[q] == n;
                if q == p {
                    assert(next[i] == n);
                } else {
                    let back = if q < p {
                        q
                    } else {
                        q - 1
                    };
                    assert(old_names[back] == n);
                    assert(old_names.contains(n));
                    assert(all.take(i).contains(n));
                    let k = choose|k: int| 0 <= k < all.take(i).len() && all.take(i)[k] == n;
                    assert(next[k] == n);
                }
            }
        }
        assert forall|k: int| 0 <= k < after.len() implies last_position(
            next,
            #[trigger] all[after[k] as int],
        ) == Some(after[k] as int) by {
            if k != p {
                let back = if k < p {
                    k
                } else {
                    k - 1
                };
                assert(after[k] == before[back]);
                assert(old_names[back] == all[before[back] as int]);
                if back < p {
                    lemma_name_lt_asymmetric(old_names[back], name);
                } else {
                    lemma_name_lt_asymmetric(name, old_names[back]);
                }
            }
        }
    }
}

} // verus!
