use vstd::prelude::*;

use crate::flatten::{
    flat_each, flat_entries, flat_indexed, flat_value, insert, insert_all, last_index, merge,
    Entries, Flattener, JoinFn,
};
use crate::join::{decimal, KeyJoin};
use crate::value::{Json, JsonValue};

verus! {

/// A value with no nested containers.
pub open spec fn is_scalar(v: Json) -> bool {
    !(v is Object) && !(v is Array)
}

/// No two entries share a key.
pub open spec fn keys_unique(es: Entries) -> bool {
    forall|a: int, b: int| 0 <= a < b < es.len() ==> es[a].0 != es[b].0
}

/// Flattening is a function of the value and the configuration alone: two
/// values with the same model flatten to the same model.
pub proof fn lemma_flatten_deterministic<J: KeyJoin>(f: Flattener<J>, a: JsonValue, b: JsonValue)
    requires
        a@ == b@,
    ensures
        f.flat_spec(a@) == f.flat_spec(b@),
{
}

/// Flattening each element of an array keeps the array's length, and each
/// element is flattened on its own from an empty path.
pub proof fn lemma_flat_each(join: JoinFn, flat_array: bool, xs: Seq<Json>)
    ensures
        flat_each(join, flat_array, xs).len() == xs.len(),
        forall|i: int|
            0 <= i < xs.len() ==> #[trigger] flat_each(join, flat_array, xs)[i] == flat_value(
                join,
                flat_array,
                xs[i],
                Seq::empty(),
            ),
    decreases xs.len(),
{
    if xs.len() > 0 {
        lemma_flat_each(join, flat_array, xs.subrange(0, xs.len() - 1));
    }
}

/// With arrays kept as arrays, a flattened array has the input's length, and
/// its elements are the inputs' elements flattened each on its own.
pub proof fn lemma_array_shape<J: KeyJoin>(f: Flattener<J>, xs: Seq<Json>)
    requires
        !f.flat_array,
    ensures
        f.flat_spec(Json::Array(xs)) is Array,
        f.flat_spec(Json::Array(xs))->Array_0.len() == xs.len(),
        forall|i: int|
            0 <= i < xs.len() ==> #[trigger] f.flat_spec(Json::Array(xs))->Array_0[i] == f.flat_spec(
                xs[i],
            ),
{
    lemma_flat_each(f.join_fn(), f.flat_array, xs);
}

proof fn lemma_last_index_absent(s: Entries, k: Seq<char>)
    requires
        forall|i: int| 0 <= i < s.len() ==> s[i].0 != k,
    ensures
        last_index(s, k) == -1,
    decreases s.len(),
{
    if s.len() > 0 {
        lemma_last_index_absent(s.drop_last(), k);
    }
}

/// Flattening a well-formed object whose values are all scalars gives the
/// object back, under any join policy that leaves a one-segment path as that
/// segment.
pub proof fn lemma_flat_object_unchanged<J: KeyJoin>(f: Flattener<J>, es: Entries)
    requires
        well_formed(Json::Object(es)),
        forall|i: int| 0 <= i < es.len() ==> is_scalar(#[trigger] es[i].1),
        forall|k: Seq<char>| #[trigger] f.flat_key_cb.join_spec(seq![k]) == k,
    ensures
        f.flat_spec(Json::Object(es)) == Json::Object(es),
    decreases es.len(),
{
    lemma_flat_entries_unchanged(f, es);
}

proof fn lemma_flat_entries_unchanged<J: KeyJoin>(f: Flattener<J>, es: Entries)
    requires
        keys_unique(es),
        forall|i: int| 0 <= i < es.len() ==> is_scalar(#[trigger] es[i].1),
        forall|k: Seq<char>| #[trigger] f.flat_key_cb.join_spec(seq![k]) == k,
    ensures
        flat_entries(f.join_fn(), f.flat_array, es, Seq::empty()) == es,
    decreases es.len(),
{
    if es.len() > 0 {
        let n = es.len() - 1;
        let front = es.subrange(0, n);
        let (k, v) = es[n];
        assert forall|i: int| 0 <= i < front.len() implies is_scalar(#[trigger] front[i].1) by {
            assert(front[i] == es[i]);
        }
        lemma_flat_entries_unchanged(f, front);
        let p = Seq::<Seq<char>>::empty().push(k);
        assert(p == seq![k]);
        assert(is_scalar(es[n].1));
        assert forall|i: int| 0 <= i < front.len() implies front[i].0 != k by {
            assert(front[i] == es[i]);
        }
        lemma_last_index_absent(front, k);
        assert(f.join_fn()(p) == k);
        assert(flat_value(f.join_fn(), f.flat_array, v, p) == v);
        assert(flat_entries(f.join_fn(), f.flat_array, es, Seq::empty()) == merge(
            flat_entries(f.join_fn(), f.flat_array, front, Seq::empty()),
            f.join_fn()(p),
            flat_value(f.join_fn(), f.flat_array, v, p),
        ));
        assert(insert(front, k, v) =~= es);
    }
}

/// An empty object, or an empty array where arrays are flattened, adds no
/// entry when merged into its parent's flat object.
pub proof fn lemma_empty_child_adds_nothing(
    join: JoinFn,
    flat_array: bool,
    acc: Entries,
    key: Seq<char>,
    child: Json,
    path: Seq<Seq<char>>,
)
    requires
        child == Json::Object(Seq::empty()) || (flat_array && child == Json::Array(Seq::empty())),
    ensures
        merge(acc, key, flat_value(join, flat_array, child, path)) == acc,
{
}

/// Removing an entry whose value is an empty container (an empty array only
/// where arrays are flattened) from an object leaves its flattened form as it
/// was.
pub proof fn lemma_empty_entry_erased(
    join: JoinFn,
    flat_array: bool,
    front: Entries,
    k: Seq<char>,
    child: Json,
    back: Entries,
    path: Seq<Seq<char>>,
)
    requires
        child == Json::Object(Seq::empty()) || (flat_array && child == Json::Array(Seq::empty())),
    ensures
        flat_entries(join, flat_array, front.push((k, child)) + back, path) == flat_entries(
            join,
            flat_array,
            front + back,
            path,
        ),
    decreases back.len(),
{
    if back.len() == 0 {
        assert(front.push((k, child)) + back =~= front.push((k, child)));
        assert(front + back =~= front);
        assert(front.push((k, child)).subrange(0, front.len() as int) =~= front);
        let q = path.push(k);
        lemma_empty_child_adds_nothing(join, flat_array, flat_entries(join, flat_array, front, path), join(q), child, q);
    } else {
        let b = back.subrange(0, back.len() - 1);
        lemma_empty_entry_erased(join, flat_array, front, k, child, b, path);
        let l = front.push((k, child)) + back;
        let r = front + back;
        assert(l.subrange(0, l.len() - 1) =~= front.push((k, child)) + b);
        assert(r.subrange(0, r.len() - 1) =~= front + b);
        assert(l[l.len() - 1] == back[back.len() - 1]);
        assert(r[r.len() - 1] == back[back.len() - 1]);
        let (bk, bv) = back[back.len() - 1];
        let q = path.push(bk);
        assert(flat_entries(join, flat_array, l, path) == merge(
            flat_entries(join, flat_array, front.push((k, child)) + b, path),
            join(q),
            flat_value(join, flat_array, bv, q),
        ));
        assert(flat_entries(join, flat_array, r, path) == merge(
            flat_entries(join, flat_array, front + b, path),
            join(q),
            flat_value(join, flat_array, bv, q),
        ));
    }
}

/// Some entry of `s` has key `k`.
pub open spec fn has_key(s: Entries, k: Seq<char>) -> bool {
    exists|i: int| 0 <= i < s.len() && s[i].0 == k
}

/// Follows the positions `idxs` down from `v`, through object entries and,
/// where arrays are flattened, array elements; gives the key segments passed
/// (an element's segment is its index in decimal) and the value reached.
pub open spec fn follow(flat_array: bool, v: Json, idxs: Seq<int>) -> Option<(Seq<Seq<char>>, Json)>
    decreases idxs.len(),
{
    if idxs.len() == 0 {
        Some((Seq::empty(), v))
    } else {
        let i = idxs[0];
        match v {
            Json::Object(es) => if 0 <= i < es.len() {
                match follow(flat_array, es[i].1, idxs.drop_first()) {
                    Some(r) => Some((seq![es[i].0] + r.0, r.1)),
                    None => None,
                }
            } else {
                None
            },
            Json::Array(xs) => if flat_array && 0 <= i < xs.len() {
                match follow(flat_array, xs[i], idxs.drop_first()) {
                    Some(r) => Some((seq![decimal(i as nat)] + r.0, r.1)),
                    None => None,
                }
            } else {
                None
            },
            _ => None,
        }
    }
}

/// `new` keeps every key of `old` at its position.
pub open spec fn extends_keys(old: Entries, new: Entries) -> bool {
    old.len() <= new.len() && forall|j: int| 0 <= j < old.len() ==> #[trigger] new[j].0 == old[j].0
}

proof fn lemma_last_index_range(s: Entries, k: Seq<char>)
    ensures
        -1 <= last_index(s, k) < s.len(),
        last_index(s, k) >= 0 ==> s[last_index(s, k)].0 == k,
    decreases s.len(),
{
    if s.len() > 0 {
        lemma_last_index_range(s.drop_last(), k);
    }
}

proof fn lemma_insert_keys(s: Entries, k: Seq<char>, v: Json)
    ensures
        extends_keys(s, insert(s, k, v)),
        has_key(insert(s, k, v), k),
{
    lemma_last_index_range(s, k);
    let i = last_index(s, k);
    if i < 0 {
        assert(insert(s, k, v)[s.len() as int].0 == k);
    } else {
        assert(insert(s, k, v)[i].0 == k);
    }
}

proof fn lemma_insert_all_keys(s: Entries, m: Entries)
    ensures
        extends_keys(s, insert_all(s, m)),
        forall|t: int| 0 <= t < m.len() ==> has_key(insert_all(s, m), #[trigger] m[t].0),
    decreases m.len(),
{
    if m.len() > 0 {
        let d = m.drop_last();
        lemma_insert_all_keys(s, d);
        let prev = insert_all(s, d);
        lemma_insert_keys(prev, m.last().0, m.last().1);
        assert forall|t: int| 0 <= t < m.len() implies has_key(insert_all(s, m), #[trigger] m[t].0) by {
            if t < d.len() {
                assert(d[t] == m[t]);
                let w = choose|w: int| 0 <= w < prev.len() && prev[w].0 == d[t].0;
                assert(insert_all(s, m)[w].0 == m[t].0);
            }
        }
    }
}

proof fn lemma_merge_keys(s: Entries, key: Seq<char>, child: Json)
    ensures
        extends_keys(s, merge(s, key, child)),
{
    match child {
        Json::Object(m) => lemma_insert_all_keys(s, m),
        _ => lemma_insert_keys(s, key, child),
    }
}

proof fn lemma_has_key_kept(old: Entries, new: Entries, k: Seq<char>)
    requires
        extends_keys(old, new),
        has_key(old, k),
    ensures
        has_key(new, k),
{
    let w = choose|w: int| 0 <= w < old.len() && old[w].0 == k;
    assert(new[w].0 == k);
}

proof fn lemma_flat_entries_keys(
    join: JoinFn,
    flat_array: bool,
    es: Entries,
    base: Seq<Seq<char>>,
    i: int,
)
    requires
        0 <= i <= es.len(),
    ensures
        extends_keys(
            flat_entries(join, flat_array, es.take(i), base),
            flat_entries(join, flat_array, es, base),
        ),
    decreases es.len(),
{
    if i == es.len() {
        assert(es.take(i) =~= es);
    } else {
        let d = es.subrange(0, es.len() - 1);
        lemma_flat_entries_keys(join, flat_array, d, base, i);
        assert(d.take(i) =~= es.take(i));
        let p = base.push(es[es.len() - 1].0);
        lemma_merge_keys(
            flat_entries(join, flat_array, d, base),
            join(p),
            flat_value(join, flat_array, es[es.len() - 1].1, p),
        );
    }
}

proof fn lemma_flat_indexed_keys(
    join: JoinFn,
    flat_array: bool,
    xs: Seq<Json>,
    base: Seq<Seq<char>>,
    i: int,
)
    requires
        0 <= i <= xs.len(),
    ensures
        extends_keys(
            flat_indexed(join, flat_array, xs.take(i), base),
            flat_indexed(join, flat_array, xs, base),
        ),
    decreases xs.len(),
{
    if i == xs.len() {
        assert(xs.take(i) =~= xs);
    } else {
        let d = xs.subrange(0, xs.len() - 1);
        lemma_flat_indexed_keys(join, flat_array, d, base, i);
        assert(d.take(i) =~= xs.take(i));
        let p = base.push(decimal((xs.len() - 1) as nat));
        lemma_merge_keys(
            flat_indexed(join, flat_array, d, base),
            join(p),
            flat_value(join, flat_array, xs[xs.len() - 1], p),
        );
    }
}

/// The merge of a flattened child at `p` holds the key of a scalar reached
/// from that child along `rest`.
proof fn lemma_merge_path_key(
    join: JoinFn,
    flat_array: bool,
    acc: Entries,
    child: Json,
    p: Seq<Seq<char>>,
    idxs: Seq<int>,
    rest: Seq<Seq<char>>,
    leaf: Json,
)
    requires
        is_scalar(leaf),
        follow(flat_array, child, idxs) == Some((rest, leaf)),
    ensures
        has_key(merge(acc, join(p), flat_value(join, flat_array, child, p)), join(p + rest)),
    decreases idxs.len(), 1int,
{
    if idxs.len() == 0 {
        assert(p + rest =~= p);
        lemma_insert_keys(acc, join(p), leaf);
    } else {
        lemma_path_key(join, flat_array, child, p, idxs, rest, leaf);
        let m = flat_value(join, flat_array, child, p)->Object_0;
        lemma_insert_all_keys(acc, m);
        let w = choose|w: int| 0 <= w < m.len() && m[w].0 == join(p + rest);
        assert(has_key(insert_all(acc, m), m[w].0));
    }
}

proof fn lemma_path_key(
    join: JoinFn,
    flat_array: bool,
    v: Json,
    base: Seq<Seq<char>>,
    idxs: Seq<int>,
    q: Seq<Seq<char>>,
    leaf: Json,
)
    requires
        idxs.len() > 0,
        is_scalar(leaf),
        follow(flat_array, v, idxs) == Some((q, leaf)),
    ensures
        flat_value(join, flat_array, v, base) is Object,
        has_key(flat_value(join, flat_array, v, base)->Object_0, join(base + q)),
    decreases idxs.len(), 0int,
{
    let i = idxs[0];
    let tail = idxs.drop_first();
    match v {
        Json::Object(es) => {
            let rest = follow(flat_array, es[i].1, tail)->Some_0.0;
            let p = base.push(es[i].0);
            assert(base + q =~= p + rest);
            let acc = flat_entries(join, flat_array, es.take(i), base);
            assert(es.take(i + 1).subrange(0, i) =~= es.take(i));
            lemma_merge_path_key(join, flat_array, acc, es[i].1, p, tail, rest, leaf);
            lemma_flat_entries_keys(join, flat_array, es, base, i + 1);
            lemma_has_key_kept(
                flat_entries(join, flat_array, es.take(i + 1), base),
                flat_entries(join, flat_array, es, base),
                join(base + q),
            );
        },
        Json::Array(xs) => {
            let rest = follow(flat_array, xs[i], tail)->Some_0.0;
            let p = base.push(decimal(i as nat));
            assert(base + q =~= p + rest);
            let acc = flat_indexed(join, flat_array, xs.take(i), base);
            assert(xs.take(i + 1).subrange(0, i) =~= xs.take(i));
            lemma_merge_path_key(join, flat_array, acc, xs[i], p, tail, rest, leaf);
            lemma_flat_indexed_keys(join, flat_array, xs, base, i + 1);
            lemma_has_key_kept(
                flat_indexed(join, flat_array, xs.take(i + 1), base),
                flat_indexed(join, flat_array, xs, base),
                join(base + q),
            );
        },
        _ => {},
    }
}

/// A scalar reached from the input through object entries (and array
/// elements, where arrays are flattened) at a non-empty path of key segments
/// leaves an entry in the flat object under the joined path. A later entry
/// whose key joins to the same text may have replaced its value.
pub proof fn lemma_scalar_path_has_key<J: KeyJoin>(
    f: Flattener<J>,
    v: Json,
    idxs: Seq<int>,
    path: Seq<Seq<char>>,
    leaf: Json,
)
    requires
        idxs.len() > 0,
        is_scalar(leaf),
        follow(f.flat_array, v, idxs) == Some((path, leaf)),
    ensures
        f.flat_spec(v) is Object,
        has_key(f.flat_spec(v)->Object_0, f.flat_key_cb.join_spec(path)),
{
    lemma_path_key(f.join_fn(), f.flat_array, v, Seq::empty(), idxs, path, leaf);
    assert(Seq::<Seq<char>>::empty() + path =~= path);
}

/// Each entry of `merge(s, key, child)` is an entry of `s`, the child under
/// `key`, or an entry of the child's object.
pub open spec fn merge_source(s: Entries, key: Seq<char>, child: Json, e: (Seq<char>, Json)) -> bool {
    (exists|u: int| 0 <= u < s.len() && s[u] == e) || (!(child is Object) && e == (key, child)) || (
    child is Object && exists|u: int| 0 <= u < child->Object_0.len() && child->Object_0[u] == e)
}

proof fn lemma_insert_source(s: Entries, k: Seq<char>, v: Json, t: int)
    requires
        0 <= t < insert(s, k, v).len(),
    ensures
        (exists|u: int| 0 <= u < s.len() && s[u] == insert(s, k, v)[t]) || insert(s, k, v)[t] == (k, v),
{
    lemma_last_index_range(s, k);
    if t < s.len() && t != last_index(s, k) {
        assert(s[t] == insert(s, k, v)[t]);
    }
}

proof fn lemma_insert_all_source(s: Entries, m: Entries, t: int)
    requires
        0 <= t < insert_all(s, m).len(),
    ensures
        (exists|u: int| 0 <= u < s.len() && s[u] == insert_all(s, m)[t]) || (exists|u: int|
            0 <= u < m.len() && m[u] == insert_all(s, m)[t]),
    decreases m.len(),
{
    if m.len() > 0 {
        let d = m.drop_last();
        let prev = insert_all(s, d);
        lemma_insert_all_keys(s, d);
        lemma_insert_source(prev, m.last().0, m.last().1, t);
        let e = insert_all(s, m)[t];
        if exists|u: int| 0 <= u < prev.len() && prev[u] == e {
            let u = choose|u: int| 0 <= u < prev.len() && prev[u] == e;
            lemma_insert_all_source(s, d, u);
            if exists|w: int| 0 <= w < d.len() && d[w] == e {
                let w = choose|w: int| 0 <= w < d.len() && d[w] == e;
                assert(m[w] == e);
            }
        } else {
            assert(m[m.len() - 1] == e);
        }
    } else {
        assert(s[t] == insert_all(s, m)[t]);
    }
}

proof fn lemma_merge_source(s: Entries, key: Seq<char>, child: Json, t: int)
    requires
        0 <= t < merge(s, key, child).len(),
    ensures
        merge_source(s, key, child, merge(s, key, child)[t]),
{
    match child {
        Json::Object(m) => lemma_insert_all_source(s, m, t),
        _ => lemma_insert_source(s, key, child, t),
    }
}

/// The entry `e` of a flat object built at `base` is the flattened value
/// found in `v` at positions `idxs`, under its joined key.
pub open spec fn sourced(
    join: JoinFn,
    flat_array: bool,
    v: Json,
    base: Seq<Seq<char>>,
    idxs: Seq<int>,
    e: (Seq<char>, Json),
) -> bool {
    &&& idxs.len() > 0
    &&& follow(flat_array, v, idxs) is Some
    &&& e.0 == join(base + follow(flat_array, v, idxs)->Some_0.0)
    &&& e.1 == flat_value(
        join,
        flat_array,
        follow(flat_array, v, idxs)->Some_0.1,
        base + follow(flat_array, v, idxs)->Some_0.0,
    )
    &&& !(e.1 is Object)
}

proof fn lemma_value_source(join: JoinFn, flat_array: bool, v: Json, base: Seq<Seq<char>>, t: int)
    requires
        flat_value(join, flat_array, v, base) is Object,
        0 <= t < flat_value(join, flat_array, v, base)->Object_0.len(),
    ensures
        exists|idxs: Seq<int>|
            sourced(join, flat_array, v, base, idxs, flat_value(join, flat_array, v, base)->Object_0[t]),
    decreases v,
{
    match v {
        Json::Object(es) => lemma_entries_source(join, flat_array, es, base, t),
        Json::Array(xs) => lemma_indexed_source(join, flat_array, xs, base, t),
        _ => {},
    }
}

proof fn lemma_entries_source(join: JoinFn, flat_array: bool, es: Entries, base: Seq<Seq<char>>, t: int)
    requires
        0 <= t < flat_entries(join, flat_array, es, base).len(),
    ensures
        exists|idxs: Seq<int>|
            sourced(join, flat_array, Json::Object(es), base, idxs, flat_entries(join, flat_array, es, base)[t]),
    decreases es,
{
    let n = es.len() - 1;
    let d = es.subrange(0, n);
    let k = es[n].0;
    let c = es[n].1;
    let p = base.push(k);
    let fc = flat_value(join, flat_array, c, p);
    let acc = flat_entries(join, flat_array, d, base);
    let e = flat_entries(join, flat_array, es, base)[t];
    lemma_merge_source(acc, join(p), fc, t);
    if exists|u: int| 0 <= u < acc.len() && acc[u] == e {
        let u = choose|u: int| 0 <= u < acc.len() && acc[u] == e;
        lemma_entries_source(join, flat_array, d, base, u);
        let idxs = choose|idxs: Seq<int>| sourced(join, flat_array, Json::Object(d), base, idxs, e);
        let i = idxs[0];
        assert(d[i] == es[i]);
        assert(follow(flat_array, Json::Object(es), idxs) == follow(flat_array, Json::Object(d), idxs));
        assert(sourced(join, flat_array, Json::Object(es), base, idxs, e));
    } else if !(fc is Object) {
        let idxs = seq![n as int];
        assert(idxs.drop_first() =~= Seq::<int>::empty());
        assert(seq![k] + Seq::<Seq<char>>::empty() =~= seq![k]);
        assert(base + seq![k] =~= p);
        assert(follow(flat_array, c, Seq::<int>::empty()) == Some((Seq::<Seq<char>>::empty(), c)));
        assert(follow(flat_array, Json::Object(es), idxs) == Some((seq![k], c)));
        assert(sourced(join, flat_array, Json::Object(es), base, idxs, e));
    } else {
        let m = fc->Object_0;
        let u = choose|u: int| 0 <= u < m.len() && m[u] == e;
        lemma_value_source(join, flat_array, c, p, u);
        let inner = choose|idxs: Seq<int>| sourced(join, flat_array, c, p, idxs, e);
        let idxs = seq![n as int] + inner;
        assert(idxs.drop_first() =~= inner);
        let q = follow(flat_array, c, inner)->Some_0.0;
        let y = follow(flat_array, c, inner)->Some_0.1;
        assert(idxs[0] == n);
        assert(follow(flat_array, Json::Object(es), idxs) == Some((seq![k] + q, y)));
        assert(base + (seq![k] + q) =~= p + q);
        assert(sourced(join, flat_array, Json::Object(es), base, idxs, e));
    }
}

proof fn lemma_indexed_source(join: JoinFn, flat_array: bool, xs: Seq<Json>, base: Seq<Seq<char>>, t: int)
    requires
        flat_array,
        0 <= t < flat_indexed(join, flat_array, xs, base).len(),
    ensures
        exists|idxs: Seq<int>|
            sourced(join, flat_array, Json::Array(xs), base, idxs, flat_indexed(join, flat_array, xs, base)[t]),
    decreases xs,
{
    let n = xs.len() - 1;
    let d = xs.subrange(0, n);
    let k = decimal(n as nat);
    let c = xs[n];
    let p = base.push(k);
    let fc = flat_value(join, flat_array, c, p);
    let acc = flat_indexed(join, flat_array, d, base);
    let e = flat_indexed(join, flat_array, xs, base)[t];
    lemma_merge_source(acc, join(p), fc, t);
    if exists|u: int| 0 <= u < acc.len() && acc[u] == e {
        let u = choose|u: int| 0 <= u < acc.len() && acc[u] == e;
        lemma_indexed_source(join, flat_array, d, base, u);
        let idxs = choose|idxs: Seq<int>| sourced(join, flat_array, Json::Array(d), base, idxs, e);
        let i = idxs[0];
        assert(d[i] == xs[i]);
        assert(follow(flat_array, Json::Array(xs), idxs) == follow(flat_array, Json::Array(d), idxs));
        assert(sourced(join, flat_array, Json::Array(xs), base, idxs, e));
    } else if !(fc is Object) {
        let idxs = seq![n as int];
        assert(idxs.drop_first() =~= Seq::<int>::empty());
        assert(seq![k] + Seq::<Seq<char>>::empty() =~= seq![k]);
        assert(base + seq![k] =~= p);
        assert(follow(flat_array, c, Seq::<int>::empty()) == Some((Seq::<Seq<char>>::empty(), c)));
        assert(follow(flat_array, Json::Array(xs), idxs) == Some((seq![k], c)));
        assert(sourced(join, flat_array, Json::Array(xs), base, idxs, e));
    } else {
        let m = fc->Object_0;
        let u = choose|u: int| 0 <= u < m.len() && m[u] == e;
        lemma_value_source(join, flat_array, c, p, u);
        let inner = choose|idxs: Seq<int>| sourced(join, flat_array, c, p, idxs, e);
        let idxs = seq![n as int] + inner;
        assert(idxs.drop_first() =~= inner);
        let q = follow(flat_array, c, inner)->Some_0.0;
        let y = follow(flat_array, c, inner)->Some_0.1;
        assert(idxs[0] == n);
        assert(follow(flat_array, Json::Array(xs), idxs) == Some((seq![k] + q, y)));
        assert(base + (seq![k] + q) =~= p + q);
        assert(sourced(join, flat_array, Json::Array(xs), base, idxs, e));
    }
}

/// Every object in `v` is a mapping: no two of its entries share a key.
pub open spec fn well_formed(v: Json) -> bool
    decreases v, 1int,
{
    match v {
        Json::Object(es) => keys_unique(es) && values_well_formed(es),
        Json::Array(xs) => items_well_formed(xs),
        _ => true,
    }
}

/// Every value among the entries is well formed.
pub open spec fn values_well_formed(es: Entries) -> bool
    decreases es, 0int,
{
    es.len() == 0 || (values_well_formed(es.subrange(0, es.len() - 1)) && well_formed(
        es[es.len() - 1].1,
    ))
}

/// Every element is well formed.
pub open spec fn items_well_formed(xs: Seq<Json>) -> bool
    decreases xs, 0int,
{
    xs.len() == 0 || (items_well_formed(xs.subrange(0, xs.len() - 1)) && well_formed(
        xs[xs.len() - 1],
    ))
}

proof fn lemma_values_well_formed(es: Entries)
    ensures
        values_well_formed(es) <==> forall|i: int|
            0 <= i < es.len() ==> #[trigger] well_formed(es[i].1),
    decreases es.len(),
{
    if es.len() > 0 {
        let d = es.subrange(0, es.len() - 1);
        lemma_values_well_formed(d);
        if values_well_formed(es) {
            assert forall|i: int| 0 <= i < es.len() implies #[trigger] well_formed(es[i].1) by {
                if i < d.len() {
                    assert(d[i] == es[i]);
                }
            }
        }
        if forall|i: int| 0 <= i < es.len() ==> #[trigger] well_formed(es[i].1) {
            assert forall|i: int| 0 <= i < d.len() implies #[trigger] well_formed(d[i].1) by {
                assert(d[i] == es[i]);
            }
            assert(well_formed(es[es.len() - 1].1));
        }
    }
}

proof fn lemma_items_well_formed(xs: Seq<Json>)
    ensures
        items_well_formed(xs) <==> forall|i: int| 0 <= i < xs.len() ==> #[trigger] well_formed(xs[i]),
    decreases xs.len(),
{
    if xs.len() > 0 {
        let d = xs.subrange(0, xs.len() - 1);
        lemma_items_well_formed(d);
        if items_well_formed(xs) {
            assert forall|i: int| 0 <= i < xs.len() implies #[trigger] well_formed(xs[i]) by {
                if i < d.len() {
                    assert(d[i] == xs[i]);
                }
            }
        }
        if forall|i: int| 0 <= i < xs.len() ==> #[trigger] well_formed(xs[i]) {
            assert forall|i: int| 0 <= i < d.len() implies #[trigger] well_formed(d[i]) by {
                assert(d[i] == xs[i]);
            }
            assert(well_formed(xs[xs.len() - 1]));
        }
    }
}

/// Entries with distinct keys and well-formed values.
pub open spec fn entries_ok(es: Entries) -> bool {
    keys_unique(es) && forall|i: int| 0 <= i < es.len() ==> #[trigger] well_formed(es[i].1)
}

proof fn lemma_last_index_none(s: Entries, k: Seq<char>)
    requires
        last_index(s, k) < 0,
    ensures
        forall|i: int| 0 <= i < s.len() ==> s[i].0 != k,
    decreases s.len(),
{
    if s.len() > 0 {
        lemma_last_index_none(s.drop_last(), k);
        assert forall|i: int| 0 <= i < s.len() implies s[i].0 != k by {
            if i < s.len() - 1 {
                assert(s.drop_last()[i] == s[i]);
            }
        }
    }
}

proof fn lemma_insert_ok(s: Entries, k: Seq<char>, v: Json)
    requires
        entries_ok(s),
        well_formed(v),
    ensures
        entries_ok(insert(s, k, v)),
{
    lemma_last_index_range(s, k);
    if last_index(s, k) < 0 {
        lemma_last_index_none(s, k);
    }
    let r = insert(s, k, v);
    assert forall|i: int| 0 <= i < r.len() implies #[trigger] well_formed(r[i].1) by {
        if i < s.len() && i != last_index(s, k) {
            assert(r[i] == s[i]);
        }
    }
}

proof fn lemma_insert_all_ok(s: Entries, m: Entries)
    requires
        entries_ok(s),
        entries_ok(m),
    ensures
        entries_ok(insert_all(s, m)),
    decreases m.len(),
{
    if m.len() > 0 {
        let d = m.drop_last();
        assert forall|i: int| 0 <= i < d.len() implies #[trigger] well_formed(d[i].1) by {
            assert(d[i] == m[i]);
        }
        lemma_insert_all_ok(s, d);
        assert(well_formed(m[m.len() - 1].1));
        lemma_insert_ok(insert_all(s, d), m.last().0, m.last().1);
    }
}

proof fn lemma_merge_ok(s: Entries, key: Seq<char>, child: Json)
    requires
        entries_ok(s),
        well_formed(child),
    ensures
        entries_ok(merge(s, key, child)),
{
    match child {
        Json::Object(m) => {
            lemma_values_well_formed(m);
            lemma_insert_all_ok(s, m);
        },
        _ => lemma_insert_ok(s, key, child),
    }
}

proof fn lemma_flat_value_ok(join: JoinFn, flat_array: bool, v: Json, base: Seq<Seq<char>>)
    ensures
        well_formed(flat_value(join, flat_array, v, base)),
    decreases v,
{
    match v {
        Json::Object(es) => {
            lemma_flat_entries_ok(join, flat_array, es, base);
            lemma_values_well_formed(flat_entries(join, flat_array, es, base));
        },
        Json::Array(xs) => if flat_array {
            lemma_flat_indexed_ok(join, flat_array, xs, base);
            lemma_values_well_formed(flat_indexed(join, flat_array, xs, base));
        } else {
            lemma_flat_each_ok(join, flat_array, xs);
            lemma_items_well_formed(flat_each(join, flat_array, xs));
        },
        _ => {},
    }
}

proof fn lemma_flat_entries_ok(join: JoinFn, flat_array: bool, es: Entries, base: Seq<Seq<char>>)
    ensures
        entries_ok(flat_entries(join, flat_array, es, base)),
    decreases es,
{
    if es.len() > 0 {
        let n = es.len() - 1;
        let p = base.push(es[n].0);
        lemma_flat_entries_ok(join, flat_array, es.subrange(0, n), base);
        lemma_flat_value_ok(join, flat_array, es[n].1, p);
        lemma_merge_ok(
            flat_entries(join, flat_array, es.subrange(0, n), base),
            join(p),
            flat_value(join, flat_array, es[n].1, p),
        );
    }
}

proof fn lemma_flat_indexed_ok(join: JoinFn, flat_array: bool, xs: Seq<Json>, base: Seq<Seq<char>>)
    ensures
        entries_ok(flat_indexed(join, flat_array, xs, base)),
    decreases xs,
{
    if xs.len() > 0 {
        let n = xs.len() - 1;
        let p = base.push(decimal(n as nat));
        lemma_flat_indexed_ok(join, flat_array, xs.subrange(0, n), base);
        lemma_flat_value_ok(join, flat_array, xs[n], p);
        lemma_merge_ok(
            flat_indexed(join, flat_array, xs.subrange(0, n), base),
            join(p),
            flat_value(join, flat_array, xs[n], p),
        );
    }
}

proof fn lemma_flat_each_ok(join: JoinFn, flat_array: bool, xs: Seq<Json>)
    ensures
        forall|i: int|
            0 <= i < flat_each(join, flat_array, xs).len() ==> #[trigger] well_formed(
                flat_each(join, flat_array, xs)[i],
            ),
    decreases xs,
{
    lemma_flat_each(join, flat_array, xs);
    if xs.len() > 0 {
        let n = xs.len() - 1;
        lemma_flat_each_ok(join, flat_array, xs.subrange(0, n));
        lemma_flat_value_ok(join, flat_array, xs[n], Seq::empty());
        let r = flat_each(join, flat_array, xs);
        let d = flat_each(join, flat_array, xs.subrange(0, n));
        assert forall|i: int| 0 <= i < r.len() implies #[trigger] well_formed(r[i]) by {
            if i < n {
                assert(r[i] == d[i]);
            }
        }
    }
}

/// Whatever the input, the flattened value is well formed: each object in
/// it is a mapping with distinct keys.
pub proof fn lemma_flatten_well_formed<J: KeyJoin>(f: Flattener<J>, v: Json)
    ensures
        well_formed(f.flat_spec(v)),
{
    lemma_flat_value_ok(f.join_fn(), f.flat_array, v, Seq::empty());
}

/// Position `b` is visited after position `a` by the flattening: where they
/// first differ, `b` is further along.
pub open spec fn visited_after(a: Seq<int>, b: Seq<int>) -> bool
    decreases a.len(),
{
    a.len() > 0 && b.len() > 0 && (a[0] < b[0] || (a[0] == b[0] && visited_after(
        a.drop_first(),
        b.drop_first(),
    )))
}

/// `e` is one of the entries of `s`.
pub open spec fn has_entry(s: Entries, e: (Seq<char>, Json)) -> bool {
    exists|w: int| 0 <= w < s.len() && s[w] == e
}

/// The elements of an array as entries keyed by their decimal index.
pub open spec fn index_entries(xs: Seq<Json>) -> Entries {
    Seq::new(xs.len(), |i: int| (decimal(i as nat), xs[i]))
}

proof fn lemma_index_entries(join: JoinFn, flat_array: bool, xs: Seq<Json>, base: Seq<Seq<char>>)
    ensures
        flat_indexed(join, flat_array, xs, base) == flat_entries(
            join,
            flat_array,
            index_entries(xs),
            base,
        ),
    decreases xs.len(),
{
    if xs.len() > 0 {
        let d = xs.subrange(0, xs.len() - 1);
        lemma_index_entries(join, flat_array, d, base);
        assert(index_entries(xs).subrange(0, xs.len() - 1) =~= index_entries(d));
    }
}

proof fn lemma_insert_keeps(s: Entries, k: Seq<char>, v: Json, e: (Seq<char>, Json))
    requires
        e.0 != k,
        has_entry(s, e),
    ensures
        has_entry(insert(s, k, v), e),
{
    lemma_last_index_range(s, k);
    let w = choose|w: int| 0 <= w < s.len() && s[w] == e;
    assert(insert(s, k, v)[w] == e);
}

proof fn lemma_insert_all_keeps(s: Entries, m: Entries, e: (Seq<char>, Json))
    requires
        forall|t: int| 0 <= t < m.len() ==> #[trigger] m[t].0 != e.0,
        has_entry(s, e),
    ensures
        has_entry(insert_all(s, m), e),
    decreases m.len(),
{
    if m.len() > 0 {
        let d = m.drop_last();
        assert forall|t: int| 0 <= t < d.len() implies #[trigger] d[t].0 != e.0 by {
            assert(d[t] == m[t]);
        }
        lemma_insert_all_keeps(s, d, e);
        assert(m[m.len() - 1].0 != e.0);
        lemma_insert_keeps(insert_all(s, d), m.last().0, m.last().1, e);
    }
}

proof fn lemma_insert_gets(s: Entries, k: Seq<char>, v: Json)
    ensures
        has_entry(insert(s, k, v), (k, v)),
{
    lemma_last_index_range(s, k);
    let i = last_index(s, k);
    if i < 0 {
        assert(insert(s, k, v)[s.len() as int] == (k, v));
    } else {
        assert(insert(s, k, v)[i] == (k, v));
    }
}

proof fn lemma_insert_all_gets(s: Entries, m: Entries, u: int)
    requires
        keys_unique(m),
        0 <= u < m.len(),
    ensures
        has_entry(insert_all(s, m), m[u]),
    decreases m.len(),
{
    let n = m.len() - 1;
    let d = m.drop_last();
    if u == n {
        lemma_insert_gets(insert_all(s, d), m.last().0, m.last().1);
    } else {
        assert(d[u] == m[u]);
        lemma_insert_all_gets(s, d, u);
        lemma_insert_keeps(insert_all(s, d), m.last().0, m.last().1, m[u]);
    }
}

/// An entry sourced in the child at position `j` of `es` is sourced in the
/// object at position `[j] + inner`.
proof fn lemma_lift_source(
    join: JoinFn,
    flat_array: bool,
    es: Entries,
    base: Seq<Seq<char>>,
    j: int,
    inner: Seq<int>,
    e: (Seq<char>, Json),
)
    requires
        0 <= j < es.len(),
        sourced(join, flat_array, es[j].1, base.push(es[j].0), inner, e),
    ensures
        sourced(join, flat_array, Json::Object(es), base, seq![j] + inner, e),
{
    let idxs = seq![j] + inner;
    assert(idxs.drop_first() =~= inner);
    let q = follow(flat_array, es[j].1, inner)->Some_0.0;
    let y = follow(flat_array, es[j].1, inner)->Some_0.1;
    assert(follow(flat_array, Json::Object(es), idxs) == Some((seq![es[j].0] + q, y)));
    assert(base + (seq![es[j].0] + q) =~= base.push(es[j].0) + q);
}

/// The entries that the child at position `j` adds carry keys of entries
/// sourced in the object at positions that start with `j`.
proof fn lemma_child_keys(join: JoinFn, flat_array: bool, es: Entries, base: Seq<Seq<char>>, j: int, t: int)
    requires
        0 <= j < es.len(),
        flat_value(join, flat_array, es[j].1, base.push(es[j].0)) is Object,
        0 <= t < flat_value(join, flat_array, es[j].1, base.push(es[j].0))->Object_0.len(),
    ensures
        exists|inner: Seq<int>|
            sourced(
                join,
                flat_array,
                Json::Object(es),
                base,
                seq![j] + inner,
                flat_value(join, flat_array, es[j].1, base.push(es[j].0))->Object_0[t],
            ),
{
    let p = base.push(es[j].0);
    let e = flat_value(join, flat_array, es[j].1, p)->Object_0[t];
    lemma_value_source(join, flat_array, es[j].1, p, t);
    let inner = choose|inner: Seq<int>| sourced(join, flat_array, es[j].1, p, inner, e);
    lemma_lift_source(join, flat_array, es, base, j, inner, e);
}

proof fn lemma_direct_source(join: JoinFn, flat_array: bool, es: Entries, base: Seq<Seq<char>>, j: int)
    requires
        0 <= j < es.len(),
        !(flat_value(join, flat_array, es[j].1, base.push(es[j].0)) is Object),
    ensures
        sourced(
            join,
            flat_array,
            Json::Object(es),
            base,
            seq![j],
            (join(base.push(es[j].0)), flat_value(join, flat_array, es[j].1, base.push(es[j].0))),
        ),
{
    let idxs = seq![j];
    assert(idxs.drop_first() =~= Seq::<int>::empty());
    assert(follow(flat_array, es[j].1, Seq::<int>::empty()) == Some((Seq::<Seq<char>>::empty(), es[j].1)));
    assert(seq![es[j].0] + Seq::<Seq<char>>::empty() =~= seq![es[j].0]);
    assert(follow(flat_array, Json::Object(es), idxs) == Some((seq![es[j].0], es[j].1)));
    assert(base + seq![es[j].0] =~= base.push(es[j].0));
}

/// No position visited after `idxs` yields an entry under the key of `e`.
pub open spec fn last_under_key(
    join: JoinFn,
    flat_array: bool,
    v: Json,
    base: Seq<Seq<char>>,
    idxs: Seq<int>,
    e: (Seq<char>, Json),
) -> bool {
    forall|other: Seq<int>, e2: (Seq<char>, Json)|
        #[trigger] sourced(join, flat_array, v, base, other, e2) && e2.0 == e.0 ==> !visited_after(
            idxs,
            other,
        )
}

/// Once the entry `e`, sourced at `idxs` in the object, is in the fold, the
/// later entries of the object keep it there.
proof fn lemma_kept_after(
    join: JoinFn,
    flat_array: bool,
    es: Entries,
    base: Seq<Seq<char>>,
    idxs: Seq<int>,
    e: (Seq<char>, Json),
    j: int,
)
    requires
        idxs.len() > 0,
        0 <= idxs[0] < j <= es.len(),
        has_entry(flat_entries(join, flat_array, es.take(idxs[0] + 1), base), e),
        last_under_key(join, flat_array, Json::Object(es), base, idxs, e),
    ensures
        has_entry(flat_entries(join, flat_array, es.take(j), base), e),
    decreases j,
{
    if j > idxs[0] + 1 {
        let i = j - 1;
        lemma_kept_after(join, flat_array, es, base, idxs, e, i);
        assert(es.take(j).subrange(0, i) =~= es.take(i));
        assert(es.take(j)[i] == es[i]);
        let p = base.push(es[i].0);
        let fc = flat_value(join, flat_array, es[i].1, p);
        let acc = flat_entries(join, flat_array, es.take(i), base);
        if fc is Object {
            let m = fc->Object_0;
            assert forall|t: int| 0 <= t < m.len() implies #[trigger] m[t].0 != e.0 by {
                lemma_child_keys(join, flat_array, es, base, i, t);
                let inner = choose|inner: Seq<int>|
                    sourced(join, flat_array, Json::Object(es), base, seq![i] + inner, m[t]);
                assert((seq![i] + inner)[0] == i);
                assert(visited_after(idxs, seq![i] + inner));
            }
            lemma_insert_all_keeps(acc, m, e);
        } else {
            lemma_direct_source(join, flat_array, es, base, i);
            assert(seq![i][0] == i);
            assert(visited_after(idxs, seq![i]));
            lemma_insert_keeps(acc, join(p), fc, e);
        }
    }
}

proof fn lemma_latest_value(
    join: JoinFn,
    flat_array: bool,
    v: Json,
    base: Seq<Seq<char>>,
    idxs: Seq<int>,
    e: (Seq<char>, Json),
)
    requires
        sourced(join, flat_array, v, base, idxs, e),
        last_under_key(join, flat_array, v, base, idxs, e),
    ensures
        flat_value(join, flat_array, v, base) is Object,
        has_entry(flat_value(join, flat_array, v, base)->Object_0, e),
    decreases idxs.len(), 1int,
{
    match v {
        Json::Object(es) => lemma_latest_in_entries(join, flat_array, es, base, idxs, e),
        Json::Array(xs) => {
            let ie = index_entries(xs);
            assert(flat_array);
            assert forall|o: Seq<int>| o.len() > 0 implies #[trigger] follow(flat_array, v, o) == follow(flat_array, Json::Object(ie), o) by {
                if 0 <= o[0] < xs.len() {
                    assert(ie[o[0]] == (decimal(o[0] as nat), xs[o[0]]));
                }
            }
            assert forall|o: Seq<int>, e2: (Seq<char>, Json)|
                #[trigger] sourced(join, flat_array, Json::Object(ie), base, o, e2) implies sourced(join, flat_array, v, base, o, e2) by {
                assert(follow(flat_array, v, o) == follow(flat_array, Json::Object(ie), o));
            }
            assert(follow(flat_array, v, idxs) == follow(flat_array, Json::Object(ie), idxs));
            lemma_latest_in_entries(join, flat_array, ie, base, idxs, e);
            lemma_index_entries(join, flat_array, xs, base);
        },
        _ => {},
    }
}

proof fn lemma_latest_in_entries(
    join: JoinFn,
    flat_array: bool,
    es: Entries,
    base: Seq<Seq<char>>,
    idxs: Seq<int>,
    e: (Seq<char>, Json),
)
    requires
        sourced(join, flat_array, Json::Object(es), base, idxs, e),
        last_under_key(join, flat_array, Json::Object(es), base, idxs, e),
    ensures
        has_entry(flat_entries(join, flat_array, es, base), e),
    decreases idxs.len(), 0int,
{
    let i = idxs[0];
    let tail = idxs.drop_first();
    let c = es[i].1;
    let p = base.push(es[i].0);
    let fc = flat_value(join, flat_array, c, p);
    let acc = flat_entries(join, flat_array, es.take(i), base);
    assert(es.take(i + 1).subrange(0, i) =~= es.take(i));
    assert(es.take(i + 1)[i] == es[i]);
    let q = follow(flat_array, c, tail)->Some_0.0;
    let y = follow(flat_array, c, tail)->Some_0.1;
    assert(base + (seq![es[i].0] + q) =~= p + q);
    if tail.len() == 0 {
        assert(q == Seq::<Seq<char>>::empty());
        assert(p + q =~= p);
        lemma_insert_gets(acc, join(p), fc);
    } else {
        assert(sourced(join, flat_array, c, p, tail, e));
        assert forall|other: Seq<int>, e2: (Seq<char>, Json)|
            #[trigger] sourced(join, flat_array, c, p, other, e2) && e2.0 == e.0 implies !visited_after(
                tail,
                other,
            ) by {
            lemma_lift_source(join, flat_array, es, base, i, other, e2);
            let o2 = seq![i] + other;
            assert(o2.drop_first() =~= other);
            assert(idxs.len() > 0 && o2.len() > 0 && idxs[0] == o2[0]);
        }
        lemma_latest_value(join, flat_array, c, p, tail, e);
        let m = fc->Object_0;
        lemma_flat_value_ok(join, flat_array, c, p);
        let u = choose|u: int| 0 <= u < m.len() && m[u] == e;
        lemma_insert_all_gets(acc, m, u);
    }
    lemma_kept_after(join, flat_array, es, base, idxs, e, es.len() as int);
    assert(es.take(es.len() as int) =~= es);
}

/// Where no position visited after `idxs` yields an entry under the same
/// joined key, the scalar reached at `idxs` stands in the flat object under
/// its joined path, with its value unchanged. Entries visited earlier under
/// that key are overwritten by it.
pub proof fn lemma_scalar_path_value<J: KeyJoin>(
    f: Flattener<J>,
    v: Json,
    idxs: Seq<int>,
    path: Seq<Seq<char>>,
    leaf: Json,
)
    requires
        idxs.len() > 0,
        is_scalar(leaf),
        follow(f.flat_array, v, idxs) == Some((path, leaf)),
        forall|other: Seq<int>, e: (Seq<char>, Json)|
            #[trigger] sourced(f.join_fn(), f.flat_array, v, Seq::empty(), other, e) && e.0
                == f.flat_key_cb.join_spec(path) ==> !visited_after(idxs, other),
    ensures
        f.flat_spec(v) is Object,
        has_entry(f.flat_spec(v)->Object_0, (f.flat_key_cb.join_spec(path), leaf)),
{
    let join = f.join_fn();
    let e = (f.flat_key_cb.join_spec(path), leaf);
    assert(Seq::<Seq<char>>::empty() + path =~= path);
    assert(flat_value(join, f.flat_array, leaf, path) == leaf);
    assert(sourced(join, f.flat_array, v, Seq::empty(), idxs, e));
    lemma_latest_value(join, f.flat_array, v, Seq::empty(), idxs, e);
}

} // verus!
