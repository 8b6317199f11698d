use vstd::prelude::*;

use crate::join::{decimal, index_key, segments, Joiner, KeyJoin};
use crate::laws::{lemma_flatten_well_formed, well_formed};
use crate::value::{entries_model, items_model, lemma_entries_model, lemma_items_model, Json, JsonValue};

verus! {

/// A key-join policy as a mathematical function.
pub type JoinFn = spec_fn(Seq<Seq<char>>) -> Seq<char>;

/// Entries of an object model, in insertion order.
pub type Entries = Seq<(Seq<char>, Json)>;

/// The position of the last entry of `s` under key `k`, or -1.
pub open spec fn last_index(s: Entries, k: Seq<char>) -> int
    decreases s.len(),
{
    if s.len() == 0 {
        -1
    } else if s.last().0 == k {
        s.len() - 1
    } else {
        last_index(s.drop_last(), k)
    }
}

/// Map insertion: an entry under `k` gets the new value in place, otherwise
/// the entry is appended.
pub open spec fn insert(s: Entries, k: Seq<char>, v: Json) -> Entries {
    let i = last_index(s, k);
    if i < 0 {
        s.push((k, v))
    } else {
        s.update(i, (k, v))
    }
}

/// Inserts the entries of `m` into `s`, in order.
pub open spec fn insert_all(s: Entries, m: Entries) -> Entries
    decreases m.len(),
{
    if m.len() == 0 {
        s
    } else {
        insert(insert_all(s, m.drop_last()), m.last().0, m.last().1)
    }
}

/// The merge rule: a flattened object is spliced into `s` entry by entry;
/// any other flattened child goes in under `key`.
pub open spec fn merge(s: Entries, key: Seq<char>, child: Json) -> Entries {
    match child {
        Json::Object(m) => insert_all(s, m),
        _ => insert(s, key, child),
    }
}

/// The flattened form of `v`, reached at `path`: objects, and arrays where
/// `flat_array` holds, become objects of fully qualified keys.
pub open spec fn flat_value(join: JoinFn, flat_array: bool, v: Json, path: Seq<Seq<char>>) -> Json
    decreases v,
{
    match v {
        Json::Object(es) => Json::Object(flat_entries(join, flat_array, es, path)),
        Json::Array(xs) => if flat_array {
            Json::Object(flat_indexed(join, flat_array, xs, path))
        } else {
            Json::Array(flat_each(join, flat_array, xs))
        },
        _ => v,
    }
}

/// Folds the entries of an object, in order, into one flat object.
pub open spec fn flat_entries(
    join: JoinFn,
    flat_array: bool,
    es: Entries,
    path: Seq<Seq<char>>,
) -> Entries
    decreases es,
{
    if es.len() == 0 {
        Seq::empty()
    } else {
        let p = path.push(es[es.len() - 1].0);
        merge(
            flat_entries(join, flat_array, es.subrange(0, es.len() - 1), path),
            join(p),
            flat_value(join, flat_array, es[es.len() - 1].1, p),
        )
    }
}

/// Folds the elements of an array, keyed by their decimal index, into one
/// flat object.
pub open spec fn flat_indexed(
    join: JoinFn,
    flat_array: bool,
    xs: Seq<Json>,
    path: Seq<Seq<char>>,
) -> Entries
    decreases xs,
{
    if xs.len() == 0 {
        Seq::empty()
    } else {
        let p = path.push(decimal((xs.len() - 1) as nat));
        merge(
            flat_indexed(join, flat_array, xs.subrange(0, xs.len() - 1), path),
            join(p),
            flat_value(join, flat_array, xs[xs.len() - 1], p),
        )
    }
}

/// Flattens each element of an array on its own, from an empty path.
pub open spec fn flat_each(join: JoinFn, flat_array: bool, xs: Seq<Json>) -> Seq<Json>
    decreases xs,
{
    if xs.len() == 0 {
        Seq::empty()
    } else {
        flat_each(join, flat_array, xs.subrange(0, xs.len() - 1)).push(
            flat_value(join, flat_array, xs[xs.len() - 1], Seq::empty()),
        )
    }
}

/// Copies `path` with `seg` appended.
fn extend_path(path: &Vec<String>, seg: &String) -> (r: Vec<String>)
    ensures
        segments(r@) == segments(path@).push(seg@),
{
    let mut r: Vec<String> = Vec::new();
    let n = path.len();
    let mut i: usize = 0;
    while i < n
        invariant
            n == path.len(),
            i <= n,
            r@.len() == i,
            forall|t: int| 0 <= t < i ==> #[trigger] r@[t]@ == path@[t]@,
        decreases n - i,
    {
        r.push(path[i].clone());
        i = i + 1;
    }
    r.push(seg.clone());
    proof {
        assert(segments(r@) =~= segments(path@).push(seg@));
    }
    r
}

/// Inserts `(k, v)` into the entries `acc` by map insertion.
fn insert_entry(acc: &mut Vec<(String, JsonValue)>, k: String, v: JsonValue)
    ensures
        entries_model(final(acc)@) == insert(entries_model(old(acc)@), k@, v@),
{
    let ghost m = entries_model(acc@);
    proof {
        lemma_entries_model(acc@);
    }
    let n = acc.len();
    let mut found: usize = n;
    let mut j: usize = 0;
    while j < n
        invariant
            n == acc.len(),
            m == entries_model(acc@),
            m.len() == n,
            forall|t: int| 0 <= t < n ==> #[trigger] m[t] == (acc@[t].0@, acc@[t].1@),
            j <= n,
            found == n || found < j,
            last_index(m.take(j as int), k@) == (if found == n { -1 } else { found as int }),
        decreases n - j,
    {
        proof {
            assert(m.take(j + 1).drop_last() =~= m.take(j as int));
        }
        if acc[j].0 == k {
            found = j;
        }
        j = j + 1;
    }
    proof {
        assert(m.take(n as int) =~= m);
    }
    if found == n {
        acc.push((k, v));
        proof {
            assert(acc@.subrange(0, acc@.len() - 1) =~= old(acc)@);
        }
    } else {
        acc.set(found, (k, v));
        proof {
            lemma_entries_model(acc@);
            assert(entries_model(acc@) =~= m.update(found as int, (k@, v@)));
        }
    }
}

/// Applies the merge rule to `acc` for a flattened child.
fn merge_child(acc: &mut Vec<(String, JsonValue)>, key: String, child: JsonValue)
    ensures
        entries_model(final(acc)@) == merge(entries_model(old(acc)@), key@, child@),
{
    match child {
        JsonValue::Object(m) => {
            let ghost m0 = m@;
            let ghost s0 = entries_model(acc@);
            proof {
                lemma_entries_model(m0);
            }
            let mut rest = m;
            let n = rest.len();
            let mut i: usize = 0;
            while i < n
                invariant
                    n == m0.len(),
                    i <= n,
                    rest@ == m0.subrange(i as int, n as int),
                    entries_model(acc@) == insert_all(s0, entries_model(m0).take(i as int)),
                    entries_model(m0).len() == n,
                    forall|t: int| 0 <= t < n ==> #[trigger] entries_model(m0)[t] == (m0[t].0@, m0[t].1@),
                decreases n - i,
            {
                let (k, v) = rest.remove(0);
                proof {
                    assert(m0[i as int] == (k, v));
                    assert(entries_model(m0).take(i + 1).drop_last() =~= entries_model(m0).take(i as int));
                }
                insert_entry(acc, k, v);
                i = i + 1;
            }
            proof {
                assert(entries_model(m0).take(n as int) =~= entries_model(m0));
            }
        },
        other => {
            insert_entry(acc, key, other);
        },
    }
}

/// Flattening configuration: how arrays are treated and how a path of key
/// segments becomes one key.
#[derive(Clone)]
pub struct Flattener<J> {
    pub flat_array: bool,
    pub flat_key_cb: J,
}

impl Flattener<Joiner> {
    /// Arrays stay arrays; segments are joined with a dot.
    pub fn new() -> (r: Flattener<Joiner>)
        ensures
            !r.flat_array,
            r.flat_key_cb.separator@ == seq!['.'],
    {
        Flattener { flat_array: false, flat_key_cb: Joiner::dot() }
    }
}

impl Default for Flattener<Joiner> {
    fn default() -> (r: Flattener<Joiner>)
        ensures
            !r.flat_array,
            r.flat_key_cb.separator@ == seq!['.'],
    {
        Flattener::new()
    }
}

impl<J: KeyJoin> Flattener<J> {
    /// The key-join policy of this configuration.
    pub open spec fn join_fn(&self) -> JoinFn {
        |p: Seq<Seq<char>>| self.flat_key_cb.join_spec(p)
    }

    /// The flattened form of `v` under this configuration.
    pub open spec fn flat_spec(&self, v: Json) -> Json {
        flat_value(self.join_fn(), self.flat_array, v, Seq::empty())
    }

    /// The flattened form of `value`; the input is left as it is. Each
    /// object in the result has distinct keys.
    pub fn flatten(&self, value: &JsonValue) -> (r: JsonValue)
        ensures
            r@ == self.flat_spec(value@),
            well_formed(r@),
    {
        proof {
            lemma_flatten_well_formed(*self, value@);
        }
        let path: Vec<String> = Vec::new();
        proof {
            assert(segments(path@) =~= Seq::<Seq<char>>::empty());
        }
        self.flatten_value(value, &path)
    }

    fn flatten_value(&self, value: &JsonValue, path: &Vec<String>) -> (r: JsonValue)
        ensures
            r@ == flat_value(self.join_fn(), self.flat_array, value@, segments(path@)),
        decreases value,
    {
        match value {
            JsonValue::Object(map) => self.flatten_object(map, path),
            JsonValue::Array(arr) => self.flatten_array(arr, path),
            JsonValue::Null => JsonValue::Null,
            JsonValue::Bool(b) => JsonValue::Bool(*b),
            JsonValue::Number(n) => JsonValue::Number(n.clone()),
            JsonValue::String(s) => JsonValue::String(s.clone()),
        }
    }

    fn flatten_object(&self, obj: &Vec<(String, JsonValue)>, path: &Vec<String>) -> (r: JsonValue)
        ensures
            r@ == Json::Object(
                flat_entries(self.join_fn(), self.flat_array, entries_model(obj@), segments(path@)),
            ),
        decreases obj,
    {
        let ghost es = entries_model(obj@);
        proof {
            lemma_entries_model(obj@);
        }
        let mut flat_map: Vec<(String, JsonValue)> = Vec::new();
        let n = obj.len();
        let mut i: usize = 0;
        while i < n
            invariant
                n == obj.len(),
                es == entries_model(obj@),
                es.len() == n,
                forall|t: int| 0 <= t < n ==> #[trigger] es[t] == (obj@[t].0@, obj@[t].1@),
                i <= n,
                entries_model(flat_map@) == flat_entries(
                    self.join_fn(),
                    self.flat_array,
                    es.take(i as int),
                    segments(path@),
                ),
            decreases n - i,
        {
            let keys = extend_path(path, &obj[i].0);
            let flat_key = self.flat_key_cb.join(&keys);
            proof {
                assert(decreases_to!(obj => obj@[i as int]));
            }
            let flat_val = self.flatten_value(&obj[i].1, &keys);
            proof {
                assert(es.take(i + 1).subrange(0, i as int) =~= es.take(i as int));
            }
            merge_child(&mut flat_map, flat_key, flat_val);
            i = i + 1;
        }
        proof {
            assert(es.take(n as int) =~= es);
        }
        JsonValue::Object(flat_map)
    }

    fn flatten_array(&self, arr: &Vec<JsonValue>, path: &Vec<String>) -> (r: JsonValue)
        ensures
            r@ == (if self.flat_array {
                Json::Object(flat_indexed(self.join_fn(), self.flat_array, items_model(arr@), segments(path@)))
            } else {
                Json::Array(flat_each(self.join_fn(), self.flat_array, items_model(arr@)))
            }),
        decreases arr,
    {
        let ghost xs = items_model(arr@);
        proof {
            lemma_items_model(arr@);
        }
        let n = arr.len();
        if self.flat_array {
            let mut flat_map: Vec<(String, JsonValue)> = Vec::new();
            let mut idx: usize = 0;
            while idx < n
                invariant
                    n == arr.len(),
                    xs == items_model(arr@),
                    xs.len() == n,
                    forall|t: int| 0 <= t < n ==> #[trigger] xs[t] == arr@[t]@,
                    idx <= n,
                    self.flat_array,
                    entries_model(flat_map@) == flat_indexed(
                        self.join_fn(),
                        self.flat_array,
                        xs.take(idx as int),
                        segments(path@),
                    ),
                decreases n - idx,
            {
                let str_idx = index_key(idx);
                let keys = extend_path(path, &str_idx);
                let flat_key = self.flat_key_cb.join(&keys);
                proof {
                    assert(decreases_to!(arr => arr@[idx as int]));
                }
                let flat_val = self.flatten_value(&arr[idx], &keys);
                proof {
                    assert(xs.take(idx + 1).subrange(0, idx as int) =~= xs.take(idx as int));
                }
                merge_child(&mut flat_map, flat_key, flat_val);
                idx = idx + 1;
            }
            proof {
                assert(xs.take(n as int) =~= xs);
            }
            JsonValue::Object(flat_map)
        } else {
            let mut flat_values: Vec<JsonValue> = Vec::with_capacity(n);
            let empty: Vec<String> = Vec::new();
            proof {
                assert(segments(empty@) =~= Seq::<Seq<char>>::empty());
            }
            let mut i: usize = 0;
            while i < n
                invariant
                    n == arr.len(),
                    xs == items_model(arr@),
                    xs.len() == n,
                    forall|t: int| 0 <= t < n ==> #[trigger] xs[t] == arr@[t]@,
                    i <= n,
                    segments(empty@) == Seq::<Seq<char>>::empty(),
                    items_model(flat_values@) == flat_each(self.join_fn(), self.flat_array, xs.take(i as int)),
                decreases n - i,
            {
                proof {
                    assert(decreases_to!(arr => arr@[i as int]));
                }
                let v = self.flatten_value(&arr[i], &empty);
                let ghost prev = flat_values@;
                flat_values.push(v);
                proof {
                    assert(xs.take(i + 1).subrange(0, i as int) =~= xs.take(i as int));
                    assert(flat_values@.subrange(0, flat_values@.len() - 1) =~= prev);
                }
                i = i + 1;
            }
            proof {
                assert(xs.take(n as int) =~= xs);
            }
            JsonValue::Array(flat_values)
        }
    }
}

} // verus!
