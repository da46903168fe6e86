//! Insertion into the metadata tree, with list promotion of repeated keys.
use vstd::prelude::*;
use crate::types::{
    entries_tree, items_tree, lemma_list_tree, lemma_object_tree, MetadataValue, Tree,
};

verus! {

broadcast use vstd::std_specs::vec::group_vec_axioms;

/// The first index at or after `i` whose key is `k`.
pub open spec fn key_pos_from(es: Seq<(Seq<char>, Tree)>, k: Seq<char>, i: int) -> Option<int>
    decreases es.len() - i,
{
    if i < 0 || i >= es.len() {
        None
    } else if es[i].0 == k {
        Some(i)
    } else {
        key_pos_from(es, k, i + 1)
    }
}

/// What `key_pos_from` returns: the first matching index, or none.
pub proof fn lemma_key_pos_from(es: Seq<(Seq<char>, Tree)>, k: Seq<char>, i: int)
    requires
        0 <= i,
    ensures
        match key_pos_from(es, k, i) {
            Some(j) => i <= j < es.len() && es[j].0 == k && forall|m: int|
                i <= m < j ==> es[m].0 != k,
            None => forall|m: int| i <= m < es.len() ==> es[m].0 != k,
        },
    decreases es.len() - i,
{
    if i < es.len() && es[i].0 != k {
        lemma_key_pos_from(es, k, i + 1);
    }
}

/// The index of the entry with key `k`, if any.
pub open spec fn key_pos(es: Seq<(Seq<char>, Tree)>, k: Seq<char>) -> Option<int> {
    key_pos_from(es, k, 0)
}

/// The value a key holds once `v` is assigned to it a second time: a
/// list has `v` appended; any other value becomes the list `[old, v]`.
pub open spec fn promote(old: Tree, v: Tree) -> Tree {
    match old {
        Tree::List(items) => Tree::List(items.push(v)),
        _ => Tree::List(seq![old, v]),
    }
}

/// The entries once `v` is assigned to `k`.
pub open spec fn put(es: Seq<(Seq<char>, Tree)>, k: Seq<char>, v: Tree) -> Seq<(Seq<char>, Tree)> {
    match key_pos(es, k) {
        Some(i) => es.update(i, (k, promote(es[i].1, v))),
        None => es.push((k, v)),
    }
}

/// The entries once `v` is assigned to `k` in the object that `path`
/// leads to. A step into a list goes to its last element; where the path
/// cannot be followed, nothing changes.
pub open spec fn put_at(
    es: Seq<(Seq<char>, Tree)>,
    path: Seq<Seq<char>>,
    k: Seq<char>,
    v: Tree,
) -> Seq<(Seq<char>, Tree)>
    decreases path.len(),
{
    if path.len() == 0 {
        put(es, k, v)
    } else {
        match key_pos(es, path[0]) {
            Some(i) => match es[i].1 {
                Tree::Obj(inner) => es.update(
                    i,
                    (es[i].0, Tree::Obj(put_at(inner, path.drop_first(), k, v))),
                ),
                Tree::List(items) => if items.len() > 0 && items.last() is Obj {
                    es.update(
                        i,
                        (
                            es[i].0,
                            Tree::List(
                                items.update(
                                    items.len() - 1,
                                    Tree::Obj(
                                        put_at(items.last()->Obj_0, path.drop_first(), k, v),
                                    ),
                                ),
                            ),
                        ),
                    )
                } else {
                    es
                },
                Tree::Str(_) => es,
            },
            None => es,
        }
    }
}

/// The keys of a path, as char sequences.
pub open spec fn path_view(path: Seq<String>) -> Seq<Seq<char>> {
    path.map_values(|s: String| s@)
}

/// Index of the entry whose key is `k`.
fn find_key(es: &Vec<(String, MetadataValue)>, k: &String) -> (r: Option<usize>)
    ensures
        r matches Some(i) ==> key_pos(entries_tree(es@), k@) == Some(i as int) && i < es@.len(),
        r is None ==> key_pos(entries_tree(es@), k@) is None,
{
    let ghost t = entries_tree(es@);
    proof {
        lemma_key_pos_from(t, k@, 0);
    }
    let mut i: usize = 0;
    while i < es.len()
        invariant
            i <= es@.len(),
            t == entries_tree(es@),
            key_pos_from(t, k@, 0) == key_pos_from(t, k@, i as int),
        decreases es@.len() - i,
    {
        if es[i].0 == *k {
            return Some(i);
        }
        i = i + 1;
    }
    None
}

fn promote_value(old: MetadataValue, value: MetadataValue) -> (r: MetadataValue)
    ensures
        r.tree() == promote(old.tree(), value.tree()),
{
    match old {
        MetadataValue::List(items) => {
            let ghost before = items@;
            let mut items = items;
            items.push(value);
            let r = MetadataValue::List(items);
            proof {
                assert(r.tree()->List_0 =~= promote(old.tree(), value.tree())->List_0);
            }
            r
        },
        other => {
            let ghost ot = other.tree();
            let mut items: Vec<MetadataValue> = Vec::new();
            items.push(other);
            items.push(value);
            let r = MetadataValue::List(items);
            proof {
                assert(r.tree()->List_0 =~= seq![ot, value.tree()]);
            }
            r
        },
    }
}

/// Assigns `value` to `key`: a new key is appended; a key already present
/// keeps its place and its value is promoted to a list that ends in
/// `value`.
pub fn insert_or_append(map: &mut Vec<(String, MetadataValue)>, key: String, value: MetadataValue)
    ensures
        entries_tree(final(map)@) == put(entries_tree(old(map)@), key@, value.tree()),
{
    match find_key(map, &key) {
        Some(i) => {
            proof {
                lemma_key_pos_from(entries_tree(old(map)@), key@, 0);
            }
            let ghost t = entries_tree(old(map)@);
            assert(key_pos(t, key@) == Some(i as int));
            assert(key_pos_from(t, key@, 0) == Some(i as int));
            assert(t[i as int] == (old(map)@[i as int].0@, old(map)@[i as int].1.tree()));
            assert(t[i as int].0 == key@);
            let (k0, old_v) = map.remove(i);
            assert(k0@ == key@);
            assert(old_v.tree() == t[i as int].1);
            let nv = promote_value(old_v, value);
            map.insert(i, (k0, nv));
            proof {
                assert(map@ =~= old(map)@.update(i as int, (k0, nv)));
                assert(entries_tree(map@) =~= put(entries_tree(old(map)@), key@, value.tree()));
            }
        },
        None => {
            map.push((key, value));
            proof {
                assert(entries_tree(map@) =~= put(entries_tree(old(map)@), key@, value.tree()));
            }
        },
    }
}

/// `key_pos_from` finds the first index holding `k`.
pub proof fn lemma_key_pos_first(es: Seq<(Seq<char>, Tree)>, k: Seq<char>, i: int, j: int)
    requires
        0 <= i <= j <= es.len(),
        forall|m: int| i <= m < j ==> es[m].0 != k,
        j < es.len() ==> es[j].0 == k,
    ensures
        key_pos_from(es, k, i) == (if j < es.len() {
            Some(j)
        } else {
            None::<int>
        }),
    decreases es.len() - i,
{
    if i < j {
        lemma_key_pos_first(es, k, i + 1, j);
    }
}

/// The entries once each value of `vs` is assigned to `k` in turn.
pub open spec fn put_all(es: Seq<(Seq<char>, Tree)>, k: Seq<char>, vs: Seq<Tree>) -> Seq<
    (Seq<char>, Tree),
>
    decreases vs.len(),
{
    if vs.len() == 0 {
        es
    } else {
        put(put_all(es, k, vs.drop_last()), k, vs.last())
    }
}

/// Repeated keys keep their order: when the values `vs` are assigned in
/// turn to a key that the object does not hold, and the first of them is
/// not a list, the key ends up at the end of the object holding the first
/// value alone if there is one value, and else the list of all the values,
/// the first at index 0 and the n-th repeat at index n.
pub proof fn lemma_repeats_keep_order(es: Seq<(Seq<char>, Tree)>, k: Seq<char>, vs: Seq<Tree>)
    requires
        key_pos(es, k) is None,
        vs.len() >= 1,
        !(vs[0] is List),
    ensures
        put_all(es, k, vs) == es.push((k, if vs.len() == 1 {
            vs[0]
        } else {
            Tree::List(vs)
        })),
    decreases vs.len(),
{
    lemma_key_pos_from(es, k, 0);
    if vs.len() == 1 {
        assert(vs.drop_last() =~= Seq::<Tree>::empty());
    } else {
        lemma_repeats_keep_order(es, k, vs.drop_last());
        let prev = put_all(es, k, vs.drop_last());
        let n = es.len() as int;
        lemma_key_pos_first(prev, k, 0, n);
        if vs.len() == 2 {
            assert(seq![vs[0], vs[1]] =~= vs);
        } else {
            assert(vs.drop_last().push(vs.last()) =~= vs);
        }
        assert(put(prev, k, vs.last()) =~= es.push((k, Tree::List(vs))));
    }
}

fn insert_path_from(
    es: &mut Vec<(String, MetadataValue)>,
    path: &[String],
    d: usize,
    key: String,
    value: MetadataValue,
)
    requires
        d <= path@.len(),
    ensures
        entries_tree(final(es)@) == put_at(
            entries_tree(old(es)@),
            path_view(path@).subrange(d as int, path@.len() as int),
            key@,
            value.tree(),
        ),
    decreases path@.len() - d,
{
    let ghost rest = path_view(path@).subrange(d as int, path@.len() as int);
    if d == path.len() {
        insert_or_append(es, key, value);
        return;
    }
    proof {
        assert(rest[0] == path@[d as int]@);
        assert(rest.drop_first() =~= path_view(path@).subrange(d + 1, path@.len() as int));
    }
    match find_key(es, &path[d]) {
        None => {},
        Some(i) => {
            proof {
                lemma_key_pos_from(entries_tree(old(es)@), path@[d as int]@, 0);
            }
            let ghost t = entries_tree(old(es)@);
            assert(t[i as int] == (old(es)@[i as int].0@, old(es)@[i as int].1.tree()));
            let (k0, child) = es.remove(i);
            let ghost ct = child.tree();
            let nc = match child {
                MetadataValue::Object(inner) => {
                    proof {
                        lemma_object_tree(inner);
                    }
                    let mut inner = inner;
                    insert_path_from(&mut inner, path, d + 1, key, value);
                    proof {
                        lemma_object_tree(inner);
                    }
                    MetadataValue::Object(inner)
                },
                MetadataValue::List(items) => {
                    proof {
                        lemma_list_tree(items);
                    }
                    let ghost it = items_tree(items@);
                    let mut items = items;
                    match items.pop() {
                        Some(last) => {
                            let ghost lt = last.tree();
                            match last {
                                MetadataValue::Object(inner) => {
                                    proof {
                                        lemma_object_tree(inner);
                                    }
                                    let mut inner = inner;
                                    insert_path_from(&mut inner, path, d + 1, key, value);
                                    proof {
                                        lemma_object_tree(inner);
                                    }
                                    items.push(MetadataValue::Object(inner));
                                },
                                other => {
                                    items.push(other);
                                },
                            }
                        },
                        None => {},
                    }
                    proof {
                        lemma_list_tree(items);
                        assert(items_tree(items@) =~= match t[i as int].1 {
                            Tree::List(its) => if its.len() > 0 && its.last() is Obj {
                                its.update(
                                    its.len() - 1,
                                    Tree::Obj(put_at(its.last()->Obj_0, rest.drop_first(), key@, value.tree())),
                                )
                            } else {
                                its
                            },
                            _ => Seq::empty(),
                        });
                    }
                    MetadataValue::List(items)
                },
                other => other,
            };
            es.insert(i, (k0, nc));
            proof {
                assert(es@ =~= old(es)@.update(i as int, (k0, nc)));
                assert(entries_tree(es@) =~= put_at(t, rest, key@, value.tree()));
            }
        },
    }
}

/// Assigns `value` to `key` in the object that `path` leads to from
/// `root`, promoting a repeated key to a list. A step into a list goes to
/// its last element; where the path cannot be followed nothing changes.
pub fn insert_at_path(
    root: &mut Vec<(String, MetadataValue)>,
    path: &[String],
    key: String,
    value: MetadataValue,
)
    ensures
        entries_tree(final(root)@) == put_at(
            entries_tree(old(root)@),
            path_view(path@),
            key@,
            value.tree(),
        ),
{
    proof {
        assert(path_view(path@).subrange(0, path@.len() as int) =~= path_view(path@));
    }
    insert_path_from(root, path, 0, key, value);
}

/// No two entries share a key.
pub open spec fn keys_distinct(es: Seq<(Seq<char>, Tree)>) -> bool {
    forall|i: int, j: int| 0 <= i < j < es.len() ==> (#[trigger] es[i]).0 != (#[trigger] es[j]).0
}

/// Every object in the tree has distinct keys.
pub open spec fn well_keyed(t: Tree) -> bool
    decreases t,
{
    match t {
        Tree::Str(_) => true,
        Tree::List(items) => forall|i: int|
            0 <= i < items.len() ==> well_keyed(#[trigger] items[i]),
        Tree::Obj(es) => keys_distinct(es) && forall|i: int|
            0 <= i < es.len() ==> well_keyed(#[trigger] es[i].1),
    }
}

/// The entries have distinct keys, and so has every object within them.
pub open spec fn entries_well_keyed(es: Seq<(Seq<char>, Tree)>) -> bool {
    keys_distinct(es) && forall|i: int| 0 <= i < es.len() ==> well_keyed(#[trigger] es[i].1)
}

/// Assigning to a key keeps the keys distinct.
pub proof fn lemma_put_well_keyed(es: Seq<(Seq<char>, Tree)>, k: Seq<char>, v: Tree)
    requires
        entries_well_keyed(es),
        well_keyed(v),
    ensures
        entries_well_keyed(put(es, k, v)),
{
    lemma_key_pos_from(es, k, 0);
    let r = put(es, k, v);
    match key_pos(es, k) {
        Some(i) => {
            let p = promote(es[i].1, v);
            assert(well_keyed(es[i].1));
            match es[i].1 {
                Tree::List(items) => {
                    assert forall|j: int| 0 <= j < items.push(v).len() implies well_keyed(
                        #[trigger] items.push(v)[j],
                    ) by {
                        if j < items.len() {
                            assert(items.push(v)[j] == items[j]);
                        }
                    }
                },
                _ => {
                    let l = seq![es[i].1, v];
                    assert forall|j: int| 0 <= j < l.len() implies well_keyed(#[trigger] l[j]) by {}
                },
            }
            assert(well_keyed(p));
            assert forall|a: int| 0 <= a < r.len() implies well_keyed(#[trigger] r[a].1) by {
                if a != i {
                    assert(r[a] == es[a]);
                }
            }
            assert forall|a: int, b: int| 0 <= a < b < r.len() implies (#[trigger] r[a]).0 != (
            #[trigger] r[b]).0 by {
                assert(es[a].0 != es[b].0);
            }
        },
        None => {
            assert forall|a: int| 0 <= a < r.len() implies well_keyed(#[trigger] r[a].1) by {
                if a < es.len() {
                    assert(r[a] == es[a]);
                }
            }
            assert forall|a: int, b: int| 0 <= a < b < r.len() implies (#[trigger] r[a]).0 != (
            #[trigger] r[b]).0 by {
                if b < es.len() {
                    assert(es[a].0 != es[b].0);
                } else {
                    assert(r[b].0 == k);
                    assert(r[a] == es[a]);
                }
            }
        },
    }
}

/// Assigning along a path keeps every object's keys distinct.
pub proof fn lemma_put_at_well_keyed(
    es: Seq<(Seq<char>, Tree)>,
    path: Seq<Seq<char>>,
    k: Seq<char>,
    v: Tree,
)
    requires
        entries_well_keyed(es),
        well_keyed(v),
    ensures
        entries_well_keyed(put_at(es, path, k, v)),
    decreases path.len(),
{
    if path.len() == 0 {
        lemma_put_well_keyed(es, k, v);
    } else {
        lemma_key_pos_from(es, path[0], 0);
        match key_pos(es, path[0]) {
            Some(i) => {
                assert(well_keyed(es[i].1));
                let r = put_at(es, path, k, v);
                match es[i].1 {
                    Tree::Obj(inner) => {
                        lemma_put_at_well_keyed(inner, path.drop_first(), k, v);
                        let ni = put_at(inner, path.drop_first(), k, v);
                        assert(well_keyed(Tree::Obj(ni)));
                        assert forall|a: int| 0 <= a < r.len() implies well_keyed(#[trigger] r[a].1) by {
                            if a != i {
                                assert(r[a] == es[a]);
                            }
                        }
                        assert forall|a: int, b: int| 0 <= a < b < r.len() implies (#[trigger] r[a]).0
                            != (#[trigger] r[b]).0 by {
                            assert(es[a].0 != es[b].0);
                        }
                    },
                    Tree::List(items) => {
                        if items.len() > 0 && items.last() is Obj {
                            let last = items.last();
                            assert(well_keyed(items[items.len() - 1]));
                            lemma_put_at_well_keyed(last->Obj_0, path.drop_first(), k, v);
                            let ni = put_at(last->Obj_0, path.drop_first(), k, v);
                            let nl = items.update(items.len() - 1, Tree::Obj(ni));
                            assert forall|j: int| 0 <= j < nl.len() implies well_keyed(#[trigger] nl[j]) by {
                                if j < items.len() - 1 {
                                    assert(nl[j] == items[j]);
                                }
                            }
                            assert(well_keyed(Tree::List(nl)));
                            assert forall|a: int| 0 <= a < r.len() implies well_keyed(
                                #[trigger] r[a].1,
                            ) by {
                                if a != i {
                                    assert(r[a] == es[a]);
                                }
                            }
                            assert forall|a: int, b: int| 0 <= a < b < r.len() implies (
                            #[trigger] r[a]).0 != (#[trigger] r[b]).0 by {
                                assert(es[a].0 != es[b].0);
                            }
                        }
                    },
                    Tree::Str(_) => {},
                }
            },
            None => {},
        }
    }
}

} // verus!
