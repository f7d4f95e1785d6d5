use vstd::prelude::*;
use crate::text::push_char;

verus! {

/// A node of the hint tree: the key that leads to it and the nodes below it,
/// in the order in which they were added.
pub struct Trie {
    pub key: char,
    pub below: Vec<Trie>,
}

/// Why a tree cannot grow over a keyset.
#[derive(Clone, Copy, Debug, PartialEq, Eq, Structural)]
pub enum ConfigError {
    /// No keys at all: not even one label can be made.
    EmptyKeyset,
    /// A single key labels a single target: a second label would have the
    /// first as its prefix.
    KeysetTooSmall,
}

/// Whether one more label fits: a keyset of one key holds a single label.
pub open spec fn can_grow(t: Trie, ks: Seq<char>) -> bool {
    ks.len() >= 2 || t.below@.len() < ks.len()
}

/// Whether `n` more labels fit.
pub open spec fn can_grow_by(t: Trie, n: nat, ks: Seq<char>) -> bool {
    n == 0 || ks.len() >= 2 || (ks.len() == 1 && n == 1 && t.below@.len() == 0)
}

/// The error for a growth that does not fit.
pub open spec fn config_error(ks: Seq<char>) -> ConfigError {
    if ks.len() == 0 {
        ConfigError::EmptyKeyset
    } else {
        ConfigError::KeysetTooSmall
    }
}

/// The index of the last of the first `i` children that has room for one
/// more key, or -1.
pub open spec fn last_with_room(t: Trie, ks: Seq<char>, i: int) -> int
    decreases i,
{
    if i <= 0 {
        -1
    } else if t.below@[i - 1].below@.len() < ks.len() {
        i - 1
    } else {
        last_with_room(t, ks, i - 1)
    }
}

/// `u` is `t` with one more leaf, under `k`, after its other children.
pub open spec fn added_leaf(t: Trie, u: Trie, k: char) -> bool {
    &&& u.key == t.key
    &&& u.below@.len() == t.below@.len() + 1
    &&& u.below@.drop_last() == t.below@
    &&& u.below@.last().key == k
    &&& u.below@.last().below@.len() == 0
}

/// `u` is what one growth makes of `t`: a node with room takes a leaf under
/// its next key; a saturated one passes the growth to its last child with
/// room, a leaf there taking two leaves; where no child has room, the last
/// child grows.
pub open spec fn grew(t: Trie, u: Trie, ks: Seq<char>) -> bool
    decreases t,
{
    let n = t.below@.len() as int;
    if n < ks.len() {
        added_leaf(t, u, ks[n])
    } else if n == 0 {
        false
    } else {
        let j = last_with_room(t, ks, n);
        &&& u.key == t.key
        &&& if j >= 0 {
            let c = t.below@[j];
            let d = u.below@[j];
            &&& u.below@ == t.below@.update(j, d)
            &&& if c.below@.len() == 0 {
                &&& d.key == c.key
                &&& d.below@.len() == 2
                &&& d.below@[0].key == ks[0] && d.below@[0].below@.len() == 0
                &&& d.below@[1].key == ks[1] && d.below@[1].below@.len() == 0
            } else {
                added_leaf(c, d, ks[c.below@.len() as int])
            }
        } else {
            &&& u.below@ == t.below@.update(n - 1, u.below@[n - 1])
            &&& grew(t.below@[n - 1], u.below@[n - 1], ks)
        }
    }
}

/// `u` is what `n` growths in a row make of `t`.
pub open spec fn grown_from(t: Trie, u: Trie, n: nat, ks: Seq<char>) -> bool
    decreases n,
{
    if n == 0 {
        u == t
    } else {
        exists|s: Trie| grown_from(t, s, (n - 1) as nat, ks) && #[trigger] grew(s, u, ks)
    }
}

/// The text of each string in a sequence.
pub open spec fn views(v: Seq<String>) -> Seq<Seq<char>> {
    v.map_values(|s: String| s@)
}

/// The labels under the first `n` children of `t`, in depth-first order.
pub open spec fn labels_upto(t: Trie, n: int) -> Seq<Seq<char>>
    decreases t, n,
{
    if n <= 0 || n > t.below@.len() {
        Seq::empty()
    } else {
        let c = t.below@[n - 1];
        labels_upto(t, n - 1) + if c.below@.len() == 0 {
            seq![seq![c.key]]
        } else {
            labels_upto(c, c.below@.len() as int).map_values(|p: Seq<char>| seq![c.key] + p)
        }
    }
}

/// The labels of a tree taken as a root: one per leaf below it, each the keys
/// on the path to that leaf, the root's own key left out.
pub open spec fn labels_of(t: Trie) -> Seq<Seq<char>> {
    labels_upto(t, t.below@.len() as int)
}

/// The labels that a child contributes to its parent: its own key alone if
/// it is a leaf, else its key before each of its own labels.
pub open spec fn child_labels(c: Trie) -> Seq<Seq<char>> {
    if c.below@.len() == 0 {
        seq![seq![c.key]]
    } else {
        labels_of(c).map_values(|p: Seq<char>| seq![c.key] + p)
    }
}

/// A tree grown over `ks`: the i-th child of every node is keyed by `ks[i]`,
/// so no node has more children than `ks` has keys.
pub open spec fn wf(t: Trie, ks: Seq<char>) -> bool
    decreases t,
{
    &&& t.below@.len() <= ks.len()
    &&& forall|j: int|
        0 <= j < t.below@.len() ==> (#[trigger] t.below@[j]).key == ks[j] && wf(t.below@[j], ks)
}

/// Two trees whose first `n` children agree have the same labels under them.
proof fn lemma_same_prefix(t: Trie, u: Trie, n: int)
    requires
        0 <= n <= t.below@.len(),
        n <= u.below@.len(),
        forall|j: int| 0 <= j < n ==> t.below@[j] == u.below@[j],
    ensures
        labels_upto(t, n) == labels_upto(u, n),
    decreases n,
{
    if n > 0 {
        lemma_same_prefix(t, u, n - 1);
    }
}

/// Replacing one child by a tree with one more label adds one label.
proof fn lemma_replace_child(t: Trie, u: Trie, i: int, n: int)
    requires
        0 <= i < t.below@.len(),
        0 <= n <= t.below@.len(),
        u.below@ == t.below@.update(i, u.below@[i]),
        child_labels(u.below@[i]).len() == child_labels(t.below@[i]).len() + 1,
    ensures
        labels_upto(u, n).len() == labels_upto(t, n).len() + if n > i { 1int } else { 0int },
    decreases n,
{
    if n > 0 {
        lemma_replace_child(t, u, i, n - 1);
        assert(labels_upto(u, n) == labels_upto(u, n - 1) + child_labels(u.below@[n - 1]));
        assert(labels_upto(t, n) == labels_upto(t, n - 1) + child_labels(t.below@[n - 1]));
    }
}

/// Adding the leaf under the next unused key keeps a tree well formed.
proof fn lemma_add_key_wf(t: Trie, u: Trie, ks: Seq<char>)
    requires
        wf(t, ks),
        t.below@.len() < ks.len(),
        u.below@.len() == t.below@.len() + 1,
        u.below@.drop_last() == t.below@,
        u.below@.last().key == ks[t.below@.len() as int],
        u.below@.last().below@.len() == 0,
    ensures
        wf(u, ks),
{
    assert forall|j: int| 0 <= j < u.below@.len() implies (#[trigger] u.below@[j]).key == ks[j]
        && wf(u.below@[j], ks) by {
        if j < t.below@.len() {
            assert(u.below@[j] == u.below@.drop_last()[j]);
        }
    }
}

/// Whether `a` is a prefix of `b`.
pub open spec fn is_prefix(a: Seq<char>, b: Seq<char>) -> bool {
    a.len() <= b.len() && b.subrange(0, a.len() as int) == a
}

/// No label is a prefix of another one, nor equal to it.
pub open spec fn prefix_free(ls: Seq<Seq<char>>) -> bool {
    forall|i: int, j: int|
        0 <= i < ls.len() && 0 <= j < ls.len() && i != j ==> !is_prefix(
            #[trigger] ls[i],
            #[trigger] ls[j],
        )
}

/// The same key before two words keeps one from being a prefix of the other.
proof fn lemma_prefix_cons(k: char, a: Seq<char>, b: Seq<char>)
    requires
        is_prefix(seq![k] + a, seq![k] + b),
    ensures
        is_prefix(a, b),
{
    let x = seq![k] + a;
    let y = seq![k] + b;
    assert(b.subrange(0, a.len() as int) =~= y.subrange(0, x.len() as int).subrange(1, x.len() as int));
    assert(a =~= x.subrange(1, x.len() as int));
}

/// Under the first `n` children of a well-formed tree over distinct keys the
/// labels are prefix free, non-empty, and start with one of the first `n`
/// keys.
proof fn lemma_prefix_free_upto(t: Trie, ks: Seq<char>, n: int)
    requires
        wf(t, ks),
        ks.no_duplicates(),
        0 <= n <= t.below@.len(),
    ensures
        prefix_free(labels_upto(t, n)),
        forall|m: int|
            0 <= m < labels_upto(t, n).len() ==> (#[trigger] labels_upto(t, n)[m]).len() > 0
                && ks.subrange(0, n).contains(labels_upto(t, n)[m][0]),
    decreases t, n,
{
    if n > 0 {
        lemma_prefix_free_upto(t, ks, n - 1);
        let a = labels_upto(t, n - 1);
        let c = t.below@[n - 1];
        let p = child_labels(c);
        assert(labels_upto(t, n) == a + p);
        assert(wf(c, ks));
        // every label of this child is non-empty and starts with its key
        assert(forall|m: int| 0 <= m < p.len() ==> (#[trigger] p[m]).len() > 0 && p[m][0] == c.key)
            by {
            if c.below@.len() > 0 {
                lemma_prefix_free_upto(c, ks, c.below@.len() as int);
            }
        }
        assert(prefix_free(p)) by {
            if c.below@.len() > 0 {
                let l = labels_of(c);
                lemma_prefix_free_upto(c, ks, c.below@.len() as int);
                assert forall|i: int, j: int|
                    0 <= i < p.len() && 0 <= j < p.len() && i != j implies !is_prefix(
                    #[trigger] p[i],
                    #[trigger] p[j],
                ) by {
                    if is_prefix(p[i], p[j]) {
                        lemma_prefix_cons(c.key, l[i], l[j]);
                        assert(!is_prefix(l[i], l[j]));
                    }
                }
            }
        }
        let all = a + p;
        assert forall|m: int| 0 <= m < all.len() implies (#[trigger] all[m]).len() > 0
            && ks.subrange(0, n).contains(all[m][0]) by {
            if m < a.len() {
                assert(all[m] == a[m]);
                let x = choose|x: int| 0 <= x < n - 1 && #[trigger] ks.subrange(0, n - 1)[x] == a[m][0];
                assert(ks.subrange(0, n)[x] == a[m][0]);
            } else {
                assert(all[m] == p[m - a.len()]);
                assert(ks.subrange(0, n)[n - 1] == c.key);
            }
        }
        assert forall|i: int, j: int|
            0 <= i < all.len() && 0 <= j < all.len() && i != j implies !is_prefix(
            #[trigger] all[i],
            #[trigger] all[j],
        ) by {
            if i < a.len() && j < a.len() {
                assert(all[i] == a[i] && all[j] == a[j]);
            } else if i >= a.len() && j >= a.len() {
                assert(all[i] == p[i - a.len()] && all[j] == p[j - a.len()]);
            } else {
                // one label comes from an earlier child, the other from this one:
                // their first keys differ
                let (e, f) = if i < a.len() { (i, j) } else { (j, i) };
                assert(all[e] == a[e]);
                assert(all[f] == p[f - a.len()]);
                let x = choose|x: int| 0 <= x < n - 1 && #[trigger] ks.subrange(0, n - 1)[x] == a[e][0];
                assert(ks[x] != ks[n - 1]);
                assert(all[i][0] != all[j][0]);
                if is_prefix(all[i], all[j]) {
                    assert(all[j].subrange(0, all[i].len() as int)[0] == all[j][0]);
                }
            }
        }
    }
}

/// A search from the right that passed over saturated children only.
proof fn lemma_last_with_room(t: Trie, ks: Seq<char>, i: int, n: int)
    requires
        0 <= i <= n <= t.below@.len(),
        forall|j: int| i <= j < n ==> (#[trigger] t.below@[j]).below@.len() >= ks.len(),
        i > 0 ==> t.below@[i - 1].below@.len() < ks.len(),
    ensures
        last_with_room(t, ks, n) == i - 1,
    decreases n,
{
    if n > i {
        lemma_last_with_room(t, ks, i, n - 1);
    } else if n > 0 {
        assert(last_with_room(t, ks, n) == n - 1);
    }
}

/// What the search from the right finds is a child with room.
proof fn lemma_room_found(t: Trie, ks: Seq<char>, i: int)
    requires
        0 <= i <= t.below@.len(),
    ensures
        -1 <= last_with_room(t, ks, i) < i,
        last_with_room(t, ks, i) >= 0 ==> t.below@[last_with_room(t, ks, i)].below@.len()
            < ks.len(),
    decreases i,
{
    if i > 0 {
        lemma_room_found(t, ks, i - 1);
    }
}

/// Adding a leaf adds its key as the last label.
proof fn lemma_added_leaf_labels(t: Trie, u: Trie, k: char)
    requires
        added_leaf(t, u, k),
    ensures
        labels_of(u) == labels_of(t).push(seq![k]),
{
    let n = t.below@.len() as int;
    assert forall|j: int| 0 <= j < n implies t.below@[j] == u.below@[j] by {
        assert(u.below@[j] == u.below@.drop_last()[j]);
    }
    lemma_same_prefix(t, u, n);
    assert(labels_upto(u, n + 1) == labels_upto(u, n) + seq![seq![k]]);
}

/// One growth adds one label.
proof fn lemma_grew_count(t: Trie, u: Trie, ks: Seq<char>)
    requires
        grew(t, u, ks),
    ensures
        labels_of(u).len() == labels_of(t).len() + 1,
        u.below@.len() > 0,
    decreases t,
{
    let n = t.below@.len() as int;
    if n < ks.len() {
        lemma_added_leaf_labels(t, u, ks[n]);
    } else {
        let j = last_with_room(t, ks, n);
        lemma_room_found(t, ks, n);
        if j >= 0 {
            let c = t.below@[j];
            let d = u.below@[j];
            if c.below@.len() == 0 {
                assert(labels_upto(d, 1) =~= labels_upto(d, 0) + seq![seq![ks[0]]]);
                assert(labels_of(d) == labels_upto(d, 1) + seq![seq![ks[1]]]);
            } else {
                lemma_added_leaf_labels(c, d, ks[c.below@.len() as int]);
            }
            lemma_replace_child(t, u, j, n);
        } else {
            let c = t.below@[n - 1];
            let d = u.below@[n - 1];
            lemma_grew_count(c, d, ks);
            // the last child is saturated, so it is no leaf
            assert(c.below@.len() >= ks.len());
            if c.below@.len() == 0 {
                assert(!grew(c, d, ks));
            }
            lemma_replace_child(t, u, n - 1, n);
        }
    }
}

/// One growth keeps a tree well formed.
proof fn lemma_grew_wf(t: Trie, u: Trie, ks: Seq<char>)
    requires
        wf(t, ks),
        can_grow(t, ks),
        grew(t, u, ks),
    ensures
        wf(u, ks),
        u.key == t.key,
    decreases t,
{
    let n = t.below@.len() as int;
    if n < ks.len() {
        lemma_add_key_wf(t, u, ks);
    } else {
        let j = last_with_room(t, ks, n);
        lemma_room_found(t, ks, n);
        if j >= 0 {
            let c = t.below@[j];
            let d = u.below@[j];
            assert(wf(c, ks));
            if c.below@.len() > 0 {
                lemma_add_key_wf(c, d, ks);
            } else {
                assert(wf(d.below@[0], ks));
                assert(wf(d.below@[1], ks));
            }
            assert(wf(d, ks));
            assert forall|m: int| 0 <= m < u.below@.len() implies (#[trigger] u.below@[m]).key
                == ks[m] && wf(u.below@[m], ks) by {
                if m != j {
                    assert(u.below@[m] == t.below@[m]);
                }
            }
        } else {
            lemma_grew_wf(t.below@[n - 1], u.below@[n - 1], ks);
            assert forall|m: int| 0 <= m < u.below@.len() implies (#[trigger] u.below@[m]).key
                == ks[m] && wf(u.below@[m], ks) by {
                if m != n - 1 {
                    assert(u.below@[m] == t.below@[m]);
                }
            }
        }
    }
}

/// Growths that fit keep a tree well formed.
proof fn lemma_grown_wf(t: Trie, u: Trie, n: nat, ks: Seq<char>)
    requires
        wf(t, ks),
        ks.len() > 0,
        can_grow_by(t, n, ks),
        grown_from(t, u, n, ks),
    ensures
        wf(u, ks),
    decreases n,
{
    if n > 0 {
        let s = choose|s: Trie| grown_from(t, s, (n - 1) as nat, ks) && #[trigger] grew(s, u, ks);
        lemma_grown_wf(t, s, (n - 1) as nat, ks);
        lemma_grew_wf(s, u, ks);
    }
}

/// Growing a tree `n` times adds `n` labels.
proof fn lemma_grown_count(t: Trie, u: Trie, n: nat, ks: Seq<char>)
    requires
        grown_from(t, u, n, ks),
    ensures
        labels_of(u).len() == labels_of(t).len() + n,
    decreases n,
{
    if n > 0 {
        let s = choose|s: Trie| grown_from(t, s, (n - 1) as nat, ks) && #[trigger] grew(s, u, ks);
        lemma_grown_count(t, s, (n - 1) as nat, ks);
        lemma_grew_count(s, u, ks);
    }
}

/// After any number of growths from an empty root over distinct keys, as
/// many as the keyset allows, no label is a prefix of another.
pub proof fn lemma_grown_prefix_free(t0: Trie, t: Trie, n: nat, ks: Seq<char>)
    requires
        t0.below@.len() == 0,
        ks.len() > 0,
        ks.no_duplicates(),
        can_grow_by(t0, n, ks),
        grown_from(t0, t, n, ks),
    ensures
        prefix_free(labels_of(t)),
{
    lemma_grown_wf(t0, t, n, ks);
    lemma_prefix_free_upto(t, ks, t.below@.len() as int);
}

/// After `n` growths from an empty root there are exactly `n` labels.
pub proof fn lemma_grown_label_count(t0: Trie, t: Trie, n: nat, ks: Seq<char>)
    requires
        t0.below@.len() == 0,
        grown_from(t0, t, n, ks),
    ensures
        labels_of(t).len() == n,
{
    lemma_grown_count(t0, t, n, ks);
}

/// With no growth an empty root has no labels.
pub proof fn lemma_no_growth_no_labels(t0: Trie, t: Trie, ks: Seq<char>)
    requires
        t0.below@.len() == 0,
        grown_from(t0, t, 0, ks),
    ensures
        labels_of(t) == Seq::<Seq<char>>::empty(),
{
}

/// One growth of an empty root over a non-empty keyset gives the single
/// label made of the first key.
pub proof fn lemma_single_growth(t0: Trie, t: Trie, ks: Seq<char>)
    requires
        t0.below@.len() == 0,
        ks.len() > 0,
        grown_from(t0, t, 1, ks),
    ensures
        labels_of(t) == seq![seq![ks[0]]],
{
    let s = choose|s: Trie| grown_from(t0, s, 0, ks) && #[trigger] grew(s, t, ks);
    lemma_added_leaf_labels(t0, t, ks[0]);
    assert(labels_of(t0) == Seq::<Seq<char>>::empty());
    assert(labels_of(t) =~= seq![seq![ks[0]]]);
}

/// No node below the root has exactly one child.
pub open spec fn branching(t: Trie) -> bool
    decreases t,
{
    forall|j: int|
        0 <= j < t.below@.len() ==> (#[trigger] t.below@[j]).below@.len() != 1 && branching(
            t.below@[j],
        )
}

/// Over two keys or more, one growth keeps every node below the root from
/// having a single child.
proof fn lemma_grew_branching(t: Trie, u: Trie, ks: Seq<char>)
    requires
        branching(t),
        ks.len() >= 2,
        grew(t, u, ks),
    ensures
        branching(u),
        t.below@.len() >= ks.len() ==> u.below@.len() == t.below@.len(),
    decreases t,
{
    let n = t.below@.len() as int;
    if n < ks.len() {
        assert forall|m: int| 0 <= m < u.below@.len() implies (#[trigger] u.below@[m]).below@.len()
            != 1 && branching(u.below@[m]) by {
            if m < n {
                assert(u.below@[m] == u.below@.drop_last()[m]);
            } else {
                assert(branching(u.below@[m]));
            }
        }
    } else {
        let j = last_with_room(t, ks, n);
        lemma_room_found(t, ks, n);
        if j >= 0 {
            let c = t.below@[j];
            let d = u.below@[j];
            if c.below@.len() == 0 {
                assert(branching(d.below@[0]));
                assert(branching(d.below@[1]));
            } else {
                assert forall|m: int| 0 <= m < d.below@.len() implies (#[trigger] d.below@[m]).below@.len()
                    != 1 && branching(d.below@[m]) by {
                    if m < c.below@.len() {
                        assert(branching(c));
                        assert(d.below@[m] == d.below@.drop_last()[m]);
                        assert(d.below@[m] == c.below@[m]);
                    } else {
                        assert(branching(d.below@[m]));
                    }
                }
            }
            assert(branching(d));
            assert forall|m: int| 0 <= m < u.below@.len() implies (#[trigger] u.below@[m]).below@.len()
                != 1 && branching(u.below@[m]) by {
                if m != j {
                    assert(u.below@[m] == t.below@[m]);
                }
            }
        } else {
            lemma_grew_branching(t.below@[n - 1], u.below@[n - 1], ks);
            assert forall|m: int| 0 <= m < u.below@.len() implies (#[trigger] u.below@[m]).below@.len()
                != 1 && branching(u.below@[m]) by {
                if m != n - 1 {
                    assert(u.below@[m] == t.below@[m]);
                }
            }
        }
    }
}

/// Growths over two keys or more from an empty root keep every node below
/// the root from having a single child.
proof fn lemma_grown_branching(t0: Trie, t: Trie, n: nat, ks: Seq<char>)
    requires
        t0.below@.len() == 0,
        ks.len() >= 2,
        grown_from(t0, t, n, ks),
    ensures
        branching(t),
    decreases n,
{
    if n > 0 {
        let s = choose|s: Trie| grown_from(t0, s, (n - 1) as nat, ks) && #[trigger] grew(s, t, ks);
        lemma_grown_branching(t0, s, (n - 1) as nat, ks);
        lemma_grew_branching(s, t, ks);
    }
}

/// Each child gives at least one label.
proof fn lemma_upto_len(t: Trie, n: int)
    requires
        0 <= n <= t.below@.len(),
    ensures
        labels_upto(t, n).len() >= n,
    decreases t, n,
{
    if n > 0 {
        lemma_upto_len(t, n - 1);
        let c = t.below@[n - 1];
        if c.below@.len() > 0 {
            lemma_upto_len(c, c.below@.len() as int);
        }
        assert(labels_upto(t, n) == labels_upto(t, n - 1) + child_labels(c));
    }
}

/// Where no node below the root has a single child, every non-empty proper
/// prefix of a label is a prefix of some other label as well.
proof fn lemma_shared_prefix(t: Trie, n: int, i: int, m: int)
    requires
        branching(t),
        0 <= n <= t.below@.len(),
        0 <= i < labels_upto(t, n).len(),
        1 <= m < labels_upto(t, n)[i].len(),
    ensures
        exists|i2: int|
            0 <= i2 < labels_upto(t, n).len() && i2 != i && is_prefix(
                labels_upto(t, n)[i].take(m),
                #[trigger] labels_upto(t, n)[i2],
            ),
    decreases t, n,
{
    let a = labels_upto(t, n - 1);
    let c = t.below@[n - 1];
    let p = child_labels(c);
    let all = labels_upto(t, n);
    assert(all == a + p);
    if i < a.len() {
        lemma_shared_prefix(t, n - 1, i, m);
        let i2 = choose|i2: int|
            0 <= i2 < a.len() && i2 != i && is_prefix(a[i].take(m), #[trigger] a[i2]);
        assert(all[i2] == a[i2] && all[i] == a[i]);
    } else {
        let k = i - a.len();
        assert(all[i] == p[k]);
        assert(c.below@.len() != 1 && branching(c));
        if c.below@.len() == 0 {
            assert(p[k].len() == 1);
        } else {
            let l = labels_of(c);
            lemma_upto_len(c, c.below@.len() as int);
            assert(p[k] == seq![c.key] + l[k]);
            if m == 1 {
                let k2 = if k == 0 { 1int } else { 0int };
                assert(p[k2] == seq![c.key] + l[k2]);
                assert(all[a.len() + k2] == p[k2]);
                assert(all[i].take(1) =~= seq![c.key]);
                assert(all[a.len() + k2].subrange(0, 1) =~= seq![c.key]);
            } else {
                lemma_shared_prefix(c, c.below@.len() as int, k, m - 1);
                let k2 = choose|k2: int|
                    0 <= k2 < l.len() && k2 != k && is_prefix(l[k].take(m - 1), #[trigger] l[k2]);
                assert(p[k2] == seq![c.key] + l[k2]);
                assert(all[a.len() + k2] == p[k2]);
                let q = all[i].take(m);
                assert(q =~= seq![c.key] + l[k].take(m - 1));
                assert(p[k2].subrange(0, m) =~= seq![c.key] + l[k2].subrange(0, m - 1));
            }
        }
    }
}

/// After growths over two keys or more from an empty root, every non-empty
/// proper prefix of a label is shared by another label.
pub proof fn lemma_grown_shared_prefix(t0: Trie, t: Trie, n: nat, ks: Seq<char>, i: int, m: int)
    requires
        t0.below@.len() == 0,
        ks.len() >= 2,
        grown_from(t0, t, n, ks),
        0 <= i < labels_of(t).len(),
        1 <= m < labels_of(t)[i].len(),
    ensures
        exists|i2: int|
            0 <= i2 < labels_of(t).len() && i2 != i && is_prefix(
                labels_of(t)[i].take(m),
                #[trigger] labels_of(t)[i2],
            ),
{
    lemma_grown_branching(t0, t, n, ks);
    lemma_shared_prefix(t, t.below@.len() as int, i, m);
}

impl Default for Trie {
    /// An empty root. Its key is never part of a label.
    fn default() -> (r: Trie)
        ensures
            r.key == ' ',
            r.below@.len() == 0,
    {
        Trie::new(' ')
    }
}

impl Trie {
    /// A leaf under `key`.
    pub fn new(key: char) -> (r: Trie)
        ensures
            r.key == key,
            r.below@.len() == 0,
    {
        Trie { key, below: Vec::new() }
    }

    /// Adds a leaf under the next unused key of `keyset`.
    fn add_key(&mut self, keyset: &[char])
        requires
            old(self).below@.len() < keyset@.len(),
        ensures
            added_leaf(*old(self), *final(self), keyset@[old(self).below@.len() as int]),
    {
        let ghost t = *self;
        let hint = keyset[self.below.len()];
        self.below.push(Trie::new(hint));
        assert(self.below@.drop_last() =~= t.below@);
    }

    /// Grows the tree by one label, or says why it cannot, leaving it as it
    /// was.
    pub fn grow(&mut self, keyset: &[char]) -> (r: Result<(), ConfigError>)
        ensures
            r is Ok <==> keyset@.len() > 0 && can_grow(*old(self), keyset@),
            r is Err ==> r == Err::<(), ConfigError>(config_error(keyset@)) && *final(self)
                == *old(self),
            r is Ok ==> grew(*old(self), *final(self), keyset@),
            r is Ok ==> labels_of(*final(self)).len() == labels_of(*old(self)).len() + 1,
            wf(*old(self), keyset@) ==> wf(*final(self), keyset@),
            wf(*old(self), keyset@) && keyset@.no_duplicates() ==> prefix_free(
                labels_of(*final(self)),
            ),
            final(self).key == old(self).key,
    {
        let ghost t = *self;
        proof {
            if wf(t, keyset@) && keyset@.no_duplicates() {
                lemma_prefix_free_upto(t, keyset@, t.below@.len() as int);
            }
        }
        if keyset.len() == 0 {
            Err(ConfigError::EmptyKeyset)
        } else if keyset.len() < 2 && self.below.len() >= keyset.len() {
            Err(ConfigError::KeysetTooSmall)
        } else {
            self.grow_node(keyset);
            proof {
                lemma_grew_count(t, *self, keyset@);
                if wf(t, keyset@) {
                    lemma_grew_wf(t, *self, keyset@);
                    if keyset@.no_duplicates() {
                        lemma_prefix_free_upto(*self, keyset@, self.below@.len() as int);
                    }
                }
            }
            Ok(())
        }
    }

    /// Grows the tree by `n` labels, or says why it cannot, leaving it as it
    /// was.
    pub fn grow_repeatedly(&mut self, n: usize, keyset: &[char]) -> (r: Result<(), ConfigError>)
        ensures
            r is Ok <==> keyset@.len() > 0 && can_grow_by(*old(self), n as nat, keyset@),
            r is Err ==> r == Err::<(), ConfigError>(config_error(keyset@)) && *final(self)
                == *old(self),
            r is Ok ==> grown_from(*old(self), *final(self), n as nat, keyset@),
            r is Ok ==> labels_of(*final(self)).len() == labels_of(*old(self)).len() + n,
            wf(*old(self), keyset@) ==> wf(*final(self), keyset@),
            wf(*old(self), keyset@) && keyset@.no_duplicates() ==> prefix_free(
                labels_of(*final(self)),
            ),
            final(self).key == old(self).key,
    {
        let ghost t = *self;
        proof {
            if wf(t, keyset@) && keyset@.no_duplicates() {
                lemma_prefix_free_upto(t, keyset@, t.below@.len() as int);
            }
        }
        if keyset.len() == 0 {
            return Err(ConfigError::EmptyKeyset);
        }
        if keyset.len() < 2 && n > 0 && (n > 1 || self.below.len() > 0) {
            return Err(ConfigError::KeysetTooSmall);
        }
        for i in 0..n
            invariant
                keyset@.len() > 0,
                can_grow_by(t, n as nat, keyset@),
                i > 0 || *self == t,
                grown_from(t, *self, i as nat, keyset@),
                labels_of(*self).len() == labels_of(t).len() + i,
                wf(t, keyset@) ==> wf(*self, keyset@),
                self.key == t.key,
        {
            let ghost s = *self;
            self.grow_node(keyset);
            proof {
                lemma_grew_count(s, *self, keyset@);
                if wf(t, keyset@) {
                    lemma_grew_wf(s, *self, keyset@);
                }
                assert(grown_from(t, s, i as nat, keyset@) && grew(s, *self, keyset@));
            }
        }
        proof {
            if wf(t, keyset@) && keyset@.no_duplicates() {
                lemma_prefix_free_upto(*self, keyset@, self.below@.len() as int);
            }
        }
        Ok(())
    }

    /// Grows the tree by one label.
    fn grow_node(&mut self, keyset: &[char])
        requires
            can_grow(*old(self), keyset@),
        ensures
            grew(*old(self), *final(self), keyset@),
        decreases *old(self),
    {
        let ghost t = *self;
        let k = keyset.len();
        let n = self.below.len();
        if n < k {
            self.add_key(keyset);
        } else {
            // the last child that still has room
            let mut i: usize = n;
            while i > 0 && self.below[i - 1].below.len() >= k
                invariant
                    i <= n,
                    n == self.below@.len(),
                    *self == t,
                    forall|j: int| i <= j < n ==> (#[trigger] self.below@[j]).below@.len() >= k,
                decreases i,
            {
                i = i - 1;
            }
            proof {
                lemma_last_with_room(t, keyset@, i as int, n as int);
            }
            if i > 0 {
                // a child with room grows where it stands; a leaf grows twice,
                // so that its label becomes the prefix of two new ones
                let j = i - 1;
                if self.below[j].below.len() == 0 {
                    self.below[j].add_key(keyset);
                }
                self.below[j].add_key(keyset);
                assert(self.below@ == t.below@.update(j as int, self.below@[j as int]));
            } else {
                // every child is saturated: go down the last one
                self.below[n - 1].grow_node(keyset);
                assert(self.below@ == t.below@.update(n - 1, self.below@[n - 1]));
            }
        }
    }

    /// The labels of the tree, one per leaf, in depth-first order.
    pub fn labels(&self) -> (r: Vec<String>)
        ensures
            views(r@) == labels_of(*self),
    {
        let mut paths: Vec<String> = Vec::new();
        let root = "";
        proof {
            reveal_strlit("");
        }
        let mut i: usize = 0;
        while i < self.below.len()
            invariant
                i <= self.below@.len(),
                root@ == Seq::<char>::empty(),
                views(paths@) == labels_upto(*self, i as int),
            decreases self.below@.len() - i,
        {
            let ghost before = paths@;
            self.below[i].labels_(root, &mut paths);
            proof {
                let c = self.below@[i as int];
                assert(child_labels(c).map_values(|p: Seq<char>| root@ + p) =~= child_labels(c));
                assert(views(paths@) =~= views(before) + child_labels(c));
            }
            i = i + 1;
        }
        paths
    }

    /// Appends to `paths` the labels that this child contributes, each after
    /// `path`.
    pub fn labels_(&self, path: &str, paths: &mut Vec<String>)
        ensures
            views(final(paths)@) == views(old(paths)@) + child_labels(*self).map_values(
                |p: Seq<char>| path@ + p,
            ),
        decreases *self,
    {
        let mut here = path.to_owned();
        push_char(&mut here, self.key);
        if self.below.len() == 0 {
            let ghost before = paths@;
            paths.push(here);
            proof {
                assert(views(paths@) =~= views(before).push(here@));
                assert(path@ + seq![self.key] =~= here@);
                assert(child_labels(*self).map_values(|p: Seq<char>| path@ + p) =~= seq![here@]);
            }
        } else {
            let ghost start = paths@;
            let mut i: usize = 0;
            while i < self.below.len()
                invariant
                    i <= self.below@.len(),
                    here@ == path@.push(self.key),
                    views(paths@) == views(start) + labels_upto(*self, i as int).map_values(
                        |p: Seq<char>| here@ + p,
                    ),
                decreases self.below@.len() - i,
            {
                let ghost before = paths@;
                self.below[i].labels_(here.as_str(), paths);
                proof {
                    let c = self.below@[i as int];
                    assert(labels_upto(*self, i + 1) == labels_upto(*self, i as int) + child_labels(c));
                    assert(views(paths@) =~= views(start) + labels_upto(*self, i + 1).map_values(
                        |p: Seq<char>| here@ + p,
                    ));
                }
                i = i + 1;
            }
            proof {
                let ls = labels_of(*self);
                assert forall|m: int| 0 <= m < ls.len() implies path@ + (seq![self.key] + ls[m])
                    == here@ + ls[m] by {
                    assert(path@ + (seq![self.key] + ls[m]) =~= here@ + ls[m]);
                }
                assert(child_labels(*self).map_values(|p: Seq<char>| path@ + p) =~= labels_of(
                    *self,
                ).map_values(|p: Seq<char>| here@ + p));
            }
        }
    }
}

} // verus!
