//! Snapshots of environment variables, the changes between two of them, and
//! the folding of chained changes into one.
//!
//! A snapshot is a list of `(name, value)` pairs of raw bytes. It stands for
//! a map from names to values; where a name occurs more than once, its last
//! occurrence counts. A [`Diff`] is an ordered list of [`Change`]s.

use crate::bytes::{
    bytes_lt, copy_bytes, has_prefix, lemma_lt_irreflexive, lemma_lt_total, lemma_lt_transitive,
    rank, same_bytes, starts_with, Rank,
};
use crate::order::{
    is_key_order, key_order, key_rows, lemma_ascending_keys, lemma_between_run,
    lemma_run_end_is_last, lemma_run_start_is_first, precedes,
};
use vstd::prelude::*;

verus! {

/// One variable of a snapshot: its name and its value.
pub type Item = (Vec<u8>, Vec<u8>);

/// A snapshot of the environment.
pub type Env = Vec<Item>;

/// What happened to one variable between two snapshots.
#[derive(Debug, PartialEq, Eq)]
pub enum Change {
    /// The variable is new: its name and its value.
    Added(Vec<u8>, Vec<u8>),
    /// The variable has another value: its name, the old value, the new one.
    Changed(Vec<u8>, Vec<u8>, Vec<u8>),
    /// The variable is gone: its name and the value it had.
    Removed(Vec<u8>, Vec<u8>),
}

/// A [`Change`] as a mathematical value.
pub enum ChangeView {
    Added(Seq<u8>, Seq<u8>),
    Changed(Seq<u8>, Seq<u8>, Seq<u8>),
    Removed(Seq<u8>, Seq<u8>),
}

impl ChangeView {
    /// The name of the variable that the change is about.
    pub open spec fn name(self) -> Seq<u8> {
        match self {
            ChangeView::Added(name, _) => name,
            ChangeView::Changed(name, _, _) => name,
            ChangeView::Removed(name, _) => name,
        }
    }

    /// The value of the variable before the change, if it had one.
    pub open spec fn before(self) -> Option<Seq<u8>> {
        match self {
            ChangeView::Added(_, _) => None,
            ChangeView::Changed(_, old, _) => Some(old),
            ChangeView::Removed(_, old) => Some(old),
        }
    }

    /// The value of the variable after the change, if it has one.
    pub open spec fn after(self) -> Option<Seq<u8>> {
        match self {
            ChangeView::Added(_, new) => Some(new),
            ChangeView::Changed(_, _, new) => Some(new),
            ChangeView::Removed(_, _) => None,
        }
    }
}

impl View for Change {
    type V = ChangeView;

    open spec fn view(&self) -> ChangeView {
        match self {
            Change::Added(name, new) => ChangeView::Added(name@, new@),
            Change::Changed(name, old, new) => ChangeView::Changed(name@, old@, new@),
            Change::Removed(name, old) => ChangeView::Removed(name@, old@),
        }
    }
}

impl Clone for Change {
    fn clone(&self) -> (copy: Self)
        ensures
            copy@ == self@,
    {
        match self {
            Change::Added(name, new) => Change::Added(
                copy_bytes(name.as_slice()),
                copy_bytes(new.as_slice()),
            ),
            Change::Changed(name, old, new) => Change::Changed(
                copy_bytes(name.as_slice()),
                copy_bytes(old.as_slice()),
                copy_bytes(new.as_slice()),
            ),
            Change::Removed(name, old) => Change::Removed(
                copy_bytes(name.as_slice()),
                copy_bytes(old.as_slice()),
            ),
        }
    }
}

impl Change {
    /// The name of the variable that the change is about.
    pub fn name(&self) -> (name: &Vec<u8>)
        ensures
            name@ == self@.name(),
    {
        match self {
            Change::Added(name, _) => name,
            Change::Changed(name, _, _) => name,
            Change::Removed(name, _) => name,
        }
    }
}

/// The pairs of a snapshot as byte sequences.
pub open spec fn pairs(entries: Seq<Item>) -> Seq<(Seq<u8>, Seq<u8>)> {
    entries.map_values(|e: Item| (e.0@, e.1@))
}

/// The map that a list of pairs stands for: each name with the value of its
/// last occurrence.
pub open spec fn snapshot(entries: Seq<(Seq<u8>, Seq<u8>)>) -> Map<Seq<u8>, Seq<u8>>
    decreases entries.len(),
{
    if entries.len() == 0 {
        Map::empty()
    } else {
        snapshot(entries.drop_last()).insert(entries.last().0, entries.last().1)
    }
}

/// The value of `name` in `env`, if it has one.
pub open spec fn lookup(env: Map<Seq<u8>, Seq<u8>>, name: Seq<u8>) -> Option<Seq<u8>> {
    if env.dom().contains(name) {
        Some(env[name])
    } else {
        None
    }
}

/// The change that takes the variable `name` from one state to another:
/// none where the two states are the same.
pub open spec fn change_between(
    name: Seq<u8>,
    before: Option<Seq<u8>>,
    after: Option<Seq<u8>>,
) -> Option<ChangeView> {
    match (before, after) {
        (None, None) => None,
        (None, Some(new)) => Some(ChangeView::Added(name, new)),
        (Some(old), None) => Some(ChangeView::Removed(name, old)),
        (Some(old), Some(new)) => if old == new {
            None
        } else {
            Some(ChangeView::Changed(name, old, new))
        },
    }
}

/// The change of the variable `name` from the environment `a` to `b`.
pub open spec fn diff_at(
    a: Map<Seq<u8>, Seq<u8>>,
    b: Map<Seq<u8>, Seq<u8>>,
    name: Seq<u8>,
) -> Option<ChangeView> {
    change_between(name, lookup(a, name), lookup(b, name))
}

/// The names of the changes ascend strictly, so no name occurs twice.
pub open spec fn names_ascend(changes: Seq<ChangeView>) -> bool {
    forall|i: int, j: int|
        0 <= i < j < changes.len() ==> bytes_lt(
            (#[trigger] changes[i]).name(),
            (#[trigger] changes[j]).name(),
        )
}

/// Some change in the list is about `name`.
pub open spec fn mentions(changes: Seq<ChangeView>, name: Seq<u8>) -> bool {
    exists|i: int| 0 <= i < changes.len() && (#[trigger] changes[i]).name() == name
}

/// `changes` lists, by ascending name, exactly the changes that `net` gives:
/// one for each name that has one, and no other.
pub open spec fn lists_net(
    changes: Seq<ChangeView>,
    net: spec_fn(Seq<u8>) -> Option<ChangeView>,
) -> bool {
    &&& names_ascend(changes)
    &&& forall|i: int|
        0 <= i < changes.len() ==> net((#[trigger] changes[i]).name()) == Some(changes[i])
    &&& forall|name: Seq<u8>| (#[trigger] net(name)) is Some ==> mentions(changes, name)
}

/// `changes` is the difference between the environments `a` and `b`: by
/// ascending name, one change for each variable whose state differs.
pub open spec fn is_diff(
    changes: Seq<ChangeView>,
    a: Map<Seq<u8>, Seq<u8>>,
    b: Map<Seq<u8>, Seq<u8>>,
) -> bool {
    lists_net(changes, |name: Seq<u8>| diff_at(a, b, name))
}

/// Some pair in the list carries `name`.
pub open spec fn mentions_name(entries: Seq<(Seq<u8>, Seq<u8>)>, name: Seq<u8>) -> bool {
    exists|i: int| 0 <= i < entries.len() && (#[trigger] entries[i]).0 == name
}

/// `sorted` lists the variables of `env` by ascending name, each once.
pub open spec fn lists_env(sorted: Seq<(Seq<u8>, Seq<u8>)>, env: Map<Seq<u8>, Seq<u8>>) -> bool {
    &&& forall|i: int, j: int|
        0 <= i < j < sorted.len() ==> bytes_lt((#[trigger] sorted[i]).0, (#[trigger] sorted[j]).0)
    &&& forall|i: int|
        0 <= i < sorted.len() ==> lookup(env, (#[trigger] sorted[i]).0) == Some(sorted[i].1)
    &&& forall|name: Seq<u8>|
        env.dom().contains(name) ==> exists|i: int|
            0 <= i < sorted.len() && (#[trigger] sorted[i]).0 == name
}

/// A name that no pair carries is not in the snapshot.
pub proof fn lemma_snapshot_has(entries: Seq<(Seq<u8>, Seq<u8>)>, name: Seq<u8>)
    requires
        snapshot(entries).dom().contains(name),
    ensures
        exists|i: int| 0 <= i < entries.len() && (#[trigger] entries[i]).0 == name,
    decreases entries.len(),
{
    if entries.len() > 0 {
        if entries.last().0 == name {
            assert(entries[entries.len() - 1].0 == name);
        } else {
            lemma_snapshot_has(entries.drop_last(), name);
            let i = choose|i: int|
                0 <= i < entries.drop_last().len() && (#[trigger] entries.drop_last()[i]).0
                    == name;
            assert(entries[i].0 == name);
        }
    }
}

/// The snapshot gives each name the value of its last occurrence.
pub proof fn lemma_snapshot_last(entries: Seq<(Seq<u8>, Seq<u8>)>, i: int)
    requires
        0 <= i < entries.len(),
        forall|j: int| i < j < entries.len() ==> (#[trigger] entries[j]).0 != entries[i].0,
    ensures
        lookup(snapshot(entries), entries[i].0) == Some(entries[i].1),
    decreases entries.len(),
{
    if i < entries.len() - 1 {
        let rest = entries.drop_last();
        assert(entries[entries.len() - 1].0 != entries[i].0);
        assert forall|j: int| i < j < rest.len() implies (#[trigger] rest[j]).0 != rest[i].0 by {
            assert(entries[j].0 != entries[i].0);
        }
        lemma_snapshot_last(rest, i);
    }
}

/// The variables of a snapshot by ascending name, each once with the value
/// that counts.
pub fn sorted(v: &[Item]) -> (r: Vec<Item>)
    ensures
        lists_env(pairs(r@), snapshot(pairs(v@))),
{
    let ghost input = pairs(v@);
    let ghost env = snapshot(input);
    let mut keys: Vec<Vec<u8>> = Vec::with_capacity(v.len());
    let mut n: usize = 0;
    while n < v.len()
        invariant
            n <= v.len(),
            keys.len() == n,
            forall|y: int| 0 <= y < n ==> (#[trigger] keys[y])@ == v[y].0@,
        decreases v.len() - n,
    {
        keys.push(copy_bytes(v[n].0.as_slice()));
        n += 1;
    }
    let ghost rows = key_rows(keys@);
    assert forall|y: int| 0 <= y < v.len() implies #[trigger] rows[y] == input[y].0 by {
        assert(keys[y]@ == v[y].0@);
    }
    let order = key_order(&keys);
    let mut r: Vec<Item> = Vec::new();
    let mut p: usize = 0;
    while p < order.len()
        invariant
            p <= order.len(),
            order.len() == v.len(),
            keys.len() == v.len(),
            input == pairs(v@),
            env == snapshot(input),
            rows == key_rows(keys@),
            rows.len() == input.len(),
            forall|y: int| 0 <= y < v.len() ==> #[trigger] rows[y] == input[y].0,
            is_key_order(order@, rows),
            forall|t: int, u: int|
                0 <= t < u < r.len() ==> bytes_lt(
                    (#[trigger] pairs(r@)[t]).0,
                    (#[trigger] pairs(r@)[u]).0,
                ),
            forall|t: int|
                0 <= t < r.len() ==> lookup(env, (#[trigger] pairs(r@)[t]).0) == Some(
                    pairs(r@)[t].1,
                ),
            p < order.len() ==> forall|t: int|
                0 <= t < r.len() ==> bytes_lt(
                    (#[trigger] pairs(r@)[t]).0,
                    rows[order[p as int] as int],
                ),
            forall|q: int|
                0 <= q < p ==> mentions_name(pairs(r@), #[trigger] rows[order[q] as int]) || (p
                    < order.len() && rows[order[q] as int] == rows[order[p as int] as int]),
        decreases order.len() - p,
    {
        let x: usize = order[p];
        let ends_run = if p + 1 == order.len() {
            true
        } else {
            !same_bytes(keys[order[p + 1]].as_slice(), keys[x].as_slice())
        };
        let ghost before = pairs(r@);
        proof {
            assert(rows[x as int] == keys[x as int]@);
            if p + 1 < order.len() {
                assert(rows[order[p + 1] as int] == keys[order[p + 1] as int]@);
                lemma_ascending_keys(order@, rows, p as int, p + 1);
                lemma_lt_total(rows[x as int], rows[order[p + 1] as int]);
            }
        }
        if ends_run {
            let name = copy_bytes(v[x].0.as_slice());
            let value = copy_bytes(v[x].1.as_slice());
            proof {
                assert forall|y: int| x < y < input.len() implies (#[trigger] input[y]).0
                    != input[x as int].0 by {
                    if input[y].0 == input[x as int].0 {
                        assert(rows[y] == rows[x as int]);
                        lemma_run_end_is_last(order@, rows, p as int, y as usize);
                    }
                }
                lemma_snapshot_last(input, x as int);
            }
            r.push((name, value));
            proof {
                let after = pairs(r@);
                assert(after =~= before.push((rows[x as int], input[x as int].1)));
                assert forall|q: int| 0 <= q < p + 1 implies mentions_name(
                    after,
                    #[trigger] rows[order[q] as int],
                ) by {
                    if q == p || rows[order[q] as int] == rows[x as int] {
                        assert(after[before.len() as int].0 == rows[order[q] as int]);
                    } else {
                        let t = choose|t: int|
                            0 <= t < before.len() && (#[trigger] before[t]).0
                                == rows[order[q] as int];
                        assert(after[t].0 == rows[order[q] as int]);
                    }
                }
                if p + 1 < order.len() {
                    assert forall|t: int| 0 <= t < after.len() implies bytes_lt(
                        (#[trigger] after[t]).0,
                        rows[order[p + 1] as int],
                    ) by {
                        if t < before.len() {
                            lemma_lt_transitive(
                                before[t].0,
                                rows[x as int],
                                rows[order[p + 1] as int],
                            );
                        }
                    }
                }
            }
        }
        p += 1;
    }
    proof {
        let out = pairs(r@);
        assert forall|name: Seq<u8>| env.dom().contains(name) implies exists|t: int|
            0 <= t < out.len() && (#[trigger] out[t]).0 == name by {
            lemma_snapshot_has(input, name);
            let y = choose|y: int| 0 <= y < input.len() && (#[trigger] input[y]).0 == name;
            assert(order@.contains(y as usize));
            let q = choose|q: int| 0 <= q < order.len() && order[q] == y as usize;
            assert(rows[order[q] as int] == name);
            assert(mentions_name(out, rows[order[q] as int]));
        }
    }
    r
}

/// A list of changes as mathematical values.
pub open spec fn change_views(changes: Seq<Change>) -> Seq<ChangeView> {
    changes.map_values(|c: Change| c@)
}

/// An ordered list of changes. [`diff`] and [`Diff::simplify`] produce lists
/// with at most one change per name, ascending by name; [`Diff::push`] and
/// [`Diff::extend`] append without looking at names.
#[derive(Debug, PartialEq, Eq)]
pub struct Diff(Vec<Change>);

impl View for Diff {
    type V = Seq<ChangeView>;

    closed spec fn view(&self) -> Seq<ChangeView> {
        change_views(self.0@)
    }
}

impl Diff {
    /// The changes of the list as they are stored.
    pub closed spec fn items(self) -> Seq<Change> {
        self.0@
    }

    /// The view of a list is the view of its changes, one by one.
    pub broadcast proof fn lemma_view_items(self)
        ensures
            #[trigger] self@ == change_views(self.items()),
    {
    }

    /// An empty list.
    pub fn new() -> (d: Self)
        ensures
            d@ == Seq::<ChangeView>::empty(),
    {
        let d = Diff(Vec::new());
        assert(d@ =~= Seq::<ChangeView>::empty());
        d
    }

    /// A list holding copies of the given changes, in the same order.
    pub fn from(changes: &[Change]) -> (d: Self)
        ensures
            d@ == change_views(changes@),
    {
        let mut list: Vec<Change> = Vec::with_capacity(changes.len());
        let mut i: usize = 0;
        while i < changes.len()
            invariant
                i <= changes.len(),
                list.len() == i,
                forall|j: int| 0 <= j < i ==> (#[trigger] list[j])@ == changes[j]@,
            decreases changes.len() - i,
        {
            list.push(changes[i].clone());
            i += 1;
        }
        let d = Diff(list);
        assert(d@ =~= change_views(changes@));
        d
    }

    /// A list holding the given changes, in the same order.
    pub fn from_vec(changes: Vec<Change>) -> (d: Self)
        ensures
            d@ == change_views(changes@),
    {
        Diff(changes)
    }

    /// The changes of the list, in order.
    pub fn as_slice(&self) -> (changes: &[Change])
        ensures
            changes@ == self.items(),
            change_views(changes@) == self@,
    {
        self.0.as_slice()
    }

    /// Appends one change. Nothing is merged: the list may then hold two
    /// changes of one name.
    pub fn push(&mut self, change: Change)
        ensures
            final(self)@ == old(self)@.push(change@),
    {
        self.0.push(change);
        assert(self@ =~= old(self)@.push(change@));
    }

    /// Appends the changes of `diff` as they are, in order.
    pub fn extend(&mut self, diff: Diff)
        ensures
            final(self)@ == old(self)@ + diff@,
    {
        let mut other = diff.0;
        self.0.append(&mut other);
        assert(self@ =~= old(self)@ + diff@);
    }

    /// An iterator over the changes, in order.
    pub fn iter(&self) -> (iter: core::slice::Iter<'_, Change>)
        ensures
            vstd::std_specs::slice::into_iter_elts(iter) == self.items(),
    {
        let iter = self.0.iter();
        iter
    }
}

impl Default for Diff {
    fn default() -> (d: Self)
        ensures
            d@ == Seq::<ChangeView>::empty(),
    {
        Diff::new()
    }
}

/// No variable of `env` from place `from` of `sorted` on has the name `name`,
/// nor any before place `from`, where all those come before `name` and
/// `name` comes before all from `from` on.
proof fn lemma_not_listed(
    sorted: Seq<(Seq<u8>, Seq<u8>)>,
    env: Map<Seq<u8>, Seq<u8>>,
    from: int,
    name: Seq<u8>,
)
    requires
        lists_env(sorted, env),
        0 <= from <= sorted.len(),
        forall|q: int| 0 <= q < from ==> bytes_lt((#[trigger] sorted[q]).0, name),
        from < sorted.len() ==> bytes_lt(name, sorted[from].0),
    ensures
        lookup(env, name) is None,
{
    if env.dom().contains(name) {
        let q = choose|q: int| 0 <= q < sorted.len() && (#[trigger] sorted[q]).0 == name;
        lemma_lt_irreflexive(name);
        if q > from {
            lemma_lt_total(name, sorted[from].0);
            assert(bytes_lt(sorted[from].0, sorted[q].0));
        }
    }
}

/// A list that mentions a name still mentions it after a change is appended,
/// and mentions the name of that change.
proof fn lemma_mentions_push(changes: Seq<ChangeView>, change: ChangeView, name: Seq<u8>)
    ensures
        mentions(changes, name) ==> mentions(changes.push(change), name),
        mentions(changes.push(change), change.name()),
{
    let longer = changes.push(change);
    if mentions(changes, name) {
        let i = choose|i: int| 0 <= i < changes.len() && (#[trigger] changes[i]).name() == name;
        assert(longer[i].name() == name);
    }
    assert(longer[changes.len() as int].name() == change.name());
}

/// What the merge of two sorted snapshots has established when it stands at
/// place `i` of the first and place `j` of the second.
spec fn walked(
    changes: Seq<ChangeView>,
    sa: Seq<(Seq<u8>, Seq<u8>)>,
    sb: Seq<(Seq<u8>, Seq<u8>)>,
    a: Map<Seq<u8>, Seq<u8>>,
    b: Map<Seq<u8>, Seq<u8>>,
    i: int,
    j: int,
) -> bool {
    &&& 0 <= i <= sa.len()
    &&& 0 <= j <= sb.len()
    &&& names_ascend(changes)
    &&& forall|t: int|
        0 <= t < changes.len() ==> diff_at(a, b, (#[trigger] changes[t]).name()) == Some(
            changes[t],
        )
    &&& i < sa.len() ==> forall|t: int|
        0 <= t < changes.len() ==> bytes_lt((#[trigger] changes[t]).name(), sa[i].0)
    &&& j < sb.len() ==> forall|t: int|
        0 <= t < changes.len() ==> bytes_lt((#[trigger] changes[t]).name(), sb[j].0)
    &&& i < sa.len() ==> forall|q: int| 0 <= q < j ==> bytes_lt((#[trigger] sb[q]).0, sa[i].0)
    &&& j < sb.len() ==> forall|p: int| 0 <= p < i ==> bytes_lt((#[trigger] sa[p]).0, sb[j].0)
    &&& forall|p: int|
        0 <= p < i && diff_at(a, b, (#[trigger] sa[p]).0) is Some ==> mentions(changes, sa[p].0)
    &&& forall|q: int|
        0 <= q < j && diff_at(a, b, (#[trigger] sb[q]).0) is Some ==> mentions(changes, sb[q].0)
}

/// The merge may take the head of the first snapshot alone: its name is in
/// the first environment only.
proof fn lemma_walk_first(
    changes: Seq<ChangeView>,
    sa: Seq<(Seq<u8>, Seq<u8>)>,
    sb: Seq<(Seq<u8>, Seq<u8>)>,
    a: Map<Seq<u8>, Seq<u8>>,
    b: Map<Seq<u8>, Seq<u8>>,
    i: int,
    j: int,
)
    requires
        lists_env(sa, a),
        lists_env(sb, b),
        walked(changes, sa, sb, a, b, i, j),
        i < sa.len(),
        j < sb.len() ==> bytes_lt(sa[i].0, sb[j].0),
    ensures
        walked(changes.push(ChangeView::Removed(sa[i].0, sa[i].1)), sa, sb, a, b, i + 1, j),
{
    let name = sa[i].0;
    let change = ChangeView::Removed(name, sa[i].1);
    let longer = changes.push(change);
    lemma_not_listed(sb, b, j, name);
    assert(diff_at(a, b, name) == Some(change));
    assert forall|t: int| 0 <= t < longer.len() implies diff_at(
        a,
        b,
        (#[trigger] longer[t]).name(),
    ) == Some(longer[t]) by {
        if t < changes.len() {
            assert(longer[t] == changes[t]);
        }
    }
    assert(names_ascend(longer)) by {
        assert forall|t: int, u: int| 0 <= t < u < longer.len() implies bytes_lt(
            (#[trigger] longer[t]).name(),
            (#[trigger] longer[u]).name(),
        ) by {
            assert(longer[t] == changes[t]);
            if u < changes.len() {
                assert(longer[u] == changes[u]);
            }
        }
    }
    if i + 1 < sa.len() {
        assert(bytes_lt(sa[i].0, sa[i + 1].0));
        assert forall|t: int| 0 <= t < longer.len() implies bytes_lt(
            (#[trigger] longer[t]).name(),
            sa[i + 1].0,
        ) by {
            if t < changes.len() {
                assert(longer[t] == changes[t]);
                lemma_lt_transitive(changes[t].name(), name, sa[i + 1].0);
            }
        }
        assert forall|q: int| 0 <= q < j implies bytes_lt((#[trigger] sb[q]).0, sa[i + 1].0) by {
            lemma_lt_transitive(sb[q].0, name, sa[i + 1].0);
        }
    }
    if j < sb.len() {
        assert forall|t: int| 0 <= t < longer.len() implies bytes_lt(
            (#[trigger] longer[t]).name(),
            sb[j].0,
        ) by {
            if t < changes.len() {
                assert(longer[t] == changes[t]);
            }
        }
    }
    assert forall|p: int|
        0 <= p < i + 1 && diff_at(a, b, (#[trigger] sa[p]).0) is Some implies mentions(
        longer,
        sa[p].0,
    ) by {
        lemma_mentions_push(changes, change, sa[p].0);
    }
    assert forall|q: int|
        0 <= q < j && diff_at(a, b, (#[trigger] sb[q]).0) is Some implies mentions(
        longer,
        sb[q].0,
    ) by {
        lemma_mentions_push(changes, change, sb[q].0);
    }
}

/// The merge may take the head of the second snapshot alone: its name is in
/// the second environment only.
proof fn lemma_walk_second(
    changes: Seq<ChangeView>,
    sa: Seq<(Seq<u8>, Seq<u8>)>,
    sb: Seq<(Seq<u8>, Seq<u8>)>,
    a: Map<Seq<u8>, Seq<u8>>,
    b: Map<Seq<u8>, Seq<u8>>,
    i: int,
    j: int,
)
    requires
        lists_env(sa, a),
        lists_env(sb, b),
        walked(changes, sa, sb, a, b, i, j),
        j < sb.len(),
        i < sa.len() ==> bytes_lt(sb[j].0, sa[i].0),
    ensures
        walked(changes.push(ChangeView::Added(sb[j].0, sb[j].1)), sa, sb, a, b, i, j + 1),
{
    let name = sb[j].0;
    let change = ChangeView::Added(name, sb[j].1);
    let longer = changes.push(change);
    lemma_not_listed(sa, a, i, name);
    assert(diff_at(a, b, name) == Some(change));
    assert forall|t: int| 0 <= t < longer.len() implies diff_at(
        a,
        b,
        (#[trigger] longer[t]).name(),
    ) == Some(longer[t]) by {
        if t < changes.len() {
            assert(longer[t] == changes[t]);
        }
    }
    assert(names_ascend(longer)) by {
        assert forall|t: int, u: int| 0 <= t < u < longer.len() implies bytes_lt(
            (#[trigger] longer[t]).name(),
            (#[trigger] longer[u]).name(),
        ) by {
            assert(longer[t] == changes[t]);
            if u < changes.len() {
                assert(longer[u] == changes[u]);
            }
        }
    }
    if j + 1 < sb.len() {
        assert(bytes_lt(sb[j].0, sb[j + 1].0));
        assert forall|t: int| 0 <= t < longer.len() implies bytes_lt(
            (#[trigger] longer[t]).name(),
            sb[j + 1].0,
        ) by {
            if t < changes.len() {
                assert(longer[t] == changes[t]);
                lemma_lt_transitive(changes[t].name(), name, sb[j + 1].0);
            }
        }
        assert forall|p: int| 0 <= p < i implies bytes_lt((#[trigger] sa[p]).0, sb[j + 1].0) by {
            lemma_lt_transitive(sa[p].0, name, sb[j + 1].0);
        }
    }
    if i < sa.len() {
        assert forall|t: int| 0 <= t < longer.len() implies bytes_lt(
            (#[trigger] longer[t]).name(),
            sa[i].0,
        ) by {
            if t < changes.len() {
                assert(longer[t] == changes[t]);
            }
        }
    }
    assert forall|p: int|
        0 <= p < i && diff_at(a, b, (#[trigger] sa[p]).0) is Some implies mentions(
        longer,
        sa[p].0,
    ) by {
        lemma_mentions_push(changes, change, sa[p].0);
    }
    assert forall|q: int|
        0 <= q < j + 1 && diff_at(a, b, (#[trigger] sb[q]).0) is Some implies mentions(
        longer,
        sb[q].0,
    ) by {
        lemma_mentions_push(changes, change, sb[q].0);
    }
}

/// The merge may take both heads where they carry one name: the change, if
/// the values differ, is the one appended.
proof fn lemma_walk_both(
    changes: Seq<ChangeView>,
    sa: Seq<(Seq<u8>, Seq<u8>)>,
    sb: Seq<(Seq<u8>, Seq<u8>)>,
    a: Map<Seq<u8>, Seq<u8>>,
    b: Map<Seq<u8>, Seq<u8>>,
    i: int,
    j: int,
)
    requires
        lists_env(sa, a),
        lists_env(sb, b),
        walked(changes, sa, sb, a, b, i, j),
        i < sa.len(),
        j < sb.len(),
        sa[i].0 == sb[j].0,
    ensures
        sa[i].1 == sb[j].1 ==> walked(changes, sa, sb, a, b, i + 1, j + 1),
        sa[i].1 != sb[j].1 ==> walked(
            changes.push(ChangeView::Changed(sa[i].0, sa[i].1, sb[j].1)),
            sa,
            sb,
            a,
            b,
            i + 1,
            j + 1,
        ),
{
    let name = sa[i].0;
    let change = ChangeView::Changed(name, sa[i].1, sb[j].1);
    let differ = sa[i].1 != sb[j].1;
    let longer = if differ {
        changes.push(change)
    } else {
        changes
    };
    assert(diff_at(a, b, name) == if differ {
        Some(change)
    } else {
        None
    });
    assert forall|t: int| 0 <= t < longer.len() implies diff_at(
        a,
        b,
        (#[trigger] longer[t]).name(),
    ) == Some(longer[t]) by {
        if t < changes.len() {
            assert(longer[t] == changes[t]);
        }
    }
    assert(names_ascend(longer)) by {
        assert forall|t: int, u: int| 0 <= t < u < longer.len() implies bytes_lt(
            (#[trigger] longer[t]).name(),
            (#[trigger] longer[u]).name(),
        ) by {
            assert(longer[t] == changes[t]);
            if u < changes.len() {
                assert(longer[u] == changes[u]);
            }
        }
    }
    if i + 1 < sa.len() {
        assert(bytes_lt(sa[i].0, sa[i + 1].0));
        assert forall|t: int| 0 <= t < longer.len() implies bytes_lt(
            (#[trigger] longer[t]).name(),
            sa[i + 1].0,
        ) by {
            if t < changes.len() {
                assert(longer[t] == changes[t]);
                lemma_lt_transitive(changes[t].name(), name, sa[i + 1].0);
            }
        }
        assert forall|q: int| 0 <= q < j + 1 implies bytes_lt(
            (#[trigger] sb[q]).0,
            sa[i + 1].0,
        ) by {
            if q < j {
                lemma_lt_transitive(sb[q].0, name, sa[i + 1].0);
            }
        }
    }
    if j + 1 < sb.len() {
        assert(bytes_lt(sb[j].0, sb[j + 1].0));
        assert forall|t: int| 0 <= t < longer.len() implies bytes_lt(
            (#[trigger] longer[t]).name(),
            sb[j + 1].0,
        ) by {
            if t < changes.len() {
                assert(longer[t] == changes[t]);
                lemma_lt_transitive(changes[t].name(), name, sb[j + 1].0);
            }
        }
        assert forall|p: int| 0 <= p < i + 1 implies bytes_lt(
            (#[trigger] sa[p]).0,
            sb[j + 1].0,
        ) by {
            if p < i {
                lemma_lt_transitive(sa[p].0, name, sb[j + 1].0);
            }
        }
    }
    assert forall|p: int|
        0 <= p < i + 1 && diff_at(a, b, (#[trigger] sa[p]).0) is Some implies mentions(
        longer,
        sa[p].0,
    ) by {
        if differ {
            lemma_mentions_push(changes, change, sa[p].0);
        }
    }
    assert forall|q: int|
        0 <= q < j + 1 && diff_at(a, b, (#[trigger] sb[q]).0) is Some implies mentions(
        longer,
        sb[q].0,
    ) by {
        if differ {
            lemma_mentions_push(changes, change, sb[q].0);
        }
    }
}

/// Once both snapshots are walked through, the changes gathered are the
/// difference between the two environments.
proof fn lemma_walk_done(
    changes: Seq<ChangeView>,
    sa: Seq<(Seq<u8>, Seq<u8>)>,
    sb: Seq<(Seq<u8>, Seq<u8>)>,
    a: Map<Seq<u8>, Seq<u8>>,
    b: Map<Seq<u8>, Seq<u8>>,
)
    requires
        lists_env(sa, a),
        lists_env(sb, b),
        walked(changes, sa, sb, a, b, sa.len() as int, sb.len() as int),
    ensures
        is_diff(changes, a, b),
{
    let net = |name: Seq<u8>| diff_at(a, b, name);
    assert forall|name: Seq<u8>| (#[trigger] net(name)) is Some implies mentions(
        changes,
        name,
    ) by {
        if a.dom().contains(name) {
            let p = choose|p: int| 0 <= p < sa.len() && (#[trigger] sa[p]).0 == name;
        } else {
            assert(b.dom().contains(name));
            let q = choose|q: int| 0 <= q < sb.len() && (#[trigger] sb[q]).0 == name;
        }
    }
}

/// The changes that lead from the snapshot `a` to the snapshot `b`.
///
/// Both snapshots are sorted by name and walked through side by side. A name
/// in `a` alone gives `Removed`, a name in `b` alone `Added`, a name in both
/// gives `Changed` where the values differ and nothing where they agree. The
/// result ascends by name and holds each name at most once. Where a snapshot
/// holds a name more than once, the last of its pairs counts.
pub fn diff(a: &[Item], b: &[Item]) -> (d: Diff)
    ensures
        is_diff(d@, snapshot(pairs(a@)), snapshot(pairs(b@))),
{
    let mut d = Diff::new();
    let veca = sorted(a);
    let vecb = sorted(b);
    let ghost ea = snapshot(pairs(a@));
    let ghost eb = snapshot(pairs(b@));
    let ghost sa = pairs(veca@);
    let ghost sb = pairs(vecb@);
    let mut i: usize = 0;
    let mut j: usize = 0;
    while i < veca.len() || j < vecb.len()
        invariant
            sa == pairs(veca@),
            sb == pairs(vecb@),
            lists_env(sa, ea),
            lists_env(sb, eb),
            walked(d@, sa, sb, ea, eb, i as int, j as int),
        decreases veca.len() - i + vecb.len() - j,
    {
        let take_first = if j >= vecb.len() {
            Rank::Before
        } else if i >= veca.len() {
            Rank::After
        } else {
            rank(veca[i].0.as_slice(), vecb[j].0.as_slice())
        };
        match take_first {
            Rank::Before => {
                proof {
                    lemma_walk_first(d@, sa, sb, ea, eb, i as int, j as int);
                }
                d.push(
                    Change::Removed(
                        copy_bytes(veca[i].0.as_slice()),
                        copy_bytes(veca[i].1.as_slice()),
                    ),
                );
                i += 1;
            },
            Rank::After => {
                proof {
                    if i < veca.len() {
                        lemma_lt_total(sa[i as int].0, sb[j as int].0);
                    }
                    lemma_walk_second(d@, sa, sb, ea, eb, i as int, j as int);
                }
                d.push(
                    Change::Added(
                        copy_bytes(vecb[j].0.as_slice()),
                        copy_bytes(vecb[j].1.as_slice()),
                    ),
                );
                j += 1;
            },
            Rank::Same => {
                proof {
                    lemma_lt_total(sa[i as int].0, sb[j as int].0);
                    lemma_walk_both(d@, sa, sb, ea, eb, i as int, j as int);
                }
                if !same_bytes(veca[i].1.as_slice(), vecb[j].1.as_slice()) {
                    d.push(
                        Change::Changed(
                            copy_bytes(veca[i].0.as_slice()),
                            copy_bytes(veca[i].1.as_slice()),
                            copy_bytes(vecb[j].1.as_slice()),
                        ),
                    );
                }
                i += 1;
                j += 1;
            },
        }
    }
    proof {
        lemma_walk_done(d@, sa, sb, ea, eb);
    }
    d
}

/// The one change that stands for `prior` followed by `next`, both about the
/// same variable; none where the two cancel out.
///
/// The state before comes from `prior`, the state after from `next`:
///
/// * after `Added`: another `Added` or a `Changed` gives `Added` with the
///   latest value; a `Removed` of the value that was added gives nothing,
///   and a `Removed` of any other value gives `Removed` with the added value;
/// * after `Changed`: an `Added` or a `Changed` gives `Changed` from the first
///   old value to the latest value, or nothing where the two are equal; a
///   `Removed` gives `Removed` with the first old value;
/// * after `Removed`: an `Added` gives `Changed` from the removed value to the
///   added one, or nothing where the two are equal; a `Changed` gives `Added`
///   with the latest value; a `Removed` gives `Removed` with the first value.
pub open spec fn combine(prior: ChangeView, next: ChangeView) -> Option<ChangeView> {
    let name = prior.name();
    match prior {
        ChangeView::Added(_, first) => match next {
            ChangeView::Added(_, now) => Some(ChangeView::Added(name, now)),
            ChangeView::Changed(_, _, now) => Some(ChangeView::Added(name, now)),
            ChangeView::Removed(_, old) => if old == first {
                None
            } else {
                Some(ChangeView::Removed(name, first))
            },
        },
        ChangeView::Changed(_, first, _) => match next {
            ChangeView::Added(_, now) => change_between(name, Some(first), Some(now)),
            ChangeView::Changed(_, _, now) => change_between(name, Some(first), Some(now)),
            ChangeView::Removed(_, _) => Some(ChangeView::Removed(name, first)),
        },
        ChangeView::Removed(_, first) => match next {
            ChangeView::Added(_, now) => change_between(name, Some(first), Some(now)),
            ChangeView::Changed(_, _, now) => Some(ChangeView::Added(name, now)),
            ChangeView::Removed(_, _) => Some(ChangeView::Removed(name, first)),
        },
    }
}

/// The net change of the variable `name` over a list of changes: the changes
/// about `name` combined one after the other, in the order of the list.
pub open spec fn net_change(changes: Seq<ChangeView>, name: Seq<u8>) -> Option<ChangeView>
    decreases changes.len(),
{
    if changes.len() == 0 {
        None
    } else {
        let so_far = net_change(changes.drop_last(), name);
        let next = changes.last();
        if next.name() != name {
            so_far
        } else {
            match so_far {
                None => Some(next),
                Some(prior) => combine(prior, next),
            }
        }
    }
}

/// `folded` is the list `changes` folded: by ascending name, the net change
/// of each variable that has one.
pub open spec fn is_simplified(folded: Seq<ChangeView>, changes: Seq<ChangeView>) -> bool {
    lists_net(folded, |name: Seq<u8>| net_change(changes, name))
}

/// The view of an optional change.
pub open spec fn option_view(change: Option<Change>) -> Option<ChangeView> {
    match change {
        None => None,
        Some(c) => Some(c@),
    }
}

/// A net change is about the variable it was asked for.
pub proof fn lemma_net_name(changes: Seq<ChangeView>, name: Seq<u8>)
    ensures
        net_change(changes, name) matches Some(c) ==> c.name() == name,
    decreases changes.len(),
{
    if changes.len() > 0 {
        lemma_net_name(changes.drop_last(), name);
    }
}

/// A variable has a net change only if some change is about it.
pub proof fn lemma_net_mentions(changes: Seq<ChangeView>, name: Seq<u8>)
    requires
        net_change(changes, name) is Some,
    ensures
        mentions(changes, name),
    decreases changes.len(),
{
    if changes.len() > 0 {
        if changes.last().name() == name {
            assert(changes[changes.len() - 1].name() == name);
        } else {
            lemma_net_mentions(changes.drop_last(), name);
            let i = choose|i: int|
                0 <= i < changes.drop_last().len() && (#[trigger] changes.drop_last()[i]).name()
                    == name;
            assert(changes[i].name() == name);
        }
    }
}

/// Changes about other variables do not touch the net change of `name`.
proof fn lemma_net_skip(changes: Seq<ChangeView>, lo: int, hi: int, name: Seq<u8>)
    requires
        0 <= lo <= hi <= changes.len(),
        forall|y: int| lo <= y < hi ==> (#[trigger] changes[y]).name() != name,
    ensures
        net_change(changes.take(hi), name) == net_change(changes.take(lo), name),
    decreases hi - lo,
{
    if lo < hi {
        assert(changes.take(hi).drop_last() =~= changes.take(hi - 1));
        assert(changes.take(hi).last() == changes[hi - 1]);
        lemma_net_skip(changes, lo, hi - 1, name);
    }
}

/// Taking one more change into account combines it with the net so far.
proof fn lemma_net_step(changes: Seq<ChangeView>, x: int)
    requires
        0 <= x < changes.len(),
    ensures
        net_change(changes.take(x + 1), changes[x].name()) == match net_change(
            changes.take(x),
            changes[x].name(),
        ) {
            None => Some(changes[x]),
            Some(prior) => combine(prior, changes[x]),
        },
{
    assert(changes.take(x + 1).drop_last() =~= changes.take(x));
    assert(changes.take(x + 1).last() == changes[x]);
}

/// Combines two changes about one variable as [`combine`] says.
fn combined(prior: Change, next: &Change) -> (net: Option<Change>)
    ensures
        option_view(net) == combine(prior@, next@),
{
    match prior {
        Change::Added(name, first) => match next {
            Change::Added(_, now) => Some(Change::Added(name, copy_bytes(now.as_slice()))),
            Change::Changed(_, _, now) => Some(Change::Added(name, copy_bytes(now.as_slice()))),
            Change::Removed(_, old) => if same_bytes(old.as_slice(), first.as_slice()) {
                None
            } else {
                Some(Change::Removed(name, first))
            },
        },
        Change::Changed(name, first, _) => match next {
            Change::Added(_, now) => if same_bytes(first.as_slice(), now.as_slice()) {
                None
            } else {
                Some(Change::Changed(name, first, copy_bytes(now.as_slice())))
            },
            Change::Changed(_, _, now) => if same_bytes(first.as_slice(), now.as_slice()) {
                None
            } else {
                Some(Change::Changed(name, first, copy_bytes(now.as_slice())))
            },
            Change::Removed(_, _) => Some(Change::Removed(name, first)),
        },
        Change::Removed(name, first) => match next {
            Change::Added(_, now) => if same_bytes(first.as_slice(), now.as_slice()) {
                None
            } else {
                Some(Change::Changed(name, first, copy_bytes(now.as_slice())))
            },
            Change::Changed(_, _, now) => Some(Change::Added(name, copy_bytes(now.as_slice()))),
            Change::Removed(_, _) => Some(Change::Removed(name, first)),
        },
    }
}

impl Diff {
    /// Folds the list, in place, into one change per variable.
    ///
    /// The list is read as changes applied one after the other, such as the
    /// changes from a first snapshot to a second followed by those from the
    /// second to a third. For each variable the changes about it are
    /// combined in order, as [`combine`] says; what is left is put in
    /// ascending order of name. Folding the changes from a first snapshot
    /// to a second and on to a third gives the changes from the first to
    /// the third.
    pub fn simplify(&mut self)
        ensures
            is_simplified(final(self)@, old(self)@),
    {
        let ghost changes = self@;
        let mut keys: Vec<Vec<u8>> = Vec::with_capacity(self.0.len());
        let mut n: usize = 0;
        while n < self.0.len()
            invariant
                n <= self.0.len(),
                keys.len() == n,
                self@ == changes,
                forall|y: int| 0 <= y < n ==> (#[trigger] keys[y])@ == changes[y].name(),
            decreases self.0.len() - n,
        {
            keys.push(copy_bytes(self.0[n].name().as_slice()));
            n += 1;
        }
        let ghost rows = key_rows(keys@);
        assert forall|y: int| 0 <= y < changes.len() implies #[trigger] rows[y]
            == changes[y].name() by {
            assert(keys[y]@ == changes[y].name());
        }
        let order = key_order(&keys);
        let mut folded = Diff::new();
        let mut net: Option<Change> = None;
        let mut p: usize = 0;
        proof {
            if order.len() > 0 {
                let x = order[0];
                assert forall|y: int| 0 <= y < x implies (#[trigger] changes[y]).name()
                    != rows[x as int] by {
                    if changes[y].name() == rows[x as int] {
                        assert(rows[y] == rows[x as int]);
                        lemma_run_start_is_first(order@, rows, 0, y as usize);
                    }
                }
                lemma_net_skip(changes, 0, x as int, rows[x as int]);
            }
        }
        while p < order.len()
            invariant
                p <= order.len(),
                order.len() == changes.len(),
                keys.len() == changes.len(),
                self@ == changes,
                self.0.len() == changes.len(),
                rows == key_rows(keys@),
                rows.len() == changes.len(),
                forall|y: int| 0 <= y < changes.len() ==> #[trigger] rows[y] == changes[y].name(),
                is_key_order(order@, rows),
                names_ascend(folded@),
                forall|t: int|
                    0 <= t < folded@.len() ==> net_change(
                        changes,
                        (#[trigger] folded@[t]).name(),
                    ) == Some(folded@[t]),
                p < order.len() ==> forall|t: int|
                    0 <= t < folded@.len() ==> bytes_lt(
                        (#[trigger] folded@[t]).name(),
                        rows[order[p as int] as int],
                    ),
                p < order.len() ==> option_view(net) == net_change(
                    changes.take(order[p as int] as int),
                    rows[order[p as int] as int],
                ),
                forall|q: int|
                    0 <= q < p && net_change(changes, #[trigger] rows[order[q] as int]) is Some
                        ==> mentions(folded@, rows[order[q] as int]) || (p < order.len()
                        && rows[order[q] as int] == rows[order[p as int] as int]),
            decreases order.len() - p,
        {
            let x: usize = order[p];
            let ghost name = rows[x as int];
            let ghost before = folded@;
            proof {
                assert(self.0@[x as int]@ == changes[x as int]);
                lemma_net_step(changes, x as int);
            }
            net = match net {
                None => Some(self.0[x].clone()),
                Some(prior) => combined(prior, &self.0[x]),
            };
            assert(option_view(net) == net_change(changes.take(x + 1), name));
            let ends_run = if p + 1 == order.len() {
                true
            } else {
                !same_bytes(keys[order[p + 1]].as_slice(), keys[x].as_slice())
            };
            proof {
                assert(rows[x as int] == keys[x as int]@);
                if p + 1 < order.len() {
                    assert(rows[order[p + 1] as int] == keys[order[p + 1] as int]@);
                    lemma_ascending_keys(order@, rows, p as int, p + 1);
                    lemma_lt_total(name, rows[order[p + 1] as int]);
                }
            }
            if ends_run {
                proof {
                    assert forall|y: int| x < y < changes.len() implies (
                    #[trigger] changes[y]).name() != name by {
                        if changes[y].name() == name {
                            assert(rows[y] == rows[x as int]);
                            lemma_run_end_is_last(order@, rows, p as int, y as usize);
                        }
                    }
                    lemma_net_skip(changes, x + 1, changes.len() as int, name);
                    assert(changes.take(changes.len() as int) =~= changes);
                    lemma_net_name(changes, name);
                }
                match net {
                    Some(change) => {
                        proof {
                            lemma_mentions_push(before, change@, name);
                        }
                        folded.push(change);
                    },
                    None => {},
                }
                net = None;
                proof {
                    let after = folded@;
                    assert forall|t: int| 0 <= t < before.len() implies after[t] == before[t] by {}
                    assert forall|q: int|
                        0 <= q < p + 1 && net_change(changes, #[trigger] rows[order[q] as int])
                            is Some implies mentions(after, rows[order[q] as int]) by {
                        if rows[order[q] as int] != name {
                            lemma_mentions_push(
                                before,
                                after[after.len() - 1],
                                rows[order[q] as int],
                            );
                        }
                    }
                    if p + 1 < order.len() {
                        let next = order[p + 1];
                        assert forall|t: int| 0 <= t < after.len() implies bytes_lt(
                            (#[trigger] after[t]).name(),
                            rows[next as int],
                        ) by {
                            if t < before.len() {
                                lemma_lt_transitive(before[t].name(), name, rows[next as int]);
                            }
                        }
                        assert forall|y: int| 0 <= y < next implies (#[trigger] changes[y]).name()
                            != rows[next as int] by {
                            if changes[y].name() == rows[next as int] {
                                assert(rows[y] == rows[next as int]);
                                lemma_run_start_is_first(order@, rows, p + 1, y as usize);
                            }
                        }
                        lemma_net_skip(changes, 0, next as int, rows[next as int]);
                        assert(changes.take(0) =~= Seq::<ChangeView>::empty());
                    }
                }
            } else {
                proof {
                    let next = order[p + 1];
                    assert(rows[next as int] == name);
                    assert(precedes(rows, x as int, next as int));
                    lemma_lt_irreflexive(name);
                    assert forall|y: int| x + 1 <= y < next implies (#[trigger] changes[y]).name()
                        != name by {
                        if changes[y].name() == name {
                            assert(rows[y] == name);
                            lemma_between_run(order@, rows, p as int, y as usize);
                        }
                    }
                    lemma_net_skip(changes, x + 1, next as int, name);
                }
            }
            p += 1;
        }
        proof {
            let after = folded@;
            let net_of = |name: Seq<u8>| net_change(changes, name);
            assert forall|name: Seq<u8>| (#[trigger] net_of(name)) is Some implies mentions(
                after,
                name,
            ) by {
                lemma_net_mentions(changes, name);
                let y = choose|y: int|
                    0 <= y < changes.len() && (#[trigger] changes[y]).name() == name;
                assert(order@.contains(y as usize));
                let q = choose|q: int| 0 <= q < order.len() && order[q] == y as usize;
                assert(rows[order[q] as int] == name);
            }
        }
        *self = folded;
    }
}

/// The changes whose verdict is `false`, in order; `verdicts` gives one
/// verdict for each change.
pub open spec fn kept(changes: Seq<ChangeView>, verdicts: Seq<bool>) -> Seq<ChangeView>
    decreases changes.len(),
{
    if changes.len() == 0 || verdicts.len() != changes.len() {
        Seq::empty()
    } else {
        let rest = kept(changes.drop_last(), verdicts.drop_last());
        if verdicts.last() {
            rest
        } else {
            rest.push(changes.last())
        }
    }
}

/// The changes whose name does not begin with `prefix`, in order.
pub open spec fn without_prefix(changes: Seq<ChangeView>, prefix: Seq<u8>) -> Seq<ChangeView> {
    kept(changes, changes.map_values(|c: ChangeView| has_prefix(c.name(), prefix)))
}

impl Diff {
    /// A new list without the changes whose name begins with `prefix`. The
    /// list itself stays as it is.
    pub fn exclude_by_prefix(&self, prefix: &[u8]) -> (d: Self)
        ensures
            d@ == without_prefix(self@, prefix@),
    {
        let begins = |change: &Change| -> (found: bool)
            ensures
                found == has_prefix(change@.name(), prefix@),
            { starts_with(change.name().as_slice(), prefix) };
        let d = self.exclude_by(begins);
        proof {
            let verdicts = choose|verdicts: Seq<bool>|
                verdicts.len() == self.items().len() && (forall|i: int|
                    0 <= i < verdicts.len() ==> call_ensures(
                        begins,
                        (&self.items()[i],),
                        #[trigger] verdicts[i],
                    )) && d@ == kept(self@, verdicts);
            assert(verdicts =~= self@.map_values(|c: ChangeView| has_prefix(c.name(), prefix@)));
        }
        d
    }

    /// A new list without the changes of which `func` returns `true`. The
    /// list itself stays as it is.
    pub fn exclude_by<F>(&self, func: F) -> (d: Self) where F: Fn(&Change) -> bool
        requires
            forall|i: int|
                0 <= i < self.items().len() ==> call_requires(func, (&#[trigger] self.items()[i],)),
        ensures
            exists|verdicts: Seq<bool>|
                verdicts.len() == self.items().len() && (forall|i: int|
                    0 <= i < verdicts.len() ==> call_ensures(
                        func,
                        (&self.items()[i],),
                        #[trigger] verdicts[i],
                    )) && d@ == kept(self@, verdicts),
    {
        let mut list: Vec<Change> = Vec::new();
        let ghost mut verdicts = Seq::<bool>::empty();
        let mut i: usize = 0;
        while i < self.0.len()
            invariant
                i <= self.0.len(),
                verdicts.len() == i,
                self.items() == self.0@,
                forall|j: int|
                    0 <= j < self.items().len() ==> call_requires(
                        func,
                        (&#[trigger] self.items()[j],),
                    ),
                forall|j: int|
                    0 <= j < i ==> call_ensures(func, (&self.items()[j],), #[trigger] verdicts[j]),
                change_views(list@) == kept(self@.take(i as int), verdicts),
            decreases self.0.len() - i,
        {
            assert(self.0@[i as int] == self.items()[i as int]);
            let excluded = func(&self.0[i]);
            let ghost earlier = verdicts;
            proof {
                verdicts = verdicts.push(excluded);
                assert(verdicts.drop_last() =~= earlier);
                assert(self@.take(i + 1).drop_last() =~= self@.take(i as int));
                assert(self@.take(i + 1).last() == self.0@[i as int]@);
            }
            if !excluded {
                let ghost shorter = change_views(list@);
                list.push(self.0[i].clone());
                assert(change_views(list@) =~= shorter.push(self.0@[i as int]@));
            }
            i += 1;
        }
        let d = Diff(list);
        proof {
            assert(self@.take(self.0.len() as int) =~= self@);
            assert(d@ == kept(self@, verdicts));
        }
        d
    }
}

} // verus!
