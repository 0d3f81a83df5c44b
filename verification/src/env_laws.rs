//! What holds of differences and of folding, for all environments.

use crate::bytes::{bytes_lt, has_prefix, lemma_lt_irreflexive, lemma_lt_total};
use crate::env::{
    combine, diff_at, is_diff, is_simplified, kept, lists_net, lookup, mentions,
    names_ascend, net_change, snapshot, without_prefix, ChangeView,
};
use vstd::prelude::*;

verus! {

/// The environment after one change: `Added` and `Changed` set the variable
/// to the new value, `Removed` takes the variable away.
pub open spec fn apply_one(env: Map<Seq<u8>, Seq<u8>>, change: ChangeView) -> Map<
    Seq<u8>,
    Seq<u8>,
> {
    match change {
        ChangeView::Added(name, new) => env.insert(name, new),
        ChangeView::Changed(name, _, new) => env.insert(name, new),
        ChangeView::Removed(name, _) => env.remove(name),
    }
}

/// The environment after the changes of a list, applied in order.
pub open spec fn apply(changes: Seq<ChangeView>, env: Map<Seq<u8>, Seq<u8>>) -> Map<
    Seq<u8>,
    Seq<u8>,
>
    decreases changes.len(),
{
    if changes.len() == 0 {
        env
    } else {
        apply_one(apply(changes.drop_last(), env), changes.last())
    }
}

/// The environment without the variables whose name begins with `prefix`.
pub open spec fn drop_prefixed(env: Map<Seq<u8>, Seq<u8>>, prefix: Seq<u8>) -> Map<
    Seq<u8>,
    Seq<u8>,
> {
    env.restrict(Set::new(|name: Seq<u8>| !has_prefix(name, prefix)))
}

/// In a list whose names ascend, the change about a name is the one at the
/// place where the name stands.
proof fn lemma_mentioned_once(changes: Seq<ChangeView>, i: int, j: int)
    requires
        names_ascend(changes),
        0 <= i < changes.len(),
        0 <= j < changes.len(),
        changes[i].name() == changes[j].name(),
    ensures
        i == j,
{
    lemma_lt_irreflexive(changes[i].name());
    if i < j {
        assert(bytes_lt(changes[i].name(), changes[j].name()));
    } else if j < i {
        assert(bytes_lt(changes[j].name(), changes[i].name()));
    }
}

/// Two lists that both list what `net` gives are the same list.
pub proof fn lemma_listing_is_unique(
    x: Seq<ChangeView>,
    y: Seq<ChangeView>,
    net: spec_fn(Seq<u8>) -> Option<ChangeView>,
)
    requires
        lists_net(x, net),
        lists_net(y, net),
    ensures
        x == y,
    decreases x.len(),
{
    if x.len() == 0 {
        if y.len() > 0 {
            assert(net(y[0].name()) is Some);
            assert(mentions(x, y[0].name()));
        }
        assert(x =~= y);
    } else {
        let lx = x.last();
        assert(x[x.len() - 1] == lx);
        assert(net(lx.name()) is Some);
        assert(mentions(y, lx.name()));
        let ly = y.last();
        assert(y[y.len() - 1] == ly);
        assert(net(ly.name()) is Some);
        assert(mentions(x, ly.name()));
        let jy = choose|j: int| 0 <= j < y.len() && (#[trigger] y[j]).name() == lx.name();
        let jx = choose|j: int| 0 <= j < x.len() && (#[trigger] x[j]).name() == ly.name();
        lemma_lt_total(lx.name(), ly.name());
        if jy < y.len() - 1 {
            assert(bytes_lt(y[jy].name(), y[y.len() - 1].name()));
        }
        if jx < x.len() - 1 {
            assert(bytes_lt(x[jx].name(), x[x.len() - 1].name()));
        }
        assert(lx.name() == ly.name());
        assert(lx == ly);
        let top = lx.name();
        let rest = |name: Seq<u8>|
            if name == top {
                None
            } else {
                net(name)
            };
        let xs = x.drop_last();
        let ys = y.drop_last();
        assert(lists_net(xs, rest)) by {
            assert forall|i: int| 0 <= i < xs.len() implies rest((#[trigger] xs[i]).name())
                == Some(xs[i]) by {
                assert(xs[i] == x[i]);
                assert(bytes_lt(x[i].name(), x[x.len() - 1].name()));
                lemma_lt_irreflexive(top);
            }
            assert forall|name: Seq<u8>| (#[trigger] rest(name)) is Some implies mentions(
                xs,
                name,
            ) by {
                assert(net(name) is Some);
                let i = choose|i: int| 0 <= i < x.len() && (#[trigger] x[i]).name() == name;
                assert(xs[i].name() == name);
            }
            assert forall|i: int, j: int| 0 <= i < j < xs.len() implies bytes_lt(
                (#[trigger] xs[i]).name(),
                (#[trigger] xs[j]).name(),
            ) by {
                assert(xs[i] == x[i] && xs[j] == x[j]);
            }
        }
        assert(lists_net(ys, rest)) by {
            assert forall|i: int| 0 <= i < ys.len() implies rest((#[trigger] ys[i]).name())
                == Some(ys[i]) by {
                assert(ys[i] == y[i]);
                assert(bytes_lt(y[i].name(), y[y.len() - 1].name()));
                lemma_lt_irreflexive(top);
            }
            assert forall|name: Seq<u8>| (#[trigger] rest(name)) is Some implies mentions(
                ys,
                name,
            ) by {
                assert(net(name) is Some);
                let i = choose|i: int| 0 <= i < y.len() && (#[trigger] y[i]).name() == name;
                assert(ys[i].name() == name);
            }
            assert forall|i: int, j: int| 0 <= i < j < ys.len() implies bytes_lt(
                (#[trigger] ys[i]).name(),
                (#[trigger] ys[j]).name(),
            ) by {
                assert(ys[i] == y[i] && ys[j] == y[j]);
            }
        }
        lemma_listing_is_unique(xs, ys, rest);
        assert(x =~= xs.push(lx));
        assert(y =~= ys.push(ly));
    }
}

/// There is only one difference between two environments.
pub proof fn lemma_diff_is_unique(
    x: Seq<ChangeView>,
    y: Seq<ChangeView>,
    a: Map<Seq<u8>, Seq<u8>>,
    b: Map<Seq<u8>, Seq<u8>>,
)
    requires
        is_diff(x, a, b),
        is_diff(y, a, b),
    ensures
        x == y,
{
    lemma_listing_is_unique(x, y, |name: Seq<u8>| diff_at(a, b, name));
}

/// There is only one way to fold a list of changes.
pub proof fn lemma_simplified_is_unique(
    x: Seq<ChangeView>,
    y: Seq<ChangeView>,
    changes: Seq<ChangeView>,
)
    requires
        is_simplified(x, changes),
        is_simplified(y, changes),
    ensures
        x == y,
{
    lemma_listing_is_unique(x, y, |name: Seq<u8>| net_change(changes, name));
}

/// A difference holds at most one change for each name.
pub proof fn lemma_diff_names_once(
    changes: Seq<ChangeView>,
    a: Map<Seq<u8>, Seq<u8>>,
    b: Map<Seq<u8>, Seq<u8>>,
    i: int,
    j: int,
)
    requires
        is_diff(changes, a, b),
        0 <= i < changes.len(),
        0 <= j < changes.len(),
        changes[i].name() == changes[j].name(),
    ensures
        i == j,
{
    lemma_mentioned_once(changes, i, j);
}

/// After the first `n` changes of a difference between `a` and `b`, a
/// variable that they mention is as in `b`, and any other is as in `a`.
proof fn lemma_apply_prefix(
    changes: Seq<ChangeView>,
    a: Map<Seq<u8>, Seq<u8>>,
    b: Map<Seq<u8>, Seq<u8>>,
    n: int,
    name: Seq<u8>,
)
    requires
        is_diff(changes, a, b),
        0 <= n <= changes.len(),
    ensures
        lookup(apply(changes.take(n), a), name) == if mentions(changes.take(n), name) {
            lookup(b, name)
        } else {
            lookup(a, name)
        },
    decreases n,
{
    let now = changes.take(n);
    if n > 0 {
        let earlier = changes.take(n - 1);
        assert(now.drop_last() =~= earlier);
        let last = changes[n - 1];
        assert(now.last() == last);
        lemma_apply_prefix(changes, a, b, n - 1, name);
        assert(diff_at(a, b, last.name()) == Some(last));
        if last.name() == name {
            assert(now[n - 1].name() == name);
        } else {
            if mentions(earlier, name) {
                let i = choose|i: int|
                    0 <= i < earlier.len() && (#[trigger] earlier[i]).name() == name;
                assert(now[i].name() == name);
            }
            if mentions(now, name) {
                let i = choose|i: int| 0 <= i < now.len() && (#[trigger] now[i]).name() == name;
                assert(earlier[i].name() == name);
            }
        }
    }
}

/// Applying the difference between `a` and `b` to `a` gives `b`: insert on
/// `Added`, overwrite on `Changed`, delete on `Removed`.
pub proof fn lemma_diff_applies(
    changes: Seq<ChangeView>,
    a: Map<Seq<u8>, Seq<u8>>,
    b: Map<Seq<u8>, Seq<u8>>,
)
    requires
        is_diff(changes, a, b),
    ensures
        apply(changes, a) == b,
{
    let result = apply(changes, a);
    assert(changes.take(changes.len() as int) =~= changes);
    assert forall|name: Seq<u8>| lookup(result, name) == lookup(b, name) by {
        lemma_apply_prefix(changes, a, b, changes.len() as int, name);
        if !mentions(changes, name) {
            let net = |name: Seq<u8>| diff_at(a, b, name);
            if lookup(a, name) != lookup(b, name) {
                assert(net(name) is Some);
            }
        }
    }
    assert forall|name: Seq<u8>| result.dom().contains(name) == b.dom().contains(name) by {
        assert(lookup(result, name) == lookup(b, name));
    }
    assert forall|name: Seq<u8>| result.dom().contains(name) implies result[name] == b[name] by {
        assert(lookup(result, name) == lookup(b, name));
    }
    assert(result =~= b);
}

/// The difference between an environment and itself is empty.
pub proof fn lemma_diff_of_same_is_empty(changes: Seq<ChangeView>, a: Map<Seq<u8>, Seq<u8>>)
    requires
        is_diff(changes, a, a),
    ensures
        changes == Seq::<ChangeView>::empty(),
{
    if changes.len() > 0 {
        assert(diff_at(a, a, changes[0].name()) == Some(changes[0]));
    }
    assert(changes =~= Seq::<ChangeView>::empty());
}

/// The net change of a name over a list whose names ascend is the change at
/// the place where the name stands, if it stands anywhere.
proof fn lemma_net_of_ascending(changes: Seq<ChangeView>, name: Seq<u8>)
    requires
        names_ascend(changes),
    ensures
        !mentions(changes, name) ==> net_change(changes, name) is None,
        forall|i: int|
            0 <= i < changes.len() && (#[trigger] changes[i]).name() == name ==> net_change(
                changes,
                name,
            ) == Some(changes[i]),
    decreases changes.len(),
{
    if changes.len() > 0 {
        let rest = changes.drop_last();
        let n = changes.len() - 1;
        assert forall|i: int, j: int| 0 <= i < j < rest.len() implies bytes_lt(
            (#[trigger] rest[i]).name(),
            (#[trigger] rest[j]).name(),
        ) by {
            assert(rest[i] == changes[i] && rest[j] == changes[j]);
        }
        lemma_net_of_ascending(rest, name);
        if changes[n].name() == name {
            if mentions(rest, name) {
                let i = choose|i: int| 0 <= i < rest.len() && (#[trigger] rest[i]).name() == name;
                assert(rest[i] == changes[i]);
                lemma_mentioned_once(changes, i, n);
            }
            assert forall|i: int|
                0 <= i < changes.len() && (#[trigger] changes[i]).name() == name implies i
                == n by {
                lemma_mentioned_once(changes, i, n);
            }
        } else {
            if mentions(rest, name) {
                let i = choose|i: int| 0 <= i < rest.len() && (#[trigger] rest[i]).name() == name;
                assert(changes[i].name() == name);
            }
            assert forall|i: int|
                0 <= i < changes.len() && (#[trigger] changes[i]).name() == name implies net_change(
                changes,
                name,
            ) == Some(changes[i]) by {
                assert(rest[i] == changes[i]);
            }
        }
    }
}

/// The net change of a name over a list followed by a second list whose
/// names ascend: the net over the first, combined with what the second says
/// about the name.
proof fn lemma_net_of_chain(first: Seq<ChangeView>, second: Seq<ChangeView>, name: Seq<u8>)
    requires
        names_ascend(second),
    ensures
        !mentions(second, name) ==> net_change(first + second, name) == net_change(first, name),
        forall|j: int|
            0 <= j < second.len() && (#[trigger] second[j]).name() == name ==> net_change(
                first + second,
                name,
            ) == match net_change(first, name) {
                None => Some(second[j]),
                Some(prior) => combine(prior, second[j]),
            },
    decreases second.len(),
{
    if second.len() == 0 {
        assert(first + second =~= first);
    } else {
        let rest = second.drop_last();
        let n = second.len() - 1;
        assert((first + second).drop_last() =~= first + rest);
        assert((first + second).last() == second[n]);
        assert forall|i: int, j: int| 0 <= i < j < rest.len() implies bytes_lt(
            (#[trigger] rest[i]).name(),
            (#[trigger] rest[j]).name(),
        ) by {
            assert(rest[i] == second[i] && rest[j] == second[j]);
        }
        lemma_net_of_chain(first, rest, name);
        if second[n].name() == name {
            if mentions(rest, name) {
                let i = choose|i: int| 0 <= i < rest.len() && (#[trigger] rest[i]).name() == name;
                assert(rest[i] == second[i]);
                lemma_mentioned_once(second, i, n);
            }
            assert forall|j: int|
                0 <= j < second.len() && (#[trigger] second[j]).name() == name implies j
                == n by {
                lemma_mentioned_once(second, j, n);
            }
        } else {
            if mentions(rest, name) {
                let i = choose|i: int| 0 <= i < rest.len() && (#[trigger] rest[i]).name() == name;
                assert(second[i].name() == name);
            }
            assert forall|j: int|
                0 <= j < second.len() && (#[trigger] second[j]).name() == name implies net_change(
                first + second,
                name,
            ) == match net_change(first, name) {
                None => Some(second[j]),
                Some(prior) => combine(prior, second[j]),
            } by {
                assert(rest[j] == second[j]);
            }
        }
    }
}

/// Over a list whose net changes are those from `a` to `b`, followed by the
/// changes from `b` to `c`, the net change of every variable is its change
/// from `a` to `c`.
proof fn lemma_net_extended(
    a: Map<Seq<u8>, Seq<u8>>,
    b: Map<Seq<u8>, Seq<u8>>,
    c: Map<Seq<u8>, Seq<u8>>,
    so_far: Seq<ChangeView>,
    bc: Seq<ChangeView>,
    name: Seq<u8>,
)
    requires
        net_change(so_far, name) == diff_at(a, b, name),
        is_diff(bc, b, c),
    ensures
        net_change(so_far + bc, name) == diff_at(a, c, name),
{
    let net_bc = |name: Seq<u8>| diff_at(b, c, name);
    lemma_net_of_chain(so_far, bc, name);
    let second = diff_at(b, c, name);
    if mentions(bc, name) {
        let j = choose|j: int| 0 <= j < bc.len() && (#[trigger] bc[j]).name() == name;
        assert(net_bc(bc[j].name()) == Some(bc[j]));
        assert(second == Some(bc[j]));
    } else if second is Some {
        assert(net_bc(name) is Some);
    }
}

/// Over the changes from `a` to `b` followed by those from `b` to `c`, the
/// net change of every variable is its change from `a` to `c`.
pub proof fn lemma_net_of_two_diffs(
    a: Map<Seq<u8>, Seq<u8>>,
    b: Map<Seq<u8>, Seq<u8>>,
    c: Map<Seq<u8>, Seq<u8>>,
    ab: Seq<ChangeView>,
    bc: Seq<ChangeView>,
    name: Seq<u8>,
)
    requires
        is_diff(ab, a, b),
        is_diff(bc, b, c),
    ensures
        net_change(ab + bc, name) == diff_at(a, c, name),
{
    lemma_net_of_diff(a, b, ab, name);
    lemma_net_extended(a, b, c, ab, bc, name);
}

/// Over the changes from `a` to `b`, the net change of every variable is
/// its change from `a` to `b`.
proof fn lemma_net_of_diff(
    a: Map<Seq<u8>, Seq<u8>>,
    b: Map<Seq<u8>, Seq<u8>>,
    ab: Seq<ChangeView>,
    name: Seq<u8>,
)
    requires
        is_diff(ab, a, b),
    ensures
        net_change(ab, name) == diff_at(a, b, name),
{
    let net_ab = |name: Seq<u8>| diff_at(a, b, name);
    lemma_net_of_ascending(ab, name);
    if mentions(ab, name) {
        let i = choose|i: int| 0 <= i < ab.len() && (#[trigger] ab[i]).name() == name;
        assert(net_ab(ab[i].name()) == Some(ab[i]));
    } else if diff_at(a, b, name) is Some {
        assert(net_ab(name) is Some);
    }
}

/// The lists of `diffs` put one after the other.
pub open spec fn chained(diffs: Seq<Seq<ChangeView>>) -> Seq<ChangeView>
    decreases diffs.len(),
{
    if diffs.len() == 0 {
        Seq::empty()
    } else {
        chained(diffs.drop_last()) + diffs.last()
    }
}

/// `diffs` leads through the environments `envs`: each list is the
/// difference between an environment and the next.
pub open spec fn leads_through(
    diffs: Seq<Seq<ChangeView>>,
    envs: Seq<Map<Seq<u8>, Seq<u8>>>,
) -> bool {
    &&& envs.len() == diffs.len() + 1
    &&& forall|i: int| 0 <= i < diffs.len() ==> is_diff(#[trigger] diffs[i], envs[i], envs[i + 1])
}

/// Over differences that lead from one environment to the next, put one
/// after the other, the net change of every variable is its change from
/// the first environment to the last.
proof fn lemma_net_of_chained(
    diffs: Seq<Seq<ChangeView>>,
    envs: Seq<Map<Seq<u8>, Seq<u8>>>,
    name: Seq<u8>,
)
    requires
        leads_through(diffs, envs),
    ensures
        net_change(chained(diffs), name) == diff_at(envs.first(), envs.last(), name),
    decreases diffs.len(),
{
    if diffs.len() > 0 {
        let n = diffs.len() - 1;
        let before = diffs.drop_last();
        let through = envs.drop_last();
        assert forall|i: int| 0 <= i < before.len() implies is_diff(
            #[trigger] before[i],
            through[i],
            through[i + 1],
        ) by {
            assert(is_diff(diffs[i], envs[i], envs[i + 1]));
        }
        lemma_net_of_chained(before, through, name);
        assert(is_diff(diffs[n], envs[n], envs[n + 1]));
        lemma_net_extended(envs[0], envs[n], envs[n + 1], chained(before), diffs[n], name);
    }
}

/// Telescoping over any number of steps: differences that lead from one
/// environment to the next, put one after the other and then folded, are
/// the difference between the first environment and the last.
pub proof fn lemma_telescoping_chain(
    diffs: Seq<Seq<ChangeView>>,
    envs: Seq<Map<Seq<u8>, Seq<u8>>>,
    folded: Seq<ChangeView>,
)
    requires
        leads_through(diffs, envs),
        is_simplified(folded, chained(diffs)),
    ensures
        is_diff(folded, envs.first(), envs.last()),
{
    let net = |name: Seq<u8>| diff_at(envs.first(), envs.last(), name);
    let folded_net = |name: Seq<u8>| net_change(chained(diffs), name);
    assert forall|i: int| 0 <= i < folded.len() implies net((#[trigger] folded[i]).name())
        == Some(folded[i]) by {
        lemma_net_of_chained(diffs, envs, folded[i].name());
        assert(folded_net(folded[i].name()) == Some(folded[i]));
    }
    assert forall|name: Seq<u8>| (#[trigger] net(name)) is Some implies mentions(folded, name) by {
        lemma_net_of_chained(diffs, envs, name);
        assert(folded_net(name) is Some);
    }
}

/// Telescoping: the changes from `a` to `b`, extended by the changes from
/// `b` to `c` and then folded, are the changes from `a` to `c`.
pub proof fn lemma_telescoping(
    a: Map<Seq<u8>, Seq<u8>>,
    b: Map<Seq<u8>, Seq<u8>>,
    c: Map<Seq<u8>, Seq<u8>>,
    ab: Seq<ChangeView>,
    bc: Seq<ChangeView>,
    ac: Seq<ChangeView>,
    folded: Seq<ChangeView>,
)
    requires
        is_diff(ab, a, b),
        is_diff(bc, b, c),
        is_diff(ac, a, c),
        is_simplified(folded, ab + bc),
    ensures
        folded == ac,
{
    let net = |name: Seq<u8>| diff_at(a, c, name);
    let folded_net = |name: Seq<u8>| net_change(ab + bc, name);
    assert(lists_net(folded, net)) by {
        assert forall|i: int| 0 <= i < folded.len() implies net((#[trigger] folded[i]).name())
            == Some(folded[i]) by {
            lemma_net_of_two_diffs(a, b, c, ab, bc, folded[i].name());
            assert(folded_net(folded[i].name()) == Some(folded[i]));
        }
        assert forall|name: Seq<u8>| (#[trigger] net(name)) is Some implies mentions(
            folded,
            name,
        ) by {
            lemma_net_of_two_diffs(a, b, c, ab, bc, name);
            assert(folded_net(name) is Some);
        }
    }
    lemma_listing_is_unique(folded, ac, net);
}

/// Each change that [`kept`] keeps stands in the list with a verdict of
/// `false`, and each such change is kept.
proof fn lemma_kept_members(changes: Seq<ChangeView>, verdicts: Seq<bool>)
    requires
        verdicts.len() == changes.len(),
    ensures
        forall|t: int|
            0 <= t < kept(changes, verdicts).len() ==> exists|i: int|
                0 <= i < changes.len() && !verdicts[i] && #[trigger] changes[i] == (
                #[trigger] kept(changes, verdicts)[t]),
        forall|i: int|
            0 <= i < changes.len() && !#[trigger] verdicts[i] ==> exists|t: int|
                0 <= t < kept(changes, verdicts).len() && #[trigger] kept(changes, verdicts)[t]
                    == changes[i],
    decreases changes.len(),
{
    let out = kept(changes, verdicts);
    if changes.len() > 0 {
        let rest = changes.drop_last();
        let earlier = verdicts.drop_last();
        let inner = kept(rest, earlier);
        let n = changes.len() - 1;
        lemma_kept_members(rest, earlier);
        assert forall|t: int| 0 <= t < out.len() implies exists|i: int|
            0 <= i < changes.len() && !verdicts[i] && #[trigger] changes[i] == (#[trigger] out[t]) by {
            if t < inner.len() {
                assert(out[t] == inner[t]);
                let i = choose|i: int|
                    0 <= i < rest.len() && !earlier[i] && #[trigger] rest[i] == inner[t];
                assert(changes[i] == out[t] && !verdicts[i]);
            } else {
                assert(changes[n] == out[t] && !verdicts[n]);
            }
        }
        assert forall|i: int| 0 <= i < changes.len() && !#[trigger] verdicts[i] implies exists|
            t: int,
        |
            0 <= t < out.len() && #[trigger] out[t] == changes[i] by {
            if i < n {
                assert(!earlier[i]);
                let t = choose|t: int| 0 <= t < inner.len() && #[trigger] inner[t] == rest[i];
                assert(out[t] == changes[i]);
            } else {
                assert(out[out.len() - 1] == changes[i]);
            }
        }
    }
}

/// What [`kept`] keeps of a list whose names ascend has ascending names.
proof fn lemma_kept_ascends(changes: Seq<ChangeView>, verdicts: Seq<bool>)
    requires
        verdicts.len() == changes.len(),
        names_ascend(changes),
    ensures
        names_ascend(kept(changes, verdicts)),
    decreases changes.len(),
{
    let out = kept(changes, verdicts);
    if changes.len() > 0 {
        let rest = changes.drop_last();
        let earlier = verdicts.drop_last();
        let inner = kept(rest, earlier);
        let n = changes.len() - 1;
        assert forall|i: int, j: int| 0 <= i < j < rest.len() implies bytes_lt(
            (#[trigger] rest[i]).name(),
            (#[trigger] rest[j]).name(),
        ) by {
            assert(rest[i] == changes[i] && rest[j] == changes[j]);
        }
        lemma_kept_ascends(rest, earlier);
        lemma_kept_members(rest, earlier);
        assert forall|t: int, u: int| 0 <= t < u < out.len() implies bytes_lt(
            (#[trigger] out[t]).name(),
            (#[trigger] out[u]).name(),
        ) by {
            assert(out[t] == inner[t]);
            if u < inner.len() {
                assert(out[u] == inner[u]);
            } else {
                let i = choose|i: int|
                    0 <= i < rest.len() && !earlier[i] && #[trigger] rest[i] == inner[t];
                assert(rest[i] == changes[i]);
                assert(bytes_lt(changes[i].name(), changes[n].name()));
            }
        }
    }
}

/// Leaving out of the difference between `a` and `b` the changes whose name
/// begins with `prefix` gives the difference between `a` and `b` without
/// their variables of such names.
pub proof fn lemma_exclude_prefix_commutes(
    changes: Seq<ChangeView>,
    a: Map<Seq<u8>, Seq<u8>>,
    b: Map<Seq<u8>, Seq<u8>>,
    prefix: Seq<u8>,
)
    requires
        is_diff(changes, a, b),
    ensures
        is_diff(without_prefix(changes, prefix), drop_prefixed(a, prefix), drop_prefixed(b, prefix)),
{
    let verdicts = changes.map_values(|c: ChangeView| has_prefix(c.name(), prefix));
    let out = without_prefix(changes, prefix);
    let a2 = drop_prefixed(a, prefix);
    let b2 = drop_prefixed(b, prefix);
    let net = |name: Seq<u8>| diff_at(a, b, name);
    let net2 = |name: Seq<u8>| diff_at(a2, b2, name);
    lemma_kept_ascends(changes, verdicts);
    lemma_kept_members(changes, verdicts);
    assert forall|name: Seq<u8>| !has_prefix(name, prefix) implies diff_at(a2, b2, name)
        == diff_at(a, b, name) by {
        assert(lookup(a2, name) == lookup(a, name));
        assert(lookup(b2, name) == lookup(b, name));
    }
    assert forall|name: Seq<u8>| has_prefix(name, prefix) implies diff_at(a2, b2, name)
        is None by {
        assert(lookup(a2, name) is None);
        assert(lookup(b2, name) is None);
    }
    assert forall|t: int| 0 <= t < out.len() implies net2((#[trigger] out[t]).name()) == Some(
        out[t],
    ) by {
        let i = choose|i: int|
            0 <= i < changes.len() && !verdicts[i] && #[trigger] changes[i] == out[t];
        assert(net(changes[i].name()) == Some(changes[i]));
    }
    assert forall|name: Seq<u8>| (#[trigger] net2(name)) is Some implies mentions(out, name) by {
        assert(!has_prefix(name, prefix));
        assert(net(name) is Some);
        let i = choose|i: int| 0 <= i < changes.len() && (#[trigger] changes[i]).name() == name;
        assert(!verdicts[i]);
        let t = choose|t: int| 0 <= t < out.len() && #[trigger] out[t] == changes[i];
        assert(out[t].name() == name);
    }
}

/// The difference between the environments `a` and `b`.
pub open spec fn the_diff(a: Map<Seq<u8>, Seq<u8>>, b: Map<Seq<u8>, Seq<u8>>) -> Seq<ChangeView> {
    choose|changes: Seq<ChangeView>| is_diff(changes, a, b)
}

/// The list `changes` folded.
pub open spec fn the_folded(changes: Seq<ChangeView>) -> Seq<ChangeView> {
    choose|folded: Seq<ChangeView>| is_simplified(folded, changes)
}

/// A list that is a difference between two environments is the difference
/// between them.
pub proof fn lemma_is_the_diff(
    changes: Seq<ChangeView>,
    a: Map<Seq<u8>, Seq<u8>>,
    b: Map<Seq<u8>, Seq<u8>>,
)
    requires
        is_diff(changes, a, b),
    ensures
        changes == the_diff(a, b),
{
    lemma_diff_is_unique(changes, the_diff(a, b), a, b);
}

/// A list that is a folding of `changes` is the folding of `changes`.
pub proof fn lemma_is_the_folded(folded: Seq<ChangeView>, changes: Seq<ChangeView>)
    requires
        is_simplified(folded, changes),
    ensures
        folded == the_folded(changes),
{
    lemma_simplified_is_unique(folded, the_folded(changes), changes);
}

/// The pairs whose name does not begin with `prefix`, in order.
pub open spec fn pairs_without_prefix(
    entries: Seq<(Seq<u8>, Seq<u8>)>,
    prefix: Seq<u8>,
) -> Seq<(Seq<u8>, Seq<u8>)>
    decreases entries.len(),
{
    if entries.len() == 0 {
        entries
    } else {
        let rest = pairs_without_prefix(entries.drop_last(), prefix);
        if has_prefix(entries.last().0, prefix) {
            rest
        } else {
            rest.push(entries.last())
        }
    }
}

/// Taking the pairs of such names out of a snapshot takes the variables of
/// such names out of the environment that it stands for.
pub proof fn lemma_snapshot_without_prefix(entries: Seq<(Seq<u8>, Seq<u8>)>, prefix: Seq<u8>)
    ensures
        snapshot(pairs_without_prefix(entries, prefix)) == drop_prefixed(snapshot(entries), prefix),
    decreases entries.len(),
{
    let left = snapshot(pairs_without_prefix(entries, prefix));
    let right = drop_prefixed(snapshot(entries), prefix);
    if entries.len() == 0 {
        assert(left =~= right);
    } else {
        let rest = pairs_without_prefix(entries.drop_last(), prefix);
        let last = entries.last();
        lemma_snapshot_without_prefix(entries.drop_last(), prefix);
        if !has_prefix(last.0, prefix) {
            assert(rest.push(last).drop_last() =~= rest);
            assert(rest.push(last).last() == last);
        }
        assert(left =~= right);
    }
}

/// Leaving the changes of names that begin with `prefix` out of the
/// difference between two snapshots gives the difference between the
/// snapshots without their pairs of such names.
pub proof fn lemma_exclude_prefix_of_snapshots(
    changes: Seq<ChangeView>,
    a: Seq<(Seq<u8>, Seq<u8>)>,
    b: Seq<(Seq<u8>, Seq<u8>)>,
    prefix: Seq<u8>,
)
    requires
        is_diff(changes, snapshot(a), snapshot(b)),
    ensures
        is_diff(
            without_prefix(changes, prefix),
            snapshot(pairs_without_prefix(a, prefix)),
            snapshot(pairs_without_prefix(b, prefix)),
        ),
{
    lemma_snapshot_without_prefix(a, prefix);
    lemma_snapshot_without_prefix(b, prefix);
    lemma_exclude_prefix_commutes(changes, snapshot(a), snapshot(b), prefix);
}

} // verus!
