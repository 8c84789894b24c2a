//! The graph engine: owns the quote store, applies validated price updates
//! (insert-or-merge plus synthetic cross-exchange edges) and answers
//! best-rate queries via an all-pairs relaxation with path reconstruction.

use crate::domain::{ExchangeCurrencyPair, ExchangeRateRequest, Factor, Node, OptimalRateWithPath,
    Path, PriceUpdateRequest};
use crate::error::GraphError;
use crate::rat::Rat;
use crate::text::str_eq;
use crate::timestamp::Timestamp;
use std::collections::VecDeque;
use vstd::prelude::*;

verus! {

/// A node identity: its exchange name and currency code.
pub type NodeKey = (Seq<char>, Seq<char>);

pub open spec fn key_of(n: Node) -> NodeKey {
    (n.exchange@, n.currency@)
}

/// The node identities of a node sequence, in order.
pub open spec fn keys_of(nodes: Seq<Node>) -> Seq<NodeKey> {
    nodes.map_values(|n: Node| key_of(n))
}

/// Index of the first key equal to `key` at or after `i`, or -1.
pub open spec fn find_key_from(keys: Seq<NodeKey>, key: NodeKey, i: int) -> int
    decreases keys.len() - i,
    when 0 <= i
{
    if i >= keys.len() {
        -1
    } else if keys[i] == key {
        i
    } else {
        find_key_from(keys, key, i + 1)
    }
}

/// Index of the first key equal to `key`, or -1.
pub open spec fn find_key(keys: Seq<NodeKey>, key: NodeKey) -> int {
    find_key_from(keys, key, 0)
}

pub proof fn lemma_find_key_from(keys: Seq<NodeKey>, key: NodeKey, i: int)
    requires
        0 <= i <= keys.len(),
    ensures
        ({
            let r = find_key_from(keys, key, i);
            &&& r == -1 ==> forall|j: int| i <= j < keys.len() ==> keys[j] != key
            &&& r != -1 ==> i <= r < keys.len() && keys[r] == key && (forall|j: int|
                i <= j < r ==> keys[j] != key)
        }),
    decreases keys.len() - i,
{
    if i < keys.len() && keys[i] != key {
        lemma_find_key_from(keys, key, i + 1);
    }
}

pub proof fn lemma_find_key_from_push(keys: Seq<NodeKey>, key: NodeKey, k2: NodeKey, i: int)
    requires
        0 <= i <= keys.len(),
    ensures
        find_key_from(keys.push(k2), key, i) == if find_key_from(keys, key, i) >= 0 {
            find_key_from(keys, key, i)
        } else if k2 == key {
            keys.len() as int
        } else {
            -1
        },
    decreases keys.len() - i,
{
    if i < keys.len() {
        assert(keys.push(k2)[i] == keys[i]);
        if keys[i] != key {
            lemma_find_key_from_push(keys, key, k2, i + 1);
        }
    } else {
        assert(keys.push(k2)[i] == k2);
        assert(find_key_from(keys.push(k2), key, keys.len() as int + 1) == -1);
    }
}

pub proof fn lemma_insert_key_distinct(keys: Seq<NodeKey>, key: NodeKey)
    requires
        forall|i: int, j: int| 0 <= i < j < keys.len() ==> keys[i] != keys[j],
    ensures
        forall|i: int, j: int|
            0 <= i < j < insert_key(keys, key).len() ==> insert_key(keys, key)[i] != insert_key(
                keys,
                key,
            )[j],
        insert_key(keys, key).len() >= keys.len(),
        forall|i: int| 0 <= i < keys.len() ==> insert_key(keys, key)[i] == keys[i],
        find_key(insert_key(keys, key), key) >= 0,
{
    lemma_find_key_from(keys, key, 0);
    if find_key(keys, key) >= 0 {
    } else {
        lemma_find_key_from_push(keys, key, key, 0);
        assert forall|i: int, j: int|
            0 <= i < j < keys.push(key).len() implies keys.push(key)[i] != keys.push(key)[j] by {
            if j < keys.len() {
                assert(keys.push(key)[i] == keys[i]);
                assert(keys.push(key)[j] == keys[j]);
            } else {
                assert(keys.push(key)[j] == key);
                assert(keys.push(key)[i] == keys[i]);
            }
        }
    }
}

/// The edge runs from the update's source to its destination.
pub open spec fn fwd_match(keys: Seq<NodeKey>, p: Path, req: PriceUpdateRequest) -> bool {
    &&& keys[p.start as int] == (req.exchange@, req.source_currency@)
    &&& keys[p.end as int] == (req.exchange@, req.destination_currency@)
}

/// The edge runs from the update's destination to its source.
pub open spec fn bwd_match(keys: Seq<NodeKey>, p: Path, req: PriceUpdateRequest) -> bool {
    &&& keys[p.start as int] == (req.exchange@, req.destination_currency@)
    &&& keys[p.end as int] == (req.exchange@, req.source_currency@)
}

/// How an existing edge changes under an update: its weight and timestamp
/// are overwritten only if the edge joins the update's endpoints (in either
/// direction) and the update's timestamp is strictly newer.
pub open spec fn merged_path(keys: Seq<NodeKey>, p: Path, req: PriceUpdateRequest) -> Path {
    if fwd_match(keys, p, req) && p.timestamp.lt_spec(req.timestamp) {
        Path {
            start: p.start,
            end: p.end,
            weight: req.forward_factor,
            timestamp: req.timestamp,
            factor_type: p.factor_type,
        }
    } else if bwd_match(keys, p, req) && p.timestamp.lt_spec(req.timestamp) {
        Path {
            start: p.start,
            end: p.end,
            weight: req.backward_factor,
            timestamp: req.timestamp,
            factor_type: p.factor_type,
        }
    } else {
        p
    }
}

/// Whether some edge already joins the update's endpoints, in either
/// direction.
pub open spec fn req_found(keys: Seq<NodeKey>, paths: Seq<Path>, req: PriceUpdateRequest) -> bool {
    exists|i: int|
        0 <= i < paths.len() && (fwd_match(keys, #[trigger] paths[i], req) || bwd_match(
            keys,
            paths[i],
            req,
        ))
}

/// The weight of a synthetic bridging edge.
pub open spec fn unit_weight() -> Rat {
    Rat { num: 1u64, den: 1u64 }
}

/// The two symmetric unit-weight edges bridging node `k` and node `idx`.
pub open spec fn bridge_pair(k: int, idx: int, ts: Timestamp) -> Seq<Path> {
    seq![
        Path {
            start: k as usize,
            end: idx as usize,
            weight: unit_weight(),
            timestamp: ts,
            factor_type: Factor::FilledUpForward,
        },
        Path {
            start: idx as usize,
            end: k as usize,
            weight: unit_weight(),
            timestamp: ts,
            factor_type: Factor::FilledUpBackward,
        },
    ]
}

/// The synthetic edges contributed by the existing nodes at or after `k`:
/// for each node sharing a currency with an absent endpoint on a different
/// exchange, two unit-weight edges to and from that endpoint.
pub open spec fn bridge_from(
    keys: Seq<NodeKey>,
    k: int,
    req: PriceUpdateRequest,
    s_absent: bool,
    e_absent: bool,
    s_idx: int,
    e_idx: int,
) -> Seq<Path>
    decreases keys.len() - k,
    when 0 <= k
{
    if k >= keys.len() {
        Seq::empty()
    } else {
        let head = if s_absent && keys[k].1 == req.source_currency@ && keys[k].0
            != req.exchange@ {
            bridge_pair(k, s_idx, req.timestamp)
        } else if e_absent && keys[k].1 == req.destination_currency@ && keys[k].0
            != req.exchange@ {
            bridge_pair(k, e_idx, req.timestamp)
        } else {
            Seq::empty()
        };
        head + bridge_from(keys, k + 1, req, s_absent, e_absent, s_idx, e_idx)
    }
}

/// The weights of the edges with the given factor type, in edge order.
pub open spec fn weights_of(paths: Seq<Path>, f: Factor) -> Seq<Rat>
    decreases paths.len(),
{
    if paths.len() == 0 {
        Seq::empty()
    } else {
        let rest = weights_of(paths.drop_last(), f);
        if paths.last().factor_type == f {
            rest.push(paths.last().weight)
        } else {
            rest
        }
    }
}

/// The weight of the last edge from `i` to `j`, or `None` if no such edge
/// exists. (Later insertions win, matching matrix initialization order; a
/// well-formed store has at most one such edge.)
pub open spec fn init_rate(paths: Seq<Path>, i: int, j: int) -> Option<Rat>
    decreases paths.len(),
{
    if paths.len() == 0 {
        None
    } else if paths.last().start as int == i && paths.last().end as int == j {
        Some(paths.last().weight)
    } else {
        init_rate(paths.drop_last(), i, j)
    }
}

/// The starting rate and next-hop matrices, flattened row-major into
/// `n * n` cells: each direct edge's weight, and its destination as the
/// next hop.
pub open spec fn init_mats(paths: Seq<Path>, n: int) -> (Seq<Option<Rat>>, Seq<Option<usize>>) {
    (
        Seq::new((n * n) as nat, |t: int| init_rate(paths, t / n, t % n)),
        Seq::new(
            (n * n) as nat,
            |t: int|
                if init_rate(paths, t / n, t % n) is Some {
                    Some((t % n) as usize)
                } else {
                    None
                },
        ),
    )
}

/// One relaxation step: `rate[i][j]` becomes `rate[i][k] * rate[k][j]`
/// whenever both factors exist, their exact product is representable, and
/// it strictly exceeds the current value (an absent value counts as zero);
/// the next hop is then copied from `next[i][k]`.
pub open spec fn relax(
    st: (Seq<Option<Rat>>, Seq<Option<usize>>),
    n: int,
    k: int,
    i: int,
    j: int,
) -> (Seq<Option<Rat>>, Seq<Option<usize>>) {
    let rik = st.0[i * n + k];
    let rkj = st.0[k * n + j];
    if rik is Some && rkj is Some {
        match rik->0.mul_spec(rkj->0) {
            Some(prod) => {
                let better = match st.0[i * n + j] {
                    Some(r) => r.lt_spec(prod),
                    None => true,
                };
                if better {
                    (st.0.update(i * n + j, Some(prod)), st.1.update(i * n + j, st.1[i * n + k]))
                } else {
                    st
                }
            },
            None => st,
        }
    } else {
        st
    }
}

/// The relaxation carried out from position (k, i, j) onward, in ascending
/// k, i, j order.
pub open spec fn fw_from(
    st: (Seq<Option<Rat>>, Seq<Option<usize>>),
    n: int,
    k: int,
    i: int,
    j: int,
) -> (Seq<Option<Rat>>, Seq<Option<usize>>)
    decreases n - k, n - i, n - j,
    when 0 <= k <= n && 0 <= i <= n && 0 <= j <= n
{
    if k >= n {
        st
    } else if i >= n {
        fw_from(st, n, k + 1, 0, 0)
    } else if j >= n {
        fw_from(st, n, k, i + 1, 0)
    } else {
        fw_from(relax(st, n, k, i, j), n, k, i, j + 1)
    }
}

/// The rate and next-hop matrices after the full all-pairs relaxation.
pub open spec fn fw(paths: Seq<Path>, n: int) -> (Seq<Option<Rat>>, Seq<Option<usize>>) {
    fw_from(init_mats(paths, n), n, 0, 0, 0)
}

/// The node list visited by following next hops from `u` to `v`, bounded
/// by `fuel` hops: `None` when the hops do not reach `v` (a cycle or an
/// inconsistent next-hop entry).
pub open spec fn walk_rec(
    nxt: Seq<Option<usize>>,
    n: int,
    u: int,
    v: int,
    fuel: nat,
) -> Option<Seq<usize>>
    decreases fuel,
{
    if u == v {
        Some(seq![u as usize])
    } else if fuel == 0 {
        None
    } else {
        match nxt[u * n + v] {
            None => None,
            Some(t) => if t as int >= n {
                None
            } else {
                match walk_rec(nxt, n, t as int, v, (fuel - 1) as nat) {
                    None => None,
                    Some(rest) => Some(seq![u as usize] + rest),
                }
            },
        }
    }
}

/// Each matrix cell holds a rate exactly when it holds a next hop.
pub open spec fn paired(st: (Seq<Option<Rat>>, Seq<Option<usize>>), n: int) -> bool {
    forall|c: int| 0 <= c < n * n ==> (st.0[c] is Some <==> st.1[c] is Some)
}

/// No exact product attempted by the relaxation from position (k, i, j)
/// onward exceeds the representable range.
pub open spec fn fw_ofree(
    st: (Seq<Option<Rat>>, Seq<Option<usize>>),
    n: int,
    k: int,
    i: int,
    j: int,
) -> bool
    decreases n - k, n - i, n - j,
    when 0 <= k <= n && 0 <= i <= n && 0 <= j <= n
{
    if k >= n {
        true
    } else if i >= n {
        fw_ofree(st, n, k + 1, 0, 0)
    } else if j >= n {
        fw_ofree(st, n, k, i + 1, 0)
    } else {
        ((st.0[i * n + k] is Some && st.0[k * n + j] is Some) ==> st.0[i * n + k]->0.mul_spec(
            st.0[k * n + j]->0,
        ) is Some) && fw_ofree(relax(st, n, k, i, j), n, k, i, j + 1)
    }
}

/// A relaxation step never clears a cell and keeps rate and next hop
/// paired.
proof fn lemma_relax_keeps(
    st: (Seq<Option<Rat>>, Seq<Option<usize>>),
    n: int,
    k: int,
    i: int,
    j: int,
)
    requires
        0 <= k < n,
        0 <= i < n,
        0 <= j < n,
        st.0.len() == n * n,
        st.1.len() == n * n,
        paired(st, n),
    ensures
        paired(relax(st, n, k, i, j), n),
        relax(st, n, k, i, j).0.len() == n * n,
        relax(st, n, k, i, j).1.len() == n * n,
        forall|c: int|
            0 <= c < n * n && st.0[c] is Some ==> #[trigger] relax(st, n, k, i, j).0[c] is Some,
{
    vstd::arithmetic::mul::lemma_mul_inequality(i + 1, n, n);
    vstd::arithmetic::mul::lemma_mul_is_distributive_add_other_way(n, i, 1);
    vstd::arithmetic::mul::lemma_mul_nonnegative(i, n);
    vstd::arithmetic::mul::lemma_mul_inequality(k + 1, n, n);
    vstd::arithmetic::mul::lemma_mul_is_distributive_add_other_way(n, k, 1);
    vstd::arithmetic::mul::lemma_mul_nonnegative(k, n);
    let st2 = relax(st, n, k, i, j);
    assert(0 <= i * n + j < n * n);
    assert(0 <= i * n + k < n * n);
    assert forall|c: int|
        0 <= c < n * n && st.0[c] is Some implies #[trigger] st2.0[c] is Some by {
        if st2 != st {
            assert(st2.0 == st.0.update(i * n + j, Some(
                st.0[i * n + k]->0.mul_spec(st.0[k * n + j]->0)->0,
            )));
        }
    }
    assert forall|c: int| 0 <= c < n * n implies (st2.0[c] is Some <==> st2.1[c] is Some) by {
        if st2 != st {
            assert(st.0[i * n + k] is Some);
            assert(st.1[i * n + k] is Some);
            if c != i * n + j {
                assert(st2.0[c] == st.0[c]);
                assert(st2.1[c] == st.1[c]);
            }
        }
    }
}

/// The relaxation from any position onward never clears a cell.
proof fn lemma_fw_from_keeps(
    st: (Seq<Option<Rat>>, Seq<Option<usize>>),
    n: int,
    k: int,
    i: int,
    j: int,
    c: int,
)
    requires
        0 <= k <= n,
        0 <= i <= n,
        0 <= j <= n,
        0 <= c < n * n,
        st.0.len() == n * n,
        st.1.len() == n * n,
        paired(st, n),
        st.0[c] is Some,
    ensures
        paired(fw_from(st, n, k, i, j), n),
        fw_from(st, n, k, i, j).0.len() == n * n,
        fw_from(st, n, k, i, j).1.len() == n * n,
        fw_from(st, n, k, i, j).0[c] is Some,
        fw_from(st, n, k, i, j).1[c] is Some,
    decreases n - k, n - i, n - j,
{
    if k >= n {
    } else if i >= n {
        lemma_fw_from_keeps(st, n, k + 1, 0, 0, c);
    } else if j >= n {
        lemma_fw_from_keeps(st, n, k, i + 1, 0, c);
    } else {
        lemma_relax_keeps(st, n, k, i, j);
        lemma_fw_from_keeps(relax(st, n, k, i, j), n, k, i, j + 1, c);
    }
}

/// Once a two-edge cycle through `x` gives the starting matrix rates in
/// both directions between `s` and `x`, the relaxation records a route
/// from `s` to itself no later than intermediate `x` — provided no product
/// it attempts overflows.
proof fn lemma_fw_from_creates_self(
    st: (Seq<Option<Rat>>, Seq<Option<usize>>),
    n: int,
    k: int,
    i: int,
    j: int,
    x: int,
    s: int,
)
    requires
        0 <= k <= n,
        0 <= i <= n,
        0 <= j <= n,
        0 <= x < n,
        0 <= s < n,
        k < x || (k == x && (i < s || (i == s && j <= s))),
        st.0.len() == n * n,
        st.1.len() == n * n,
        paired(st, n),
        st.0[s * n + x] is Some,
        st.0[x * n + s] is Some,
        fw_ofree(st, n, k, i, j),
    ensures
        fw_from(st, n, k, i, j).1[s * n + s] is Some,
    decreases n - k, n - i, n - j,
{
    vstd::arithmetic::mul::lemma_mul_inequality(s + 1, n, n);
    vstd::arithmetic::mul::lemma_mul_is_distributive_add_other_way(n, s, 1);
    vstd::arithmetic::mul::lemma_mul_nonnegative(s, n);
    vstd::arithmetic::mul::lemma_mul_inequality(x + 1, n, n);
    vstd::arithmetic::mul::lemma_mul_is_distributive_add_other_way(n, x, 1);
    vstd::arithmetic::mul::lemma_mul_nonnegative(x, n);
    if i >= n {
        lemma_fw_from_creates_self(st, n, k + 1, 0, 0, x, s);
    } else if j >= n {
        lemma_fw_from_creates_self(st, n, k, i + 1, 0, x, s);
    } else {
        let st2 = relax(st, n, k, i, j);
        lemma_relax_keeps(st, n, k, i, j);
        if k == x && i == s && j == s {
            assert(st.0[i * n + k] == st.0[s * n + x]);
            assert(st.0[k * n + j] == st.0[x * n + s]);
            assert(st.0[i * n + k]->0.mul_spec(st.0[k * n + j]->0) is Some);
            assert(st2.0[s * n + s] is Some) by {
                let prod = st.0[s * n + x]->0.mul_spec(st.0[x * n + s]->0)->0;
                let better = match st.0[s * n + s] {
                    Some(r) => r.lt_spec(prod),
                    None => true,
                };
                if better {
                    assert(st2.0 == st.0.update(s * n + s, Some(prod)));
                    assert(st2.0[s * n + s] == Some(prod));
                } else {
                    assert(st2 == st);
                    assert(st.0[s * n + s] is Some);
                }
            }
            lemma_fw_from_keeps(st2, n, k, i, j + 1, s * n + s);
        } else {
            lemma_fw_from_creates_self(st2, n, k, i, j + 1, x, s);
        }
    }
}

/// An edge present in the edge set gives its cell of the starting rate
/// matrix a value.
proof fn lemma_edge_gives_init_rate(paths: Seq<Path>, t: int, i: int, j: int)
    requires
        0 <= t < paths.len(),
        paths[t].start as int == i,
        paths[t].end as int == j,
    ensures
        init_rate(paths, i, j) is Some,
    decreases paths.len(),
{
    if t + 1 < paths.len() {
        assert(paths.drop_last()[t] == paths[t]);
        lemma_edge_gives_init_rate(paths.drop_last(), t, i, j);
    }
}

/// A degenerate query over a node with a direct two-edge cycle fails with
/// `InvalidPath`: when edges run from `s` to `x` and back and no product
/// attempted by the relaxation overflows, the relaxation records a route
/// from `s` to itself, and following it yields the one-node path, which
/// the contract of `get_top_result` maps to `InvalidPath`.
pub proof fn lemma_degenerate_query_invalid_path(g: Graph, s: int, x: int, t1: int, t2: int)
    requires
        g.wf(),
        0 <= s < g.nodes@.len(),
        0 <= x < g.nodes@.len(),
        g.nodes@.len() <= usize::MAX,
        0 <= t1 < g.paths@.len(),
        g.paths@[t1].start as int == s,
        g.paths@[t1].end as int == x,
        0 <= t2 < g.paths@.len(),
        g.paths@[t2].start as int == x,
        g.paths@[t2].end as int == s,
        fw_ofree(init_mats(g.paths@, g.nodes@.len() as int), g.nodes@.len() as int, 0, 0, 0),
    ensures
        ({
            let ni = g.nodes@.len() as int;
            fw(g.paths@, ni).1[s * ni + s] is Some && walk_rec(
                fw(g.paths@, ni).1,
                ni,
                s,
                s,
                g.nodes@.len() as nat,
            ) == Some(seq![s as usize])
        }),
{
    let ni = g.nodes@.len() as int;
    let st0 = init_mats(g.paths@, ni);
    lemma_edge_gives_init_rate(g.paths@, t1, s, x);
    lemma_edge_gives_init_rate(g.paths@, t2, x, s);
    assert(paired(st0, ni)) by {
        assert forall|c: int| 0 <= c < ni * ni implies (st0.0[c] is Some <==> st0.1[c] is Some) by {
        }
    }
    vstd::arithmetic::mul::lemma_mul_inequality(s + 1, ni, ni);
    vstd::arithmetic::mul::lemma_mul_is_distributive_add_other_way(ni, s, 1);
    vstd::arithmetic::mul::lemma_mul_nonnegative(s, ni);
    vstd::arithmetic::mul::lemma_mul_inequality(x + 1, ni, ni);
    vstd::arithmetic::mul::lemma_mul_is_distributive_add_other_way(ni, x, 1);
    vstd::arithmetic::mul::lemma_mul_nonnegative(x, ni);
    lemma_cell_decode(ni, s * ni + x);
    vstd::arithmetic::div_mod::lemma_fundamental_div_mod_converse(s * ni + x, ni, s, x);
    lemma_cell_decode(ni, x * ni + s);
    vstd::arithmetic::div_mod::lemma_fundamental_div_mod_converse(x * ni + s, ni, x, s);
    assert(st0.0[s * ni + x] is Some);
    assert(st0.0[x * ni + s] is Some);
    lemma_fw_from_creates_self(st0, ni, 0, 0, 0, x, s);
}

/// The weight of the first edge from `i` to `j` at or after position `t`.
pub open spec fn edge_weight_from(paths: Seq<Path>, t: int, i: int, j: int) -> Option<Rat>
    decreases paths.len() - t,
    when 0 <= t
{
    if t >= paths.len() {
        None
    } else if paths[t].start as int == i && paths[t].end as int == j {
        Some(paths[t].weight)
    } else {
        edge_weight_from(paths, t + 1, i, j)
    }
}

/// The weight of the first edge from `i` to `j`, if any.
pub open spec fn edge_weight(paths: Seq<Path>, i: int, j: int) -> Option<Rat> {
    edge_weight_from(paths, 0, i, j)
}

/// The product of the edge weights along the reconstructed node list `w`
/// starting from the accumulated value `acc`: `None` if an edge implied by
/// the list is missing from the edge set, or a product is unrepresentable.
pub open spec fn acc_rate(paths: Seq<Path>, w: Seq<usize>, t: int, acc: Rat) -> Option<Rat>
    decreases w.len() - t,
    when 0 <= t
{
    if t + 1 >= w.len() {
        Some(acc)
    } else {
        match edge_weight(paths, w[t] as int, w[t + 1] as int) {
            None => None,
            Some(wt) => match acc.mul_spec(wt) {
                None => None,
                Some(a2) => acc_rate(paths, w, t + 1, a2),
            },
        }
    }
}

/// The (exchange, currency) identity of a reported path hop.
pub open spec fn pair_key(p: ExchangeCurrencyPair) -> NodeKey {
    (p.exchange@, p.currency@)
}

/// The flat index of cell (i, j) of an `n` by `n` row-major matrix.
fn cell_index(n: usize, i: usize, j: usize) -> (t: usize)
    requires
        i < n,
        j < n,
        n * n <= usize::MAX,
    ensures
        t as int == i * n + j,
        (t as int) < n * n,
{
    proof {
        vstd::arithmetic::mul::lemma_mul_inequality(i as int + 1, n as int, n as int);
        vstd::arithmetic::mul::lemma_mul_is_distributive_add_other_way(n as int, i as int, 1);
        vstd::arithmetic::mul::lemma_mul_nonnegative(i as int, n as int);
    }
    i * n + j
}

/// Decomposing a cell index of an `n` by `n` row-major matrix.
proof fn lemma_cell_decode(n: int, t: int)
    requires
        n > 0,
        0 <= t < n * n,
    ensures
        0 <= t / n < n,
        0 <= t % n < n,
        (t / n) * n + t % n == t,
{
    vstd::arithmetic::div_mod::lemma_fundamental_div_mod(t, n);
    vstd::arithmetic::div_mod::lemma_mod_bound(t, n);
    vstd::arithmetic::div_mod::lemma_div_pos_is_pos(t, n);
    vstd::arithmetic::mul::lemma_mul_is_commutative(t / n, n);
    if t / n >= n {
        vstd::arithmetic::mul::lemma_mul_inequality(n, t / n, n);
        vstd::arithmetic::mul::lemma_mul_is_commutative(t / n, n);
        assert(n * n <= (t / n) * n);
        assert(false);
    }
}

/// A weight found by edge lookup comes from an edge, so it is a positive
/// rational in a well-formed store.
proof fn lemma_edge_weight_from_wf(paths: Seq<Path>, t: int, i: int, j: int)
    requires
        0 <= t <= paths.len(),
        forall|x: int| 0 <= x < paths.len() ==> (#[trigger] paths[x]).weight.wf(),
    ensures
        edge_weight_from(paths, t, i, j) is Some ==> edge_weight_from(paths, t, i, j)->0.wf(),
    decreases paths.len() - t,
{
    if t < paths.len() && !(paths[t].start as int == i && paths[t].end as int == j) {
        lemma_edge_weight_from_wf(paths, t + 1, i, j);
    }
}

/// Every weight the starting matrix holds comes from an edge, so it is a
/// positive rational in a well-formed store.
proof fn lemma_init_rate_wf(paths: Seq<Path>, i: int, j: int)
    requires
        forall|x: int| 0 <= x < paths.len() ==> (#[trigger] paths[x]).weight.wf(),
    ensures
        init_rate(paths, i, j) is Some ==> init_rate(paths, i, j)->0.wf(),
    decreases paths.len(),
{
    if paths.len() > 0 {
        assert forall|x: int|
            0 <= x < paths.drop_last().len() implies (#[trigger] paths.drop_last()[x]).weight.wf() by {
            assert(paths.drop_last()[x] == paths[x]);
        }
        lemma_init_rate_wf(paths.drop_last(), i, j);
    }
}

/// Shape of a synthetic bridging edge: it joins an absent endpoint
/// (`s_idx` or `e_idx`) and an existing node on a different exchange, with
/// unit weight.
pub open spec fn bridge_elem_prop(
    p: Path,
    keys: Seq<NodeKey>,
    req: PriceUpdateRequest,
    s_absent: bool,
    e_absent: bool,
    s_idx: int,
    e_idx: int,
    nl: int,
) -> bool {
    ||| ((p.end as int == s_idx && s_absent) || (p.end as int == e_idx && e_absent)) && (
    p.start as int) < nl && keys[p.start as int].0 != req.exchange@ && p.weight == unit_weight()
    ||| ((p.start as int == s_idx && s_absent) || (p.start as int == e_idx && e_absent)) && (
    p.end as int) < nl && keys[p.end as int].0 != req.exchange@ && p.weight == unit_weight()
}

/// No two edges at or after position `lo` share an ordered (start, end)
/// pair.
pub open spec fn distinct_pairs_in(paths: Seq<Path>, lo: int) -> bool {
    forall|t1: int, t2: int|
        lo <= t1 < t2 < paths.len() ==> !((#[trigger] paths[t1]).start
            == (#[trigger] paths[t2]).start && paths[t1].end == paths[t2].end)
}

/// The key sequence after inserting `key` if it is not yet present.
pub open spec fn insert_key(keys: Seq<NodeKey>, key: NodeKey) -> Seq<NodeKey> {
    if find_key(keys, key) >= 0 {
        keys
    } else {
        keys.push(key)
    }
}

/// The source key of an update.
pub open spec fn source_key(req: PriceUpdateRequest) -> NodeKey {
    (req.exchange@, req.source_currency@)
}

/// The destination key of an update.
pub open spec fn destination_key(req: PriceUpdateRequest) -> NodeKey {
    (req.exchange@, req.destination_currency@)
}

/// What an accepted price update does to the store: if an edge already
/// joins the endpoints, every such edge is merged by recency; otherwise the
/// forward and backward edges are inserted, followed by the synthetic
/// bridging edges; finally both endpoint nodes are inserted if absent, in
/// source-then-destination order.
pub open spec fn update_spec(
    keys: Seq<NodeKey>,
    paths: Seq<Path>,
    req: PriceUpdateRequest,
) -> (Seq<NodeKey>, Seq<Path>) {
    let s_idx = find_key(keys, source_key(req));
    let e_idx = find_key(keys, destination_key(req));
    let s_new = if s_idx >= 0 {
        s_idx
    } else {
        keys.len() as int
    };
    let e_new = if e_idx >= 0 {
        e_idx
    } else if s_idx >= 0 {
        keys.len() as int
    } else {
        keys.len() as int + 1
    };
    let new_paths = if req_found(keys, paths, req) {
        Seq::new(paths.len(), |i: int| merged_path(keys, paths[i], req))
    } else {
        paths.push(
            Path {
                start: s_new as usize,
                end: e_new as usize,
                weight: req.forward_factor,
                timestamp: req.timestamp,
                factor_type: Factor::Forward,
            },
        ).push(
            Path {
                start: e_new as usize,
                end: s_new as usize,
                weight: req.backward_factor,
                timestamp: req.timestamp,
                factor_type: Factor::Backward,
            },
        ) + bridge_from(keys, 0, req, s_idx < 0, e_idx < 0, s_new, e_new)
    };
    (insert_key(insert_key(keys, source_key(req)), destination_key(req)), new_paths)
}

/// How many endpoint nodes an update adds: one per absent endpoint.
pub open spec fn grow_count(s_absent: bool, e_absent: bool) -> int {
    (if s_absent {
        1int
    } else {
        0int
    }) + (if e_absent {
        1int
    } else {
        0int
    })
}

/// After inserting the forward, backward and bridging edges of an update
/// that found no existing edge between its endpoints, the edge set still
/// has valid endpoints, positive weights, and no duplicate ordered pair.
proof fn lemma_inserted_paths_wf(
    keys0: Seq<NodeKey>,
    paths0: Seq<Path>,
    req: PriceUpdateRequest,
    full: Seq<Path>,
    s_absent: bool,
    e_absent: bool,
    s_new: int,
    e_new: int,
    nl: int,
)
    requires
        nl == keys0.len(),
        full.len() >= paths0.len() + 2,
        forall|t: int| 0 <= t < paths0.len() ==> #[trigger] full[t] == paths0[t],
        (full[paths0.len() as int].start as int) == s_new,
        (full[paths0.len() as int].end as int) == e_new,
        full[paths0.len() as int].weight == req.forward_factor,
        (full[paths0.len() as int + 1].start as int) == e_new,
        (full[paths0.len() as int + 1].end as int) == s_new,
        full[paths0.len() as int + 1].weight == req.backward_factor,
        forall|t: int|
            paths0.len() + 2 <= t < full.len() ==> bridge_elem_prop(
                #[trigger] full[t],
                keys0,
                req,
                s_absent,
                e_absent,
                s_new,
                e_new,
                nl,
            ),
        distinct_pairs_in(full, paths0.len() as int + 2),
        forall|i: int|
            0 <= i < paths0.len() ==> (#[trigger] paths0[i]).start < nl && (paths0[i].end as int)
                < nl && paths0[i].weight.wf(),
        distinct_pairs_in(paths0, 0),
        forall|i: int|
            0 <= i < paths0.len() ==> !fwd_match(keys0, #[trigger] paths0[i], req) && !bwd_match(
                keys0,
                paths0[i],
                req,
            ),
        s_absent ==> s_new == nl,
        !s_absent ==> 0 <= s_new < nl && keys0[s_new] == source_key(req),
        e_absent ==> e_new == nl + (if s_absent {
            1int
        } else {
            0int
        }),
        !e_absent ==> 0 <= e_new < nl && keys0[e_new] == destination_key(req),
        req.source_currency@ != req.destination_currency@,
        req.forward_factor.wf(),
        req.backward_factor.wf(),
    ensures
        distinct_pairs_in(full, 0),
        forall|t: int|
            0 <= t < full.len() ==> ((#[trigger] full[t]).start as int) < nl + grow_count(
                s_absent,
                e_absent,
            ) && (full[t].end as int) < nl + grow_count(s_absent, e_absent)
                && full[t].weight.wf(),
{
    let pl = paths0.len() as int;
    let grow = grow_count(s_absent, e_absent);
    assert(s_new != e_new) by {
        if !s_absent && !e_absent {
            assert(keys0[s_new].1 == req.source_currency@);
            assert(keys0[e_new].1 == req.destination_currency@);
        }
    }
    assert(s_new < nl + grow);
    assert(e_new < nl + grow);
    assert(unit_weight().wf());
    assert forall|t: int|
        0 <= t < full.len() implies ((#[trigger] full[t]).start as int) < nl + grow
        && ((full[t].end as int) < nl + grow) && full[t].weight.wf() by {
        if t < pl {
            assert(full[t] == paths0[t]);
        } else if t == pl || t == pl + 1 {
        } else {
        }
    }
    assert forall|t1: int, t2: int|
        0 <= t1 < t2 < full.len() implies !((#[trigger] full[t1]).start == (#[trigger] full[t2]).start
        && full[t1].end == full[t2].end) by {
        let p1 = full[t1];
        let p2 = full[t2];
        if p1.start == p2.start && p1.end == p2.end {
            if t1 < pl {
                assert(p1 == paths0[t1]);
                assert((p1.start as int) < nl && (p1.end as int) < nl);
                if t2 < pl {
                    assert(false);
                } else if t2 == pl {
                    // an old edge with the forward pair would have matched
                    assert(!s_absent && !e_absent);
                    assert(fwd_match(keys0, paths0[t1], req));
                    assert(false);
                } else if t2 == pl + 1 {
                    assert(!s_absent && !e_absent);
                    assert(bwd_match(keys0, paths0[t1], req));
                    assert(false);
                } else {
                    // every bridging edge touches an absent endpoint at or
                    // beyond the old node count
                    assert(false);
                }
            } else if t1 == pl {
                if t2 == pl + 1 {
                    assert(false);
                } else {
                    // p2 bridges: its node-side endpoint lies on another
                    // exchange, while the update's present endpoints lie
                    // on the update's own exchange
                    if ((p2.end as int == s_new && s_absent) || (p2.end as int == e_new
                        && e_absent)) && (p2.start as int) < nl && keys0[p2.start as int].0
                        != req.exchange@ {
                        assert(p2.start as int == s_new);
                        assert(!s_absent);
                        assert(keys0[s_new] == source_key(req));
                        assert(false);
                    } else {
                        assert((p2.end as int) < nl);
                        assert(keys0[p2.end as int].0 != req.exchange@);
                        assert(p2.end as int == e_new);
                        assert(!e_absent);
                        assert(keys0[e_new] == destination_key(req));
                        assert(false);
                    }
                }
            } else if t1 == pl + 1 {
                if ((p2.end as int == s_new && s_absent) || (p2.end as int == e_new && e_absent))
                    && (p2.start as int) < nl && keys0[p2.start as int].0 != req.exchange@ {
                    assert(p2.start as int == e_new);
                    assert(!e_absent);
                    assert(keys0[e_new] == destination_key(req));
                    assert(false);
                } else {
                    assert((p2.end as int) < nl);
                    assert(keys0[p2.end as int].0 != req.exchange@);
                    assert(p2.end as int == s_new);
                    assert(!s_absent);
                    assert(keys0[s_new] == source_key(req));
                    assert(false);
                }
            } else {
                assert(false);
            }
        }
    }
}

/// Every edge the bridging step produces has the bridging shape.
proof fn lemma_bridge_from_elems(
    keys: Seq<NodeKey>,
    k: int,
    req: PriceUpdateRequest,
    s_absent: bool,
    e_absent: bool,
    s_idx: int,
    e_idx: int,
)
    requires
        0 <= k <= keys.len(),
        keys.len() <= usize::MAX,
        0 <= s_idx <= usize::MAX,
        0 <= e_idx <= usize::MAX,
    ensures
        forall|t: int|
            0 <= t < bridge_from(keys, k, req, s_absent, e_absent, s_idx, e_idx).len()
                ==> bridge_elem_prop(
                #[trigger] bridge_from(keys, k, req, s_absent, e_absent, s_idx, e_idx)[t],
                keys,
                req,
                s_absent,
                e_absent,
                s_idx,
                e_idx,
                keys.len() as int,
            ),
    decreases keys.len() - k,
{
    if k < keys.len() {
        lemma_bridge_from_elems(keys, k + 1, req, s_absent, e_absent, s_idx, e_idx);
        let whole = bridge_from(keys, k, req, s_absent, e_absent, s_idx, e_idx);
        let rest = bridge_from(keys, k + 1, req, s_absent, e_absent, s_idx, e_idx);
        assert forall|t: int|
            0 <= t < whole.len() implies bridge_elem_prop(
            #[trigger] whole[t],
            keys,
            req,
            s_absent,
            e_absent,
            s_idx,
            e_idx,
            keys.len() as int,
        ) by {
            let head = whole.len() - rest.len();
            if t >= head {
                assert(whole[t] == rest[t - head]);
            } else {
                let hd = if s_absent && keys[k].1 == req.source_currency@ && keys[k].0
                    != req.exchange@ {
                    bridge_pair(k, s_idx, req.timestamp)
                } else {
                    bridge_pair(k, e_idx, req.timestamp)
                };
                assert(whole[t] == hd[t]);
                if t == 0 {
                    assert(hd[0] == bridge_pair(k, s_idx, req.timestamp)[0] || hd[0]
                        == bridge_pair(k, e_idx, req.timestamp)[0]);
                } else {
                    assert(hd[1] == bridge_pair(k, s_idx, req.timestamp)[1] || hd[1]
                        == bridge_pair(k, e_idx, req.timestamp)[1]);
                }
            }
        }
    }
}

/// A degenerate query, whose source and destination resolve to the same
/// node, never yields a rate: following next hops from a node to itself
/// stops at once, so the reconstructed path holds exactly one node.
/// Together with the contract of `get_top_result` this shows such a query
/// fails with `InvalidPath` whenever the relaxation records a route entry
/// for the node to itself, and with `PathNotFound` otherwise.
pub proof fn lemma_degenerate_query_never_succeeds(g: Graph, s: int)
    requires
        g.wf(),
        0 <= s < g.nodes@.len(),
        g.nodes@.len() <= usize::MAX,
    ensures
        ({
            let ni = g.nodes@.len() as int;
            walk_rec(fw(g.paths@, ni).1, ni, s, s, g.nodes@.len() as nat) == Some(
                seq![s as usize],
            )
        }),
{
}

/// The store invariant, kept by `new`, `update` and `clear`: the node set
/// holds no duplicate (exchange, currency) pair, and every edge's
/// endpoints are present in the node set.
pub proof fn lemma_store_invariant(g: Graph)
    requires
        g.wf(),
    ensures
        forall|i: int, j: int|
            0 <= i < j < g.nodes@.len() ==> key_of(g.nodes@[i]) != key_of(g.nodes@[j]),
        forall|i: int|
            0 <= i < g.paths@.len() ==> ((#[trigger] g.paths@[i]).start as int) < g.nodes@.len()
                && (g.paths@[i].end as int) < g.nodes@.len(),
        distinct_pairs_in(g.paths@, 0),
{
}

/// Recency makes updates idempotent: applying the very same update a
/// second time changes neither the node set nor the edge set, because the
/// second application finds the edges it would insert and their
/// timestamps are no longer strictly older.
pub proof fn lemma_update_idempotent(keys: Seq<NodeKey>, paths: Seq<Path>, req: PriceUpdateRequest)
    requires
        forall|i: int|
            0 <= i < paths.len() ==> (#[trigger] paths[i]).start < keys.len() && (
            paths[i].end as int) < keys.len(),
        req.source_currency@ != req.destination_currency@,
        keys.len() + 2 <= usize::MAX,
    ensures
        update_spec(
            update_spec(keys, paths, req).0,
            update_spec(keys, paths, req).1,
            req,
        ) == update_spec(keys, paths, req),
{
    let s_key = source_key(req);
    let e_key = destination_key(req);
    let si = find_key(keys, s_key);
    let ei = find_key(keys, e_key);
    let nl = keys.len() as int;
    lemma_find_key_from(keys, s_key, 0);
    lemma_find_key_from(keys, e_key, 0);
    assert(s_key != e_key) by {
        assert(s_key.1 != e_key.1);
    }
    let k1 = update_spec(keys, paths, req).0;
    let p1 = update_spec(keys, paths, req).1;
    // the inserted keys are found afterwards, and earlier keys keep their
    // positions
    if si >= 0 {
        lemma_find_key_from_push(keys, s_key, e_key, 0);
    } else {
        lemma_find_key_from_push(keys, s_key, s_key, 0);
        lemma_find_key_from_push(keys.push(s_key), s_key, e_key, 0);
    }
    if ei >= 0 {
        if si < 0 {
            lemma_find_key_from_push(keys, e_key, s_key, 0);
        }
    } else {
        if si < 0 {
            lemma_find_key_from_push(keys, e_key, s_key, 0);
            lemma_find_key_from_push(keys.push(s_key), e_key, e_key, 0);
        } else {
            lemma_find_key_from_push(keys, e_key, e_key, 0);
        }
    }
    let s2 = find_key(k1, s_key);
    let e2 = find_key(k1, e_key);
    assert(s2 >= 0);
    assert(e2 >= 0);
    lemma_find_key_from(k1, s_key, 0);
    lemma_find_key_from(k1, e_key, 0);
    // k1 extends keys: lookups at old positions agree
    assert(forall|x: int| 0 <= x < keys.len() ==> k1[x] == keys[x]);
    let s_new = if si >= 0 {
        si
    } else {
        nl
    };
    let e_new = if ei >= 0 {
        ei
    } else if si >= 0 {
        nl
    } else {
        nl + 1
    };
    assert(k1[s_new] == s_key);
    assert(k1[e_new] == e_key);
    assert(s2 == find_key(keys, s_key) || si < 0);
    if req_found(keys, paths, req) {
        // first pass merged in place; the second finds the same edges with
        // timestamps at least the update's
        let i0 = choose|i: int|
            0 <= i < paths.len() && (fwd_match(keys, #[trigger] paths[i], req) || bwd_match(
                keys,
                paths[i],
                req,
            ));
        assert(p1[i0] == merged_path(keys, paths[i0], req));
        assert(fwd_match(k1, p1[i0], req) || bwd_match(k1, p1[i0], req));
        assert(req_found(k1, p1, req));
        assert forall|i: int|
            0 <= i < p1.len() implies merged_path(k1, #[trigger] p1[i], req) == p1[i] by {
            assert(p1[i] == merged_path(keys, paths[i], req));
        }
        assert(Seq::new(p1.len(), |i: int| merged_path(k1, p1[i], req)) =~= p1);
        assert(insert_key(insert_key(k1, s_key), e_key) == k1);
    } else {
        // the first pass inserted the forward edge; the second finds it
        let fwdp = p1[paths.len() as int];
        assert(p1 == paths.push(
            Path {
                start: s_new as usize,
                end: e_new as usize,
                weight: req.forward_factor,
                timestamp: req.timestamp,
                factor_type: Factor::Forward,
            },
        ).push(
            Path {
                start: e_new as usize,
                end: s_new as usize,
                weight: req.backward_factor,
                timestamp: req.timestamp,
                factor_type: Factor::Backward,
            },
        ) + bridge_from(keys, 0, req, si < 0, ei < 0, s_new, e_new));
        let base2 = paths.push(
            Path {
                start: s_new as usize,
                end: e_new as usize,
                weight: req.forward_factor,
                timestamp: req.timestamp,
                factor_type: Factor::Forward,
            },
        ).push(
            Path {
                start: e_new as usize,
                end: s_new as usize,
                weight: req.backward_factor,
                timestamp: req.timestamp,
                factor_type: Factor::Backward,
            },
        );
        let brs = bridge_from(keys, 0, req, si < 0, ei < 0, s_new, e_new);
        assert(fwdp == base2[paths.len() as int]);
        assert(fwd_match(k1, fwdp, req));
        assert(req_found(k1, p1, req));
        lemma_bridge_from_elems(keys, 0, req, si < 0, ei < 0, s_new, e_new);
        assert forall|i: int|
            0 <= i < p1.len() implies merged_path(k1, #[trigger] p1[i], req) == p1[i] by {
            if i < paths.len() {
                assert(p1[i] == paths[i]);
                assert(!fwd_match(keys, paths[i], req) && !bwd_match(keys, paths[i], req));
                assert(k1[paths[i].start as int] == keys[paths[i].start as int]);
                assert(k1[paths[i].end as int] == keys[paths[i].end as int]);
            } else if i < paths.len() + 2 {
                assert(!p1[i].timestamp.lt_spec(req.timestamp));
            } else {
                assert(p1[i] == brs[i - (paths.len() + 2)]);
                assert(bridge_elem_prop(p1[i], keys, req, si < 0, ei < 0, s_new, e_new, nl));
                let p = p1[i];
                if (p.start as int) < nl {
                    assert(k1[p.start as int] == keys[p.start as int]);
                    assert(keys[p.start as int].0 != req.exchange@);
                    assert(!fwd_match(k1, p, req) && !bwd_match(k1, p, req));
                } else {
                    assert((p.end as int) < nl);
                    assert(k1[p.end as int] == keys[p.end as int]);
                    assert(keys[p.end as int].0 != req.exchange@);
                    assert(!fwd_match(k1, p, req) && !bwd_match(k1, p, req));
                }
            }
        }
        assert(Seq::new(p1.len(), |i: int| merged_path(k1, p1[i], req)) =~= p1);
        assert(insert_key(insert_key(k1, s_key), e_key) == k1);
    }
}

/// Recency ignores stale updates: when an edge already joins the update's
/// endpoints and no matching edge is strictly older than the update, the
/// update changes neither the node set nor the edge set.
pub proof fn lemma_update_stale(keys: Seq<NodeKey>, paths: Seq<Path>, req: PriceUpdateRequest)
    requires
        forall|i: int|
            0 <= i < paths.len() ==> (#[trigger] paths[i]).start < keys.len() && (
            paths[i].end as int) < keys.len(),
        req_found(keys, paths, req),
        forall|i: int|
            0 <= i < paths.len() && (fwd_match(keys, #[trigger] paths[i], req) || bwd_match(
                keys,
                paths[i],
                req,
            )) ==> !paths[i].timestamp.lt_spec(req.timestamp),
    ensures
        update_spec(keys, paths, req) == (keys, paths),
{
    let s_key = source_key(req);
    let e_key = destination_key(req);
    let i0 = choose|i: int|
        0 <= i < paths.len() && (fwd_match(keys, #[trigger] paths[i], req) || bwd_match(
            keys,
            paths[i],
            req,
        ));
    lemma_find_key_from(keys, s_key, 0);
    lemma_find_key_from(keys, e_key, 0);
    assert(find_key(keys, s_key) >= 0) by {
        if fwd_match(keys, paths[i0], req) {
            assert(keys[paths[i0].start as int] == s_key);
        } else {
            assert(keys[paths[i0].end as int] == s_key);
        }
    }
    assert(find_key(keys, e_key) >= 0) by {
        if fwd_match(keys, paths[i0], req) {
            assert(keys[paths[i0].end as int] == e_key);
        } else {
            assert(keys[paths[i0].start as int] == e_key);
        }
    }
    assert(Seq::new(paths.len(), |i: int| merged_path(keys, paths[i], req)) =~= paths);
    assert(insert_key(insert_key(keys, s_key), e_key) == keys);
}

/// The quote store: all nodes in insertion order, and all directed edges.
#[derive(Debug)]
pub struct Graph {
    pub nodes: Vec<Node>,
    pub paths: Vec<Path>,
}

impl Graph {
    /// Well-formedness of the store:
    /// - each node's `index` is its position;
    /// - no two nodes share an (exchange, currency) identity;
    /// - every edge's endpoints are valid node positions and its weight is
    ///   a positive rational;
    /// - at most one edge exists per ordered (start, end) pair.
    pub open spec fn wf(self) -> bool {
        &&& forall|i: int|
            0 <= i < self.nodes@.len() ==> (#[trigger] self.nodes@[i]).index == i
        &&& forall|i: int, j: int|
            0 <= i < j < self.nodes@.len() ==> key_of(self.nodes@[i]) != key_of(self.nodes@[j])
        &&& forall|i: int|
            0 <= i < self.paths@.len() ==> (#[trigger] self.paths@[i]).start < self.nodes@.len()
                && self.paths@[i].end < self.nodes@.len() && self.paths@[i].weight.wf()
        &&& distinct_pairs_in(self.paths@, 0)
    }

    /// The node identities, in insertion order.
    pub open spec fn keys(self) -> Seq<NodeKey> {
        keys_of(self.nodes@)
    }

    pub fn new() -> (g: Graph)
        ensures
            g.wf(),
            g.nodes@.len() == 0,
            g.paths@.len() == 0,
    {
        Graph { nodes: Vec::new(), paths: Vec::new() }
    }

    /// Empties node and edge sets entirely.
    pub fn clear(&mut self)
        ensures
            final(self).wf(),
            final(self).nodes@.len() == 0,
            final(self).paths@.len() == 0,
    {
        self.nodes.clear();
        self.paths.clear();
    }

    /// Index of the first node with the given identity.
    fn find_node_with(&self, exg: &str, curr: &str) -> (r: Option<usize>)
        ensures
            ({
                let f = find_key(self.keys(), (exg@, curr@));
                match r {
                    Some(i) => f == i as int && i < self.nodes@.len(),
                    None => f == -1,
                }
            }),
    {
        let n = self.nodes.len();
        let mut i: usize = 0;
        while i < n
            invariant
                n == self.nodes@.len(),
                i <= n,
                find_key(self.keys(), (exg@, curr@)) == find_key_from(
                    self.keys(),
                    (exg@, curr@),
                    i as int,
                ),
            decreases n - i,
        {
            let same = str_eq(self.nodes[i].exchange.as_str(), exg) && str_eq(
                self.nodes[i].currency.as_str(),
                curr,
            );
            if same {
                return Some(i);
            }
            i += 1;
        }
        None
    }

    /// The next-hop matrix of the all-pairs best-rate relaxation,
    /// recomputed from scratch.
    fn reconstruct_path(&self) -> (r: Vec<Option<usize>>)
        requires
            self.wf(),
            self.nodes@.len() * self.nodes@.len() <= usize::MAX,
        ensures
            r@ == fw(self.paths@, self.nodes@.len() as int).1,
            r@.len() == self.nodes@.len() * self.nodes@.len(),
    {
        let n = self.nodes.len();
        let ghost ni = n as int;
        let nn = n * n;
        let mut rate: Vec<Option<Rat>> = Vec::new();
        let mut nxt: Vec<Option<usize>> = Vec::new();
        let mut t: usize = 0;
        while t < nn
            invariant
                t <= nn,
                rate@.len() == t,
                nxt@.len() == t,
                forall|x: int| 0 <= x < t ==> rate@[x] is None,
                forall|x: int| 0 <= x < t ==> nxt@[x] is None,
            decreases nn - t,
        {
            rate.push(None);
            nxt.push(None);
            t += 1;
        }
        let m = self.paths.len();
        let mut kp: usize = 0;
        proof {
            assert forall|i: int, j: int|
                0 <= i < ni && 0 <= j < ni implies rate@[i * ni + j] == init_rate(
                self.paths@.subrange(0, 0),
                i,
                j,
            ) && nxt@[i * ni + j] == (if init_rate(self.paths@.subrange(0, 0), i, j) is Some {
                Some(j as usize)
            } else {
                None
            }) by {
                vstd::arithmetic::mul::lemma_mul_inequality(i + 1, ni, ni);
                vstd::arithmetic::mul::lemma_mul_is_distributive_add_other_way(ni, i, 1);
                vstd::arithmetic::mul::lemma_mul_nonnegative(i, ni);
            }
        }
        while kp < m
            invariant
                self.wf(),
                ni == self.nodes@.len(),
                n == ni,
                nn == ni * ni,
                nn == n * n,
                nn <= usize::MAX,
                m == self.paths@.len(),
                kp <= m,
                rate@.len() == nn,
                nxt@.len() == nn,
                forall|i: int, j: int|
                    0 <= i < ni && 0 <= j < ni ==> rate@[i * ni + j] == init_rate(
                        self.paths@.subrange(0, kp as int),
                        i,
                        j,
                    ) && nxt@[i * ni + j] == (if init_rate(
                        self.paths@.subrange(0, kp as int),
                        i,
                        j,
                    ) is Some {
                        Some(j as usize)
                    } else {
                        None
                    }),
            decreases m - kp,
        {
            let p = self.paths[kp];
            let c = cell_index(n, p.start, p.end);
            let ghost old_rate = rate@;
            let ghost old_nxt = nxt@;
            vstd::std_specs::core::index_set(&mut rate, c, Some(p.weight));
            vstd::std_specs::core::index_set(&mut nxt, c, Some(p.end));
            proof {
                let pre = self.paths@.subrange(0, kp as int);
                let cur = self.paths@.subrange(0, kp as int + 1);
                assert(cur.drop_last() =~= pre);
                assert(cur.last() == self.paths@[kp as int]);
                let ps = p.start as int;
                let pe = p.end as int;
                assert forall|i: int, j: int|
                    0 <= i < ni && 0 <= j < ni implies rate@[i * ni + j] == init_rate(cur, i, j)
                    && nxt@[i * ni + j] == (if init_rate(cur, i, j) is Some {
                    Some(j as usize)
                } else {
                    None
                }) by {
                    vstd::arithmetic::mul::lemma_mul_inequality(i + 1, ni, ni);
                    vstd::arithmetic::mul::lemma_mul_is_distributive_add_other_way(ni, i, 1);
                    vstd::arithmetic::mul::lemma_mul_nonnegative(i, ni);
                    if i == ps && j == pe {
                        assert(rate@[i * ni + j] == Some(p.weight));
                        assert(nxt@[i * ni + j] == Some(p.end));
                    } else {
                        assert(i * ni + j != c as int) by {
                            if i * ni + j == c as int {
                                vstd::arithmetic::div_mod::lemma_fundamental_div_mod_converse(
                                    c as int,
                                    ni,
                                    i,
                                    j,
                                );
                                vstd::arithmetic::div_mod::lemma_fundamental_div_mod_converse(
                                    c as int,
                                    ni,
                                    ps,
                                    pe,
                                );
                                assert(false);
                            }
                        }
                        assert(rate@[i * ni + j] == old_rate[i * ni + j]);
                        assert(nxt@[i * ni + j] == old_nxt[i * ni + j]);
                        assert(init_rate(cur, i, j) == init_rate(pre, i, j));
                    }
                }
            }
            kp += 1;
        }
        proof {
            assert(self.paths@.subrange(0, m as int) =~= self.paths@);
            assert(rate@ =~= init_mats(self.paths@, ni).0) by {
                assert forall|x: int| 0 <= x < nn implies rate@[x] == init_mats(self.paths@, ni).0[x] by {
                    lemma_cell_decode(ni, x);
                    assert(rate@[(x / ni) * ni + x % ni] == init_rate(self.paths@, x / ni, x % ni));
                }
            }
            assert(nxt@ =~= init_mats(self.paths@, ni).1) by {
                assert forall|x: int| 0 <= x < nn implies nxt@[x] == init_mats(self.paths@, ni).1[x] by {
                    lemma_cell_decode(ni, x);
                }
            }
            assert forall|x: int| 0 <= x < nn && rate@[x] is Some implies #[trigger] rate@[x]->0.wf() by {
                lemma_cell_decode(ni, x);
                lemma_init_rate_wf(self.paths@, x / ni, x % ni);
            }
        }
        let ghost st0 = (rate@, nxt@);
        let mut k: usize = 0;
        while k < n
            invariant
                ni == self.nodes@.len(),
                nn == ni * ni,
                nn <= usize::MAX,
                n == ni,
                k <= n,
                rate@.len() == nn,
                nxt@.len() == nn,
                forall|x: int| 0 <= x < nn && rate@[x] is Some ==> (#[trigger] rate@[x]->0).wf(),
                fw_from((rate@, nxt@), ni, k as int, 0, 0) == fw_from(st0, ni, 0, 0, 0),
            decreases n - k,
        {
            let mut i: usize = 0;
            while i < n
                invariant
                    ni == self.nodes@.len(),
                    nn == ni * ni,
                    nn <= usize::MAX,
                    n == ni,
                    k < n,
                    i <= n,
                    rate@.len() == nn,
                    nxt@.len() == nn,
                    forall|x: int| 0 <= x < nn && rate@[x] is Some ==> (#[trigger] rate@[x]->0).wf(),
                    fw_from((rate@, nxt@), ni, k as int, i as int, 0) == fw_from(st0, ni, 0, 0, 0),
                decreases n - i,
            {
                let mut j: usize = 0;
                while j < n
                    invariant
                        ni == self.nodes@.len(),
                        nn == ni * ni,
                        nn <= usize::MAX,
                        n == ni,
                        k < n,
                        i < n,
                        j <= n,
                        rate@.len() == nn,
                        nxt@.len() == nn,
                        forall|x: int|
                            0 <= x < nn && rate@[x] is Some ==> (#[trigger] rate@[x]->0).wf(),
                        fw_from((rate@, nxt@), ni, k as int, i as int, j as int) == fw_from(
                            st0,
                            ni,
                            0,
                            0,
                            0,
                        ),
                    decreases n - j,
                {
                    let ghost pre_st = (rate@, nxt@);
                    let cik = cell_index(n, i, k);
                    let ckj = cell_index(n, k, j);
                    let cij = cell_index(n, i, j);
                    let rik = rate[cik];
                    let rkj = rate[ckj];
                    if rik.is_some() && rkj.is_some() {
                        let a = rik.unwrap();
                        let b = rkj.unwrap();
                        match a.checked_mul(b) {
                            Some(prod) => {
                                let better = match rate[cij] {
                                    Some(r) => r.lt(prod),
                                    None => true,
                                };
                                if better {
                                    let nik = nxt[cik];
                                    vstd::std_specs::core::index_set(&mut rate, cij, Some(prod));
                                    vstd::std_specs::core::index_set(&mut nxt, cij, nik);
                                }
                            },
                            None => {},
                        }
                    }
                    proof {
                        assert((rate@, nxt@) == relax(pre_st, ni, k as int, i as int, j as int));
                        assert(fw_from((rate@, nxt@), ni, k as int, i as int, j as int + 1)
                            == fw_from(pre_st, ni, k as int, i as int, j as int));
                    }
                    j += 1;
                }
                proof {
                    assert(fw_from((rate@, nxt@), ni, k as int, i as int, ni) == fw_from(
                        (rate@, nxt@),
                        ni,
                        k as int,
                        i as int + 1,
                        0,
                    ));
                }
                i += 1;
            }
            proof {
                assert(fw_from((rate@, nxt@), ni, k as int, ni, 0) == fw_from(
                    (rate@, nxt@),
                    ni,
                    k as int + 1,
                    0,
                    0,
                ));
            }
            k += 1;
        }
        proof {
            assert(fw_from((rate@, nxt@), ni, ni, 0, 0) == (rate@, nxt@));
            assert(st0 == init_mats(self.paths@, ni));
        }
        nxt
    }

    /// The node list of the best path from `s` to `e`, following the
    /// next-hop matrix: empty when no path exists, `None` when the hops do
    /// not reach `e` within the node count (an internal inconsistency).
    fn get_top_paths(&self, s: usize, e: usize) -> (r: Option<Vec<usize>>)
        requires
            self.wf(),
            self.nodes@.len() * self.nodes@.len() <= usize::MAX,
            s < self.nodes@.len(),
            e < self.nodes@.len(),
        ensures
            ({
                let ni = self.nodes@.len() as int;
                let nxt = fw(self.paths@, ni).1;
                if nxt[s * ni + e as int] is None {
                    r is Some && r->0@ == Seq::<usize>::empty()
                } else {
                    match walk_rec(nxt, ni, s as int, e as int, self.nodes@.len() as nat) {
                        None => r is None,
                        Some(w) => r is Some && r->0@ == w,
                    }
                }
            }),
            r is Some ==> forall|x: int| 0 <= x < r->0@.len() ==> (r->0@[x] as int) < self.nodes@.len(),
    {
        let n = self.nodes.len();
        let ghost ni = n as int;
        let nxt = self.reconstruct_path();
        let ghost nxts = nxt@;
        let mut out: Vec<usize> = Vec::new();
        let c0 = cell_index(n, s, e);
        if nxt[c0].is_none() {
            return Some(out);
        }
        let mut u = s;
        out.push(u);
        let mut fuel = n;
        while u != e
            invariant
                ni == self.nodes@.len(),
                n == ni,
                nxts == fw(self.paths@, ni).1,
                nxts.len() == ni * ni,
                nxt@ == nxts,
                nxts[s * ni + e as int] is Some,
                fuel <= n,
                u < n,
                e < n,
                out@.len() >= 1,
                out@.last() == u,
                forall|x: int| 0 <= x < out@.len() ==> (out@[x] as int) < ni,
                ({
                    let full = walk_rec(nxts, ni, s as int, e as int, n as nat);
                    match walk_rec(nxts, ni, u as int, e as int, fuel as nat) {
                        None => full is None,
                        Some(w) => full is Some && full->0 == out@.subrange(
                            0,
                            out@.len() - 1,
                        ) + w,
                    }
                }),
            decreases fuel,
        {
            if fuel == 0 {
                return None;
            }
            let c = cell_index(n, u, e);
            match nxt[c] {
                None => {
                    return None;
                },
                Some(tnext) => {
                    if tnext >= n {
                        return None;
                    }
                    let ghost old_out = out@;
                    let ghost old_u = u;
                    u = tnext;
                    out.push(u);
                    fuel = fuel - 1;
                    proof {
                        let full = walk_rec(nxts, ni, s as int, e as int, n as nat);
                        match walk_rec(nxts, ni, u as int, e as int, fuel as nat) {
                            None => {},
                            Some(w) => {
                                assert(walk_rec(nxts, ni, old_u as int, e as int, (fuel + 1) as nat)
                                    == Some(seq![old_u] + w));
                                assert(old_out.subrange(0, old_out.len() - 1) + (seq![old_u] + w)
                                    =~= out@.subrange(0, out@.len() - 1) + w);
                            },
                        }
                    }
                },
            }
        }
        proof {
            assert(walk_rec(nxts, ni, u as int, e as int, fuel as nat) == Some(seq![e]));
            assert(out@.subrange(0, out@.len() - 1) + seq![e] =~= out@);
        }
        Some(out)
    }

    /// Answers a best-rate query: resolves both endpoints, reconstructs
    /// the best path from the all-pairs relaxation, and accumulates the
    /// product of edge weights along it.
    ///
    /// Fails with `PathNotFound` when an endpoint is unknown or no path
    /// exists, with `InvalidPath` when the path degenerates to a single
    /// node (source and destination resolve to the same node), and with
    /// `Critical` when the reconstruction is inconsistent with the edge
    /// set or a product along it is not representable.
    pub fn get_top_result(&self, exchange_request: &ExchangeRateRequest) -> (r: Result<
        OptimalRateWithPath,
        GraphError,
    >)
        requires
            self.wf(),
            self.nodes@.len() * self.nodes@.len() <= usize::MAX,
        ensures
            ({
                let keys = self.keys();
                let ni = self.nodes@.len() as int;
                let s = find_key(
                    keys,
                    (exchange_request.source_exchange@, exchange_request.source_currency@),
                );
                let e = find_key(
                    keys,
                    (
                        exchange_request.destination_exchange@,
                        exchange_request.destination_currency@,
                    ),
                );
                if s == -1 || e == -1 {
                    r == Err::<OptimalRateWithPath, GraphError>(GraphError::PathNotFound)
                } else if fw(self.paths@, ni).1[s * ni + e] is None {
                    r == Err::<OptimalRateWithPath, GraphError>(GraphError::PathNotFound)
                } else {
                    match walk_rec(fw(self.paths@, ni).1, ni, s, e, self.nodes@.len() as nat) {
                        None => r == Err::<OptimalRateWithPath, GraphError>(GraphError::Critical),
                        Some(w) => {
                            if w.len() == 1 {
                                r == Err::<OptimalRateWithPath, GraphError>(GraphError::InvalidPath)
                            } else {
                                match acc_rate(self.paths@, w, 0, unit_weight()) {
                                    None => r == Err::<OptimalRateWithPath, GraphError>(
                                        GraphError::Critical,
                                    ),
                                    Some(rate) => r is Ok && r->Ok_0.rate == rate
                                        && r->Ok_0.paths@.len() == w.len() && (forall|t: int|
                                        0 <= t < w.len() ==> pair_key(#[trigger] r->Ok_0.paths@[t])
                                            == keys[w[t] as int]),
                                }
                            }
                        },
                    }
                }
            }),
    {
        let ghost keys = self.keys();
        let ghost ni = self.nodes@.len() as int;
        let s_found = self.find_node_with(
            exchange_request.source_exchange.as_str(),
            exchange_request.source_currency.as_str(),
        );
        let e_found = self.find_node_with(
            exchange_request.destination_exchange.as_str(),
            exchange_request.destination_currency.as_str(),
        );
        let (s, e) = match (s_found, e_found) {
            (Some(s), Some(e)) => (s, e),
            _ => {
                return Err(GraphError::PathNotFound);
            },
        };
        let pathsv = match self.get_top_paths(s, e) {
            Some(v) => v,
            None => {
                return Err(GraphError::Critical);
            },
        };
        let ghost w = pathsv@;
        let plen = pathsv.len();
        if plen == 0 {
            return Err(GraphError::PathNotFound);
        }
        if plen == 1 {
            return Err(GraphError::InvalidPath);
        }
        let m = self.paths.len();
        let mut rate = Rat::one();
        let mut pair: VecDeque<ExchangeCurrencyPair> = VecDeque::new();
        let mut t: usize = 0;
        while t + 1 < plen
            invariant
                self.wf(),
                ni == self.nodes@.len(),
                keys == self.keys(),
                m == self.paths@.len(),
                w == pathsv@,
                plen == w.len(),
                plen >= 2,
                t + 1 <= plen,
                s < self.nodes@.len(),
                e < self.nodes@.len(),
                find_key(
                    keys,
                    (exchange_request.source_exchange@, exchange_request.source_currency@),
                ) == s as int,
                find_key(
                    keys,
                    (
                        exchange_request.destination_exchange@,
                        exchange_request.destination_currency@,
                    ),
                ) == e as int,
                fw(self.paths@, ni).1[s as int * ni + e as int] is Some,
                walk_rec(fw(self.paths@, ni).1, ni, s as int, e as int, self.nodes@.len() as nat)
                    == Some(w),
                forall|x: int| 0 <= x < w.len() ==> (w[x] as int) < ni,
                rate.wf(),
                pair@.len() == t,
                forall|x: int|
                    0 <= x < t ==> pair_key(#[trigger] pair@[x]) == keys[w[x] as int],
                acc_rate(self.paths@, w, t as int, rate) == acc_rate(
                    self.paths@,
                    w,
                    0,
                    unit_weight(),
                ),
            decreases plen - t,
        {
            let si = pathsv[t];
            let ei = pathsv[t + 1];
            let mut found_w: Option<Rat> = None;
            let mut idx: usize = 0;
            while idx < m && found_w.is_none()
                invariant
                    m == self.paths@.len(),
                    idx <= m,
                    match found_w {
                        None => edge_weight(self.paths@, si as int, ei as int)
                            == edge_weight_from(self.paths@, idx as int, si as int, ei as int),
                        Some(x) => edge_weight(self.paths@, si as int, ei as int) == Some(x),
                    },
                decreases m - idx,
            {
                let p = self.paths[idx];
                if p.start == si && p.end == ei {
                    found_w = Some(p.weight);
                }
                idx += 1;
            }
            let wt = match found_w {
                None => {
                    return Err(GraphError::Critical);
                },
                Some(wt) => wt,
            };
            proof {
                assert(edge_weight(self.paths@, si as int, ei as int) == Some(wt));
                lemma_edge_weight_from_wf(self.paths@, 0, si as int, ei as int);
                assert(wt.wf());
            }
            let r2 = match rate.checked_mul(wt) {
                None => {
                    return Err(GraphError::Critical);
                },
                Some(r2) => r2,
            };
            let nd = &self.nodes[si];
            pair.push_back(ExchangeCurrencyPair::new(nd.exchange.clone(), nd.currency.clone()));
            proof {
                assert(keys[si as int] == key_of(self.nodes@[si as int]));
            }
            rate = r2;
            t += 1;
        }
        let last = pathsv[plen - 1];
        let nd = &self.nodes[last];
        pair.push_back(ExchangeCurrencyPair::new(nd.exchange.clone(), nd.currency.clone()));
        proof {
            assert(keys[last as int] == key_of(self.nodes@[last as int]));
            assert(acc_rate(self.paths@, w, plen - 1, rate) == Some(rate));
        }
        Ok(OptimalRateWithPath::new(rate, pair))
    }

    /// Whether edge `p` joins `(ex, from_cur)` to `(ex, to_cur)`.
    fn edge_matches(&self, p: &Path, ex: &String, from_cur: &String, to_cur: &String) -> (r: bool)
        requires
            p.start < self.nodes@.len(),
            p.end < self.nodes@.len(),
        ensures
            r == (self.keys()[p.start as int] == (ex@, from_cur@) && self.keys()[p.end as int]
                == (ex@, to_cur@)),
    {
        let ps = &self.nodes[p.start];
        let pe = &self.nodes[p.end];
        proof {
            assert(self.keys()[p.start as int] == key_of(self.nodes@[p.start as int]));
            assert(self.keys()[p.end as int] == key_of(self.nodes@[p.end as int]));
        }
        str_eq(ps.exchange.as_str(), ex.as_str()) && str_eq(ps.currency.as_str(), from_cur.as_str())
            && str_eq(pe.exchange.as_str(), ex.as_str()) && str_eq(
            pe.currency.as_str(),
            to_cur.as_str(),
        )
    }

    /// Inserts the synthetic bridging edges for the update's absent
    /// endpoints: for every existing node that shares a currency with an
    /// absent endpoint on a different exchange, two symmetric unit-weight
    /// edges between that node and the endpoint.
    fn insert_additional_paths(
        &mut self,
        request: &PriceUpdateRequest,
        s_absent: bool,
        e_absent: bool,
        s_new: usize,
        e_new: usize,
    )
        requires
            s_absent ==> s_new == old(self).nodes@.len(),
            e_absent ==> e_new as int == old(self).nodes@.len() + (if s_absent {
                1int
            } else {
                0int
            }),
        ensures
            final(self).nodes@ == old(self).nodes@,
            final(self).paths@ == old(self).paths@ + bridge_from(
                keys_of(old(self).nodes@),
                0,
                *request,
                s_absent,
                e_absent,
                s_new as int,
                e_new as int,
            ),
            forall|t: int|
                old(self).paths@.len() <= t < final(self).paths@.len() ==> bridge_elem_prop(
                    #[trigger] final(self).paths@[t],
                    keys_of(old(self).nodes@),
                    *request,
                    s_absent,
                    e_absent,
                    s_new as int,
                    e_new as int,
                    old(self).nodes@.len() as int,
                ),
            distinct_pairs_in(final(self).paths@, old(self).paths@.len() as int),
    {
        let ghost keys0 = keys_of(self.nodes@);
        let ghost nodes0 = self.nodes@;
        let ghost base = self.paths@;
        let ghost req = *request;
        let n_len = self.nodes.len();
        let bl = self.paths.len();
        let mut k: usize = 0;
        while k < n_len
            invariant
                n_len == nodes0.len(),
                self.nodes@ == nodes0,
                keys0 == keys_of(nodes0),
                req == *request,
                bl == base.len(),
                k <= n_len,
                s_absent ==> s_new == n_len,
                e_absent ==> e_new as int == n_len + (if s_absent {
                    1int
                } else {
                    0int
                }),
                self.paths@.len() >= bl,
                self.paths@.subrange(0, bl as int) == base,
                self.paths@.skip(bl as int) + bridge_from(
                    keys0,
                    k as int,
                    req,
                    s_absent,
                    e_absent,
                    s_new as int,
                    e_new as int,
                ) == bridge_from(
                    keys0,
                    0,
                    req,
                    s_absent,
                    e_absent,
                    s_new as int,
                    e_new as int,
                ),
                forall|t: int|
                    bl <= t < self.paths@.len() ==> bridge_elem_prop(
                        #[trigger] self.paths@[t],
                        keys0,
                        req,
                        s_absent,
                        e_absent,
                        s_new as int,
                        e_new as int,
                        k as int,
                    ),
                distinct_pairs_in(self.paths@, bl as int),
            decreases n_len - k,
        {
            let ghost paths_before = self.paths@;
            let node = &self.nodes[k];
            proof {
                assert(keys0[k as int] == key_of(nodes0[k as int]));
            }
            let same_exg = str_eq(node.exchange.as_str(), request.exchange.as_str());
            let do_s = s_absent && str_eq(node.currency.as_str(), request.source_currency.as_str())
                && !same_exg;
            let do_e = !do_s && e_absent && str_eq(
                node.currency.as_str(),
                request.destination_currency.as_str(),
            ) && !same_exg;
            if do_s {
                self.paths.push(
                    Path {
                        start: k,
                        end: s_new,
                        weight: Rat::one(),
                        timestamp: request.timestamp,
                        factor_type: Factor::FilledUpForward,
                    },
                );
                self.paths.push(
                    Path {
                        start: s_new,
                        end: k,
                        weight: Rat::one(),
                        timestamp: request.timestamp,
                        factor_type: Factor::FilledUpBackward,
                    },
                );
                proof {
                    assert(self.paths@.skip(bl as int) =~= paths_before.skip(bl as int)
                        + bridge_pair(k as int, s_new as int, req.timestamp));
                }
            } else if do_e {
                self.paths.push(
                    Path {
                        start: k,
                        end: e_new,
                        weight: Rat::one(),
                        timestamp: request.timestamp,
                        factor_type: Factor::FilledUpForward,
                    },
                );
                self.paths.push(
                    Path {
                        start: e_new,
                        end: k,
                        weight: Rat::one(),
                        timestamp: request.timestamp,
                        factor_type: Factor::FilledUpBackward,
                    },
                );
                proof {
                    assert(self.paths@.skip(bl as int) =~= paths_before.skip(bl as int)
                        + bridge_pair(k as int, e_new as int, req.timestamp));
                }
            }
            proof {
                let sa = s_absent;
                let ea = e_absent;
                let si = s_new as int;
                let ei = e_new as int;
                let before = bridge_from(keys0, k as int, req, sa, ea, si, ei);
                let after = bridge_from(keys0, k as int + 1, req, sa, ea, si, ei);
                if do_s {
                    assert(before == bridge_pair(k as int, si, req.timestamp) + after);
                    assert((paths_before.skip(bl as int) + bridge_pair(k as int, si, req.timestamp))
                        + after =~= paths_before.skip(bl as int) + (bridge_pair(
                        k as int,
                        si,
                        req.timestamp,
                    ) + after));
                } else if do_e {
                    assert(before == bridge_pair(k as int, ei, req.timestamp) + after);
                    assert((paths_before.skip(bl as int) + bridge_pair(k as int, ei, req.timestamp))
                        + after =~= paths_before.skip(bl as int) + (bridge_pair(
                        k as int,
                        ei,
                        req.timestamp,
                    ) + after));
                } else {
                    assert(before == Seq::<Path>::empty() + after);
                    assert(Seq::<Path>::empty() + after =~= after);
                }
                assert(self.paths@.subrange(0, bl as int) =~= base);
            }
            k += 1;
        }
        proof {
            assert(bridge_from(
                keys0,
                n_len as int,
                req,
                s_absent,
                e_absent,
                s_new as int,
                e_new as int,
            ) == Seq::<Path>::empty());
            assert(self.paths@.skip(bl as int) + Seq::<Path>::empty() =~= self.paths@.skip(
                bl as int,
            ));
            assert(self.paths@ =~= base + self.paths@.skip(bl as int));
        }
    }

    /// Applies a validated price update. If an edge already joins the two
    /// endpoints (in either direction), each such edge is merged
    /// independently by recency; otherwise the forward and backward edges
    /// are inserted, followed by the synthetic bridging edges. Finally both
    /// endpoint nodes are inserted if absent, in source-then-destination
    /// order.
    pub fn update(&mut self, request: &PriceUpdateRequest)
        requires
            old(self).wf(),
            request.forward_factor.wf(),
            request.backward_factor.wf(),
            request.source_currency@ != request.destination_currency@,
            old(self).nodes@.len() + 2 <= usize::MAX,
        ensures
            final(self).wf(),
            keys_of(final(self).nodes@) == update_spec(
                keys_of(old(self).nodes@),
                old(self).paths@,
                *request,
            ).0,
            final(self).paths@ == update_spec(
                keys_of(old(self).nodes@),
                old(self).paths@,
                *request,
            ).1,
    {
        let ghost keys0 = keys_of(self.nodes@);
        let ghost nodes0 = self.nodes@;
        let ghost paths0 = self.paths@;
        let ghost req = *request;
        let s_found = self.find_node_with(
            request.exchange.as_str(),
            request.source_currency.as_str(),
        );
        let e_found = self.find_node_with(
            request.exchange.as_str(),
            request.destination_currency.as_str(),
        );
        proof {
            lemma_find_key_from(keys0, source_key(req), 0);
            lemma_find_key_from(keys0, destination_key(req), 0);
            assert forall|i: int, j: int|
                0 <= i < j < keys0.len() implies keys0[i] != keys0[j] by {
                assert(keys0[i] == key_of(nodes0[i]));
                assert(keys0[j] == key_of(nodes0[j]));
            }
        }
        let pl = self.paths.len();
        let mut found = false;
        let mut idx: usize = 0;
        while idx < pl
            invariant
                self.nodes@ == nodes0,
                self.paths@ == paths0,
                keys0 == keys_of(nodes0),
                req == *request,
                pl == paths0.len(),
                idx <= pl,
                forall|i: int|
                    0 <= i < paths0.len() ==> (#[trigger] paths0[i]).start < nodes0.len()
                        && paths0[i].end < nodes0.len(),
                found == exists|i: int|
                    0 <= i < idx && (fwd_match(keys0, #[trigger] paths0[i], req) || bwd_match(
                        keys0,
                        paths0[i],
                        req,
                    )),
            decreases pl - idx,
        {
            let p = self.paths[idx];
            let f = self.edge_matches(
                &p,
                &request.exchange,
                &request.source_currency,
                &request.destination_currency,
            );
            let b = self.edge_matches(
                &p,
                &request.exchange,
                &request.destination_currency,
                &request.source_currency,
            );
            if f || b {
                found = true;
            }
            idx += 1;
        }
        proof {
            assert(found == req_found(keys0, paths0, req));
        }
        let ghost target_keys = insert_key(insert_key(keys0, source_key(req)), destination_key(req));
        if found {
            let mut merged: Vec<Path> = Vec::new();
            let mut j: usize = 0;
            while j < pl
                invariant
                    self.nodes@ == nodes0,
                    self.paths@ == paths0,
                    keys0 == keys_of(nodes0),
                    req == *request,
                    pl == paths0.len(),
                    j <= pl,
                    merged@.len() == j,
                    forall|i: int|
                        0 <= i < paths0.len() ==> (#[trigger] paths0[i]).start < nodes0.len()
                            && paths0[i].end < nodes0.len(),
                    forall|i: int|
                        0 <= i < j ==> merged@[i] == merged_path(keys0, #[trigger] paths0[i], req),
                decreases pl - j,
            {
                let p = self.paths[j];
                let f = self.edge_matches(
                    &p,
                    &request.exchange,
                    &request.source_currency,
                    &request.destination_currency,
                );
                let b = self.edge_matches(
                    &p,
                    &request.exchange,
                    &request.destination_currency,
                    &request.source_currency,
                );
                let np = if f && p.timestamp.lt(request.timestamp) {
                    Path {
                        start: p.start,
                        end: p.end,
                        weight: request.forward_factor,
                        timestamp: request.timestamp,
                        factor_type: p.factor_type,
                    }
                } else if b && p.timestamp.lt(request.timestamp) {
                    Path {
                        start: p.start,
                        end: p.end,
                        weight: request.backward_factor,
                        timestamp: request.timestamp,
                        factor_type: p.factor_type,
                    }
                } else {
                    p
                };
                merged.push(np);
                j += 1;
            }
            self.paths = merged;
            proof {
                assert(req_found(keys0, paths0, req));
                assert(self.paths@ =~= Seq::new(
                    paths0.len(),
                    |i: int| merged_path(keys0, paths0[i], req),
                ));
                assert(self.paths@ == update_spec(keys0, paths0, req).1);
                lemma_insert_key_distinct(keys0, source_key(req));
                lemma_insert_key_distinct(insert_key(keys0, source_key(req)), destination_key(req));
                assert forall|t: int| 0 <= t < self.paths@.len() implies {
                    let p = #[trigger] self.paths@[t];
                    p.start < target_keys.len() && p.end < target_keys.len() && p.weight.wf()
                } by {
                    assert(self.paths@[t] == merged_path(keys0, paths0[t], req));
                    assert(paths0[t].weight.wf());
                }
                assert(distinct_pairs_in(self.paths@, 0)) by {
                    assert forall|t1: int, t2: int|
                        0 <= t1 < t2 < self.paths@.len() implies !((#[trigger] self.paths@[t1]).start
                        == (#[trigger] self.paths@[t2]).start && self.paths@[t1].end
                        == self.paths@[t2].end) by {
                        assert(self.paths@[t1] == merged_path(keys0, paths0[t1], req));
                        assert(self.paths@[t2] == merged_path(keys0, paths0[t2], req));
                        assert(self.paths@[t1].start == paths0[t1].start);
                        assert(self.paths@[t1].end == paths0[t1].end);
                        assert(self.paths@[t2].start == paths0[t2].start);
                        assert(self.paths@[t2].end == paths0[t2].end);
                    }
                }
            }
        } else {
            let n_len = self.nodes.len();
            let (s_new, s_absent) = match s_found {
                Some(i) => (i, false),
                None => (n_len, true),
            };
            let e_base = if s_absent {
                n_len + 1
            } else {
                n_len
            };
            let (e_new, e_absent) = match e_found {
                Some(i) => (i, false),
                None => (e_base, true),
            };
            self.paths.push(
                Path {
                    start: s_new,
                    end: e_new,
                    weight: request.forward_factor,
                    timestamp: request.timestamp,
                    factor_type: Factor::Forward,
                },
            );
            self.paths.push(
                Path {
                    start: e_new,
                    end: s_new,
                    weight: request.backward_factor,
                    timestamp: request.timestamp,
                    factor_type: Factor::Backward,
                },
            );
            self.insert_additional_paths(request, s_absent, e_absent, s_new, e_new);
            proof {
                let nl = nodes0.len() as int;
                let s_key = source_key(req);
                let e_key = destination_key(req);
                let si = find_key(keys0, s_key);
                let ei = find_key(keys0, e_key);
                assert(s_key.1 != e_key.1);
                assert(s_absent <==> si == -1);
                assert(e_absent <==> ei == -1);
                assert(!s_absent ==> si == s_new as int && keys0[si] == s_key);
                assert(!e_absent ==> ei == e_new as int && keys0[ei] == e_key);
                let fwdp = Path {
                    start: s_new,
                    end: e_new,
                    weight: req.forward_factor,
                    timestamp: req.timestamp,
                    factor_type: Factor::Forward,
                };
                let bwdp = Path {
                    start: e_new,
                    end: s_new,
                    weight: req.backward_factor,
                    timestamp: req.timestamp,
                    factor_type: Factor::Backward,
                };
                let base2 = paths0.push(fwdp).push(bwdp);
                assert(self.paths@ == base2 + bridge_from(
                    keys0,
                    0,
                    req,
                    s_absent,
                    e_absent,
                    s_new as int,
                    e_new as int,
                ));
                assert(self.paths@ == update_spec(keys0, paths0, req).1);
                assert forall|t: int|
                    0 <= t < paths0.len() implies #[trigger] self.paths@[t] == paths0[t] by {
                    assert(base2[t] == paths0[t]);
                }
                assert(base2[pl as int] == fwdp);
                assert(base2[pl as int + 1] == bwdp);
                assert(self.paths@[pl as int] == fwdp);
                assert(self.paths@[pl as int + 1] == bwdp);
                assert(keys0.len() == nodes0.len());
                assert(base2.len() == paths0.len() + 2);
                lemma_inserted_paths_wf(
                    keys0,
                    paths0,
                    req,
                    self.paths@,
                    s_absent,
                    e_absent,
                    s_new as int,
                    e_new as int,
                    nl,
                );
                // the final node count is the old one plus one per absent
                // endpoint
                lemma_find_key_from_push(keys0, e_key, s_key, 0);
                assert(target_keys.len() == nl + grow_count(s_absent, e_absent));
                assert forall|t: int|
                    0 <= t < self.paths@.len() implies (#[trigger] self.paths@[t]).start
                    < target_keys.len() && self.paths@[t].end < target_keys.len()
                    && self.paths@[t].weight.wf() by {}
            }
        }
        let ghost paths_mid = self.paths@;
        self.insert_node(request.exchange.as_str(), request.source_currency.as_str());
        self.insert_node(request.exchange.as_str(), request.destination_currency.as_str());
        proof {
            let s_key = source_key(req);
            let e_key = destination_key(req);
            assert(keys_of(self.nodes@) == target_keys);
            assert(self.paths@ == paths_mid);
            lemma_insert_key_distinct(keys0, s_key);
            lemma_insert_key_distinct(insert_key(keys0, s_key), e_key);
            assert(self.nodes@.len() == target_keys.len());
            assert forall|i: int, j: int|
                0 <= i < j < self.nodes@.len() implies key_of(#[trigger] self.nodes@[i]) != key_of(
                #[trigger] self.nodes@[j],
            ) by {
                assert(key_of(self.nodes@[i]) == keys_of(self.nodes@)[i]);
                assert(key_of(self.nodes@[j]) == keys_of(self.nodes@)[j]);
            }
            assert(target_keys.len() >= keys0.len());
            assert(keys_of(self.nodes@) == update_spec(keys0, paths0, req).0);
        }
    }

    /// A copy of the current nodes, in insertion order.
    pub fn get_nodes(&self) -> (r: Vec<Node>)
        ensures
            r@.len() == self.nodes@.len(),
            forall|i: int|
                0 <= i < r@.len() ==> key_of(#[trigger] r@[i]) == key_of(self.nodes@[i])
                    && r@[i].index == self.nodes@[i].index,
    {
        let mut out: Vec<Node> = Vec::new();
        let n = self.nodes.len();
        let mut i: usize = 0;
        while i < n
            invariant
                n == self.nodes@.len(),
                i <= n,
                out@.len() == i,
                forall|j: int|
                    0 <= j < i ==> key_of(#[trigger] out@[j]) == key_of(self.nodes@[j])
                        && out@[j].index == self.nodes@[j].index,
            decreases n - i,
        {
            let nd = &self.nodes[i];
            out.push(Node::new(nd.exchange.as_str(), nd.currency.as_str(), nd.index));
            i += 1;
        }
        out
    }

    /// A copy of the current edges, in insertion order.
    pub fn get_paths(&self) -> (r: Vec<Path>)
        ensures
            r@ == self.paths@,
    {
        let mut out: Vec<Path> = Vec::new();
        let n = self.paths.len();
        let mut i: usize = 0;
        while i < n
            invariant
                n == self.paths@.len(),
                i <= n,
                out@ == self.paths@.subrange(0, i as int),
            decreases n - i,
        {
            out.push(self.paths[i]);
            proof {
                assert(out@ =~= self.paths@.subrange(0, i as int + 1));
            }
            i += 1;
        }
        proof {
            assert(out@ =~= self.paths@);
        }
        out
    }

    /// The two weight collections partitioned by Forward/Backward factor
    /// type; synthetic bridging edges are excluded.
    pub fn get_forward_backward_factor_of_existing_paths(&self) -> (r: (Vec<Rat>, Vec<Rat>))
        ensures
            r.0@ == weights_of(self.paths@, Factor::Forward),
            r.1@ == weights_of(self.paths@, Factor::Backward),
    {
        let mut fnum: Vec<Rat> = Vec::new();
        let mut bnum: Vec<Rat> = Vec::new();
        let n = self.paths.len();
        let mut i: usize = 0;
        while i < n
            invariant
                n == self.paths@.len(),
                i <= n,
                fnum@ == weights_of(self.paths@.subrange(0, i as int), Factor::Forward),
                bnum@ == weights_of(self.paths@.subrange(0, i as int), Factor::Backward),
            decreases n - i,
        {
            let p = self.paths[i];
            proof {
                assert(self.paths@.subrange(0, i as int + 1).drop_last() =~= self.paths@.subrange(
                    0,
                    i as int,
                ));
                assert(self.paths@.subrange(0, i as int + 1).last() == self.paths@[i as int]);
            }
            if matches!(p.factor_type, Factor::Forward) {
                fnum.push(p.weight);
            } else if matches!(p.factor_type, Factor::Backward) {
                bnum.push(p.weight);
            }
            i += 1;
        }
        proof {
            assert(self.paths@.subrange(0, n as int) =~= self.paths@);
        }
        (fnum, bnum)
    }

    /// Appends a node with the given identity if none carries it yet; its
    /// `index` is its position.
    fn insert_node(&mut self, exg: &str, curr: &str)
        requires
            forall|i: int|
                0 <= i < old(self).nodes@.len() ==> (#[trigger] old(self).nodes@[i]).index == i,
            old(self).nodes@.len() + 1 <= usize::MAX,
        ensures
            keys_of(final(self).nodes@) == insert_key(keys_of(old(self).nodes@), (exg@, curr@)),
            forall|i: int|
                0 <= i < final(self).nodes@.len() ==> (#[trigger] final(self).nodes@[i]).index
                    == i,
            final(self).paths@ == old(self).paths@,
    {
        let found = self.find_node_with(exg, curr);
        if found.is_none() {
            let idx = self.nodes.len();
            let node = Node::new(exg, curr, idx);
            self.nodes.push(node);
            proof {
                assert(keys_of(final(self).nodes@) =~= keys_of(old(self).nodes@).push(
                    (exg@, curr@),
                ));
            }
        }
    }
}

} // verus!

