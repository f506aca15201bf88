//! Row and table locks with deadlock detection.
//!
//! A request is decided at once: it is granted, it must wait for the
//! holders it conflicts with, or it would close a cycle of waiting
//! transactions and fails as the deadlock's victim. Whoever runs the
//! transactions parks a waiting request and asks again after a release.

use vstd::prelude::*;

use crate::error::TxnError;
use crate::ids::{Rid, TableId, TxnId};
use crate::keyed::KeyedVec;
use crate::txn::version_store::rid_key;

verus! {

/// The mode a lock is held in.
#[derive(Debug, Clone, Copy, PartialEq, Eq, Structural)]
pub enum LockMode {
    Shared,
    Exclusive,
}

pub open spec fn spec_conflicts(a: LockMode, b: LockMode) -> bool {
    !(a == LockMode::Shared && b == LockMode::Shared)
}

impl LockMode {
    /// Whether a lock held in `self` keeps another transaction from taking
    /// one in `other`: only two shared locks coexist.
    pub fn conflicts_with(self, other: LockMode) -> (b: bool)
        ensures
            b == spec_conflicts(self, other),
    {
        !(matches!(self, LockMode::Shared) && matches!(other, LockMode::Shared))
    }
}

/// What a lock protects.
#[derive(Debug, Clone, Copy, PartialEq, Eq, Structural)]
pub enum Resource {
    Row(Rid),
    Table(TableId),
}

/// The map key of a resource: rows below 2^48, tables above.
pub open spec fn resource_key(r: Resource) -> u64 {
    match r {
        Resource::Row(rid) => rid_key(rid),
        Resource::Table(t) => (0x1_0000_0000_0000 + t.0 as int) as u64,
    }
}

fn key_of_resource(r: Resource) -> (k: u64)
    ensures
        k == resource_key(r),
{
    match r {
        Resource::Row(rid) => (rid.page_id.0 as u64) * 65536 + (rid.slot as u64),
        Resource::Table(t) => 0x1_0000_0000_0000u64 + t.0 as u64,
    }
}

/// What a request is answered when it does not fail.
#[derive(Debug, Clone, Copy, PartialEq, Eq, Structural)]
pub enum LockOutcome {
    /// The lock is held.
    Granted,
    /// The request conflicts with a holder; ask again once one releases.
    MustWait,
}

/// The lock table: who holds what in which mode, what each transaction
/// holds, who waits for what, and who has released everything.
pub struct LockView {
    pub holders: Map<u64, Seq<(TxnId, LockMode)>>,
    pub held_by: Map<u64, Seq<u64>>,
    pub waiting: Map<u64, (u64, LockMode)>,
    pub finished: Seq<u64>,
}

pub open spec fn holders_of(v: LockView, res: u64) -> Seq<(TxnId, LockMode)> {
    if v.holders.dom().contains(res) {
        v.holders[res]
    } else {
        Seq::empty()
    }
}

/// The mode of `txn`'s first entry among `hs`.
pub open spec fn held_mode(hs: Seq<(TxnId, LockMode)>, txn: u64) -> Option<LockMode>
    decreases hs.len(),
{
    if hs.len() == 0 {
        None
    } else if hs[0].0.0 == txn {
        Some(hs[0].1)
    } else {
        held_mode(hs.subrange(1, hs.len() as int), txn)
    }
}

/// Whether an entry of another transaction conflicts with `mode`.
pub open spec fn blocks(mode: LockMode, exclude: u64) -> spec_fn((TxnId, LockMode)) -> bool {
    |e: (TxnId, LockMode)| e.0.0 != exclude && spec_conflicts(e.1, mode)
}

/// The holders, other than `exclude`, whose entry conflicts with `mode`.
pub open spec fn conflicting(hs: Seq<(TxnId, LockMode)>, mode: LockMode, exclude: u64) -> Seq<u64> {
    hs.filter(blocks(mode, exclude)).map_values(|e: (TxnId, LockMode)| e.0.0)
}

pub open spec fn not_txn(txn: u64) -> spec_fn((TxnId, LockMode)) -> bool {
    |e: (TxnId, LockMode)| e.0.0 != txn
}

/// Whether `u` waits for `w`: `u` waits on a resource that `w` holds in a
/// conflicting mode.
pub open spec fn waits_on(v: LockView, u: u64, w: u64) -> bool {
    v.waiting.dom().contains(u) && conflicting(
        holders_of(v, v.waiting[u].0),
        v.waiting[u].1,
        u,
    ).contains(w)
}

/// Whether `p` is a chain of waits: each transaction on it waits for the
/// next.
pub open spec fn is_wait_path(v: LockView, p: Seq<u64>) -> bool {
    &&& p.len() > 0
    &&& forall|i: int| 0 <= i < p.len() - 1 ==> #[trigger] waits_on(v, p[i], p[i + 1])
}

/// Whether a chain of waits leads from one of `from` to `target`.
pub open spec fn reachable(v: LockView, from: Seq<u64>, target: u64) -> bool {
    exists|p: Seq<u64>| #[trigger] is_wait_path(v, p) && from.contains(p[0]) && p.last() == target
}

/// Whether waiting for `blockers` would close a cycle through `start`:
/// `start` is among them, or a chain of waits leads from them to it.
pub open spec fn closes_cycle(v: LockView, start: u64, blockers: Seq<u64>) -> bool {
    reachable(v, blockers, start)
}

pub open spec fn with_resource(held: Seq<u64>, res: u64) -> Seq<u64> {
    if held.contains(res) {
        held
    } else {
        held.push(res)
    }
}

/// The lock table after a request for `res` in `mode` by `txn` is
/// answered.
pub open spec fn after_request(v: LockView, txn: u64, res: u64, mode: LockMode) -> (LockView, Result<LockOutcome, u64>) {
    if v.finished.contains(txn) {
        (v, Err(0))
    } else {
        let w0 = LockView { waiting: v.waiting.remove(txn), ..v };
        let hs = holders_of(v, res);
        let held = held_mode(hs, txn);
        if held == Some(LockMode::Exclusive) || held == Some(mode) {
            (w0, Ok(LockOutcome::Granted))
        } else if conflicting(hs, mode, txn).len() == 0 {
            (
                LockView {
                    holders: v.holders.insert(res, hs.filter(not_txn(txn)).push((TxnId(txn), mode))),
                    held_by: v.held_by.insert(
                        txn,
                        with_resource(
                            if v.held_by.dom().contains(txn) {
                                v.held_by[txn]
                            } else {
                                Seq::empty()
                            },
                            res,
                        ),
                    ),
                    ..w0
                },
                Ok(LockOutcome::Granted),
            )
        } else if closes_cycle(w0, txn, conflicting(hs, mode, txn)) {
            (w0, Err(1))
        } else {
            (LockView { waiting: w0.waiting.insert(txn, (res, mode)), ..w0 }, Ok(LockOutcome::MustWait))
        }
    }
}

/// The holders table once `txn` has let go of every resource in `rs`:
/// its entries go, and a resource left with no holder leaves the table.
pub open spec fn release_holders(
    holders: Map<u64, Seq<(TxnId, LockMode)>>,
    rs: Seq<u64>,
    txn: u64,
) -> Map<u64, Seq<(TxnId, LockMode)>>
    decreases rs.len(),
{
    if rs.len() == 0 {
        holders
    } else {
        let h = release_holders(holders, rs.drop_last(), txn);
        let r = rs.last();
        if h.dom().contains(r) {
            let kept = h[r].filter(not_txn(txn));
            if kept.len() == 0 {
                h.remove(r)
            } else {
                h.insert(r, kept)
            }
        } else {
            h
        }
    }
}

/// The lock table after `txn` releases everything.
pub open spec fn after_release(v: LockView, txn: u64) -> LockView {
    LockView {
        holders: if v.held_by.dom().contains(txn) {
            release_holders(v.holders, v.held_by[txn], txn)
        } else {
            v.holders
        },
        held_by: v.held_by.remove(txn),
        waiting: v.waiting.remove(txn),
        finished: if v.finished.contains(txn) {
            v.finished
        } else {
            v.finished.push(txn)
        },
    }
}

pub struct LockManager {
    holders: KeyedVec<Vec<(TxnId, LockMode)>>,
    held_by: KeyedVec<Vec<u64>>,
    waiting_for: KeyedVec<(u64, LockMode)>,
    finished: Vec<u64>,
}

impl LockManager {
    pub closed spec fn view(&self) -> LockView {
        LockView {
            holders: self.holders.view().map_values(|h: Vec<(TxnId, LockMode)>| h@),
            held_by: self.held_by.view().map_values(|h: Vec<u64>| h@),
            waiting: self.waiting_for.view(),
            finished: self.finished@,
        }
    }

    pub closed spec fn inv(&self) -> bool {
        &&& self.holders.inv()
        &&& self.held_by.inv()
        &&& self.waiting_for.inv()
    }

    pub fn new() -> (m: Self)
        ensures
            m.inv(),
            m.view().holders == Map::<u64, Seq<(TxnId, LockMode)>>::empty(),
            m.view().held_by == Map::<u64, Seq<u64>>::empty(),
            m.view().waiting == Map::<u64, (u64, LockMode)>::empty(),
            m.view().finished == Seq::<u64>::empty(),
    {
        let m = LockManager {
            holders: KeyedVec::new(),
            held_by: KeyedVec::new(),
            waiting_for: KeyedVec::new(),
            finished: Vec::new(),
        };
        assert(m.view().holders =~= Map::<u64, Seq<(TxnId, LockMode)>>::empty());
        assert(m.view().held_by =~= Map::<u64, Seq<u64>>::empty());
        m
    }

    /// How many resources `txn_id` holds locks on.
    pub fn held_lock_count(&self, txn_id: TxnId) -> (n: usize)
        requires
            self.inv(),
        ensures
            n == (if self.view().held_by.dom().contains(txn_id.0) {
                self.view().held_by[txn_id.0].len()
            } else {
                0
            }),
    {
        match self.held_by.get(txn_id.0) {
            Some(h) => h.len(),
            None => 0,
        }
    }
}

/// One more wait extends a chain.
pub proof fn lemma_reach_step(v: LockView, from: Seq<u64>, u: u64, w: u64)
    requires
        reachable(v, from, u),
        waits_on(v, u, w),
    ensures
        reachable(v, from, w),
{
    let p = choose|p: Seq<u64>| #[trigger] is_wait_path(v, p) && from.contains(p[0]) && p.last() == u;
    let q = p.push(w);
    assert forall|i: int| 0 <= i < q.len() - 1 implies #[trigger] waits_on(v, q[i], q[i + 1]) by {
        if i < p.len() - 1 {
            assert(q[i] == p[i] && q[i + 1] == p[i + 1]);
            assert(waits_on(v, p[i], p[i + 1]));
        }
    }
    assert(is_wait_path(v, q) && from.contains(q[0]) && q.last() == w);
}

pub proof fn lemma_reach_start(v: LockView, from: Seq<u64>, b: u64)
    requires
        from.contains(b),
    ensures
        reachable(v, from, b),
{
    let p = seq![b];
    assert(is_wait_path(v, p) && from.contains(p[0]) && p.last() == b);
}

/// Every transaction reachable from `blockers` lies in a set that holds
/// them and is closed under waiting.
pub proof fn lemma_closed_reach(v: LockView, blockers: Seq<u64>, visited: Seq<u64>, x: u64)
    requires
        forall|b: u64| blockers.contains(b) ==> visited.contains(b),
        forall|u: u64, w: u64| visited.contains(u) && #[trigger] waits_on(v, u, w) ==> visited.contains(w),
        reachable(v, blockers, x),
    ensures
        visited.contains(x),
{
    let p = choose|p: Seq<u64>| #[trigger] is_wait_path(v, p) && blockers.contains(p[0]) && p.last() == x;
    lemma_path_stays(v, visited, p, p.len() - 1);
}

proof fn lemma_path_stays(v: LockView, visited: Seq<u64>, p: Seq<u64>, i: int)
    requires
        is_wait_path(v, p),
        0 <= i < p.len(),
        visited.contains(p[0]),
        forall|u: u64, w: u64| visited.contains(u) && #[trigger] waits_on(v, u, w) ==> visited.contains(w),
    ensures
        visited.contains(p[i]),
    decreases i,
{
    if i > 0 {
        lemma_path_stays(v, visited, p, i - 1);
        let j = i - 1;
        assert(waits_on(v, p[j], p[j + 1]));
    }
}

/// A conflicting holder has an entry.
pub proof fn lemma_conflicting_from(hs: Seq<(TxnId, LockMode)>, mode: LockMode, exclude: u64, w: u64)
    requires
        conflicting(hs, mode, exclude).contains(w),
    ensures
        exists|m: LockMode| hs.contains((TxnId(w), m)),
{
    let c = conflicting(hs, mode, exclude);
    let i = choose|i: int| 0 <= i < c.len() && c[i] == w;
    let f = hs.filter(blocks(mode, exclude));
    assert(f.contains(f[i]));
    hs.lemma_filter_contains_rev(blocks(mode, exclude), f[i]);
    assert(f[i].0.0 == w);
    assert(f[i] == (TxnId(w), f[i].1));
    assert(hs.contains((TxnId(w), f[i].1)));
}

/// The mode of `txn`'s first entry.
fn find_held_mode(hs: &Vec<(TxnId, LockMode)>, txn: u64) -> (r: Option<LockMode>)
    ensures
        r == held_mode(hs@, txn),
{
    let mut i: usize = 0;
    assert(hs@.subrange(0, hs@.len() as int) =~= hs@);
    while i < hs.len()
        invariant
            i <= hs@.len(),
            held_mode(hs@, txn) == held_mode(hs@.subrange(i as int, hs@.len() as int), txn),
        decreases hs@.len() - i,
    {
        let ghost rest = hs@.subrange(i as int, hs@.len() as int);
        assert(rest[0] == hs@[i as int]);
        if hs[i].0.0 == txn {
            return Some(hs[i].1);
        }
        assert(rest.subrange(1, rest.len() as int) =~= hs@.subrange(i + 1, hs@.len() as int));
        i = i + 1;
    }
    None
}

/// The holders, other than `exclude`, whose entry conflicts with `mode`.
fn conflicting_holders(hs: &Vec<(TxnId, LockMode)>, mode: LockMode, exclude: u64) -> (r: Vec<u64>)
    ensures
        r@ == conflicting(hs@, mode, exclude),
{
    let ghost p = blocks(mode, exclude);
    let mut out: Vec<u64> = Vec::new();
    let mut i: usize = 0;
    proof {
        reveal(Seq::filter);
        assert(out@ =~= hs@.take(0).filter(p).map_values(|e: (TxnId, LockMode)| e.0.0));
    }
    while i < hs.len()
        invariant
            i <= hs@.len(),
            p == blocks(mode, exclude),
            out@ == hs@.take(i as int).filter(p).map_values(|e: (TxnId, LockMode)| e.0.0),
        decreases hs@.len() - i,
    {
        let e = hs[i];
        proof {
            assert(hs@.take(i + 1) =~= hs@.take(i as int).push(e));
            hs@.take(i as int).lemma_filter_push(e, p);
        }
        if e.0.0 != exclude && e.1.conflicts_with(mode) {
            out.push(e.0.0);
            proof {
                assert(p(e));
                assert(out@ =~= hs@.take(i + 1).filter(p).map_values(|e: (TxnId, LockMode)| e.0.0));
            }
        } else {
            assert(!p(e));
        }
        i = i + 1;
    }
    assert(hs@.take(i as int) =~= hs@);
    out
}

/// `hs` without `txn`'s entries.
fn without_txn(hs: Vec<(TxnId, LockMode)>, txn: u64) -> (r: Vec<(TxnId, LockMode)>)
    ensures
        r@ == hs@.filter(not_txn(txn)),
{
    let ghost p = not_txn(txn);
    let mut out: Vec<(TxnId, LockMode)> = Vec::new();
    let mut i: usize = 0;
    proof {
        reveal(Seq::filter);
        assert(out@ =~= hs@.take(0).filter(p));
    }
    while i < hs.len()
        invariant
            i <= hs@.len(),
            p == not_txn(txn),
            out@ == hs@.take(i as int).filter(p),
        decreases hs@.len() - i,
    {
        let e = hs[i];
        proof {
            assert(hs@.take(i + 1) =~= hs@.take(i as int).push(e));
            hs@.take(i as int).lemma_filter_push(e, p);
        }
        if e.0.0 != txn {
            out.push(e);
        }
        i = i + 1;
    }
    assert(hs@.take(i as int) =~= hs@);
    out
}

fn contains_u64(v: &Vec<u64>, x: u64) -> (b: bool)
    ensures
        b == v@.contains(x),
{
    let mut i: usize = 0;
    while i < v.len()
        invariant
            i <= v@.len(),
            forall|j: int| 0 <= j < i ==> v@[j] != x,
        decreases v@.len() - i,
    {
        if v[i] == x {
            return true;
        }
        i = i + 1;
    }
    false
}

impl LockManager {
    /// Every transaction with an entry in the holders table, and the
    /// blockers.
    fn universe(&self, blockers: &Vec<u64>) -> (u: Vec<u64>)
        requires
            self.inv(),
        ensures
            forall|b: u64| blockers@.contains(b) ==> u@.contains(b),
            forall|k: u64, w: u64, m: LockMode| #![trigger self.view().holders[k].contains((TxnId(w), m))]
                self.view().holders.dom().contains(k) && self.view().holders[k].contains((TxnId(w), m)) ==> u@.contains(w),
    {
        let mut u: Vec<u64> = Vec::new();
        append_all(&mut u, blockers);
        assert(u@ =~= blockers@);
        let ks = self.holders.keys();
        let mut j: usize = 0;
        while j < ks.len()
            invariant
                self.inv(),
                j <= ks@.len(),
                forall|k: u64| self.holders.view().dom().contains(k) <==> ks@.contains(k),
                forall|b: u64| blockers@.contains(b) ==> u@.contains(b),
                forall|jj: int, w: u64, m: LockMode|
                    #![trigger self.holders.view()[ks@[jj]]@.contains((TxnId(w), m))]
                    0 <= jj < j && self.holders.view().dom().contains(ks@[jj]) && self.holders.view()[ks@[jj]]@.contains((TxnId(w), m)) ==> u@.contains(w),
            decreases ks@.len() - j,
        {
            let k = ks[j];
            assert(ks@.contains(k));
            match self.holders.get(k) {
                Some(hs) => {
                    let ghost before = u@;
                    append_ids(&mut u, hs);
                    proof {
                        assert forall|x: u64| before.contains(x) implies u@.contains(x) by {
                            let y = choose|y: int| 0 <= y < before.len() && before[y] == x;
                            assert(u@[y] == x);
                        }
                        assert forall|w: u64, m: LockMode| hs@.contains((TxnId(w), m)) implies u@.contains(w) by {
                            let tt = choose|tt: int| 0 <= tt < hs@.len() && hs@[tt] == (TxnId(w), m);
                            assert(u@[before.len() + tt] == w);
                        }
                    }
                },
                None => {},
            }
            j = j + 1;
        }
        proof {
            assert forall|k: u64, w: u64, m: LockMode| #![trigger self.view().holders[k].contains((TxnId(w), m))]
                self.view().holders.dom().contains(k) && self.view().holders[k].contains((TxnId(w), m)) implies u@.contains(w) by {
                assert(ks@.contains(k));
                let jj = choose|jj: int| 0 <= jj < ks@.len() && ks@[jj] == k;
                assert(self.holders.view()[ks@[jj]]@.contains((TxnId(w), m)));
            }
        }
        u
    }
}

fn append_all(u: &mut Vec<u64>, src: &Vec<u64>)
    ensures
        final(u)@ == old(u)@ + src@,
{
    let mut i: usize = 0;
    while i < src.len()
        invariant
            i <= src@.len(),
            u@ == old(u)@ + src@.take(i as int),
        decreases src@.len() - i,
    {
        u.push(src[i]);
        i = i + 1;
        assert(u@ =~= old(u)@ + src@.take(i as int));
    }
    assert(src@.take(i as int) =~= src@);
}

fn append_ids(u: &mut Vec<u64>, hs: &Vec<(TxnId, LockMode)>)
    ensures
        final(u)@.len() == old(u)@.len() + hs@.len(),
        forall|y: int| 0 <= y < old(u)@.len() ==> final(u)@[y] == old(u)@[y],
        forall|t: int| 0 <= t < hs@.len() ==> final(u)@[old(u)@.len() + t] == hs@[t].0.0,
{
    let mut i: usize = 0;
    while i < hs.len()
        invariant
            i <= hs@.len(),
            u@.len() == old(u)@.len() + i,
            forall|y: int| 0 <= y < old(u)@.len() ==> u@[y] == old(u)@[y],
            forall|t: int| 0 <= t < i ==> u@[old(u)@.len() + t] == hs@[t].0.0,
        decreases hs@.len() - i,
    {
        u.push(hs[i].0.0);
        i = i + 1;
    }
}

impl LockManager {
    /// The blockers of what `t` waits for, if it waits.
    fn successors(&self, t: u64) -> (r: Vec<u64>)
        requires
            self.inv(),
        ensures
            forall|w: u64| r@.contains(w) <==> waits_on(self.view(), t, w),
            forall|w: u64| r@.contains(w) ==> exists|k: u64, m: LockMode|
                self.view().holders.dom().contains(k) && #[trigger] self.view().holders[k].contains((TxnId(w), m)),
    {
        match self.waiting_for.get(t) {
            Some(entry) => {
                let (res, mode) = *entry;
                match self.holders.get(res) {
                    Some(hs) => {
                        let r = conflicting_holders(hs, mode, t);
                        proof {
                            assert forall|w: u64| r@.contains(w) implies exists|k: u64, m: LockMode|
                                self.view().holders.dom().contains(k) && #[trigger] self.view().holders[k].contains((TxnId(w), m)) by {
                                let i = choose|i: int| 0 <= i < r@.len() && r@[i] == w;
                                let f = hs@.filter(blocks(mode, t));
                                assert(f.contains(f[i]));
                                hs@.lemma_filter_contains_rev(blocks(mode, t), f[i]);
                                assert(f[i].0.0 == w);
                                assert(self.view().holders[res].contains((TxnId(w), f[i].1)));
                            }
                        }
                        r
                    },
                    None => {
                        proof {
                            assert(holders_of(self.view(), res) =~= Seq::<(TxnId, LockMode)>::empty());
                            reveal(Seq::filter);
                            assert(conflicting(holders_of(self.view(), res), mode, t) =~= Seq::<u64>::empty());
                        }
                        Vec::new()
                    },
                }
            },
            None => Vec::new(),
        }
    }

    /// Whether waiting for `blockers` would close a cycle through
    /// `start`: whether `start` is among them or waits-for edges lead from
    /// them to it.
    fn would_deadlock(&self, start: u64, blockers: &Vec<u64>) -> (b: bool)
        requires
            self.inv(),
            forall|w: u64| blockers@.contains(w) ==> exists|k: u64, m: LockMode|
                self.view().holders.dom().contains(k) && #[trigger] self.view().holders[k].contains((TxnId(w), m)),
        ensures
            b == closes_cycle(self.view(), start, blockers@),
    {
        let ghost v = self.view();
        let ghost bs = blockers@;
        let univ = self.universe(blockers);
        let ghost uset = univ@.to_set();
        let mut stack: Vec<u64> = Vec::new();
        append_all(&mut stack, blockers);
        let mut visited: Vec<u64> = Vec::new();
        proof {
            assert(stack@ =~= bs);
            univ@.lemma_cardinality_of_set();
            assert forall|i: int| 0 <= i < stack@.len() implies reachable(v, bs, #[trigger] stack@[i]) by {
                assert(bs.contains(stack@[i]));
                lemma_reach_start(v, bs, stack@[i]);
            }
        }
        loop
            invariant
                self.inv(),
                v == self.view(),
                bs == blockers@,
                uset == univ@.to_set(),
                uset.finite(),
                forall|x: u64| stack@.contains(x) ==> uset.contains(x),
                forall|x: u64| visited@.contains(x) ==> uset.contains(x),
                visited@.no_duplicates(),
                visited@.len() <= uset.len(),
                !visited@.contains(start),
                forall|i: int| 0 <= i < stack@.len() ==> reachable(v, bs, #[trigger] stack@[i]),
                forall|b: u64| bs.contains(b) ==> visited@.contains(b) || stack@.contains(b),
                forall|u: u64, w: u64| visited@.contains(u) && #[trigger] waits_on(v, u, w) ==> visited@.contains(w) || stack@.contains(w),
                forall|k: u64, w: u64, m: LockMode| #![trigger v.holders[k].contains((TxnId(w), m))]
                    v.holders.dom().contains(k) && v.holders[k].contains((TxnId(w), m)) ==> univ@.contains(w),
            decreases uset.len() - visited@.len(), stack@.len(),
        {
            let ghost old_stack = stack@;
            let t = match stack.pop() {
                Some(t) => t,
                None => {
                    proof {
                        assert(!reachable(v, bs, start)) by {
                            if reachable(v, bs, start) {
                                assert forall|b: u64| bs.contains(b) implies visited@.contains(b) by {
                                    assert(!stack@.contains(b));
                                }
                                assert forall|u: u64, w: u64| visited@.contains(u) && #[trigger] waits_on(v, u, w) implies visited@.contains(w) by {
                                    assert(!stack@.contains(w));
                                }
                                lemma_closed_reach(v, bs, visited@, start);
                            }
                        }
                    }
                    return false;
                },
            };
            proof {
                assert(old_stack =~= stack@.push(t));
                assert(old_stack[old_stack.len() - 1] == t);
                assert forall|x: u64| old_stack.contains(x) implies stack@.contains(x) || x == t by {
                    let i = choose|i: int| 0 <= i < old_stack.len() && old_stack[i] == x;
                    if i < stack@.len() {
                        assert(stack@[i] == x);
                    }
                }
                assert forall|i: int| 0 <= i < stack@.len() implies reachable(v, bs, #[trigger] stack@[i]) by {
                    assert(stack@[i] == old_stack[i]);
                }
                assert(old_stack.contains(t));
            }
            if t == start {
                return true;
            }
            if contains_u64(&visited, t) {
                continue;
            }
            let ghost old_visited = visited@;
            proof {
                assert(uset.contains(t));
                assert(old_visited.to_set().subset_of(uset));
                old_visited.unique_seq_to_set();
                vstd::set_lib::lemma_len_subset(old_visited.to_set().insert(t), uset);
                assert(!old_visited.to_set().contains(t));
            }
            visited.push(t);
            let succ = self.successors(t);
            let ghost before_push = stack@;
            append_all(&mut stack, &succ);
            proof {
                assert(reachable(v, bs, t)) by {
                    assert(reachable(v, bs, old_stack[old_stack.len() - 1]));
                }
                assert(visited@ =~= old_visited.push(t));
                old_visited.lemma_push_to_set_commute(t);
                assert(visited@.to_set() =~= old_visited.to_set().insert(t));
                assert(visited@.no_duplicates()) by {
                    assert forall|i: int, j: int| 0 <= i < visited@.len() && 0 <= j < visited@.len() && i != j implies visited@[i] != visited@[j] by {
                        if i < old_visited.len() && j < old_visited.len() {
                        } else if i == old_visited.len() {
                            assert(old_visited.contains(visited@[j]));
                        } else {
                            assert(old_visited.contains(visited@[i]));
                        }
                    }
                }
                visited@.unique_seq_to_set();
                assert forall|x: u64| stack@.contains(x) implies uset.contains(x) by {
                    let i = choose|i: int| 0 <= i < stack@.len() && stack@[i] == x;
                    if i < before_push.len() {
                        assert(before_push[i] == x);
                        assert(before_push.contains(x));
                    } else {
                        assert(succ@[i - before_push.len()] == x);
                        assert(succ@.contains(x));
                    }
                }
                assert forall|x: u64| visited@.contains(x) implies uset.contains(x) by {
                    let i = choose|i: int| 0 <= i < visited@.len() && visited@[i] == x;
                    if i < old_visited.len() {
                        assert(old_visited[i] == x);
                        assert(old_visited.contains(x));
                    }
                }
                assert forall|i: int| 0 <= i < stack@.len() implies reachable(v, bs, #[trigger] stack@[i]) by {
                    if i < before_push.len() {
                        assert(stack@[i] == before_push[i]);
                    } else {
                        let w = stack@[i];
                        assert(succ@[i - before_push.len()] == w);
                        assert(succ@.contains(w));
                        assert(waits_on(v, t, w));
                        lemma_reach_step(v, bs, t, w);
                    }
                }
                assert forall|x: u64| before_push.contains(x) implies stack@.contains(x) by {
                    let i = choose|i: int| 0 <= i < before_push.len() && before_push[i] == x;
                    assert(stack@[i] == x);
                }
                assert forall|x: u64| succ@.contains(x) implies stack@.contains(x) by {
                    let i = choose|i: int| 0 <= i < succ@.len() && succ@[i] == x;
                    assert(stack@[before_push.len() + i] == x);
                }
                assert forall|x: u64| old_visited.contains(x) implies visited@.contains(x) by {
                    let i = choose|i: int| 0 <= i < old_visited.len() && old_visited[i] == x;
                    assert(visited@[i] == x);
                }
                assert(visited@.contains(t)) by {
                    assert(visited@[old_visited.len() as int] == t);
                }
            }
        }
    }
}

impl LockManager {
    /// Answers `txn_id`'s request for `resource` in `mode`: granted at once
    /// when it already holds the lock in that mode or exclusively, or no
    /// other holder conflicts; failed when `txn_id` already released
    /// everything, or when waiting would close a cycle of waits; otherwise
    /// to wait.
    pub fn acquire(&mut self, txn_id: TxnId, resource: Resource, mode: LockMode) -> (r: Result<
        LockOutcome,
        TxnError,
    >)
        requires
            old(self).inv(),
        ensures
            final(self).inv(),
            ({
                let (v, o) = after_request(old(self).view(), txn_id.0, resource_key(resource), mode);
                &&& final(self).view() == v
                &&& match o {
                    Ok(out) => r matches Ok(got) && got == out,
                    Err(code) => if code == 0 {
                        r matches Err(TxnError::LockAfterUnlock(t)) && t == txn_id.0
                    } else {
                        r matches Err(TxnError::DeadlockVictim(t)) && t == txn_id.0
                    },
                }
            }),
            !old(self).view().finished.contains(txn_id.0) && held_mode(
                holders_of(old(self).view(), resource_key(resource)),
                txn_id.0,
            ) == Some(LockMode::Exclusive) ==> r == Ok::<LockOutcome, TxnError>(LockOutcome::Granted)
                && final(self).view().holders == old(self).view().holders,
            forall|res: u64, h: u64|
                #![trigger held_mode(holders_of(final(self).view(), res), h)]
                held_mode(holders_of(old(self).view(), res), h) == Some(LockMode::Exclusive) ==> held_mode(
                    holders_of(final(self).view(), res),
                    h,
                ) == Some(LockMode::Exclusive),
            !old(self).view().finished.contains(txn_id.0) && held_mode(
                holders_of(old(self).view(), resource_key(resource)),
                txn_id.0,
            ) == Some(mode) ==> r == Ok::<LockOutcome, TxnError>(LockOutcome::Granted) && final(self).view().holders
                == old(self).view().holders,
            r == Ok::<LockOutcome, TxnError>(LockOutcome::Granted) ==> (held_mode(
                holders_of(final(self).view(), resource_key(resource)),
                txn_id.0,
            ) == Some(mode) || held_mode(holders_of(final(self).view(), resource_key(resource)), txn_id.0) == Some(
                LockMode::Exclusive,
            )),
    {
        let ghost v0 = self.view();
        proof {
            if after_request(v0, txn_id.0, resource_key(resource), mode).1 == Ok::<LockOutcome, u64>(LockOutcome::Granted) {
                lemma_granted_holds(v0, txn_id.0, resource_key(resource), mode);
            }
            if !v0.finished.contains(txn_id.0) && held_mode(holders_of(v0, resource_key(resource)), txn_id.0)
                == Some(mode) {
                lemma_repeat_request_granted(v0, txn_id.0, resource_key(resource), mode);
            }
            lemma_exclusive_locks_kept(v0, txn_id.0, resource_key(resource), mode);
            if !v0.finished.contains(txn_id.0) && held_mode(holders_of(v0, resource_key(resource)), txn_id.0)
                == Some(LockMode::Exclusive) {
                lemma_exclusive_holder_granted(v0, txn_id.0, resource_key(resource), mode);
            }
        }
        let txn = txn_id.0;
        let res = key_of_resource(resource);
        if contains_u64(&self.finished, txn) {
            return Err(TxnError::LockAfterUnlock(txn));
        }
        self.waiting_for.remove(txn);
        let ghost w0 = LockView { waiting: v0.waiting.remove(txn), ..v0 };
        assert(self.view().holders == v0.holders);
        assert(self.view().waiting =~= w0.waiting);
        let held = match self.holders.get(res) {
            Some(hs) => find_held_mode(hs, txn),
            None => {
                assert(holders_of(v0, res) =~= Seq::<(TxnId, LockMode)>::empty());
                None
            },
        };
        assert(held == held_mode(holders_of(v0, res), txn));
        let granted = match held {
            Some(LockMode::Exclusive) => true,
            Some(LockMode::Shared) => matches!(mode, LockMode::Shared),
            None => false,
        };
        if granted {
            assert(self.view() == w0);
            return Ok(LockOutcome::Granted);
        }
        let blockers = match self.holders.get(res) {
            Some(hs) => conflicting_holders(hs, mode, txn),
            None => {
                proof {
                    reveal(Seq::filter);
                    assert(conflicting(holders_of(v0, res), mode, txn) =~= Seq::<u64>::empty());
                }
                Vec::new()
            },
        };
        assert(blockers@ == conflicting(holders_of(v0, res), mode, txn));
        if blockers.len() == 0 {
            let hs = match self.holders.remove(res) {
                Some(h) => h,
                None => Vec::new(),
            };
            let mut kept = without_txn(hs, txn);
            kept.push((txn_id, mode));
            self.holders.insert(res, kept);
            let mut mine = match self.held_by.remove(txn) {
                Some(h) => h,
                None => Vec::new(),
            };
            if !contains_u64(&mine, res) {
                mine.push(res);
            }
            self.held_by.insert(txn, mine);
            proof {
                let (v, o) = after_request(v0, txn, res, mode);
                assert(self.view().holders =~= v.holders);
                assert(self.view().held_by =~= v.held_by);
                assert(self.view().waiting =~= v.waiting);
            }
            return Ok(LockOutcome::Granted);
        }
        proof {
            assert forall|w: u64| blockers@.contains(w) implies exists|k: u64, m: LockMode|
                self.view().holders.dom().contains(k) && #[trigger] self.view().holders[k].contains((TxnId(w), m)) by {
                lemma_conflicting_from(holders_of(v0, res), mode, txn, w);
                let m = choose|m: LockMode| holders_of(v0, res).contains((TxnId(w), m));
                assert(self.view().holders.dom().contains(res));
                assert(self.view().holders[res].contains((TxnId(w), m)));
            }
        }
        if self.would_deadlock(txn, &blockers) {
            assert(self.view() == w0);
            return Err(TxnError::DeadlockVictim(txn));
        }
        self.waiting_for.insert(txn, (res, mode));
        proof {
            let (v, o) = after_request(v0, txn, res, mode);
            assert(self.view().waiting =~= v.waiting);
        }
        Ok(LockOutcome::MustWait)
    }

    /// Asks for a lock on row `rid`.
    pub fn lock(&mut self, txn_id: TxnId, rid: Rid, mode: LockMode) -> (r: Result<LockOutcome, TxnError>)
        requires
            old(self).inv(),
        ensures
            final(self).inv(),
            ({
                let (v, o) = after_request(old(self).view(), txn_id.0, resource_key(Resource::Row(rid)), mode);
                &&& final(self).view() == v
                &&& match o {
                    Ok(out) => r matches Ok(got) && got == out,
                    Err(code) => if code == 0 {
                        r matches Err(TxnError::LockAfterUnlock(t)) && t == txn_id.0
                    } else {
                        r matches Err(TxnError::DeadlockVictim(t)) && t == txn_id.0
                    },
                }
            }),
    {
        self.acquire(txn_id, Resource::Row(rid), mode)
    }

    /// Asks for a lock on table `table_id`.
    pub fn lock_table(&mut self, txn_id: TxnId, table_id: TableId, mode: LockMode) -> (r: Result<LockOutcome, TxnError>)
        requires
            old(self).inv(),
        ensures
            final(self).inv(),
            ({
                let (v, o) = after_request(old(self).view(), txn_id.0, resource_key(Resource::Table(table_id)), mode);
                &&& final(self).view() == v
                &&& match o {
                    Ok(out) => r matches Ok(got) && got == out,
                    Err(code) => if code == 0 {
                        r matches Err(TxnError::LockAfterUnlock(t)) && t == txn_id.0
                    } else {
                        r matches Err(TxnError::DeadlockVictim(t)) && t == txn_id.0
                    },
                }
            }),
    {
        self.acquire(txn_id, Resource::Table(table_id), mode)
    }

    /// Releases every lock `txn_id` holds, drops its wait, and marks it as
    /// done taking locks.
    pub fn release_all(&mut self, txn_id: TxnId)
        requires
            old(self).inv(),
        ensures
            final(self).inv(),
            final(self).view() == after_release(old(self).view(), txn_id.0),
    {
        let ghost v0 = self.view();
        let txn = txn_id.0;
        match self.held_by.remove(txn) {
            Some(resources) => {
                let mut i: usize = 0;
                assert(resources@.take(0) =~= Seq::<u64>::empty());
                while i < resources.len()
                    invariant
                        self.inv(),
                        i <= resources@.len(),
                        v0.held_by.dom().contains(txn),
                        resources@ == v0.held_by[txn],
                        self.view().holders == release_holders(v0.holders, resources@.take(i as int), txn),
                        self.view().held_by == v0.held_by.remove(txn),
                        self.view().waiting == v0.waiting,
                        self.view().finished == v0.finished,
                    decreases resources@.len() - i,
                {
                    let r = resources[i];
                    let ghost before = self.view().holders;
                    match self.holders.remove(r) {
                        Some(hs) => {
                            let kept = without_txn(hs, txn);
                            if kept.len() > 0 {
                                self.holders.insert(r, kept);
                            }
                        },
                        None => {},
                    }
                    proof {
                        assert(resources@.take(i + 1).drop_last() =~= resources@.take(i as int));
                        assert(self.view().holders =~= release_holders(v0.holders, resources@.take(i + 1), txn));
                    }
                    i = i + 1;
                }
                assert(resources@.take(i as int) =~= resources@);
            },
            None => {
                assert(self.view().held_by =~= v0.held_by.remove(txn));
            },
        }
        self.waiting_for.remove(txn);
        if !contains_u64(&self.finished, txn) {
            self.finished.push(txn);
        }
        proof {
            let v = after_release(v0, txn);
            assert(self.view().holders =~= v.holders);
            assert(self.view().held_by =~= v.held_by);
            assert(self.view().waiting =~= v.waiting);
            assert(self.view().finished =~= v.finished);
        }
    }
}

/// The mode `held_mode` reports is that of an entry of `txn` among `hs`.
proof fn lemma_held_mode_entry(hs: Seq<(TxnId, LockMode)>, txn: u64)
    requires
        held_mode(hs, txn) is Some,
    ensures
        exists|i: int| 0 <= i < hs.len() && hs[i].0.0 == txn && #[trigger] hs[i].1 == held_mode(hs, txn)->0,
    decreases hs.len(),
{
    if hs[0].0.0 != txn {
        let t = hs.subrange(1, hs.len() as int);
        lemma_held_mode_entry(t, txn);
        let i = choose|i: int| 0 <= i < t.len() && t[i].0.0 == txn && #[trigger] t[i].1 == held_mode(t, txn)->0;
        assert(hs[i + 1] == t[i]);
    }
}

/// `held_mode` finds nothing for a transaction with no entry.
proof fn lemma_held_mode_absent(hs: Seq<(TxnId, LockMode)>, txn: u64)
    requires
        forall|i: int| 0 <= i < hs.len() ==> (#[trigger] hs[i]).0.0 != txn,
    ensures
        held_mode(hs, txn) is None,
    decreases hs.len(),
{
    if hs.len() > 0 {
        let t = hs.subrange(1, hs.len() as int);
        assert forall|i: int| 0 <= i < t.len() implies (#[trigger] t[i]).0.0 != txn by {
            assert(t[i] == hs[i + 1]);
        }
        lemma_held_mode_absent(t, txn);
    }
}

/// An entry added behind entries of other transactions is the one
/// `held_mode` finds.
proof fn lemma_held_mode_push(hs: Seq<(TxnId, LockMode)>, txn: u64, mode: LockMode)
    requires
        forall|i: int| 0 <= i < hs.len() ==> (#[trigger] hs[i]).0.0 != txn,
    ensures
        held_mode(hs.push((TxnId(txn), mode)), txn) == Some(mode),
    decreases hs.len(),
{
    let h2 = hs.push((TxnId(txn), mode));
    if hs.len() > 0 {
        let t = hs.subrange(1, hs.len() as int);
        assert forall|i: int| 0 <= i < t.len() implies (#[trigger] t[i]).0.0 != txn by {
            assert(t[i] == hs[i + 1]);
        }
        lemma_held_mode_push(t, txn, mode);
        assert(h2.subrange(1, h2.len() as int) =~= t.push((TxnId(txn), mode)));
        assert(h2[0] == hs[0]);
    }
}

/// A granted request leaves the requester holding the resource in the
/// mode it asked for, or exclusively.
pub proof fn lemma_granted_holds(v: LockView, txn: u64, res: u64, mode: LockMode)
    requires
        after_request(v, txn, res, mode).1 == Ok::<LockOutcome, u64>(LockOutcome::Granted),
    ensures
        held_mode(holders_of(after_request(v, txn, res, mode).0, res), txn) == Some(mode) || held_mode(
            holders_of(after_request(v, txn, res, mode).0, res),
            txn,
        ) == Some(LockMode::Exclusive),
{
    let hs = holders_of(v, res);
    let held = held_mode(hs, txn);
    if !(held == Some(LockMode::Exclusive) || held == Some(mode)) {
        let kept = hs.filter(not_txn(txn));
        assert forall|i: int| 0 <= i < kept.len() implies (#[trigger] kept[i]).0.0 != txn by {
            hs.lemma_filter_pred(not_txn(txn), i);
            assert(not_txn(txn)(kept[i]));
        }
        lemma_held_mode_push(kept, txn, mode);
    }
}

/// Asking again for a lock already held in that mode is granted and
/// changes no holder.
pub proof fn lemma_repeat_request_granted(v: LockView, txn: u64, res: u64, mode: LockMode)
    requires
        !v.finished.contains(txn),
        held_mode(holders_of(v, res), txn) == Some(mode),
    ensures
        after_request(v, txn, res, mode).1 == Ok::<LockOutcome, u64>(LockOutcome::Granted),
        after_request(v, txn, res, mode).0.holders == v.holders,
{
}

/// An exclusive holder keeps its lock: any request by the holder for the
/// resource it holds exclusively is granted and leaves every holder as it
/// was (a shared request does not downgrade it), unless the holder has
/// released everything.
pub proof fn lemma_exclusive_holder_granted(v: LockView, txn: u64, res: u64, mode: LockMode)
    requires
        !v.finished.contains(txn),
        held_mode(holders_of(v, res), txn) == Some(LockMode::Exclusive),
    ensures
        after_request(v, txn, res, mode).1 == Ok::<LockOutcome, u64>(LockOutcome::Granted),
        after_request(v, txn, res, mode).0.holders == v.holders,
{
}

/// No request, by anyone for anything, takes away an exclusive lock: a
/// transaction that holds a resource exclusively before a request still
/// holds it exclusively after it.
pub proof fn lemma_exclusive_kept(v: LockView, holder: u64, res: u64, txn: u64, r2: u64, mode: LockMode)
    requires
        held_mode(holders_of(v, res), holder) == Some(LockMode::Exclusive),
    ensures
        held_mode(holders_of(after_request(v, txn, r2, mode).0, res), holder) == Some(LockMode::Exclusive),
{
    let hs = holders_of(v, r2);
    if !v.finished.contains(txn) && r2 == res && txn != holder {
        lemma_held_mode_entry(hs, holder);
        let i = choose|i: int| 0 <= i < hs.len() && hs[i].0.0 == holder && #[trigger] hs[i].1 == held_mode(hs, holder)->0;
        let p = blocks(mode, txn);
        assert(p(hs[i]));
        hs.lemma_filter_contains(p, i);
        assert(hs.filter(p).len() > 0);
        assert(conflicting(hs, mode, txn).len() > 0);
    }
}

/// Every exclusive lock held before a request is held after it.
pub proof fn lemma_exclusive_locks_kept(v: LockView, txn: u64, r2: u64, mode: LockMode)
    ensures
        forall|res: u64, h: u64|
            #![trigger held_mode(holders_of(after_request(v, txn, r2, mode).0, res), h)]
            held_mode(holders_of(v, res), h) == Some(LockMode::Exclusive) ==> held_mode(
                holders_of(after_request(v, txn, r2, mode).0, res),
                h,
            ) == Some(LockMode::Exclusive),
{
    assert forall|res: u64, h: u64|
        #![trigger held_mode(holders_of(after_request(v, txn, r2, mode).0, res), h)]
        held_mode(holders_of(v, res), h) == Some(LockMode::Exclusive) implies held_mode(
            holders_of(after_request(v, txn, r2, mode).0, res),
            h,
        ) == Some(LockMode::Exclusive) by {
        lemma_exclusive_kept(v, h, res, txn, r2, mode);
    }
}

/// Shared locks coexist: while every holder of a resource holds it
/// shared, a shared request for it by a transaction that has not released
/// everything is granted at once.
pub proof fn lemma_shared_locks_coexist(v: LockView, txn: u64, res: u64)
    requires
        !v.finished.contains(txn),
        forall|i: int| 0 <= i < holders_of(v, res).len() ==> (#[trigger] holders_of(v, res)[i]).1 == LockMode::Shared,
    ensures
        after_request(v, txn, res, LockMode::Shared).1 == Ok::<LockOutcome, u64>(LockOutcome::Granted),
{
    let hs = holders_of(v, res);
    let p = blocks(LockMode::Shared, txn);
    assert forall|i: int| 0 <= i < hs.len() implies (|x: (TxnId, LockMode)| !p(x))(#[trigger] hs[i]) by {
        assert(hs[i].1 == LockMode::Shared);
    }
    hs.lemma_all_neg_filter_empty(p);
}

/// An exclusive lock excludes: while another transaction holds a resource
/// in any mode, an exclusive request by a transaction that holds no lock
/// on it is not granted.
pub proof fn lemma_exclusive_excludes(v: LockView, txn: u64, res: u64, i: int)
    requires
        0 <= i < holders_of(v, res).len(),
        holders_of(v, res)[i].0.0 != txn,
        held_mode(holders_of(v, res), txn) is None,
    ensures
        after_request(v, txn, res, LockMode::Exclusive).1 != Ok::<LockOutcome, u64>(LockOutcome::Granted),
{
    let hs = holders_of(v, res);
    let p = blocks(LockMode::Exclusive, txn);
    if !v.finished.contains(txn) {
        assert(p(hs[i]));
        hs.lemma_filter_contains(p, i);
        assert(hs.filter(p).len() > 0);
    }
}

/// A transaction that has released everything is refused any further
/// lock.
pub proof fn lemma_no_lock_after_release(v: LockView, txn: u64, res: u64, mode: LockMode)
    ensures
        after_request(after_release(v, txn), txn, res, mode).1 == Err::<LockOutcome, u64>(0),
{
    let w = after_release(v, txn);
    if !v.finished.contains(txn) {
        assert(w.finished[w.finished.len() - 1] == txn);
    }
    assert(w.finished.contains(txn));
}

} // verus!
