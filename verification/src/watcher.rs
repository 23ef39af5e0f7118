//! The watcher's decisions: its health after setting up watches, and the
//! batching of file-system events into index updates. Receiving events and
//! applying the updates is left to the caller.
use vstd::prelude::*;
use crate::mounts::string_views;
use crate::path::{same_path, paths_equal};

verus! {

#[derive(Debug, Clone, Copy, PartialEq, Eq, Structural)]
pub enum WatcherHealth {
    Healthy,
    /// Some recursive watches could not be set up (e.g. the inotify limit was
    /// hit); the number of roots watched recursively.
    PartiallyDegraded(usize),
    Failed,
}

/// The health after setting up watches: degraded when some recursive watch
/// failed, failed when roots were given and none could be watched, healthy
/// otherwise.
pub open spec fn health_of(hit_limit: bool, watched_count: usize, roots_empty: bool) -> WatcherHealth {
    if hit_limit {
        WatcherHealth::PartiallyDegraded(watched_count)
    } else if watched_count == 0 && !roots_empty {
        WatcherHealth::Failed
    } else {
        WatcherHealth::Healthy
    }
}

impl WatcherHealth {
    pub fn assess(hit_limit: bool, watched_count: usize, roots_empty: bool) -> (res: WatcherHealth)
        ensures
            res == health_of(hit_limit, watched_count, roots_empty),
    {
        if hit_limit {
            WatcherHealth::PartiallyDegraded(watched_count)
        } else if watched_count == 0 && !roots_empty {
            WatcherHealth::Failed
        } else {
            WatcherHealth::Healthy
        }
    }
}

/// A buffer is handed on once it holds this many paths.
pub const FLUSH_THRESHOLD: usize = 500;

#[derive(Debug, Clone, Copy, PartialEq, Eq, Structural)]
pub enum WatchEventKind {
    Create,
    Modify,
    Remove,
    Other,
}

/// What the watcher thread observes next.
pub enum WatchSignal {
    /// A file-system event on some paths.
    Event(WatchEventKind, Vec<String>),
    /// The watcher reported an error.
    Error,
    /// Nothing arrived for a while.
    Timeout,
    /// The event channel was closed.
    Disconnected,
    /// The watcher was asked to stop.
    Stop,
}

pub enum SignalView {
    Event(WatchEventKind, Seq<Seq<char>>),
    Error,
    Timeout,
    Disconnected,
    Stop,
}

impl View for WatchSignal {
    type V = SignalView;

    open spec fn view(&self) -> SignalView {
        match self {
            WatchSignal::Event(k, ps) => SignalView::Event(*k, string_views(ps@)),
            WatchSignal::Error => SignalView::Error,
            WatchSignal::Timeout => SignalView::Timeout,
            WatchSignal::Disconnected => SignalView::Disconnected,
            WatchSignal::Stop => SignalView::Stop,
        }
    }
}

/// An index update to perform.
pub enum WatchAction {
    /// Upsert these paths (`Database::batch_upsert`).
    Upsert(Vec<String>),
    /// Remove these paths (`Database::batch_remove`).
    Remove(Vec<String>),
}

pub enum ActionView {
    Upsert(Seq<Seq<char>>),
    Remove(Seq<Seq<char>>),
}

impl View for WatchAction {
    type V = ActionView;

    open spec fn view(&self) -> ActionView {
        match self {
            WatchAction::Upsert(ps) => ActionView::Upsert(string_views(ps@)),
            WatchAction::Remove(ps) => ActionView::Remove(string_views(ps@)),
        }
    }
}

pub open spec fn action_views(v: Seq<WatchAction>) -> Seq<ActionView> {
    v.map_values(|a: WatchAction| a@)
}

/// The pending paths: to upsert, and to remove.
pub struct BatcherView {
    pub upserts: Seq<Seq<char>>,
    pub removes: Seq<Seq<char>>,
}

/// The outcome of one signal: the pending paths after it, the updates to
/// perform, and whether to keep watching.
pub struct StepView {
    pub state: BatcherView,
    pub actions: Seq<ActionView>,
    pub keep_running: bool,
}

/// Hands on the pending paths whose buffer holds at least `min` paths
/// (upserts first), emptying those buffers.
pub open spec fn flush_when(s: BatcherView, min: int) -> (BatcherView, Seq<ActionView>) {
    let (u, a1) = if s.upserts.len() >= min {
        (seq![], seq![ActionView::Upsert(s.upserts)])
    } else {
        (s.upserts, seq![])
    };
    let (r, a2) = if s.removes.len() >= min {
        (seq![], seq![ActionView::Remove(s.removes)])
    } else {
        (s.removes, seq![])
    };
    (BatcherView { upserts: u, removes: r }, a1 + a2)
}

/// Some path of `buf` is the path `p`.
pub open spec fn listed(buf: Seq<Seq<char>>, p: Seq<char>) -> bool {
    exists|k: int| 0 <= k < buf.len() && same_path(#[trigger] buf[k], p)
}

/// The paths of `buf` that are none of the paths `ps`, in order.
pub open spec fn without_listed(buf: Seq<Seq<char>>, ps: Seq<Seq<char>>) -> Seq<Seq<char>>
    decreases buf.len(),
{
    if buf.len() == 0 {
        seq![]
    } else {
        let prev = without_listed(buf.drop_last(), ps);
        if listed(ps, buf.last()) {
            prev
        } else {
            prev.push(buf.last())
        }
    }
}

/// The pending paths once a signal is taken in, before anything is handed
/// on: the paths of a create or modify event join the upserts and leave the
/// removals; those of a remove event join the removals and leave the upserts.
pub open spec fn buffered(s: BatcherView, sig: SignalView) -> BatcherView {
    match sig {
        SignalView::Event(WatchEventKind::Create, ps) => BatcherView {
            upserts: s.upserts + ps,
            removes: without_listed(s.removes, ps),
        },
        SignalView::Event(WatchEventKind::Modify, ps) => BatcherView {
            upserts: s.upserts + ps,
            removes: without_listed(s.removes, ps),
        },
        SignalView::Event(WatchEventKind::Remove, ps) => BatcherView {
            upserts: without_listed(s.upserts, ps),
            removes: s.removes + ps,
        },
        _ => s,
    }
}

/// One step of the watcher: the paths of an event are buffered by kind (a
/// later event for a path takes it out of the other buffer) and a buffer is
/// handed on once full; after a quiet spell every non-empty buffer is handed
/// on; when the channel closes or the watcher stops, the non-empty buffers
/// are handed on and watching ends.
pub open spec fn watch_step(s: BatcherView, sig: SignalView) -> StepView {
    match sig {
        SignalView::Event(_, _) => {
            let (n, a) = flush_when(buffered(s, sig), FLUSH_THRESHOLD as int);
            StepView { state: n, actions: a, keep_running: true }
        },
        SignalView::Error => StepView { state: s, actions: seq![], keep_running: true },
        SignalView::Timeout => {
            let (n, a) = flush_when(s, 1);
            StepView { state: n, actions: a, keep_running: true }
        },
        SignalView::Disconnected | SignalView::Stop => {
            let (n, a) = flush_when(s, 1);
            StepView { state: n, actions: a, keep_running: false }
        },
    }
}

/// Buffers file-system events into batched index updates.
pub struct WatchBatcher {
    upserts: Vec<String>,
    removes: Vec<String>,
}

/// The result of one [`WatchBatcher::step`].
pub struct WatchStep {
    pub actions: Vec<WatchAction>,
    pub keep_running: bool,
}

fn append_strings(dst: &mut Vec<String>, src: Vec<String>)
    ensures
        string_views(final(dst)@) == string_views(old(dst)@) + string_views(src@),
{
    let mut src = src;
    let mut taken: Vec<String> = Vec::new();
    let ghost all = string_views(src@);
    let n = src.len();
    let mut i: usize = 0;
    while i < n
        invariant
            n == all.len(),
            i <= n,
            src@.len() == n,
            string_views(src@) == all,
            string_views(dst@) == string_views(old(dst)@) + all.take(i as int),
        decreases n - i,
    {
        let ghost before = string_views(dst@);
        let s = src[i].clone();
        dst.push(s);
        assert(string_views(dst@) =~= before.push(all[i as int]));
        assert(all.take(i + 1) =~= all.take(i as int).push(all[i as int]));
        i += 1;
    }
    assert(all.take(n as int) =~= all);
}

/// Whether some path of `ps` is the path `p`.
fn any_same_path(ps: &Vec<String>, p: &str) -> (res: bool)
    ensures
        res == listed(string_views(ps@), p@),
{
    let ghost pv = string_views(ps@);
    let mut i: usize = 0;
    while i < ps.len()
        invariant
            i <= ps@.len(),
            pv == string_views(ps@),
            forall|k: int| 0 <= k < i ==> !same_path(#[trigger] pv[k], p@),
        decreases ps@.len() - i,
    {
        if paths_equal(ps[i].as_str(), p) {
            assert(same_path(pv[i as int], p@));
            return true;
        }
        i += 1;
    }
    false
}

/// Takes the paths of `ps` out of `buf`.
fn drop_listed(buf: &mut Vec<String>, ps: &Vec<String>)
    ensures
        string_views(final(buf)@) == without_listed(string_views(old(buf)@), string_views(ps@)),
{
    let ghost b = string_views(buf@);
    let ghost pv = string_views(ps@);
    let mut kept: Vec<String> = Vec::new();
    let mut i: usize = 0;
    while i < buf.len()
        invariant
            i <= buf@.len(),
            b == string_views(buf@),
            b == string_views(old(buf)@),
            pv == string_views(ps@),
            string_views(kept@) == without_listed(b.take(i as int), pv),
        decreases buf@.len() - i,
    {
        assert(b.take(i + 1).drop_last() =~= b.take(i as int));
        assert(b.take(i + 1).last() == b[i as int]);
        let hit = any_same_path(ps, buf[i].as_str());
        if !hit {
            let ghost before = string_views(kept@);
            kept.push(buf[i].clone());
            assert(string_views(kept@) =~= before.push(b[i as int]));
        }
        i += 1;
    }
    assert(b.take(b.len() as int) =~= b);
    *buf = kept;
}

impl WatchBatcher {
    pub closed spec fn state(&self) -> BatcherView {
        BatcherView { upserts: string_views(self.upserts@), removes: string_views(self.removes@) }
    }

    pub fn new() -> (res: Self)
        ensures
            res.state().upserts.len() == 0,
            res.state().removes.len() == 0,
    {
        WatchBatcher { upserts: Vec::new(), removes: Vec::new() }
    }

    /// Hands on the buffers that hold at least `min` paths.
    fn flush(&mut self, min: usize) -> (res: Vec<WatchAction>)
        ensures
            (final(self).state(), action_views(res@)) == flush_when(old(self).state(), min as int),
    {
        let mut actions: Vec<WatchAction> = Vec::new();
        let ghost s = self.state();
        if self.upserts.len() >= min {
            let mut batch: Vec<String> = Vec::new();
            std::mem::swap(&mut batch, &mut self.upserts);
            actions.push(WatchAction::Upsert(batch));
        }
        let ghost a1 = action_views(actions@);
        if self.removes.len() >= min {
            let mut batch: Vec<String> = Vec::new();
            std::mem::swap(&mut batch, &mut self.removes);
            actions.push(WatchAction::Remove(batch));
        }
        let ghost f = flush_when(s, min as int);
        assert(self.state().upserts =~= f.0.upserts);
        assert(self.state().removes =~= f.0.removes);
        assert(action_views(actions@) =~= f.1);
        actions
    }

    /// Takes in one signal.
    pub fn step(&mut self, signal: WatchSignal) -> (res: WatchStep)
        ensures
            ({
                let o = watch_step(old(self).state(), signal@);
                &&& final(self).state() == o.state
                &&& action_views(res.actions@) == o.actions
                &&& res.keep_running == o.keep_running
            }),
    {
        match signal {
            WatchSignal::Event(kind, paths) => {
                match kind {
                    WatchEventKind::Create | WatchEventKind::Modify => {
                        drop_listed(&mut self.removes, &paths);
                        append_strings(&mut self.upserts, paths);
                    },
                    WatchEventKind::Remove => {
                        drop_listed(&mut self.upserts, &paths);
                        append_strings(&mut self.removes, paths);
                    },
                    WatchEventKind::Other => {},
                }
                let actions = self.flush(FLUSH_THRESHOLD);
                WatchStep { actions, keep_running: true }
            },
            WatchSignal::Error => {
                let actions: Vec<WatchAction> = Vec::new();
                assert(action_views(actions@) =~= seq![]);
                WatchStep { actions, keep_running: true }
            },
            WatchSignal::Timeout => {
                let actions = self.flush(1);
                WatchStep { actions, keep_running: true }
            },
            WatchSignal::Disconnected | WatchSignal::Stop => {
                let actions = self.flush(1);
                WatchStep { actions, keep_running: false }
            },
        }
    }
}


/// The paths that a list of updates upserts, in order.
pub open spec fn upserted(a: Seq<ActionView>) -> Seq<Seq<char>>
    decreases a.len(),
{
    if a.len() == 0 {
        seq![]
    } else {
        upserted(a.drop_last()) + match a.last() {
            ActionView::Upsert(ps) => ps,
            ActionView::Remove(_) => seq![],
        }
    }
}

/// The paths that a list of updates removes, in order.
pub open spec fn removed(a: Seq<ActionView>) -> Seq<Seq<char>>
    decreases a.len(),
{
    if a.len() == 0 {
        seq![]
    } else {
        removed(a.drop_last()) + match a.last() {
            ActionView::Upsert(_) => seq![],
            ActionView::Remove(ps) => ps,
        }
    }
}

/// An update that carries at least one path.
pub open spec fn non_empty_action(a: ActionView) -> bool {
    match a {
        ActionView::Upsert(ps) => ps.len() > 0,
        ActionView::Remove(ps) => ps.len() > 0,
    }
}

/// The batching loses no path and invents none: what is handed on followed
/// by what stays pending is what was buffered (the pending paths with the
/// signal's paths taken in), for upserts and removals alike, in order. No
/// update is empty; after an event no buffer is full; a quiet spell, a closed
/// channel and a stop leave nothing pending, and only the last two end the
/// watching.
pub proof fn law_watch_step_conserves_paths(s: BatcherView, sig: SignalView)
    ensures
        upserted(watch_step(s, sig).actions) + watch_step(s, sig).state.upserts == buffered(
            s,
            sig,
        ).upserts,
        removed(watch_step(s, sig).actions) + watch_step(s, sig).state.removes == buffered(
            s,
            sig,
        ).removes,
        forall|i: int|
            0 <= i < watch_step(s, sig).actions.len() ==> non_empty_action(
                #[trigger] watch_step(s, sig).actions[i],
            ),
        sig is Event ==> watch_step(s, sig).state.upserts.len() < FLUSH_THRESHOLD && watch_step(
            s,
            sig,
        ).state.removes.len() < FLUSH_THRESHOLD,
        s.upserts.len() < FLUSH_THRESHOLD && s.removes.len() < FLUSH_THRESHOLD ==> watch_step(
            s,
            sig,
        ).state.upserts.len() < FLUSH_THRESHOLD && watch_step(s, sig).state.removes.len()
            < FLUSH_THRESHOLD,
        (sig is Timeout || sig is Disconnected || sig is Stop) ==> watch_step(
            s,
            sig,
        ).state.upserts.len() == 0 && watch_step(s, sig).state.removes.len() == 0,
        watch_step(s, sig).keep_running <==> !(sig is Disconnected || sig is Stop),
{
    reveal_with_fuel(upserted, 3);
    reveal_with_fuel(removed, 3);
    let o = watch_step(s, sig);
    let t = if sig is Event {
        buffered(s, sig)
    } else {
        s
    };
    assert(buffered(s, sig) == t);
    let a = o.actions;
    if a.len() == 2 {
        assert(a.drop_last().drop_last() =~= seq![]);
    } else if a.len() == 1 {
        assert(a.drop_last() =~= seq![]);
    }
    assert(upserted(a) + o.state.upserts =~= t.upserts);
    assert(removed(a) + o.state.removes =~= t.removes);
}

/// No path is pending both to be upserted and to be removed.
pub open spec fn disjoint_buffers(s: BatcherView) -> bool {
    forall|i: int, j: int|
        0 <= i < s.upserts.len() && 0 <= j < s.removes.len() ==> !same_path(
            #[trigger] s.upserts[i],
            #[trigger] s.removes[j],
        )
}

proof fn lemma_without_listed(buf: Seq<Seq<char>>, ps: Seq<Seq<char>>)
    ensures
        forall|i: int|
            0 <= i < without_listed(buf, ps).len() ==> !listed(
                ps,
                #[trigger] without_listed(buf, ps)[i],
            ) && buf.contains(without_listed(buf, ps)[i]),
    decreases buf.len(),
{
    if buf.len() > 0 {
        let d = buf.drop_last();
        lemma_without_listed(d, ps);
        let w = without_listed(buf, ps);
        let wd = without_listed(d, ps);
        assert forall|i: int| 0 <= i < w.len() implies !listed(ps, #[trigger] w[i]) && buf.contains(
            w[i],
        ) by {
            if i < wd.len() {
                assert(w[i] == wd[i]);
                assert(!listed(ps, wd[i]) && d.contains(wd[i]));
                let j = choose|j: int| 0 <= j < d.len() && d[j] == wd[i];
                assert(buf[j] == d[j]);
            } else {
                assert(w[i] == buf.last());
                assert(buf[buf.len() - 1] == buf.last());
            }
        }
    }
}

/// A path is listed in two lists joined exactly when it is listed in one.
pub proof fn lemma_listed_concat(x: Seq<Seq<char>>, y: Seq<Seq<char>>, p: Seq<char>)
    ensures
        listed(x + y, p) <==> listed(x, p) || listed(y, p),
{
    if listed(x, p) {
        let k = choose|k: int| 0 <= k < x.len() && same_path(#[trigger] x[k], p);
        assert((x + y)[k] == x[k]);
    }
    if listed(y, p) {
        let k = choose|k: int| 0 <= k < y.len() && same_path(#[trigger] y[k], p);
        assert((x + y)[x.len() + k] == y[k]);
    }
    if listed(x + y, p) {
        let k = choose|k: int| 0 <= k < (x + y).len() && same_path(#[trigger] (x + y)[k], p);
        if k < x.len() {
            assert((x + y)[k] == x[k]);
        } else {
            assert((x + y)[k] == y[k - x.len()]);
        }
    }
}

/// The last event for a path decides what happens to it: once an event for
/// `p` is taken in, `p` is upserted (now or later) and not removed when the
/// event creates or modifies it, and removed and not upserted when the event
/// removes it.
pub proof fn law_last_event_decides(s: BatcherView, sig: SignalView, p: Seq<char>)
    requires
        sig matches SignalView::Event(kind, ps) && listed(ps, p) && kind != WatchEventKind::Other,
    ensures
        ({
            let o = watch_step(s, sig);
            sig matches SignalView::Event(kind, _) && if kind == WatchEventKind::Remove {
                &&& listed(removed(o.actions), p) || listed(o.state.removes, p)
                &&& !listed(upserted(o.actions), p) && !listed(o.state.upserts, p)
            } else {
                &&& listed(upserted(o.actions), p) || listed(o.state.upserts, p)
                &&& !listed(removed(o.actions), p) && !listed(o.state.removes, p)
            }
        }),
{
    law_watch_step_conserves_paths(s, sig);
    let o = watch_step(s, sig);
    let t = buffered(s, sig);
    lemma_listed_concat(upserted(o.actions), o.state.upserts, p);
    lemma_listed_concat(removed(o.actions), o.state.removes, p);
    if let SignalView::Event(kind, ps) = sig {
        let k = choose|k: int| 0 <= k < ps.len() && same_path(#[trigger] ps[k], p);
        if kind == WatchEventKind::Remove {
            lemma_listed_concat(s.removes, ps, p);
            lemma_without_listed(s.upserts, ps);
            assert(listed(ps, p));
            let w = without_listed(s.upserts, ps);
            assert(!listed(w, p)) by {
                if listed(w, p) {
                    let i = choose|i: int| 0 <= i < w.len() && same_path(#[trigger] w[i], p);
                    assert(!listed(ps, w[i]));
                    assert(same_path(ps[k], w[i]));
                }
            }
        } else {
            lemma_listed_concat(s.upserts, ps, p);
            lemma_without_listed(s.removes, ps);
            let w = without_listed(s.removes, ps);
            assert(!listed(w, p)) by {
                if listed(w, p) {
                    let i = choose|i: int| 0 <= i < w.len() && same_path(#[trigger] w[i], p);
                    assert(!listed(ps, w[i]));
                    assert(same_path(ps[k], w[i]));
                }
            }
        }
    }
}

/// No path is ever pending both ways: if it holds before a signal, it holds
/// of what is buffered (so the updates handed on in one step never undo one
/// another) and of what stays pending after it.
pub proof fn law_buffers_stay_disjoint(s: BatcherView, sig: SignalView)
    requires
        disjoint_buffers(s),
    ensures
        disjoint_buffers(buffered(s, sig)),
        disjoint_buffers(watch_step(s, sig).state),
{
    law_watch_step_conserves_paths(s, sig);
    let t = buffered(s, sig);
    if let SignalView::Event(kind, ps) = sig {
        if kind == WatchEventKind::Remove {
            lemma_without_listed(s.upserts, ps);
            let w = without_listed(s.upserts, ps);
            assert forall|i: int, j: int|
                0 <= i < t.upserts.len() && 0 <= j < t.removes.len() implies !same_path(
                #[trigger] t.upserts[i],
                #[trigger] t.removes[j],
            ) by {
                assert(t.upserts[i] == w[i]);
                assert(!listed(ps, w[i]) && s.upserts.contains(w[i]));
                let a = choose|a: int| 0 <= a < s.upserts.len() && s.upserts[a] == w[i];
                if j < s.removes.len() {
                    assert(t.removes[j] == s.removes[j]);
                    assert(!same_path(s.upserts[a], s.removes[j]));
                } else {
                    assert(t.removes[j] == ps[j - s.removes.len()]);
                    if same_path(w[i], ps[j - s.removes.len()]) {
                        assert(same_path(ps[j - s.removes.len()], w[i]));
                    }
                }
            }
        } else if kind != WatchEventKind::Other {
            lemma_without_listed(s.removes, ps);
            let w = without_listed(s.removes, ps);
            assert forall|i: int, j: int|
                0 <= i < t.upserts.len() && 0 <= j < t.removes.len() implies !same_path(
                #[trigger] t.upserts[i],
                #[trigger] t.removes[j],
            ) by {
                assert(t.removes[j] == w[j]);
                assert(!listed(ps, w[j]) && s.removes.contains(w[j]));
                let a = choose|a: int| 0 <= a < s.removes.len() && s.removes[a] == w[j];
                if i < s.upserts.len() {
                    assert(t.upserts[i] == s.upserts[i]);
                    assert(!same_path(s.upserts[i], s.removes[a]));
                } else {
                    assert(t.upserts[i] == ps[i - s.upserts.len()]);
                }
            }
        }
    }
    let o = watch_step(s, sig);
    let n = o.state;
    assert forall|i: int, j: int|
        0 <= i < n.upserts.len() && 0 <= j < n.removes.len() implies !same_path(
        #[trigger] n.upserts[i],
        #[trigger] n.removes[j],
    ) by {
        let u0 = upserted(o.actions).len();
        let r0 = removed(o.actions).len();
        assert((upserted(o.actions) + n.upserts)[u0 + i] == n.upserts[i]);
        assert((removed(o.actions) + n.removes)[r0 + j] == n.removes[j]);
        if sig is Event {
            assert(t.upserts[u0 + i] == n.upserts[i]);
            assert(t.removes[r0 + j] == n.removes[j]);
        } else {
            assert(s.upserts[u0 + i] == n.upserts[i]);
            assert(s.removes[r0 + j] == n.removes[j]);
        }
    }
}


/// The health after setting up watches: whenever some recursive watch
/// failed, partially degraded with the number of roots watched recursively
/// (even if that is none); otherwise failed when roots were given and none
/// was watched, and healthy in every other case.
pub proof fn law_health(hit_limit: bool, watched_count: usize, roots_empty: bool)
    ensures
        hit_limit ==> health_of(hit_limit, watched_count, roots_empty)
            == WatcherHealth::PartiallyDegraded(watched_count),
        !hit_limit && watched_count == 0 && !roots_empty ==> health_of(
            hit_limit,
            watched_count,
            roots_empty,
        ) == WatcherHealth::Failed,
        !hit_limit && (watched_count > 0 || roots_empty) ==> health_of(
            hit_limit,
            watched_count,
            roots_empty,
        ) == WatcherHealth::Healthy,
{
}

} // verus!
