//! How the index follows the file system through the watcher: the updates
//! that the batching hands on, applied to the index, leave a path in the
//! index exactly when the last event for it created or modified it.
use vstd::prelude::*;
use crate::path::{same_path, file_name_of, lemma_same_path_file_name};
use crate::entry::{FileEntryView, FileMetadata, entry_for_path, full_path_of, law_entry_full_path};
use crate::index::{
    upsert_entry, upsert_at_path, upsert_batch, without_paths, at_one_of, is_first_at,
};
use crate::watcher::{
    BatcherView, SignalView, ActionView, WatchEventKind, watch_step, buffered, flush_when,
    upserted, removed, listed, without_listed, law_watch_step_conserves_paths,
    law_last_event_decides, lemma_listed_concat, FLUSH_THRESHOLD,
};

verus! {

/// Some entry of the index lies at the path `p`.
pub open spec fn holds(es: Seq<FileEntryView>, p: Seq<char>) -> bool {
    exists|i: int| 0 <= i < es.len() && same_path(#[trigger] full_path_of(es[i]), p)
}

/// The items an upsert of the paths `ps` hands to the index, with what the
/// file system reports of each path (`meta`).
pub open spec fn update_items(ps: Seq<Seq<char>>, meta: spec_fn(Seq<char>) -> FileMetadata) -> Seq<
    (Seq<char>, FileMetadata),
> {
    ps.map_values(|q: Seq<char>| (q, meta(q)))
}

/// One update applied to the index (`Database::batch_upsert` or
/// `Database::batch_remove`).
pub open spec fn apply_action(
    es: Seq<FileEntryView>,
    a: ActionView,
    meta: spec_fn(Seq<char>) -> FileMetadata,
) -> Seq<FileEntryView> {
    match a {
        ActionView::Upsert(ps) => upsert_batch(es, update_items(ps, meta)),
        ActionView::Remove(ps) => without_paths(es, ps),
    }
}

/// Updates applied to the index in order.
pub open spec fn apply_actions(
    es: Seq<FileEntryView>,
    acts: Seq<ActionView>,
    meta: spec_fn(Seq<char>) -> FileMetadata,
) -> Seq<FileEntryView>
    decreases acts.len(),
{
    if acts.len() == 0 {
        es
    } else {
        apply_action(apply_actions(es, acts.drop_last(), meta), acts.last(), meta)
    }
}

/// The pending paths and the index after the watcher takes in `sigs`, the
/// updates of each step applied to the index as they are handed on.
pub open spec fn run(
    s: BatcherView,
    es: Seq<FileEntryView>,
    sigs: Seq<SignalView>,
    meta: spec_fn(Seq<char>) -> FileMetadata,
) -> (BatcherView, Seq<FileEntryView>)
    decreases sigs.len(),
{
    if sigs.len() == 0 {
        (s, es)
    } else {
        let (s1, es1) = run(s, es, sigs.drop_last(), meta);
        let o = watch_step(s1, sigs.last());
        (o.state, apply_actions(es1, o.actions, meta))
    }
}

/// The signal is a create, modify or remove event for the path `p`.
pub open spec fn touches(sig: SignalView, p: Seq<char>) -> bool {
    sig matches SignalView::Event(kind, ps) && kind != WatchEventKind::Other && listed(ps, p)
}

/// The signal hands on every pending path.
pub open spec fn flushes(sig: SignalView) -> bool {
    sig is Timeout || sig is Disconnected || sig is Stop
}

proof fn lemma_listed_push(ps: Seq<Seq<char>>, q: Seq<char>, p: Seq<char>)
    ensures
        listed(ps.push(q), p) <==> listed(ps, p) || same_path(q, p),
{
    lemma_listed_concat(ps, seq![q], p);
    assert(ps + seq![q] =~= ps.push(q));
    if same_path(q, p) {
        assert(seq![q][0] == q);
    }
}

proof fn lemma_holds_upsert_entry(es: Seq<FileEntryView>, e: FileEntryView, p: Seq<char>)
    ensures
        holds(upsert_entry(es, e), p) <==> holds(es, p) || same_path(full_path_of(e), p),
{
    let q = full_path_of(e);
    let r = upsert_entry(es, e);
    if exists|i: int| is_first_at(es, q, i) {
        let i = choose|i: int| is_first_at(es, q, i);
        assert(r == es.update(i, e));
        if same_path(q, p) {
            assert(r[i] == e);
        }
        if holds(es, p) {
            let j = choose|j: int| 0 <= j < es.len() && same_path(#[trigger] full_path_of(es[j]), p);
            if j == i {
                assert(r[i] == e);
            } else {
                assert(r[j] == es[j]);
            }
        }
        if holds(r, p) {
            let j = choose|j: int| 0 <= j < r.len() && same_path(#[trigger] full_path_of(r[j]), p);
            if j != i {
                assert(r[j] == es[j]);
            }
        }
    } else {
        assert(r == es.push(e));
        if same_path(q, p) {
            assert(r[es.len() as int] == e);
        }
        if holds(es, p) {
            let j = choose|j: int| 0 <= j < es.len() && same_path(#[trigger] full_path_of(es[j]), p);
            assert(r[j] == es[j]);
        }
        if holds(r, p) {
            let j = choose|j: int| 0 <= j < r.len() && same_path(#[trigger] full_path_of(r[j]), p);
            if j < es.len() {
                assert(r[j] == es[j]);
            }
        }
    }
}

proof fn lemma_holds_upsert_at_path(
    es: Seq<FileEntryView>,
    q: Seq<char>,
    m: FileMetadata,
    p: Seq<char>,
)
    requires
        file_name_of(p) is Some,
    ensures
        holds(upsert_at_path(es, q, m), p) <==> holds(es, p) || same_path(q, p),
{
    law_entry_full_path(q, m);
    if same_path(q, p) {
        lemma_same_path_file_name(q, p);
    }
    match entry_for_path(q, m) {
        Some(e) => lemma_holds_upsert_entry(es, e, p),
        None => {},
    }
}

proof fn lemma_holds_upsert_batch(
    es: Seq<FileEntryView>,
    ps: Seq<Seq<char>>,
    meta: spec_fn(Seq<char>) -> FileMetadata,
    p: Seq<char>,
)
    requires
        file_name_of(p) is Some,
    ensures
        holds(upsert_batch(es, update_items(ps, meta)), p) <==> holds(es, p) || listed(ps, p),
    decreases ps.len(),
{
    let its = update_items(ps, meta);
    if ps.len() == 0 {
        assert(!listed(ps, p));
    } else {
        let d = ps.drop_last();
        lemma_holds_upsert_batch(es, d, meta, p);
        assert(its.drop_last() =~= update_items(d, meta));
        assert(its.last() == (ps.last(), meta(ps.last())));
        lemma_holds_upsert_at_path(upsert_batch(es, update_items(d, meta)), ps.last(), meta(ps.last()), p);
        assert(d.push(ps.last()) =~= ps);
        lemma_listed_push(d, ps.last(), p);
    }
}

proof fn lemma_holds_without_paths(es: Seq<FileEntryView>, ps: Seq<Seq<char>>, p: Seq<char>)
    ensures
        holds(without_paths(es, ps), p) <==> holds(es, p) && !listed(ps, p),
    decreases es.len(),
{
    if es.len() > 0 {
        let d = es.drop_last();
        let l = es.last();
        lemma_holds_without_paths(d, ps, p);
        let w = without_paths(es, ps);
        let wd = without_paths(d, ps);
        if at_one_of(l, ps) {
            assert(w == wd);
        } else {
            assert(w == wd.push(l));
        }
        if holds(es, p) && !listed(ps, p) {
            let j = choose|j: int| 0 <= j < es.len() && same_path(#[trigger] full_path_of(es[j]), p);
            if j < d.len() {
                assert(d[j] == es[j]);
                assert(holds(d, p));
                let k = choose|k: int| 0 <= k < wd.len() && same_path(#[trigger] full_path_of(wd[k]), p);
                if !at_one_of(l, ps) {
                    assert(w[k] == wd[k]);
                }
            } else {
                assert(es[j] == l);
                assert(!at_one_of(l, ps)) by {
                    if at_one_of(l, ps) {
                        let k = choose|k: int| 0 <= k < ps.len() && same_path(full_path_of(l), #[trigger] ps[k]);
                        assert(same_path(ps[k], p));
                    }
                }
                assert(w[wd.len() as int] == l);
            }
        }
        if holds(w, p) {
            let j = choose|j: int| 0 <= j < w.len() && same_path(#[trigger] full_path_of(w[j]), p);
            if j < wd.len() {
                assert(w[j] == wd[j]);
                assert(holds(wd, p));
                let k = choose|k: int| 0 <= k < d.len() && same_path(#[trigger] full_path_of(d[k]), p);
                assert(es[k] == d[k]);
            } else {
                assert(w[j] == l);
                assert(es[es.len() - 1] == l);
                assert(!listed(ps, p)) by {
                    if listed(ps, p) {
                        let k = choose|k: int| 0 <= k < ps.len() && same_path(#[trigger] ps[k], p);
                        assert(same_path(full_path_of(l), ps[k]));
                    }
                }
            }
        }
    } else {
        assert(without_paths(es, ps) =~= seq![]);
    }
}

proof fn lemma_nothing_listed(p: Seq<char>)
    ensures
        !listed(Seq::<Seq<char>>::empty(), p),
{
}

/// Applying one step's updates: a path is in the index afterwards exactly
/// when it was in it or the step upserts it, and the step does not remove it.
proof fn lemma_apply_step(
    s: BatcherView,
    sig: SignalView,
    es: Seq<FileEntryView>,
    meta: spec_fn(Seq<char>) -> FileMetadata,
    p: Seq<char>,
)
    requires
        file_name_of(p) is Some,
    ensures
        ({
            let a = watch_step(s, sig).actions;
            holds(apply_actions(es, a, meta), p) <==> (holds(es, p) || listed(upserted(a), p))
                && !listed(removed(a), p)
        }),
{
    reveal_with_fuel(apply_actions, 3);
    reveal_with_fuel(upserted, 3);
    reveal_with_fuel(removed, 3);
    lemma_nothing_listed(p);
    let t = if sig is Event {
        buffered(s, sig)
    } else {
        s
    };
    let min: int = if sig is Event {
        FLUSH_THRESHOLD as int
    } else {
        1
    };
    let a = watch_step(s, sig).actions;
    if sig is Error {
        assert(a =~= seq![]);
    } else {
        assert(a == flush_when(t, min).1);
    }
    let u = t.upserts;
    let r = t.removes;
    if a.len() == 2 {
        assert(a =~= seq![ActionView::Upsert(u), ActionView::Remove(r)]);
        assert(a.drop_last() =~= seq![ActionView::Upsert(u)]);
        assert(a.drop_last().drop_last() =~= seq![]);
        assert(upserted(a) =~= u);
        assert(removed(a) =~= r);
        lemma_holds_upsert_batch(es, u, meta, p);
        lemma_holds_without_paths(upsert_batch(es, update_items(u, meta)), r, p);
    } else if a.len() == 1 {
        assert(a.drop_last() =~= seq![]);
        if a[0] is Upsert {
            assert(a =~= seq![ActionView::Upsert(u)]);
            assert(upserted(a) =~= u);
            assert(removed(a) =~= seq![]);
            lemma_holds_upsert_batch(es, u, meta, p);
        } else {
            assert(a =~= seq![ActionView::Remove(r)]);
            assert(upserted(a) =~= seq![]);
            assert(removed(a) =~= r);
            lemma_holds_without_paths(es, r, p);
        }
    } else {
        assert(a =~= seq![]);
    }
}

proof fn lemma_listed_without(buf: Seq<Seq<char>>, qs: Seq<Seq<char>>, p: Seq<char>)
    requires
        !listed(qs, p),
    ensures
        listed(without_listed(buf, qs), p) <==> listed(buf, p),
    decreases buf.len(),
{
    if buf.len() > 0 {
        let d = buf.drop_last();
        let l = buf.last();
        lemma_listed_without(d, qs, p);
        assert(d.push(l) =~= buf);
        lemma_listed_push(d, l, p);
        if !listed(qs, l) {
            lemma_listed_push(without_listed(d, qs), l, p);
        } else if same_path(l, p) {
            let k = choose|k: int| 0 <= k < qs.len() && same_path(#[trigger] qs[k], l);
            assert(same_path(qs[k], p));
        }
    }
}

/// A signal that is no create, modify or remove event for `p` leaves it
/// buffered as it was.
proof fn lemma_buffered_untouched(s: BatcherView, sig: SignalView, p: Seq<char>)
    requires
        !touches(sig, p),
    ensures
        listed(buffered(s, sig).upserts, p) == listed(s.upserts, p),
        listed(buffered(s, sig).removes, p) == listed(s.removes, p),
{
    if let SignalView::Event(kind, qs) = sig {
        if kind != WatchEventKind::Other {
            lemma_listed_concat(s.upserts, qs, p);
            lemma_listed_concat(s.removes, qs, p);
            lemma_listed_without(s.upserts, qs, p);
            lemma_listed_without(s.removes, qs, p);
        }
    }
}

/// Some signal strictly between `k` and `n` hands on every pending path.
pub open spec fn flushed_between(sigs: Seq<SignalView>, k: int, n: int) -> bool {
    exists|j: int| k < j < n && flushes(#[trigger] sigs[j])
}

/// What holds of `p` after the signals up to `n`, once the last event for it
/// was the one at `k`.
pub open spec fn follows(
    st: BatcherView,
    es: Seq<FileEntryView>,
    p: Seq<char>,
    creates: bool,
    flushed: bool,
) -> bool {
    if creates {
        &&& !listed(st.removes, p)
        &&& holds(es, p) || listed(st.upserts, p)
        &&& flushed ==> holds(es, p)
    } else {
        &&& !listed(st.upserts, p)
        &&& !holds(es, p) || listed(st.removes, p)
        &&& flushed ==> !holds(es, p)
    }
}

proof fn lemma_run_after(
    s0: BatcherView,
    es0: Seq<FileEntryView>,
    sigs: Seq<SignalView>,
    meta: spec_fn(Seq<char>) -> FileMetadata,
    p: Seq<char>,
    k: int,
    n: int,
)
    requires
        file_name_of(p) is Some,
        0 <= k < n <= sigs.len(),
        touches(sigs[k], p),
        forall|j: int| k < j < sigs.len() ==> !touches(#[trigger] sigs[j], p),
    ensures
        ({
            let (st, es) = run(s0, es0, sigs.take(n), meta);
            follows(
                st,
                es,
                p,
                !(sigs[k] matches SignalView::Event(WatchEventKind::Remove, _)),
                flushed_between(sigs, k, n),
            )
        }),
    decreases n,
{
    let creates = !(sigs[k] matches SignalView::Event(WatchEventKind::Remove, _));
    let pre = sigs.take(n);
    assert(pre.drop_last() =~= sigs.take(n - 1));
    assert(pre.last() == sigs[n - 1]);
    let (s1, es1) = run(s0, es0, sigs.take(n - 1), meta);
    let sig = sigs[n - 1];
    let o = watch_step(s1, sig);
    let a = o.actions;
    let es2 = apply_actions(es1, a, meta);
    assert(run(s0, es0, pre, meta) == (o.state, es2));
    law_watch_step_conserves_paths(s1, sig);
    lemma_apply_step(s1, sig, es1, meta, p);
    let t = buffered(s1, sig);
    lemma_listed_concat(upserted(a), o.state.upserts, p);
    lemma_listed_concat(removed(a), o.state.removes, p);
    lemma_nothing_listed(p);
    if n - 1 == k {
        law_last_event_decides(s1, sig, p);
        assert(!flushed_between(sigs, k, n));
    } else {
        lemma_run_after(s0, es0, sigs, meta, p, k, n - 1);
        assert(!touches(sigs[n - 1], p));
        lemma_buffered_untouched(s1, sig, p);
        if flushes(sig) {
            assert(o.state.upserts.len() == 0 && o.state.removes.len() == 0);
            assert(o.state.upserts =~= Seq::<Seq<char>>::empty());
            assert(o.state.removes =~= Seq::<Seq<char>>::empty());
            assert(flushed_between(sigs, k, n));
        }
        if flushed_between(sigs, k, n) && !flushes(sig) {
            let j = choose|j: int| k < j < n && flushes(#[trigger] sigs[j]);
            assert(j < n - 1);
            assert(flushed_between(sigs, k, n - 1));
        }
    }
}

/// The index follows the last event for a path: when the watcher takes in
/// a run of signals whose last create, modify or remove event for `p` is the
/// one at `k`, and a quiet spell (or a stop) follows it, and the updates of
/// each step are applied to the index as they are handed on, then afterwards
/// the index holds `p` exactly when that event created or modified it.
/// (`p` has a file name; `meta` is what the file system reports of a path
/// when it is upserted.)
pub proof fn law_index_follows_last_event(
    s0: BatcherView,
    es0: Seq<FileEntryView>,
    sigs: Seq<SignalView>,
    meta: spec_fn(Seq<char>) -> FileMetadata,
    p: Seq<char>,
    k: int,
)
    requires
        file_name_of(p) is Some,
        0 <= k < sigs.len(),
        touches(sigs[k], p),
        forall|j: int| k < j < sigs.len() ==> !touches(#[trigger] sigs[j], p),
        flushed_between(sigs, k, sigs.len() as int),
    ensures
        holds(run(s0, es0, sigs, meta).1, p) <==> !(sigs[k] matches SignalView::Event(
            WatchEventKind::Remove,
            _,
        )),
{
    lemma_run_after(s0, es0, sigs, meta, p, k, sigs.len() as int);
    assert(sigs.take(sigs.len() as int) =~= sigs);
}

} // verus!
