//! The laws of the monitor: what holds of every run, proved over the
//! transition functions that the dispatcher's contracts are stated with.
//! (That every pending change is relative is part of
//! [`crate::monitor::state_wf`], which every operation preserves.)

use vstd::prelude::*;

use crate::monitor::{
    add_watch_path, candidates, changes_ok, ensure_replica, error_line, fs_entry, fs_replicas,
    fs_step, has_replica, idx_of, matched_ids, pend_all, rels_of, remove_replica, replica_of,
    start_ok, start_target, unique_ids, unknown_replica_msg, wait_case, with_out, EntryV, Fatal,
    StateV,
};
use crate::path::{path_is_empty, path_starts_with, pset_insert, PathV};
use crate::replica::replica_watching;

verus! {

/// Every watched path of the entry lies at or under its root.
pub open spec fn entry_rooted(e: EntryV) -> bool {
    forall|j: int|
        0 <= j < e.replica.paths.len() ==> path_starts_with(
            #[trigger] e.replica.paths[j],
            e.replica.root,
        )
}

/// Every watched path of every replica lies at or under that replica's
/// root.
pub open spec fn paths_rooted(st: StateV) -> bool {
    forall|i: int| 0 <= i < st.replicas.len() ==> entry_rooted(#[trigger] st.replicas[i])
}

/// A path is a prefix of itself.
pub proof fn lemma_starts_with_refl(p: PathV)
    ensures
        path_starts_with(p, p),
{
    if !path_is_empty(p) {
        assert(p.segs =~= p.segs.subrange(0, p.segs.len() as int));
    }
}

/// `START` keeps every watched path at or under its replica's root,
/// provided the effective path it watches lies at or under the root of the
/// replica it lands in — as it does whenever the parent restarts a replica
/// with the root it was created with and a relative subdirectory.
pub proof fn lemma_start_preserves_paths_rooted(
    pre: StateV,
    id: Seq<u8>,
    root: PathV,
    sub: Option<PathV>,
)
    requires
        paths_rooted(pre),
        unique_ids(pre.replicas),
        path_starts_with(
            start_target(root, sub),
            replica_of(ensure_replica(pre.replicas, id, root), id).root,
        ),
    ensures
        paths_rooted(start_ok(pre, id, root, sub)),
{
    let rs1 = ensure_replica(pre.replicas, id, root);
    let cur = start_target(root, sub);
    assert forall|i: int| 0 <= i < rs1.len() implies entry_rooted(#[trigger] rs1[i]) by {
        if i < pre.replicas.len() {
            assert(rs1[i] == pre.replicas[i]);
            assert(entry_rooted(pre.replicas[i]));
        }
    }
    assert(has_replica(rs1, id)) by {
        if !has_replica(pre.replicas, id) {
            assert(rs1[pre.replicas.len() as int].id == id);
        }
    }
    let w = idx_of(rs1, id);
    assert(0 <= w < rs1.len() && rs1[w].id == id);
    let rs2 = add_watch_path(rs1, id, cur);
    assert forall|i: int| 0 <= i < rs2.len() implies entry_rooted(#[trigger] rs2[i]) by {
        if replica_watching(rs1[w].replica, cur) {
            assert(rs2[i] == rs1[i]);
        } else if i != w {
            assert(rs2[i] == rs1[i]);
        } else {
            let e = rs2[w];
            assert forall|j: int| 0 <= j < e.replica.paths.len() implies path_starts_with(
                #[trigger] e.replica.paths[j],
                e.replica.root,
            ) by {
                if j < rs1[w].replica.paths.len() {
                    assert(e.replica.paths[j] == rs1[w].replica.paths[j]);
                    assert(entry_rooted(rs1[w]));
                } else {
                    assert(e.replica.paths[j] == cur);
                }
            }
        }
    }
}

/// Attributing a filesystem event never touches a watched-paths set or a
/// root.
pub proof fn lemma_fs_step_preserves_paths_rooted(pre: StateV, p: Option<PathV>)
    requires
        paths_rooted(pre),
    ensures
        paths_rooted(fs_step(pre, p)),
{
    match p {
        Option::None => {},
        Option::Some(pv) => {
            let cands = candidates(pre.links, pv);
            assert forall|i: int| 0 <= i < fs_step(pre, p).replicas.len() implies entry_rooted(
                #[trigger] fs_step(pre, p).replicas[i],
            ) by {
                assert(fs_step(pre, p).replicas[i] == fs_entry(pre.replicas[i], cands));
                assert(entry_rooted(pre.replicas[i]));
            }
        },
    }
}

/// Draining with `CHANGES` never touches a watched-paths set or a root.
pub proof fn lemma_changes_preserves_paths_rooted(pre: StateV, id: Seq<u8>)
    requires
        paths_rooted(pre),
    ensures
        paths_rooted(changes_ok(pre, id)),
{
    let post = changes_ok(pre, id);
    assert forall|i: int| 0 <= i < post.replicas.len() implies entry_rooted(
        #[trigger] post.replicas[i],
    ) by {
        if has_replica(pre.replicas, id) && i == idx_of(pre.replicas, id) {
            assert(entry_rooted(pre.replicas[i]));
        } else {
            assert(post.replicas[i] == pre.replicas[i]);
        }
    }
}

/// `RESET` keeps the invariant: it only removes a replica.
pub proof fn lemma_reset_preserves_paths_rooted(pre: StateV, id: Seq<u8>)
    requires
        paths_rooted(pre),
    ensures
        paths_rooted(StateV { replicas: remove_replica(pre.replicas, id), ..pre }),
{
    let rs = remove_replica(pre.replicas, id);
    assert forall|i: int| 0 <= i < rs.len() implies entry_rooted(#[trigger] rs[i]) by {
        if has_replica(pre.replicas, id) {
            let w = idx_of(pre.replicas, id);
            if i < w {
                assert(rs[i] == pre.replicas[i]);
            } else {
                assert(rs[i] == pre.replicas[i + 1]);
            }
        } else {
            assert(rs[i] == pre.replicas[i]);
        }
    }
}

/// What set-inserting a batch leaves present: everything already pending,
/// and the whole batch.
pub proof fn lemma_pend_all_contains(pending: Seq<PathV>, rels: Seq<PathV>)
    ensures
        forall|x: PathV| pending.contains(x) ==> #[trigger] pend_all(pending, rels).contains(x),
        forall|x: PathV| rels.contains(x) ==> #[trigger] pend_all(pending, rels).contains(x),
    decreases rels.len(),
{
    if rels.len() > 0 {
        lemma_pend_all_contains(pending, rels.drop_last());
        let prev = pend_all(pending, rels.drop_last());
        let full = pend_all(pending, rels);
        assert(full == pset_insert(prev, rels.last()));
        assert forall|x: PathV| prev.contains(x) implies #[trigger] full.contains(x) by {
            if !prev.contains(rels.last()) {
                let j = choose|j: int| 0 <= j < prev.len() && prev[j] == x;
                assert(full[j] == x);
            }
        }
        assert(full.contains(rels.last())) by {
            if prev.contains(rels.last()) {
            } else {
                assert(full[full.len() - 1] == rels.last());
            }
        }
        assert forall|x: PathV| rels.contains(x) implies #[trigger] full.contains(x) by {
            let j = choose|j: int| 0 <= j < rels.len() && rels[j] == x;
            if j < rels.len() - 1 {
                assert(rels.drop_last()[j] == x);
                assert(rels.drop_last().contains(x));
                assert(prev.contains(x));
            } else {
                assert(x == rels.last());
            }
        }
    }
}

/// Set-inserting a batch that is already pending changes nothing.
pub proof fn lemma_pend_all_noop(pending: Seq<PathV>, rels: Seq<PathV>)
    requires
        forall|j: int| 0 <= j < rels.len() ==> pending.contains(#[trigger] rels[j]),
    ensures
        pend_all(pending, rels) == pending,
    decreases rels.len(),
{
    if rels.len() > 0 {
        assert forall|j: int| 0 <= j < rels.drop_last().len() implies pending.contains(
            #[trigger] rels.drop_last()[j],
        ) by {
            assert(rels.drop_last()[j] == rels[j]);
        }
        lemma_pend_all_noop(pending, rels.drop_last());
        assert(pending.contains(rels[rels.len() - 1]));
        assert(pend_all(pending, rels) == pset_insert(pending, rels.last()));
    }
}

/// Events never vanish before being drained: a filesystem event only adds
/// to a replica's pending set.
pub proof fn lemma_fs_step_pending_grows(pre: StateV, p: PathV, k: int)
    requires
        0 <= k < pre.replicas.len(),
    ensures
        forall|x: PathV|
            pre.replicas[k].replica.pending.contains(x) ==> #[trigger] fs_step(
                pre,
                Some(p),
            ).replicas[k].replica.pending.contains(x),
{
    let cands = candidates(pre.links, p);
    assert(fs_step(pre, Some(p)).replicas[k] == fs_entry(pre.replicas[k], cands));
    lemma_pend_all_contains(
        pre.replicas[k].replica.pending,
        rels_of(cands, pre.replicas[k].replica.root),
    );
}

/// Events never vanish before being drained: `START` touches no pending
/// set.
pub proof fn lemma_start_preserves_pending(
    pre: StateV,
    id: Seq<u8>,
    root: PathV,
    sub: Option<PathV>,
    k: int,
)
    requires
        0 <= k < pre.replicas.len(),
    ensures
        start_ok(pre, id, root, sub).replicas[k].replica.pending
            == pre.replicas[k].replica.pending,
{
    let rs1 = ensure_replica(pre.replicas, id, root);
    assert(rs1[k] == pre.replicas[k]);
    assert(has_replica(rs1, id)) by {
        if !has_replica(pre.replicas, id) {
            assert(rs1[pre.replicas.len() as int].id == id);
        }
    }
    let w = idx_of(rs1, id);
    assert(0 <= w < rs1.len() && rs1[w].id == id);
    let rs2 = add_watch_path(rs1, id, start_target(root, sub));
    if replica_watching(rs1[w].replica, start_target(root, sub)) {
    } else {
        if k == w {
            assert(rs2[k].replica.pending == rs1[k].replica.pending);
        } else {
            assert(rs2[k] == rs1[k]);
        }
    }
}

/// Events never vanish before being drained: draining one replica touches
/// no other replica's pending set.
pub proof fn lemma_changes_preserves_other_pending(pre: StateV, id: Seq<u8>, k: int)
    requires
        0 <= k < pre.replicas.len(),
        has_replica(pre.replicas, id) ==> k != idx_of(pre.replicas, id),
    ensures
        changes_ok(pre, id).replicas[k] == pre.replicas[k],
{
}

/// `RESET id` followed by `WAIT id` must report `Unknown replica` and
/// stop: after the reset no entry carries the identifier, and the only
/// outcome the `WAIT` dispatch admits on such a state is the error line
/// and the fatal result.
pub proof fn lemma_reset_then_wait(pre: StateV, id: Seq<u8>)
    requires
        unique_ids(pre.replicas),
    ensures
        !has_replica(remove_replica(pre.replicas, id), id),
        forall|post: StateV, r: Result<(), Fatal>|
            #[trigger] wait_case(
                StateV { replicas: remove_replica(pre.replicas, id), ..pre },
                post,
                seq![id],
                r,
            ) ==> post == with_out(
                StateV { replicas: remove_replica(pre.replicas, id), ..pre },
                seq![error_line(unknown_replica_msg(id))],
            ) && r == Err::<(), Fatal>(Fatal::Protocol),
{
    let rs = remove_replica(pre.replicas, id);
    if has_replica(pre.replicas, id) {
        let w = idx_of(pre.replicas, id);
        assert(0 <= w < pre.replicas.len() && pre.replicas[w].id == id);
        assert forall|i: int| 0 <= i < rs.len() implies #[trigger] rs[i].id != id by {
            if i < w {
                assert(rs[i] == pre.replicas[i]);
            } else {
                assert(rs[i] == pre.replicas[i + 1]);
            }
        }
    } else {
        assert forall|i: int| 0 <= i < rs.len() implies #[trigger] rs[i].id != id by {
            assert(rs[i] == pre.replicas[i]);
        }
    }
}

/// A second `START` with the same arguments is idempotent on the registry:
/// in particular the watched-paths set does not grow again.
pub proof fn lemma_start_idempotent(pre: StateV, id: Seq<u8>, root: PathV, sub: Option<PathV>)
    requires
        unique_ids(pre.replicas),
    ensures
        start_ok(start_ok(pre, id, root, sub), id, root, sub).replicas == start_ok(
            pre,
            id,
            root,
            sub,
        ).replicas,
{
    let cur = start_target(root, sub);
    let rs1 = ensure_replica(pre.replicas, id, root);
    assert(unique_ids(rs1)) by {
        if !has_replica(pre.replicas, id) {
            assert(forall|i: int|
                0 <= i < pre.replicas.len() ==> #[trigger] pre.replicas[i].id != id);
        }
    }
    assert(has_replica(rs1, id)) by {
        if !has_replica(pre.replicas, id) {
            assert(rs1[pre.replicas.len() as int].id == id);
        }
    }
    let w = idx_of(rs1, id);
    assert(0 <= w < rs1.len() && rs1[w].id == id);
    let rs2 = add_watch_path(rs1, id, cur);
    assert(rs2[w].id == id);
    assert(unique_ids(rs2)) by {
        assert(forall|i: int| 0 <= i < rs2.len() ==> #[trigger] rs2[i].id == rs1[i].id);
    }
    crate::monitor::lemma_idx_of(rs2, id, w);
    assert(has_replica(rs2, id));
    assert(ensure_replica(rs2, id, root) == rs2);
    assert(idx_of(rs2, id) == w);
    assert(replica_watching(rs2[w].replica, cur)) by {
        if replica_watching(rs1[w].replica, cur) {
            let j = choose|j: int|
                0 <= j < rs1[w].replica.paths.len() && path_starts_with(
                    cur,
                    rs1[w].replica.paths[j],
                );
            assert(rs2[w].replica.paths[j] == rs1[w].replica.paths[j]);
        } else {
            lemma_starts_with_refl(cur);
            let n = rs2[w].replica.paths.len();
            assert(rs2[w].replica.paths[n - 1] == cur);
        }
    }
    assert(add_watch_path(rs2, id, cur) == rs2);
}

/// Two identical filesystem events collapse: the second changes no pending
/// set (each relative path it would add is already there).
pub proof fn lemma_fs_step_idempotent(pre: StateV, p: PathV)
    ensures
        fs_step(fs_step(pre, Some(p)), Some(p)).replicas == fs_step(pre, Some(p)).replicas,
{
    let st1 = fs_step(pre, Some(p));
    let cands = candidates(pre.links, p);
    assert(st1.links == pre.links);
    let st2 = fs_step(st1, Some(p));
    assert forall|k: int| 0 <= k < st2.replicas.len() implies #[trigger] st2.replicas[k]
        == st1.replicas[k] by {
        assert(st1.replicas[k] == fs_entry(pre.replicas[k], cands));
        assert(st2.replicas[k] == fs_entry(st1.replicas[k], cands));
        let pend0 = pre.replicas[k].replica.pending;
        let rels = rels_of(cands, pre.replicas[k].replica.root);
        let pend1 = pend_all(pend0, rels);
        lemma_pend_all_contains(pend0, rels);
        assert forall|j: int| 0 <= j < rels.len() implies pend1.contains(#[trigger] rels[j]) by {
            assert(rels.contains(rels[j]));
        }
        lemma_pend_all_noop(pend1, rels);
        assert(st2.replicas[k] =~~= st1.replicas[k]);
    }
    assert(st2.replicas =~= st1.replicas);
}

/// A filesystem event that falls under no replica root — directly or
/// through an alias — changes nothing and produces no output.
pub proof fn lemma_fs_step_no_match(pre: StateV, p: PathV)
    requires
        forall|k: int|
            0 <= k < pre.replicas.len() ==> rels_of(
                candidates(pre.links, p),
                (#[trigger] pre.replicas[k]).replica.root,
            ).len() == 0,
    ensures
        fs_step(pre, Some(p)).out == pre.out,
        fs_step(pre, Some(p)).replicas == pre.replicas,
{
    let cands = candidates(pre.links, p);
    lemma_matched_ids_empty(pre.replicas, cands);
    assert(matched_ids(pre.replicas, cands).map_values(|id: Seq<u8>| crate::monitor::changes_line(id))
        =~= Seq::<Seq<u8>>::empty());
    assert(fs_step(pre, Some(p)).out =~= pre.out);
    assert forall|k: int| 0 <= k < pre.replicas.len() implies #[trigger] fs_replicas(
        pre.replicas,
        cands,
    )[k] == pre.replicas[k] by {
        assert(rels_of(cands, pre.replicas[k].replica.root).len() == 0);
        assert(fs_entry(pre.replicas[k], cands) =~~= pre.replicas[k]);
    }
    assert(fs_replicas(pre.replicas, cands) =~= pre.replicas);
}

/// Output lines are only ever appended: whatever one input line does, the
/// lines already written stay, in order.
pub proof fn lemma_output_grows(pre: StateV, post: StateV, line: Seq<u8>, r: Result<(), Fatal>)
    requires
        crate::monitor::input_post(pre, post, line, r),
    ensures
        pre.out.is_prefix_of(post.out),
{
    lemma_verb_appends(pre, post, line, r);
    assert(pre.out =~= post.out.subrange(0, pre.out.len() as int));
}

/// Every verb appends to the output: zero lines, one line, or — for
/// `CHANGES` — one line per drained path and `DONE`; never more than one
/// line for any verb but `CHANGES`.
pub proof fn lemma_verb_appends(pre: StateV, post: StateV, line: Seq<u8>, r: Result<(), Fatal>)
    requires
        crate::monitor::input_post(pre, post, line, r),
    ensures
        pre.out.len() <= post.out.len(),
        post.out.subrange(0, pre.out.len() as int) == pre.out,
        crate::codec::cmd_of(line) != crate::bytes::ascii_seq("CHANGES"@) ==> post.out.len()
            <= pre.out.len() + 1,
{
    let cmd = crate::codec::cmd_of(line);
    let args = crate::codec::args_of(line);
    if cmd == crate::bytes::ascii_seq("VERSION"@) {
        assert(post.out.subrange(0, pre.out.len() as int) =~= pre.out);
    } else if cmd == crate::bytes::ascii_seq("START"@) {
        assert(post.out.subrange(0, pre.out.len() as int) =~= pre.out);
    } else if cmd == crate::bytes::ascii_seq("DIR"@) {
        assert(post.out.subrange(0, pre.out.len() as int) =~= pre.out);
    } else if cmd == crate::bytes::ascii_seq("LINK"@) {
        match r {
            Ok(()) => {
                let canon = choose|canon: PathV|
                    post == crate::monitor::link_ok(
                        pre,
                        crate::path::path_join(
                            pre.current,
                            crate::path::path_of(crate::monitor::link_rel(args)),
                        ),
                        canon,
                    );
                assert(post.out == pre.out.push(crate::monitor::ok_line()));
            },
            Err(f) => {},
        }
        assert(post.out.subrange(0, pre.out.len() as int) =~= pre.out);
    } else if cmd == crate::bytes::ascii_seq("WAIT"@) {
        assert(post.out.subrange(0, pre.out.len() as int) =~= pre.out);
    } else if cmd == crate::bytes::ascii_seq("CHANGES"@) {
        assert(post.out.subrange(0, pre.out.len() as int) =~= pre.out);
    } else if cmd == crate::bytes::ascii_seq("RESET"@) {
        assert(post.out.subrange(0, pre.out.len() as int) =~= pre.out);
    } else if cmd == crate::bytes::ascii_seq("DEBUG"@) || cmd == crate::bytes::ascii_seq(
        "DONE"@,
    ) {
        assert(post.out.subrange(0, pre.out.len() as int) =~= pre.out);
    } else {
        assert(!crate::monitor::known_verb(cmd));
        assert(post.out.subrange(0, pre.out.len() as int) =~= pre.out);
    }
}

/// A filesystem event, too, only appends to the output.
pub proof fn lemma_fs_output_grows(pre: StateV, p: Option<PathV>)
    ensures
        fs_step(pre, p).out.subrange(0, pre.out.len() as int) == pre.out,
        pre.out.len() <= fs_step(pre, p).out.len(),
{
    match p {
        Option::None => {
            assert(fs_step(pre, p).out.subrange(0, pre.out.len() as int) =~= pre.out);
        },
        Option::Some(pv) => {
            assert(fs_step(pre, p).out.subrange(0, pre.out.len() as int) =~= pre.out);
        },
    }
}

/// No candidate matching any root means nobody is notified.
proof fn lemma_matched_ids_empty(rs: Seq<EntryV>, cands: Seq<PathV>)
    requires
        forall|k: int|
            0 <= k < rs.len() ==> rels_of(cands, (#[trigger] rs[k]).replica.root).len() == 0,
    ensures
        matched_ids(rs, cands).len() == 0,
    decreases rs.len(),
{
    if rs.len() > 0 {
        assert forall|k: int| 0 <= k < rs.drop_last().len() implies rels_of(
            cands,
            (#[trigger] rs.drop_last()[k]).replica.root,
        ).len() == 0 by {
            assert(rs.drop_last()[k] == rs[k]);
        }
        lemma_matched_ids_empty(rs.drop_last(), cands);
        assert(rels_of(cands, rs.last().replica.root).len() == 0);
    }
}

} // verus!
