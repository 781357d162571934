//! The event dispatcher: a single consumer that multiplexes protocol input
//! lines and raw filesystem events over one piece of state — the replica
//! registry, the link map, the current subtree and the buffered output
//! lines — and is a function from state and event to next state and output.
//!
//! The platform notification backend stands behind the [`Watch`]
//! capability; the byte streams stand behind plain values: an input line
//! arrives as bytes, responses accumulate in [`Monitor::out`] for the
//! caller to write.

use vstd::prelude::*;

use crate::bytes::{ascii_seq, bytes_eq, clone_bytes, extend_bytes, lit_bytes, tok_is};
use crate::codec::{args_of, build_line, cmd_of, enc, line_of, parse_input};
use crate::path::{
    clone_paths, insert_path, lemma_path_of_nonempty, path_is_empty, path_join, path_of,
    path_render,
    path_starts_with, path_strip, pset_insert, MPath, PathV,
};
use crate::replica::{replica_watching, Replica, ReplicaV};

verus! {

/// What the platform layer reports when a watch, unwatch or resolution
/// fails. Fatal to the monitor.
#[derive(Debug)]
pub struct WatchError {
    /// The platform's message, as bytes.
    pub msg: Vec<u8>,
}

/// Why the monitor must stop.
#[derive(Debug)]
pub enum Fatal {
    /// A protocol error; the `ERROR` line has been placed on the output.
    Protocol,
    /// The platform layer failed; nothing was placed on the output.
    Watch(WatchError),
}

/// One event for the dispatcher: a protocol line, or a raw filesystem
/// event reduced to its optional absolute path.
pub enum Event {
    /// One line read from the parent, as raw bytes.
    Input(Vec<u8>),
    /// One raw filesystem notification: the path it names, when it names
    /// one.
    Fs(Option<Vec<u8>>),
}

/// The platform capability the dispatcher drives: subscribe to and drop
/// kernel notifications for a subtree, and resolve a path to its canonical
/// form. A stub that succeeds on every call is a valid implementation.
pub trait Watch {
    /// Begins delivering events for `path`; the whole subtree when
    /// `recursive`.
    fn watch(&mut self, path: &MPath, recursive: bool) -> Result<(), WatchError>;

    /// Stops delivering events for `path`.
    fn unwatch(&mut self, path: &MPath) -> Result<(), WatchError>;

    /// The canonical form of `path`, with symbolic links resolved.
    fn canonicalize(&self, path: &MPath) -> Result<MPath, WatchError>;
}

/// A watcher that accepts every call and resolves every path to itself.
pub struct StubWatch {}

impl Watch for StubWatch {
    fn watch(&mut self, _path: &MPath, _recursive: bool) -> (r: Result<(), WatchError>)
        ensures
            r is Ok,
    {
        Ok(())
    }

    fn unwatch(&mut self, _path: &MPath) -> (r: Result<(), WatchError>)
        ensures
            r is Ok,
    {
        Ok(())
    }

    fn canonicalize(&self, path: &MPath) -> (r: Result<MPath, WatchError>)
        ensures
            r matches Ok(p) && p@ == path@,
    {
        Ok(path.clone())
    }
}

/// A registry entry: a replica under its identifier.
pub struct ReplicaEntry {
    /// The opaque identifier the parent chose.
    pub id: Vec<u8>,
    /// The replica's state.
    pub replica: Replica,
}

/// The mathematical value of a registry entry.
#[verifier::ext_equal]
pub ghost struct EntryV {
    /// The opaque identifier the parent chose.
    pub id: Seq<u8>,
    /// The replica's state.
    pub replica: ReplicaV,
}

impl View for ReplicaEntry {
    type V = EntryV;

    open spec fn view(&self) -> EntryV {
        EntryV { id: self.id@, replica: self.replica@ }
    }
}

impl DeepView for ReplicaEntry {
    type V = EntryV;

    open spec fn deep_view(&self) -> EntryV {
        self.view()
    }
}

/// A link-map entry: the symbolic-link paths that alias one canonical
/// path.
pub struct LinkEntry {
    /// The canonical path the links point at.
    pub canon: MPath,
    /// The link paths, duplicate-free: a set.
    pub links: Vec<MPath>,
}

/// The mathematical value of a link-map entry.
#[verifier::ext_equal]
pub ghost struct LinkV {
    /// The canonical path the links point at.
    pub canon: PathV,
    /// The link paths, as the distinct values of this sequence.
    pub links: Seq<PathV>,
}

impl View for LinkEntry {
    type V = LinkV;

    open spec fn view(&self) -> LinkV {
        LinkV { canon: self.canon@, links: self.links.deep_view() }
    }
}

impl DeepView for LinkEntry {
    type V = LinkV;

    open spec fn deep_view(&self) -> LinkV {
        self.view()
    }
}

/// The mathematical value of the monitor's state. The watcher handle has
/// no mathematical content and is not part of it.
#[verifier::ext_equal]
pub ghost struct StateV {
    /// The effective path of the last `START`, against which `LINK`
    /// arguments resolve.
    pub current: PathV,
    /// The replica registry, in registration order, identifiers distinct.
    pub replicas: Seq<EntryV>,
    /// The link map, in registration order, canonical paths distinct.
    pub links: Seq<LinkV>,
    /// Every line placed on the output so far, in order.
    pub out: Seq<Seq<u8>>,
}

/// The monitor: all state of the process, mutated only by
/// [`Monitor::handle_event`].
pub struct Monitor<W: Watch> {
    /// The effective path of the last `START`.
    pub current_path: MPath,
    /// The replica registry.
    pub replicas: Vec<ReplicaEntry>,
    /// The link map.
    pub link_map: Vec<LinkEntry>,
    /// The platform watcher.
    pub watcher: W,
    /// Response lines not yet taken by the caller.
    pub out: Vec<Vec<u8>>,
}

impl<W: Watch> View for Monitor<W> {
    type V = StateV;

    open spec fn view(&self) -> StateV {
        StateV {
            current: self.current_path@,
            replicas: self.replicas.deep_view(),
            links: self.link_map.deep_view(),
            out: self.out.deep_view(),
        }
    }
}

/// Whether some replica in the registry watches a path covering `p`.
pub open spec fn any_watching(rs: Seq<EntryV>, p: PathV) -> bool {
    exists|i: int| 0 <= i < rs.len() && replica_watching(#[trigger] rs[i].replica, p)
}

/// Whether some entry carries `id`.
pub open spec fn has_replica(rs: Seq<EntryV>, id: Seq<u8>) -> bool {
    exists|i: int| 0 <= i < rs.len() && rs[i].id == id
}

/// The index of the entry carrying `id`; meaningful under [`unique_ids`]
/// when [`has_replica`] holds.
pub open spec fn idx_of(rs: Seq<EntryV>, id: Seq<u8>) -> int {
    choose|i: int| 0 <= i < rs.len() && rs[i].id == id
}

/// Identifiers name at most one replica.
pub open spec fn unique_ids(rs: Seq<EntryV>) -> bool {
    forall|i: int, j: int| 0 <= i < j < rs.len() ==> rs[i].id != rs[j].id
}

/// Canonical paths key at most one link-map entry.
pub open spec fn unique_reals(ls: Seq<LinkV>) -> bool {
    forall|i: int, j: int| 0 <= i < j < ls.len() ==> ls[i].canon != ls[j].canon
}

/// What holds of every entry: the root is not the empty path (it came from
/// a non-empty protocol token), and every pending change is relative.
pub open spec fn entry_wf(e: EntryV) -> bool {
    &&& !path_is_empty(e.replica.root)
    &&& forall|j: int| 0 <= j < e.replica.pending.len() ==> !(#[trigger] e.replica.pending[j]).abs
}

/// The monitor's invariant: distinct identifiers, distinct canonical link
/// paths, and every entry well formed. Constructors establish it and every
/// operation preserves it; its pending-changes clause is the guarantee
/// that only relative paths are ever reported.
pub open spec fn state_wf(st: StateV) -> bool {
    &&& unique_ids(st.replicas)
    &&& unique_reals(st.links)
    &&& forall|i: int| 0 <= i < st.replicas.len() ==> entry_wf(#[trigger] st.replicas[i])
}

/// `st` with lines appended to the output.
pub open spec fn with_out(st: StateV, lines: Seq<Seq<u8>>) -> StateV {
    StateV { out: st.out + lines, ..st }
}

/// The acknowledgement line.
pub open spec fn ok_line() -> Seq<u8> {
    ascii_seq("OK"@)
}

/// The line ending a `CHANGES` reply.
pub open spec fn done_line() -> Seq<u8> {
    ascii_seq("DONE"@)
}

/// The handshake reply.
pub open spec fn version_line() -> Seq<u8> {
    line_of(ascii_seq("VERSION"@), seq![enc(ascii_seq("1"@))])
}

/// The notification that replica `id` has pending changes.
pub open spec fn changes_line(id: Seq<u8>) -> Seq<u8> {
    line_of(ascii_seq("CHANGES"@), seq![enc(id)])
}

/// One changed subtree inside a `CHANGES` reply.
pub open spec fn recursive_line(rel: PathV) -> Seq<u8> {
    line_of(ascii_seq("RECURSIVE"@), seq![enc(path_render(rel))])
}

/// A fatal error report.
pub open spec fn error_line(msg: Seq<u8>) -> Seq<u8> {
    line_of(ascii_seq("ERROR"@), seq![enc(msg)])
}

/// The message for `WAIT` or `CHANGES` naming an id never started or
/// already reset.
pub open spec fn unknown_replica_msg(id: Seq<u8>) -> Seq<u8> {
    ascii_seq("Unknown replica: "@) + id
}

/// The message for a verb the monitor does not know.
pub open spec fn unexpected_cmd_msg(cmd: Seq<u8>) -> Seq<u8> {
    ascii_seq("Unexpected cmd: "@) + cmd
}

/// The message for a protocol version other than `1`.
pub open spec fn unexpected_version_msg(v: Seq<u8>) -> Seq<u8> {
    ascii_seq("Unexpected version: "@) + v
}

/// The message for a verb that arrived without a required argument.
pub open spec fn missing_arg_msg(cmd: Seq<u8>) -> Seq<u8> {
    ascii_seq("Missing argument: "@) + cmd
}

impl<W: Watch> Monitor<W> {
    /// A fresh monitor around a watcher: empty registry, empty link map,
    /// empty current subtree, nothing on the output.
    pub fn new(watcher: W) -> (r: Monitor<W>)
        ensures
            r@ == (StateV {
                current: PathV { abs: false, segs: Seq::empty() },
                replicas: Seq::empty(),
                links: Seq::empty(),
                out: Seq::empty(),
            }),
            state_wf(r@),
    {
        let r = Monitor {
            current_path: MPath::empty(),
            replicas: Vec::new(),
            link_map: Vec::new(),
            watcher,
            out: Vec::new(),
        };
        proof {
            assert(r@ =~~= (StateV {
                current: PathV { abs: false, segs: Seq::empty() },
                replicas: Seq::empty(),
                links: Seq::empty(),
                out: Seq::empty(),
            }));
        }
        r
    }

    /// Whether any replica watches a path covering `path`.
    pub fn is_watching(&self, path: &MPath) -> (r: bool)
        ensures
            r == any_watching(self@.replicas, path@),
    {
        let mut i: usize = 0;
        while i < self.replicas.len()
            invariant
                i <= self.replicas.len(),
                forall|j: int|
                    0 <= j < i ==> !replica_watching(
                        #[trigger] self.replicas.deep_view()[j].replica,
                        path@,
                    ),
            decreases self.replicas.len() - i,
        {
            if self.replicas[i].replica.is_watching(path) {
                proof {
                    assert(0 <= i < self@.replicas.len() && replica_watching(
                        self@.replicas[i as int].replica,
                        path@,
                    ));
                    assert(any_watching(self@.replicas, path@));
                }
                return true;
            }
            i += 1;
        }
        false
    }

    /// The position of `id` in the registry.
    fn find_replica(&self, id: &Vec<u8>) -> (r: Option<usize>)
        requires
            unique_ids(self@.replicas),
        ensures
            match r {
                Some(i) => 0 <= i < self@.replicas.len() && self@.replicas[i as int].id == id@
                    && has_replica(self@.replicas, id@) && idx_of(self@.replicas, id@) == i as int,
                None => !has_replica(self@.replicas, id@),
            },
    {
        let mut i: usize = 0;
        while i < self.replicas.len()
            invariant
                i <= self.replicas.len(),
                unique_ids(self@.replicas),
                forall|j: int| 0 <= j < i ==> self.replicas.deep_view()[j].id != id@,
            decreases self.replicas.len() - i,
        {
            if bytes_eq(&self.replicas[i].id, id) {
                proof {
                    assert(self@.replicas[i as int].id == id@);
                    assert(has_replica(self@.replicas, id@));
                    let w = idx_of(self@.replicas, id@);
                    assert(0 <= w < self@.replicas.len() && self@.replicas[w].id == id@);
                    assert(unique_ids(self@.replicas));
                    assert(w == i as int);
                }
                return Some(i);
            }
            i += 1;
        }
        proof {
            assert(!has_replica(self@.replicas, id@));
        }
        None
    }

    /// Places one finished line on the output.
    fn push_line(&mut self, line: Vec<u8>)
        ensures
            final(self)@ == (StateV { out: old(self)@.out.push(line@), ..old(self)@ }),
    {
        self.out.push(line);
        proof {
            assert(self@ =~~= (StateV { out: old(self)@.out.push(line@), ..old(self)@ }));
        }
    }

    /// Acknowledges with `OK`.
    fn send_ack(&mut self)
        ensures
            final(self)@ == with_out(old(self)@, seq![ok_line()]),
    {
        proof {
            reveal_strlit("OK");
            assert("OK".is_ascii());
        }
        let line = lit_bytes("OK");
        self.push_line(line);
        proof {
            assert(old(self)@.out.push(ok_line()) =~= old(self)@.out + seq![ok_line()]);
        }
    }

    /// Ends a `CHANGES` reply with `DONE`.
    fn send_done(&mut self)
        ensures
            final(self)@ == with_out(old(self)@, seq![done_line()]),
    {
        proof {
            reveal_strlit("DONE");
            assert("DONE".is_ascii());
        }
        let line = lit_bytes("DONE");
        self.push_line(line);
        proof {
            assert(old(self)@.out.push(done_line()) =~= old(self)@.out + seq![done_line()]);
        }
    }

    /// Replies to the handshake with `VERSION 1`.
    fn send_version(&mut self)
        ensures
            final(self)@ == with_out(old(self)@, seq![version_line()]),
    {
        proof {
            reveal_strlit("VERSION");
            reveal_strlit("1");
            assert("VERSION".is_ascii());
            assert("1".is_ascii());
        }
        let cmd = lit_bytes("VERSION");
        let mut args: Vec<Vec<u8>> = Vec::new();
        args.push(lit_bytes("1"));
        proof {
            assert(args.deep_view() =~~= seq![ascii_seq("1"@)]);
            assert(args.deep_view().map_values(|a: Seq<u8>| enc(a)) =~= seq![
                enc(ascii_seq("1"@)),
            ]);
        }
        let line = build_line(&cmd, &args);
        self.push_line(line);
        proof {
            assert(old(self)@.out.push(version_line()) =~= old(self)@.out + seq![version_line()]);
        }
    }

    /// Notifies the parent that replica `id` has pending changes.
    fn send_changes(&mut self, id: &Vec<u8>)
        ensures
            final(self)@ == with_out(old(self)@, seq![changes_line(id@)]),
    {
        proof {
            reveal_strlit("CHANGES");
            assert("CHANGES".is_ascii());
        }
        let cmd = lit_bytes("CHANGES");
        let mut args: Vec<Vec<u8>> = Vec::new();
        args.push(clone_bytes(id));
        proof {
            assert(args.deep_view() =~~= seq![id@]);
            assert(args.deep_view().map_values(|a: Seq<u8>| enc(a)) =~= seq![enc(id@)]);
        }
        let line = build_line(&cmd, &args);
        self.push_line(line);
        proof {
            assert(old(self)@.out.push(changes_line(id@)) =~= old(self)@.out + seq![changes_line(
                id@,
            )]);
        }
    }

    /// Reports one changed subtree inside a `CHANGES` reply.
    fn send_recursive(&mut self, rel: &MPath)
        ensures
            final(self)@ == with_out(old(self)@, seq![recursive_line(rel@)]),
    {
        proof {
            reveal_strlit("RECURSIVE");
            assert("RECURSIVE".is_ascii());
        }
        let cmd = lit_bytes("RECURSIVE");
        let mut args: Vec<Vec<u8>> = Vec::new();
        args.push(rel.render());
        proof {
            assert(args.deep_view() =~~= seq![path_render(rel@)]);
            assert(args.deep_view().map_values(|a: Seq<u8>| enc(a)) =~= seq![
                enc(path_render(rel@)),
            ]);
        }
        let line = build_line(&cmd, &args);
        self.push_line(line);
        proof {
            assert(old(self)@.out.push(recursive_line(rel@)) =~= old(self)@.out + seq![
                recursive_line(rel@),
            ]);
        }
    }

    /// Registers or extends replica `id` with root `root_arg`, making the
    /// effective path (root joined with `subdir` when present) the current
    /// subtree and watching it unless a watched path already covers it.
    /// Acknowledges with `OK`; a failing watch call is fatal and leaves
    /// the path unwatched and nothing acknowledged.
    pub fn start(&mut self, id: &Vec<u8>, root_arg: &Vec<u8>, subdir: Option<&Vec<u8>>) -> (r:
        Result<(), Fatal>)
        requires
            state_wf(old(self)@),
            root_arg@.len() > 0,
        ensures
            state_wf(final(self)@),
            match r {
                Ok(()) => final(self)@ == start_ok(
                    old(self)@,
                    id@,
                    path_of(root_arg@),
                    opt_path_of(subdir),
                ),
                Err(f) => {
                    &&& f matches Fatal::Watch(_)
                    &&& final(self)@ == start_fail(
                        old(self)@,
                        id@,
                        path_of(root_arg@),
                        opt_path_of(subdir),
                    )
                    &&& !replica_watching(
                        replica_of(
                            ensure_replica(old(self)@.replicas, id@, path_of(root_arg@)),
                            id@,
                        ),
                        start_target(path_of(root_arg@), opt_path_of(subdir)),
                    )
                },
            },
    {
        let ghost pre = self@;
        let ghost rootv = path_of(root_arg@);
        let ghost curv = start_target(rootv, opt_path_of(subdir));
        let root = MPath::parse(root_arg);
        let cur = match subdir {
            None => root.clone(),
            Some(s) => {
                let sp = MPath::parse(s);
                root.join(&sp)
            },
        };
        self.current_path = cur;
        proof {
            assert(self@.current == curv);
        }
        let ghost rs1 = ensure_replica(pre.replicas, id@, rootv);
        let idx: usize;
        match self.find_replica(id) {
            Some(i) => {
                idx = i;
                proof {
                    assert(self@.replicas =~~= rs1);
                }
            },
            None => {
                idx = self.replicas.len();
                let entry = ReplicaEntry { id: clone_bytes(id), replica: Replica::new(root) };
                let ghost ev = entry@;
                self.replicas.push(entry);
                proof {
                    assert(self@.replicas =~~= pre.replicas.push(ev));
                    assert(self@.replicas =~~= rs1);
                }
            },
        }
        proof {
            assert(unique_ids(rs1)) by {
                if !has_replica(pre.replicas, id@) {
                    assert(forall|i: int|
                        0 <= i < pre.replicas.len() ==> #[trigger] pre.replicas[i].id != id@);
                }
            }
            assert(rs1[idx as int].id == id@);
            lemma_idx_of(rs1, id@, idx as int);
            lemma_path_of_nonempty(root_arg@);
            assert(forall|i: int| 0 <= i < rs1.len() ==> entry_wf(#[trigger] rs1[i]));
        }
        let watching = self.replicas[idx].replica.is_watching(&self.current_path);
        proof {
            assert(watching == replica_watching(replica_of(rs1, id@), curv));
        }
        if !watching {
            match self.watcher.watch(&self.current_path, true) {
                Ok(()) => {
                    let mut entry = self.replicas.remove(idx);
                    entry.replica.paths.push(self.current_path.clone());
                    let ghost ev = entry@;
                    self.replicas.insert(idx, entry);
                    proof {
                        assert(self@.replicas =~~= rs1.update(idx as int, ev));
                        assert(self@.replicas =~~= add_watch_path(rs1, id@, curv));
                    }
                },
                Err(e) => {
                    proof {
                        assert(self@ =~~= start_fail(pre, id@, rootv, opt_path_of(subdir)));
                        assert(forall|i: int|
                            0 <= i < self@.replicas.len() ==> entry_wf(#[trigger] self@.replicas[i]));
                    }
                    return Err(Fatal::Watch(e));
                },
            }
        } else {
            proof {
                assert(self@.replicas =~~= add_watch_path(rs1, id@, curv));
            }
        }
        self.send_ack();
        proof {
            assert(self@ =~~= start_ok(pre, id@, rootv, opt_path_of(subdir)));
            assert(forall|i: int|
                0 <= i < self@.replicas.len() ==> entry_wf(#[trigger] self@.replicas[i]));
            assert(unique_ids(self@.replicas));
        }
        Ok(())
    }

    /// Acknowledges `DIR` with `OK`; directory enumeration is already
    /// covered by the recursive watch, so no state changes.
    pub fn dir(&mut self, _rel: Option<&Vec<u8>>)
        ensures
            final(self)@ == with_out(old(self)@, seq![ok_line()]),
    {
        self.send_ack();
    }

    /// Checks that replica `id` exists before the parent waits on it; an
    /// unknown identifier is a fatal error.
    pub fn wait(&mut self, id: &Vec<u8>) -> (r: Result<(), Fatal>)
        requires
            state_wf(old(self)@),
        ensures
            state_wf(final(self)@),
            has_replica(old(self)@.replicas, id@) ==> final(self)@ == old(self)@ && r == Ok::<
                (),
                Fatal,
            >(()),
            !has_replica(old(self)@.replicas, id@) ==> final(self)@ == with_out(
                old(self)@,
                seq![error_line(unknown_replica_msg(id@))],
            ) && r == Err::<(), Fatal>(Fatal::Protocol),
    {
        if self.find_replica(id).is_none() {
            proof {
                reveal_strlit("Unknown replica: ");
                assert("Unknown replica: ".is_ascii());
            }
            let msg = msg_with("Unknown replica: ", id);
            self.send_error(msg);
            return Err(Fatal::Protocol);
        }
        Ok(())
    }

    /// Answers a verb that arrived without its required argument: a fatal
    /// protocol error.
    fn fail_missing(&mut self, cmd: &Vec<u8>) -> (r: Result<(), Fatal>)
        ensures
            final(self)@ == with_out(old(self)@, seq![error_line(missing_arg_msg(cmd@))]),
            r == Err::<(), Fatal>(Fatal::Protocol),
    {
        proof {
            reveal_strlit("Missing argument: ");
            assert("Missing argument: ".is_ascii());
        }
        let msg = msg_with("Missing argument: ", cmd);
        self.send_error(msg);
        Err(Fatal::Protocol)
    }

    /// Handles the handshake: replies `VERSION 1` to version `1`, anything
    /// else is a fatal error.
    fn do_version(&mut self, args: &Vec<Vec<u8>>) -> (r: Result<(), Fatal>)
        ensures
            args.deep_view().len() == 0 ==> final(self)@ == with_out(
                old(self)@,
                seq![error_line(missing_arg_msg(ascii_seq("VERSION"@)))],
            ) && r == Err::<(), Fatal>(Fatal::Protocol),
            args.deep_view().len() > 0 && args.deep_view()[0] == ascii_seq("1"@) ==> final(self)@
                == with_out(old(self)@, seq![version_line()]) && r == Ok::<(), Fatal>(()),
            args.deep_view().len() > 0 && args.deep_view()[0] != ascii_seq("1"@) ==> final(self)@
                == with_out(old(self)@, seq![error_line(unexpected_version_msg(args.deep_view()[0]))])
                && r == Err::<(), Fatal>(Fatal::Protocol),
    {
        if args.len() == 0 {
            proof {
                reveal_strlit("VERSION");
                assert("VERSION".is_ascii());
            }
            let cmd = lit_bytes("VERSION");
            return self.fail_missing(&cmd);
        }
        proof {
            reveal_strlit("1");
            assert("1".is_ascii());
            assert(args.deep_view()[0] =~= args@[0]@);
        }
        if tok_is(&args[0], "1") {
            self.send_version();
            Ok(())
        } else {
            proof {
                reveal_strlit("Unexpected version: ");
                assert("Unexpected version: ".is_ascii());
            }
            let msg = msg_with("Unexpected version: ", &args[0]);
            self.send_error(msg);
            Err(Fatal::Protocol)
        }
    }

    /// Drains replica `id`'s pending changes onto the output, one
    /// `RECURSIVE` line per path in arrival order, then `DONE`. An unknown
    /// `id` is a fatal unknown-replica error, exactly as for `WAIT`.
    pub fn changes(&mut self, id: &Vec<u8>) -> (r: Result<(), Fatal>)
        requires
            state_wf(old(self)@),
        ensures
            state_wf(final(self)@),
            final(self)@ == changes_ok(old(self)@, id@),
            has_replica(old(self)@.replicas, id@) ==> r == Ok::<(), Fatal>(()),
            !has_replica(old(self)@.replicas, id@) ==> r == Err::<(), Fatal>(Fatal::Protocol),
    {
        let ghost pre = self@;
        match self.find_replica(id) {
            None => {
                proof {
                    reveal_strlit("Unknown replica: ");
                    assert("Unknown replica: ".is_ascii());
                }
                let msg = msg_with("Unknown replica: ", id);
                self.send_error(msg);
                proof {
                    assert(pre.out + seq![error_line(unknown_replica_msg(id@))] =~= pre.out.push(
                        error_line(unknown_replica_msg(id@)),
                    ));
                    assert(self@ =~~= changes_ok(pre, id@));
                }
                Err(Fatal::Protocol)
            },
            Some(i) => {
                let pend = clone_paths(&self.replicas[i].replica.pending_changes);
                let ghost pendv = pre.replicas[i as int].replica.pending;
                proof {
                    assert(pend.deep_view() == pendv);
                    assert(pre.out + pendv.take(0).map_values(|p: PathV| recursive_line(p))
                        =~= pre.out);
                }
                let mut j: usize = 0;
                while j < pend.len()
                    invariant
                        j <= pend.len(),
                        pend.deep_view() == pendv,
                        pendv.len() == pend@.len(),
                        self@ == (StateV {
                            out: pre.out + pendv.take(j as int).map_values(
                                |p: PathV| recursive_line(p),
                            ),
                            ..pre
                        }),
                    decreases pend.len() - j,
                {
                    self.send_recursive(&pend[j]);
                    proof {
                        let f = |p: PathV| recursive_line(p);
                        assert(pend@[j as int]@ == pendv[j as int]);
                        assert(pendv.take(j + 1 as int).map_values(f) =~= pendv.take(
                            j as int,
                        ).map_values(f).push(f(pendv[j as int])));
                        assert(self@ =~~= (StateV {
                            out: pre.out + pendv.take(j + 1 as int).map_values(f),
                            ..pre
                        }));
                    }
                    j += 1;
                }
                let ghost vb: Seq<ReplicaEntry> = self.replicas@;
                self.replicas[i].replica.pending_changes = Vec::new();
                let ghost ev = self.replicas@[i as int]@;
                proof {
                    assert(ev =~~= (EntryV {
                        id: pre.replicas[i as int].id,
                        replica: ReplicaV {
                            pending: Seq::empty(),
                            ..pre.replicas[i as int].replica
                        },
                    }));
                    assert forall|k: int|
                        0 <= k < self@.replicas.len() implies self@.replicas[k]
                        == pre.replicas.update(i as int, ev)[k] by {
                        if k != i as int {
                            assert(self.replicas@[k] == vb[k]);
                            assert(vb[k]@ == pre.replicas[k]);
                        }
                    }
                    assert(self@.replicas =~= pre.replicas.update(i as int, ev));
                }
                self.send_done();
                proof {
                    let f = |p: PathV| recursive_line(p);
                    assert(pendv.take(pendv.len() as int) =~= pendv);
                    assert(self@.out =~= pre.out + pre.replicas[i as int].replica.pending.map_values(
                        f,
                    ).push(done_line()));
                    assert(self@ =~~= changes_ok(pre, id@));
                    assert forall|k: int| 0 <= k < self@.replicas.len() implies entry_wf(
                        #[trigger] self@.replicas[k],
                    ) by {
                        if k != i as int {
                            assert(self@.replicas[k] == pre.replicas[k]);
                        }
                    }
                    assert forall|x: int, y: int|
                        0 <= x < y < self@.replicas.len() implies self@.replicas[x].id
                        != self@.replicas[y].id by {
                        assert(self@.replicas[x].id == pre.replicas[x].id);
                        assert(self@.replicas[y].id == pre.replicas[y].id);
                    }
                }
                Ok(())
            },
        }
    }

    /// Removes replica `id`, dropping the watch on each of its paths that
    /// no remaining replica still covers. An unknown `id` changes nothing.
    /// A failing unwatch call is fatal; the replica is gone either way.
    pub fn reset(&mut self, id: &Vec<u8>) -> (r: Result<(), Fatal>)
        requires
            state_wf(old(self)@),
        ensures
            state_wf(final(self)@),
            final(self)@ == (StateV {
                replicas: remove_replica(old(self)@.replicas, id@),
                ..old(self)@
            }),
            ({
                ||| r == Ok::<(), Fatal>(())
                ||| r matches Err(Fatal::Watch(_))
            }),
            r matches Err(_) ==> reset_unwatches(old(self)@.replicas, id@),
    {
        let ghost pre = self@;
        match self.find_replica(id) {
            None => {
                proof {
                    assert(self@ =~~= (StateV {
                        replicas: remove_replica(pre.replicas, id@),
                        ..pre
                    }));
                }
                Ok(())
            },
            Some(i) => {
                let entry = self.replicas.remove(i);
                proof {
                    assert(entry@ == pre.replicas[i as int]);
                    assert(entry@.replica == replica_of(pre.replicas, id@));
                    assert(self@.replicas =~= pre.replicas.remove(i as int));
                    assert(self@ =~~= (StateV {
                        replicas: remove_replica(pre.replicas, id@),
                        ..pre
                    }));
                    assert forall|k: int| 0 <= k < self@.replicas.len() implies entry_wf(
                        #[trigger] self@.replicas[k],
                    ) by {
                        if k < i as int {
                            assert(self@.replicas[k] == pre.replicas[k]);
                        } else {
                            assert(self@.replicas[k] == pre.replicas[k + 1]);
                        }
                    }
                    assert forall|x: int, y: int|
                        0 <= x < y < self@.replicas.len() implies self@.replicas[x].id
                        != self@.replicas[y].id by {
                        let px: int = if x < i as int {
                            x
                        } else {
                            x + 1
                        };
                        let py: int = if y < i as int {
                            y
                        } else {
                            y + 1
                        };
                        assert(self@.replicas[x].id == pre.replicas[px].id);
                        assert(self@.replicas[y].id == pre.replicas[py].id);
                    }
                }
                let mut j: usize = 0;
                while j < entry.replica.paths.len()
                    invariant
                        j <= entry.replica.paths.len(),
                        self@ == (StateV {
                            replicas: remove_replica(old(self)@.replicas, id@),
                            ..old(self)@
                        }),
                        state_wf(self@),
                        has_replica(old(self)@.replicas, id@),
                        entry@.replica == replica_of(old(self)@.replicas, id@),
                    decreases entry.replica.paths.len() - j,
                {
                    if !self.is_watching(&entry.replica.paths[j]) {
                        match self.watcher.unwatch(&entry.replica.paths[j]) {
                            Ok(()) => {},
                            Err(e) => {
                                proof {
                                    assert(entry.replica.paths@[j as int]@
                                        == entry@.replica.paths[j as int]);
                                    assert(!any_watching(
                                        remove_replica(old(self)@.replicas, id@),
                                        replica_of(old(self)@.replicas, id@).paths[j as int],
                                    ));
                                    assert(reset_unwatches(old(self)@.replicas, id@));
                                }
                                return Err(Fatal::Watch(e));
                            },
                        }
                    }
                    j += 1;
                }
                Ok(())
            },
        }
    }

    /// The position of a canonical path in the link map.
    fn find_link(&self, canon: &MPath) -> (r: Option<usize>)
        requires
            unique_reals(self@.links),
        ensures
            match r {
                Some(i) => 0 <= i < self@.links.len() && self@.links[i as int].canon == canon@,
                None => !exists|i: int| 0 <= i < self@.links.len() && self@.links[i].canon == canon@,
            },
    {
        let mut i: usize = 0;
        while i < self.link_map.len()
            invariant
                i <= self.link_map.len(),
                forall|j: int| 0 <= j < i ==> self.link_map.deep_view()[j].canon != canon@,
            decreases self.link_map.len() - i,
        {
            if self.link_map[i].canon.path_eq(canon) {
                proof {
                    assert(self@.links[i as int].canon == canon@);
                }
                return Some(i);
            }
            i += 1;
        }
        None
    }

    /// Follows a symbolic link: resolves `rel` against the current subtree
    /// to its canonical target, watches the target, and records the alias
    /// so that events beneath the target are also attributed under the
    /// link. Acknowledges with `OK`. A failing resolution (a broken link)
    /// or watch call is fatal and leaves the state unchanged.
    pub fn link(&mut self, rel: &Vec<u8>) -> (r: Result<(), Fatal>)
        requires
            state_wf(old(self)@),
        ensures
            state_wf(final(self)@),
            match r {
                Ok(()) => exists|canon: PathV|
                    final(self)@ == link_ok(
                        old(self)@,
                        path_join(old(self)@.current, path_of(rel@)),
                        canon,
                    ),
                Err(f) => ({
                    &&& f matches Fatal::Watch(_)
                    &&& final(self)@ == old(self)@
                }),
            },
    {
        let ghost pre = self@;
        let relp = MPath::parse(rel);
        let target = self.current_path.join(&relp);
        let ghost targetv = target@;
        let canon = match self.watcher.canonicalize(&target) {
            Ok(p) => p,
            Err(e) => {
                return Err(Fatal::Watch(e));
            },
        };
        let ghost canonv = canon@;
        match self.watcher.watch(&canon, true) {
            Ok(()) => {},
            Err(e) => {
                return Err(Fatal::Watch(e));
            },
        }
        match self.find_link(&canon) {
            Some(i) => {
                let ghost lv = pre.links[i as int];
                let ghost vb: Seq<LinkEntry> = self.link_map@;
                let mut e = self.link_map.remove(i);
                insert_path(&mut e.links, target);
                let ghost ge: LinkEntry = e;
                let ghost evv = e@;
                self.link_map.insert(i, e);
                proof {
                    assert(evv =~~= (LinkV { canon: lv.canon, links: pset_insert(lv.links, targetv) }));
                    vb.remove_ensures(i as int);
                    assert forall|k: int|
                        0 <= k < self@.links.len() implies self@.links[k] == pre.links.update(
                        i as int,
                        evv,
                    )[k] by {
                        if k < i as int {
                            assert(self.link_map@[k] == self.link_map@.subrange(
                                0,
                                i as int,
                            ).push(ge)[k]);
                            assert(self.link_map@[k] == vb.remove(i as int)[k]);
                            assert(vb.remove(i as int)[k] == vb[k]);
                            assert(vb[k]@ == pre.links[k]);
                        } else if k == i as int {
                            assert(self.link_map@[k] == ge);
                        } else {
                            assert(self.link_map@[k] == vb.remove(i as int)[k - 1]);
                            assert(vb.remove(i as int)[k - 1] == vb[k]);
                            assert(vb[k]@ == pre.links[k]);
                        }
                    }
                    assert(self@.links =~= pre.links.update(i as int, evv));
                    assert(exists|j: int|
                        0 <= j < pre.links.len() && pre.links[j].canon == canonv);
                    let w = choose|j: int| 0 <= j < pre.links.len() && pre.links[j].canon == canonv;
                    assert(w == i as int);
                    assert(self@.links == link_insert(pre.links, canonv, targetv));
                    assert forall|x: int, y: int|
                        0 <= x < y < self@.links.len() implies self@.links[x].canon
                        != self@.links[y].canon by {
                        assert(self@.links[x].canon == pre.links[x].canon);
                        assert(self@.links[y].canon == pre.links[y].canon);
                    }
                }
            },
            None => {
                let mut links: Vec<MPath> = Vec::new();
                links.push(target);
                let entry = LinkEntry { canon, links };
                let ghost evv = entry@;
                self.link_map.push(entry);
                proof {
                    assert(evv =~~= (LinkV { canon: canonv, links: seq![targetv] }));
                    assert(self@.links =~~= pre.links.push(evv));
                    assert(self@.links == link_insert(pre.links, canonv, targetv));
                    assert forall|x: int, y: int|
                        0 <= x < y < self@.links.len() implies self@.links[x].canon
                        != self@.links[y].canon by {
                        if y < pre.links.len() {
                            assert(self@.links[x].canon == pre.links[x].canon);
                            assert(self@.links[y].canon == pre.links[y].canon);
                        } else {
                            assert(self@.links[x].canon == pre.links[x].canon);
                            assert(self@.links[y].canon == canonv);
                        }
                    }
                }
            },
        }
        self.send_ack();
        proof {
            assert(pre.out + seq![ok_line()] =~= pre.out.push(ok_line()));
            assert(self@ =~~= link_ok(pre, targetv, canonv));
        }
        Ok(())
    }

    /// Attributes one raw filesystem event: materializes the event path
    /// under every alias, adds the relative path to every replica whose
    /// root covers a candidate, and emits one `CHANGES` line per matched
    /// replica. An event no replica matches produces no output.
    fn on_fs_event(&mut self, pathb: &Vec<u8>)
        requires
            state_wf(old(self)@),
        ensures
            state_wf(final(self)@),
            final(self)@ == fs_step(old(self)@, Some(path_of(pathb@))),
    {
        let ghost pre = self@;
        let p = MPath::parse(pathb);
        let ghost pv = p@;
        let mut cands: Vec<MPath> = Vec::new();
        cands.push(p.clone());
        proof {
            assert(pre.links.take(0) =~= Seq::<LinkV>::empty());
            assert(cands.deep_view() =~~= seq![pv] + expand_links(pre.links.take(0), pv));
        }
        let mut i: usize = 0;
        while i < self.link_map.len()
            invariant
                i <= self.link_map.len(),
                self@ == pre,
                p@ == pv,
                cands.deep_view() == seq![pv] + expand_links(pre.links.take(i as int), pv),
            decreases self.link_map.len() - i,
        {
            let ghost pre_c = cands.deep_view();
            let ghost ent = pre.links[i as int];
            match p.strip_prefix(&self.link_map[i].canon) {
                Some(suffix) => {
                    let ghost f = |l: PathV| path_join(l, path_strip(pv, ent.canon));
                    proof {
                        assert(suffix@ == path_strip(pv, ent.canon));
                        assert(ent.links.map_values(f).take(0) =~= Seq::<PathV>::empty());
                        assert(cands.deep_view() =~= pre_c + ent.links.map_values(f).take(0));
                    }
                    let mut j: usize = 0;
                    while j < self.link_map[i].links.len()
                        invariant
                            j <= self.link_map[i as int].links.len(),
                            self@ == pre,
                            p@ == pv,
                            0 <= i < pre.links.len(),
                            ent == pre.links[i as int],
                            suffix@ == path_strip(pv, ent.canon),
                            f == (|l: PathV| path_join(l, path_strip(pv, ent.canon))),
                            ent.links.len() == self.link_map@[i as int].links@.len(),
                            cands.deep_view() == pre_c + ent.links.map_values(f).take(j as int),
                        decreases self.link_map[i as int].links.len() - j,
                    {
                        let ghost c_in = cands.deep_view();
                        cands.push(self.link_map[i].links[j].join(&suffix));
                        proof {
                            assert(self.link_map@[i as int].links@[j as int]@ == ent.links[j as int]);
                            assert(cands.deep_view() =~~= c_in.push(f(ent.links[j as int])));
                            assert(ent.links.map_values(f).take(j + 1 as int) =~= ent.links.map_values(
                                f,
                            ).take(j as int).push(f(ent.links[j as int])));
                            assert(cands.deep_view() =~= pre_c + ent.links.map_values(f).take(
                                j + 1 as int,
                            ));
                        }
                        j += 1;
                    }
                    proof {
                        assert(ent.links.map_values(f).take(ent.links.len() as int)
                            =~= ent.links.map_values(f));
                        assert(path_starts_with(pv, ent.canon));
                        assert(cands.deep_view() =~= pre_c + expand_entry(ent, pv));
                    }
                },
                None => {
                    proof {
                        assert(expand_entry(ent, pv) =~= Seq::<PathV>::empty());
                        assert(cands.deep_view() =~= pre_c + expand_entry(ent, pv));
                    }
                },
            }
            proof {
                assert(pre.links.take(i + 1 as int).drop_last() =~= pre.links.take(i as int));
                assert(pre.links.take(i + 1 as int).last() == ent);
                assert(expand_links(pre.links.take(i + 1 as int), pv) == expand_links(
                    pre.links.take(i as int),
                    pv,
                ) + expand_entry(ent, pv));
                assert(cands.deep_view() =~= seq![pv] + expand_links(pre.links.take(i + 1 as int), pv));
            }
            i += 1;
        }
        proof {
            assert(pre.links.take(pre.links.len() as int) =~= pre.links);
        }
        let ghost candsv = candidates(pre.links, pv);
        proof {
            assert(cands.deep_view() == candsv);
        }
        let mut matched: Vec<Vec<u8>> = Vec::new();
        let mut k: usize = 0;
        proof {
            assert(matched.deep_view() =~~= matched_ids(pre.replicas.take(0), candsv));
        }
        while k < self.replicas.len()
            invariant
                k <= self.replicas.len(),
                cands.deep_view() == candsv,
                self@.replicas.len() == pre.replicas.len(),
                self@.current == pre.current,
                self@.links == pre.links,
                self@.out == pre.out,
                forall|x: int|
                    0 <= x < k ==> #[trigger] self@.replicas[x] == fs_entry(
                        pre.replicas[x],
                        candsv,
                    ),
                forall|x: int|
                    k <= x < pre.replicas.len() ==> #[trigger] self@.replicas[x]
                        == pre.replicas[x],
                matched.deep_view() == matched_ids(pre.replicas.take(k as int), candsv),
            decreases self.replicas.len() - k,
        {
            let ghost entv = pre.replicas[k as int];
            let ghost pendv0 = entv.replica.pending;
            let mut any = false;
            let mut c: usize = 0;
            proof {
                assert(candsv.take(0) =~= Seq::<PathV>::empty());
            }
            while c < cands.len()
                invariant
                    c <= cands.len(),
                    0 <= k < pre.replicas.len(),
                    cands.deep_view() == candsv,
                    cands@.len() == candsv.len(),
                    self@.replicas.len() == pre.replicas.len(),
                    self@.current == pre.current,
                    self@.links == pre.links,
                    self@.out == pre.out,
                    entv == pre.replicas[k as int],
                    forall|x: int|
                        0 <= x < k ==> #[trigger] self@.replicas[x] == fs_entry(
                            pre.replicas[x],
                            candsv,
                        ),
                    forall|x: int|
                        k < x < pre.replicas.len() ==> #[trigger] self@.replicas[x]
                            == pre.replicas[x],
                    self@.replicas[k as int].id == entv.id,
                    self@.replicas[k as int].replica.root == entv.replica.root,
                    self@.replicas[k as int].replica.paths == entv.replica.paths,
                    self@.replicas[k as int].replica.pending == pend_all(
                        entv.replica.pending,
                        rels_of(candsv.take(c as int), entv.replica.root),
                    ),
                    any == (rels_of(candsv.take(c as int), entv.replica.root).len() > 0),
                decreases cands.len() - c,
            {
                let ghost rels_c = rels_of(candsv.take(c as int), entv.replica.root);
                proof {
                    assert(candsv.take(c + 1 as int).drop_last() =~= candsv.take(c as int));
                    assert(candsv.take(c + 1 as int).last() == candsv[c as int]);
                    assert(cands@[c as int]@ == candsv[c as int]);
                }
                let ghost dv_in = self.replicas.deep_view();
                match cands[c].strip_prefix(&self.replicas[k].replica.root) {
                    Some(rel) => {
                        proof {
                            assert(path_starts_with(candsv[c as int], entv.replica.root));
                            assert(rel@ == path_strip(candsv[c as int], entv.replica.root));
                            assert(rels_of(candsv.take(c + 1 as int), entv.replica.root)
                                =~= rels_c.push(rel@));
                        }
                        let ghost vb: Seq<ReplicaEntry> = self.replicas@;
                        insert_path(&mut self.replicas[k].replica.pending_changes, rel);
                        any = true;
                        proof {
                            assert(self.replicas@ == vb.update(
                                k as int,
                                self.replicas@[k as int],
                            ));
                            assert forall|x: int|
                                0 <= x < pre.replicas.len() && x != k implies #[trigger] self@.replicas[x]
                                == dv_in[x] by {
                                assert(self.replicas@[x] == vb[x]);
                                assert(vb[x]@ == dv_in[x]);
                            }
                            assert(self@.replicas[k as int].replica.pending == pset_insert(
                                pend_all(entv.replica.pending, rels_c),
                                rel@,
                            ));
                            let nrels = rels_of(candsv.take(c + 1 as int), entv.replica.root);
                            assert(nrels.drop_last() =~= rels_c);
                            assert(nrels.last() == rel@);
                            assert(pend_all(entv.replica.pending, nrels) == pset_insert(
                                pend_all(entv.replica.pending, rels_c),
                                rel@,
                            ));
                        }
                    },
                    None => {
                        proof {
                            assert(!path_starts_with(candsv[c as int], entv.replica.root));
                            assert(rels_of(candsv.take(c + 1 as int), entv.replica.root)
                                =~= rels_c);
                        }
                    },
                }
                c += 1;
            }
            proof {
                assert(candsv.take(candsv.len() as int) =~= candsv);
                assert(self@.replicas[k as int] =~~= fs_entry(entv, candsv));
            }
            if any {
                let ghost mpre = matched.deep_view();
                matched.push(clone_bytes(&self.replicas[k].id));
                proof {
                    assert(self.replicas@[k as int]@.id == entv.id);
                    assert(matched.deep_view() =~~= mpre.push(entv.id));
                }
            }
            proof {
                assert(pre.replicas.take(k + 1 as int).drop_last() =~= pre.replicas.take(k as int));
                assert(pre.replicas.take(k + 1 as int).last() == entv);
                assert(matched.deep_view() =~= matched_ids(pre.replicas.take(k + 1 as int), candsv));
            }
            k += 1;
        }
        proof {
            assert(pre.replicas.take(pre.replicas.len() as int) =~= pre.replicas);
            assert(self@.replicas =~= fs_replicas(pre.replicas, candsv));
        }
        let ghost mids = matched_ids(pre.replicas, candsv);
        let ghost g = |id: Seq<u8>| changes_line(id);
        let mut m: usize = 0;
        proof {
            assert(self@.out =~= pre.out + mids.take(0).map_values(g));
        }
        while m < matched.len()
            invariant
                m <= matched.len(),
                matched.deep_view() == mids,
                matched@.len() == mids.len(),
                g == (|id: Seq<u8>| changes_line(id)),
                self@ == (StateV {
                    replicas: fs_replicas(pre.replicas, candsv),
                    out: pre.out + mids.take(m as int).map_values(g),
                    ..pre
                }),
            decreases matched.len() - m,
        {
            self.send_changes(&matched[m]);
            proof {
                assert(matched@[m as int]@ == mids[m as int]);
                assert(mids.take(m + 1 as int).map_values(g) =~= mids.take(m as int).map_values(
                    g,
                ).push(g(mids[m as int])));
                assert(self@ =~~= (StateV {
                    replicas: fs_replicas(pre.replicas, candsv),
                    out: pre.out + mids.take(m + 1 as int).map_values(g),
                    ..pre
                }));
            }
            m += 1;
        }
        proof {
            assert(mids.take(mids.len() as int) =~= mids);
            assert(self@ =~~= fs_step(pre, Some(path_of(pathb@))));
            assert forall|x: int| 0 <= x < self@.replicas.len() implies entry_wf(
                #[trigger] self@.replicas[x],
            ) by {
                assert(self@.replicas[x] == fs_entry(pre.replicas[x], candsv));
                assert(entry_wf(pre.replicas[x]));
                lemma_rels_relative(candsv, pre.replicas[x].replica.root);
                lemma_pend_all_relative(
                    pre.replicas[x].replica.pending,
                    rels_of(candsv, pre.replicas[x].replica.root),
                );
            }
            assert forall|x: int, y: int|
                0 <= x < y < self@.replicas.len() implies self@.replicas[x].id
                != self@.replicas[y].id by {
                assert(self@.replicas[x].id == pre.replicas[x].id);
                assert(self@.replicas[y].id == pre.replicas[y].id);
            }
        }
    }

    /// The dispatcher: consumes one event — a protocol line or a raw
    /// filesystem event — mutates the state as the verb or the attribution
    /// rules say, and buffers the response lines. `Ok` means the loop goes
    /// on; `Err` is fatal and the caller exits.
    pub fn handle_event(&mut self, ev: Event) -> (r: Result<(), Fatal>)
        requires
            state_wf(old(self)@),
        ensures
            state_wf(final(self)@),
            (ev matches Event::Fs(p) ==> r == Ok::<(), Fatal>(()) && final(self)@ == fs_step(
                old(self)@,
                match p {
                    Option::Some(b) => Option::Some(path_of(b@)),
                    Option::None => Option::None,
                },
            )),
            (ev matches Event::Input(line) ==> input_post(old(self)@, final(self)@, line@, r)),
    {
        match ev {
            Event::Fs(None) => Ok(()),
            Event::Fs(Some(b)) => {
                self.on_fs_event(&b);
                Ok(())
            },
            Event::Input(line) => {
                let ghost pre = self@;
                let (cmd, args) = parse_input(&line);
                proof {
                    reveal_strlit("VERSION");
                    reveal_strlit("START");
                    reveal_strlit("DIR");
                    reveal_strlit("LINK");
                    reveal_strlit("WAIT");
                    reveal_strlit("CHANGES");
                    reveal_strlit("RESET");
                    reveal_strlit("DEBUG");
                    reveal_strlit("DONE");
                    assert("VERSION".is_ascii() && "START".is_ascii() && "DIR".is_ascii()
                        && "LINK".is_ascii() && "WAIT".is_ascii() && "CHANGES".is_ascii()
                        && "RESET".is_ascii() && "DEBUG".is_ascii() && "DONE".is_ascii());
                    assert(ascii_seq("LINK"@)[0] != ascii_seq("WAIT"@)[0]);
                    assert(ascii_seq("LINK"@)[0] != ascii_seq("DONE"@)[0]);
                    assert(ascii_seq("WAIT"@)[0] != ascii_seq("DONE"@)[0]);
                    assert(ascii_seq("START"@)[0] != ascii_seq("RESET"@)[0]);
                    assert(ascii_seq("START"@)[0] != ascii_seq("DEBUG"@)[0]);
                    assert(ascii_seq("RESET"@)[0] != ascii_seq("DEBUG"@)[0]);
                    assert(ascii_seq("VERSION"@)[0] != ascii_seq("CHANGES"@)[0]);
                    crate::bytes::lemma_split_runs_nonempty(
                        crate::bytes::Sep::Whitespace,
                        line@,
                    );
                    assert forall|x: int| 0 <= x < args_of(line@).len() implies #[trigger] args_of(
                        line@,
                    )[x].len() > 0 by {
                        let toks = crate::codec::tokens_of(line@);
                        assert(args_of(line@)[x] == crate::codec::dec(toks.skip(1)[x]));
                        assert(toks.skip(1)[x] == toks[x + 1]);
                        assert(toks[x + 1].len() > 0);
                        crate::codec::lemma_dec_nonempty(toks[x + 1]);
                    }
                    assert forall|x: int| 0 <= x < args@.len() implies #[trigger] args@[x]@
                        == args_of(line@)[x] by {
                        assert(args.deep_view()[x] == args@[x]@);
                    }
                }
                if tok_is(&cmd, "VERSION") {
                    self.do_version(&args)
                } else if tok_is(&cmd, "START") {
                    if args.len() < 2 {
                        self.fail_missing(&cmd)
                    } else {
                        let sub = if args.len() >= 3 {
                            Some(&args[2])
                        } else {
                            None
                        };
                        self.start(&args[0], &args[1], sub)
                    }
                } else if tok_is(&cmd, "DIR") {
                    self.dir(if args.len() >= 1 {
                        Some(&args[0])
                    } else {
                        None
                    });
                    Ok(())
                } else if tok_is(&cmd, "LINK") {
                    if args.len() >= 1 {
                        let r = self.link(&args[0]);
                        proof {
                            if r is Ok {
                                assert(link_rel(args_of(line@)) == args@[0]@);
                                assert(exists|canon: PathV|
                                    self@ == link_ok(
                                        pre,
                                        path_join(pre.current, path_of(link_rel(args_of(line@)))),
                                        canon,
                                    )) by {
                                    let w = choose|canon: PathV|
                                        self@ == link_ok(
                                            pre,
                                            path_join(pre.current, path_of(args@[0]@)),
                                            canon,
                                        );
                                    assert(self@ == link_ok(
                                        pre,
                                        path_join(pre.current, path_of(link_rel(args_of(line@)))),
                                        w,
                                    ));
                                }
                            }
                        }
                        r
                    } else {
                        let none_rel: Vec<u8> = Vec::new();
                        let r = self.link(&none_rel);
                        proof {
                            if r is Ok {
                                assert(link_rel(args_of(line@)) =~= none_rel@);
                                assert(exists|canon: PathV|
                                    self@ == link_ok(
                                        pre,
                                        path_join(pre.current, path_of(link_rel(args_of(line@)))),
                                        canon,
                                    )) by {
                                    let w = choose|canon: PathV|
                                        self@ == link_ok(
                                            pre,
                                            path_join(pre.current, path_of(none_rel@)),
                                            canon,
                                        );
                                    assert(self@ == link_ok(
                                        pre,
                                        path_join(pre.current, path_of(link_rel(args_of(line@)))),
                                        w,
                                    ));
                                }
                            }
                        }
                        r
                    }
                } else if tok_is(&cmd, "WAIT") {
                    if args.len() < 1 {
                        self.fail_missing(&cmd)
                    } else {
                        self.wait(&args[0])
                    }
                } else if tok_is(&cmd, "CHANGES") {
                    if args.len() < 1 {
                        self.fail_missing(&cmd)
                    } else {
                        self.changes(&args[0])
                    }
                } else if tok_is(&cmd, "RESET") {
                    if args.len() < 1 {
                        self.fail_missing(&cmd)
                    } else {
                        self.reset(&args[0])
                    }
                } else if tok_is(&cmd, "DEBUG") || tok_is(&cmd, "DONE") {
                    Ok(())
                } else {
                    proof {
                        reveal_strlit("Unexpected cmd: ");
                        assert("Unexpected cmd: ".is_ascii());
                        assert(!known_verb(cmd_of(line@)));
                    }
                    let msg = msg_with("Unexpected cmd: ", &cmd);
                    self.send_error(msg);
                    Err(Fatal::Protocol)
                }
            },
        }
    }

    /// Reports a fatal condition with `ERROR` and the encoded message.
    fn send_error(&mut self, msg: Vec<u8>)
        ensures
            final(self)@ == with_out(old(self)@, seq![error_line(msg@)]),
    {
        proof {
            reveal_strlit("ERROR");
            assert("ERROR".is_ascii());
        }
        let cmd = lit_bytes("ERROR");
        let ghost m = msg@;
        let mut args: Vec<Vec<u8>> = Vec::new();
        args.push(msg);
        proof {
            assert(args.deep_view() =~~= seq![m]);
            assert(args.deep_view().map_values(|a: Seq<u8>| enc(a)) =~= seq![enc(m)]);
        }
        let line = build_line(&cmd, &args);
        self.push_line(line);
        proof {
            assert(old(self)@.out.push(error_line(m)) =~= old(self)@.out + seq![error_line(m)]);
        }
    }
}

/// An entry position found by scanning is the position [`idx_of`] picks.
pub proof fn lemma_idx_of(rs: Seq<EntryV>, id: Seq<u8>, i: int)
    requires
        unique_ids(rs),
        0 <= i < rs.len(),
        rs[i].id == id,
    ensures
        has_replica(rs, id),
        idx_of(rs, id) == i,
{
    assert(has_replica(rs, id));
    let w = idx_of(rs, id);
    assert(0 <= w < rs.len() && rs[w].id == id);
}

/// The replica registered under `id`; meaningful when [`has_replica`]
/// holds.
pub open spec fn replica_of(rs: Seq<EntryV>, id: Seq<u8>) -> ReplicaV {
    rs[idx_of(rs, id)].replica
}

/// The registry after `START id root …`: unchanged when `id` is known,
/// else grown by a fresh replica with that root.
pub open spec fn ensure_replica(rs: Seq<EntryV>, id: Seq<u8>, root: PathV) -> Seq<EntryV> {
    if has_replica(rs, id) {
        rs
    } else {
        rs.push(
            EntryV {
                id,
                replica: ReplicaV { root, paths: Seq::empty(), pending: Seq::empty() },
            },
        )
    }
}

/// The effective path of a `START`: the root, joined with the subdirectory
/// when one was given.
pub open spec fn start_target(root: PathV, sub: Option<PathV>) -> PathV {
    match sub {
        Option::None => root,
        Option::Some(s) => path_join(root, s),
    }
}

/// The registry after `id`'s replica takes `cur` into its watched set:
/// unchanged when a watched path already covers `cur`.
pub open spec fn add_watch_path(rs: Seq<EntryV>, id: Seq<u8>, cur: PathV) -> Seq<EntryV> {
    let i = idx_of(rs, id);
    let rep = rs[i].replica;
    if replica_watching(rep, cur) {
        rs
    } else {
        rs.update(
            i,
            EntryV { id: rs[i].id, replica: ReplicaV { paths: rep.paths.push(cur), ..rep } },
        )
    }
}

/// The state after a successful `START`: the replica exists, the effective
/// path is watched and became the current subtree, and `OK` went out.
pub open spec fn start_ok(pre: StateV, id: Seq<u8>, root: PathV, sub: Option<PathV>) -> StateV {
    let cur = start_target(root, sub);
    StateV {
        current: cur,
        replicas: add_watch_path(ensure_replica(pre.replicas, id, root), id, cur),
        links: pre.links,
        out: pre.out.push(ok_line()),
    }
}

/// The state after a `START` whose watch call failed: the replica exists
/// and the current subtree moved, but nothing is watched and nothing went
/// out.
pub open spec fn start_fail(pre: StateV, id: Seq<u8>, root: PathV, sub: Option<PathV>) -> StateV {
    StateV {
        current: start_target(root, sub),
        replicas: ensure_replica(pre.replicas, id, root),
        links: pre.links,
        out: pre.out,
    }
}

/// The paths a subdirectory argument denotes.
pub open spec fn opt_path_of(sub: Option<&Vec<u8>>) -> Option<PathV> {
    match sub {
        Option::Some(s) => Option::Some(path_of(s@)),
        Option::None => Option::None,
    }
}

/// The state after `CHANGES id`: the replica's pending set drained onto
/// the output as `RECURSIVE` lines followed by `DONE`; an unknown `id` is
/// a fatal unknown-replica error, and nothing is drained.
pub open spec fn changes_ok(pre: StateV, id: Seq<u8>) -> StateV {
    if has_replica(pre.replicas, id) {
        let i = idx_of(pre.replicas, id);
        let rep = pre.replicas[i].replica;
        StateV {
            replicas: pre.replicas.update(
                i,
                EntryV {
                    id: pre.replicas[i].id,
                    replica: ReplicaV { pending: Seq::empty(), ..rep },
                },
            ),
            out: pre.out + rep.pending.map_values(|p: PathV| recursive_line(p)).push(done_line()),
            ..pre
        }
    } else {
        StateV { out: pre.out.push(error_line(unknown_replica_msg(id))), ..pre }
    }
}

/// The registry after `RESET id`: the replica removed; unchanged when `id`
/// is unknown.
pub open spec fn remove_replica(rs: Seq<EntryV>, id: Seq<u8>) -> Seq<EntryV> {
    if has_replica(rs, id) {
        rs.remove(idx_of(rs, id))
    } else {
        rs
    }
}

/// Whether `RESET id` owes the platform an unwatch call: the replica
/// exists and some path it watched is covered by no remaining replica.
pub open spec fn reset_unwatches(rs: Seq<EntryV>, id: Seq<u8>) -> bool {
    &&& has_replica(rs, id)
    &&& exists|j: int|
        0 <= j < replica_of(rs, id).paths.len() && !any_watching(
            remove_replica(rs, id),
            #[trigger] replica_of(rs, id).paths[j],
        )
}

/// The link map after `LINK`: `link` joins the alias set of `real`,
/// creating the entry when `real` is new.
pub open spec fn link_insert(links: Seq<LinkV>, canon: PathV, link: PathV) -> Seq<LinkV> {
    if exists|i: int| 0 <= i < links.len() && links[i].canon == canon {
        let i = choose|i: int| 0 <= i < links.len() && links[i].canon == canon;
        links.update(i, LinkV { canon: links[i].canon, links: pset_insert(links[i].links, link) })
    } else {
        links.push(LinkV { canon, links: seq![link] })
    }
}

/// The state after a successful `LINK` of `target` whose canonical form is
/// `canon`: the alias recorded and `OK` out.
pub open spec fn link_ok(pre: StateV, target: PathV, canon: PathV) -> StateV {
    StateV { links: link_insert(pre.links, canon, target), out: pre.out.push(ok_line()), ..pre }
}

/// The candidate paths one link-map entry contributes for an event at `p`:
/// when `p` lies under the canonical path, the same suffix under every
/// alias.
pub open spec fn expand_entry(e: LinkV, p: PathV) -> Seq<PathV> {
    if path_starts_with(p, e.canon) {
        e.links.map_values(|l: PathV| path_join(l, path_strip(p, e.canon)))
    } else {
        Seq::empty()
    }
}

/// Every alias expansion of `p`, in link-map order.
pub open spec fn expand_links(links: Seq<LinkV>, p: PathV) -> Seq<PathV>
    decreases links.len(),
{
    if links.len() == 0 {
        Seq::empty()
    } else {
        expand_links(links.drop_last(), p) + expand_entry(links.last(), p)
    }
}

/// The candidate paths of an event: the event path itself, then every
/// alias expansion.
pub open spec fn candidates(links: Seq<LinkV>, p: PathV) -> Seq<PathV> {
    seq![p] + expand_links(links, p)
}

/// The relative paths the candidates contribute under `root`, in candidate
/// order: each candidate at or under `root`, stripped of it.
pub open spec fn rels_of(cands: Seq<PathV>, root: PathV) -> Seq<PathV>
    decreases cands.len(),
{
    if cands.len() == 0 {
        Seq::empty()
    } else {
        rels_of(cands.drop_last(), root) + (if path_starts_with(cands.last(), root) {
            seq![path_strip(cands.last(), root)]
        } else {
            Seq::empty()
        })
    }
}

/// `pending` after set-inserting each of `rels`, in order.
pub open spec fn pend_all(pending: Seq<PathV>, rels: Seq<PathV>) -> Seq<PathV>
    decreases rels.len(),
{
    if rels.len() == 0 {
        pending
    } else {
        pset_insert(pend_all(pending, rels.drop_last()), rels.last())
    }
}

/// One registry entry after the candidates' changes are attributed to it.
pub open spec fn fs_entry(e: EntryV, cands: Seq<PathV>) -> EntryV {
    EntryV {
        id: e.id,
        replica: ReplicaV {
            pending: pend_all(e.replica.pending, rels_of(cands, e.replica.root)),
            ..e.replica
        },
    }
}

/// The registry after the candidates' changes are attributed.
pub open spec fn fs_replicas(rs: Seq<EntryV>, cands: Seq<PathV>) -> Seq<EntryV> {
    rs.map_values(|e: EntryV| fs_entry(e, cands))
}

/// The identifiers notified for this event, in registry order: those whose
/// root covers some candidate.
pub open spec fn matched_ids(rs: Seq<EntryV>, cands: Seq<PathV>) -> Seq<Seq<u8>>
    decreases rs.len(),
{
    if rs.len() == 0 {
        Seq::empty()
    } else {
        matched_ids(rs.drop_last(), cands) + (if rels_of(cands, rs.last().replica.root).len()
            > 0 {
            seq![rs.last().id]
        } else {
            Seq::empty()
        })
    }
}

/// The state after one raw filesystem event: an event without a path is
/// ignored; otherwise every replica some candidate falls under gains the
/// relative path and is notified with one `CHANGES` line, and an event no
/// replica matches leaves the state and the output untouched.
pub open spec fn fs_step(pre: StateV, p: Option<PathV>) -> StateV {
    match p {
        Option::None => pre,
        Option::Some(pv) => {
            let cands = candidates(pre.links, pv);
            StateV {
                replicas: fs_replicas(pre.replicas, cands),
                out: pre.out + matched_ids(pre.replicas, cands).map_values(
                    |id: Seq<u8>| changes_line(id),
                ),
                ..pre
            }
        },
    }
}

/// The verbs the monitor understands.
pub open spec fn known_verb(cmd: Seq<u8>) -> bool {
    ||| cmd == ascii_seq("VERSION"@)
    ||| cmd == ascii_seq("START"@)
    ||| cmd == ascii_seq("DIR"@)
    ||| cmd == ascii_seq("LINK"@)
    ||| cmd == ascii_seq("WAIT"@)
    ||| cmd == ascii_seq("CHANGES"@)
    ||| cmd == ascii_seq("RESET"@)
    ||| cmd == ascii_seq("DEBUG"@)
    ||| cmd == ascii_seq("DONE"@)
}

/// What `VERSION` does: replies `VERSION 1` to version `1`; any other
/// version, or none, is a fatal protocol error.
pub open spec fn version_case(
    pre: StateV,
    post: StateV,
    args: Seq<Seq<u8>>,
    r: Result<(), Fatal>,
) -> bool {
    if args.len() == 0 {
        post == with_out(pre, seq![error_line(missing_arg_msg(ascii_seq("VERSION"@)))]) && r
            == Err::<(), Fatal>(Fatal::Protocol)
    } else if args[0] == ascii_seq("1"@) {
        post == with_out(pre, seq![version_line()]) && r == Ok::<(), Fatal>(())
    } else {
        post == with_out(pre, seq![error_line(unexpected_version_msg(args[0]))]) && r == Err::<
            (),
            Fatal,
        >(Fatal::Protocol)
    }
}

/// What `START id root [subdir]` does; fewer than two arguments are a
/// fatal protocol error.
pub open spec fn start_case(
    pre: StateV,
    post: StateV,
    args: Seq<Seq<u8>>,
    r: Result<(), Fatal>,
) -> bool {
    if args.len() < 2 {
        post == with_out(pre, seq![error_line(missing_arg_msg(ascii_seq("START"@)))]) && r
            == Err::<(), Fatal>(Fatal::Protocol)
    } else {
        let id = args[0];
        let root = path_of(args[1]);
        let sub: Option<PathV> = if args.len() >= 3 {
            Option::Some(path_of(args[2]))
        } else {
            Option::None
        };
        match r {
            Ok(()) => post == start_ok(pre, id, root, sub),
            Err(f) => ({
                &&& f matches Fatal::Watch(_)
                &&& post == start_fail(pre, id, root, sub)
                &&& !replica_watching(
                    replica_of(ensure_replica(pre.replicas, id, root), id),
                    start_target(root, sub),
                )
            }),
        }
    }
}

/// The relative path a `LINK` line names: its first argument, or the empty
/// path when it has none.
pub open spec fn link_rel(args: Seq<Seq<u8>>) -> Seq<u8> {
    if args.len() >= 1 {
        args[0]
    } else {
        Seq::empty()
    }
}

/// What `LINK [rel]` does: a missing argument resolves like an empty
/// relative path.
pub open spec fn link_case(
    pre: StateV,
    post: StateV,
    args: Seq<Seq<u8>>,
    r: Result<(), Fatal>,
) -> bool {
    match r {
        Ok(()) => exists|canon: PathV|
            post == link_ok(pre, path_join(pre.current, path_of(link_rel(args))), canon),
        Err(f) => ({
            &&& f matches Fatal::Watch(_)
            &&& post == pre
        }),
    }
}

/// What `WAIT id` does; a missing argument or an unknown identifier is a
/// fatal protocol error.
pub open spec fn wait_case(
    pre: StateV,
    post: StateV,
    args: Seq<Seq<u8>>,
    r: Result<(), Fatal>,
) -> bool {
    if args.len() == 0 {
        post == with_out(pre, seq![error_line(missing_arg_msg(ascii_seq("WAIT"@)))]) && r == Err::<
            (),
            Fatal,
        >(Fatal::Protocol)
    } else if has_replica(pre.replicas, args[0]) {
        post == pre && r == Ok::<(), Fatal>(())
    } else {
        post == with_out(pre, seq![error_line(unknown_replica_msg(args[0]))]) && r == Err::<
            (),
            Fatal,
        >(Fatal::Protocol)
    }
}

/// What `CHANGES id` does; a missing argument is a fatal protocol error.
pub open spec fn changes_case(
    pre: StateV,
    post: StateV,
    args: Seq<Seq<u8>>,
    r: Result<(), Fatal>,
) -> bool {
    if args.len() == 0 {
        post == with_out(pre, seq![error_line(missing_arg_msg(ascii_seq("CHANGES"@)))]) && r
            == Err::<(), Fatal>(Fatal::Protocol)
    } else {
        &&& post == changes_ok(pre, args[0])
        &&& (has_replica(pre.replicas, args[0]) ==> r == Ok::<(), Fatal>(()))
        &&& (!has_replica(pre.replicas, args[0]) ==> r == Err::<(), Fatal>(Fatal::Protocol))
    }
}

/// What `RESET id` does; a missing argument is a fatal protocol error.
pub open spec fn reset_case(
    pre: StateV,
    post: StateV,
    args: Seq<Seq<u8>>,
    r: Result<(), Fatal>,
) -> bool {
    if args.len() == 0 {
        post == with_out(pre, seq![error_line(missing_arg_msg(ascii_seq("RESET"@)))]) && r
            == Err::<(), Fatal>(Fatal::Protocol)
    } else {
        &&& post == (StateV { replicas: remove_replica(pre.replicas, args[0]), ..pre })
        &&& ({
            ||| r == Ok::<(), Fatal>(())
            ||| r matches Err(Fatal::Watch(_))
        })
        &&& (r matches Err(_) ==> reset_unwatches(pre.replicas, args[0]))
    }
}

/// What one input line does to the monitor: the dispatch over its verb.
/// Each verb appends exactly the lines its case names — at most one,
/// except `CHANGES` on a known replica, which appends the drained
/// `RECURSIVE` lines and `DONE`.
pub open spec fn input_post(
    pre: StateV,
    post: StateV,
    line: Seq<u8>,
    r: Result<(), Fatal>,
) -> bool {
    let cmd = cmd_of(line);
    let args = args_of(line);
    &&& (cmd == ascii_seq("VERSION"@) ==> version_case(pre, post, args, r))
    &&& (cmd == ascii_seq("START"@) ==> start_case(pre, post, args, r))
    &&& (cmd == ascii_seq("DIR"@) ==> post == with_out(pre, seq![ok_line()]) && r == Ok::<
        (),
        Fatal,
    >(()))
    &&& (cmd == ascii_seq("LINK"@) ==> link_case(pre, post, args, r))
    &&& (cmd == ascii_seq("WAIT"@) ==> wait_case(pre, post, args, r))
    &&& (cmd == ascii_seq("CHANGES"@) ==> changes_case(pre, post, args, r))
    &&& (cmd == ascii_seq("RESET"@) ==> reset_case(pre, post, args, r))
    &&& (cmd == ascii_seq("DEBUG"@) || cmd == ascii_seq("DONE"@) ==> post == pre && r == Ok::<
        (),
        Fatal,
    >(()))
    &&& (!known_verb(cmd) ==> post == with_out(pre, seq![error_line(unexpected_cmd_msg(cmd))]) && r
        == Err::<(), Fatal>(Fatal::Protocol))
}

/// Every relative path the candidates contribute under a non-empty root is
/// relative.
pub proof fn lemma_rels_relative(cands: Seq<PathV>, root: PathV)
    requires
        !path_is_empty(root),
    ensures
        forall|i: int| 0 <= i < rels_of(cands, root).len() ==> !(#[trigger] rels_of(cands, root)[i]).abs,
    decreases cands.len(),
{
    if cands.len() > 0 {
        lemma_rels_relative(cands.drop_last(), root);
        let rest = rels_of(cands.drop_last(), root);
        assert forall|i: int| 0 <= i < rels_of(cands, root).len() implies !(#[trigger] rels_of(
            cands,
            root,
        )[i]).abs by {
            if i < rest.len() {
                assert(rels_of(cands, root)[i] == rest[i]);
                assert(!rest[i].abs);
            } else {
                assert(rels_of(cands, root)[i] == path_strip(cands.last(), root));
            }
        }
    }
}

/// Set-inserting relative paths into a sequence of relative paths keeps
/// every element relative.
pub proof fn lemma_pend_all_relative(pending: Seq<PathV>, rels: Seq<PathV>)
    requires
        forall|j: int| 0 <= j < pending.len() ==> !(#[trigger] pending[j]).abs,
        forall|j: int| 0 <= j < rels.len() ==> !(#[trigger] rels[j]).abs,
    ensures
        forall|j: int| 0 <= j < pend_all(pending, rels).len() ==> !(#[trigger] pend_all(
            pending,
            rels,
        )[j]).abs,
    decreases rels.len(),
{
    if rels.len() > 0 {
        lemma_pend_all_relative(pending, rels.drop_last());
        let rest = pend_all(pending, rels.drop_last());
        assert(!rels[rels.len() - 1].abs);
        assert forall|j: int| 0 <= j < pend_all(pending, rels).len() implies !(#[trigger] pend_all(
            pending,
            rels,
        )[j]).abs by {
            if j < rest.len() {
                assert(pend_all(pending, rels)[j] == rest[j]);
                assert(!rest[j].abs);
            } else {
                assert(pend_all(pending, rels)[j] == rels.last());
            }
        }
    }
}

/// A message made of an ASCII prefix and the bytes it speaks about.
fn msg_with(prefix: &str, rest: &Vec<u8>) -> (r: Vec<u8>)
    requires
        prefix.is_ascii(),
    ensures
        r@ == ascii_seq(prefix@) + rest@,
{
    let mut m = lit_bytes(prefix);
    extend_bytes(&mut m, rest);
    m
}

} // verus!
