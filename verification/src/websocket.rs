//! The server: where it listens, whether it runs, and its client connections.
use vstd::prelude::*;
use vstd::string::StringExecFns;
use crate::controller::{WebSocketController, Frame};
use crate::errors::WebSocketError;
use crate::request::Request;

verus! {

/// A WebSocket server listening through a listener of type `L`, with client
/// connections over streams of type `S`.
pub struct WebSocket<'a, L, S> {
    pub host: &'a str,
    pub port: &'a str,
    pub is_active: bool,
    pub run_single_threaded: bool,
    pub listener: Option<L>,
    pub connections: Vec<WebSocketController<S>>,
}

/// `c` is the connection that [`WebSocketController::new`] makes of `stream`,
/// `id` and `request`.
pub open spec fn made_connection<S>(
    c: WebSocketController<S>,
    stream: S,
    id: u64,
    request: Result<Request, WebSocketError>,
) -> bool {
    &&& c.stream == stream
    &&& c.frames@ == Seq::<Frame>::empty()
    &&& request matches Ok(req) ==> c.id == id && c.is_valid && c.request == req
    &&& request is Err ==> c.id == 0 && !c.is_valid && c.request.headers@ == Seq::<
        (Seq<char>, Seq<char>),
    >::empty() && !c.request.is_valid && c.request.body@ == Seq::<char>::empty()
}

/// The accepted streams whose request could be read, in order.
pub open spec fn readable<S>(
    incoming: Seq<(S, Result<Request, WebSocketError>)>,
) -> Seq<(S, Result<Request, WebSocketError>)> {
    incoming.filter(|e: (S, Result<Request, WebSocketError>)| e.1 is Ok)
}

/// Every connection's id is its position plus one.
pub open spec fn ids_are_positions<S>(cs: Seq<WebSocketController<S>>) -> bool {
    forall|i: int| 0 <= i < cs.len() ==> #[trigger] cs[i].id == i + 1
}

/// The frames buffered by the connections `cs`, each with the id of its
/// connection, connection by connection in order.
pub open spec fn pending_messages<S>(cs: Seq<WebSocketController<S>>) -> Seq<(u64, Frame)>
    decreases cs.len(),
{
    if cs.len() == 0 {
        Seq::empty()
    } else {
        pending_messages(cs.drop_last()) + tagged_frames(cs.last())
    }
}

/// The frames buffered by `c`, each with the id of `c`.
pub open spec fn tagged_frames<S>(c: WebSocketController<S>) -> Seq<(u64, Frame)> {
    c.frames@.map_values(|f: Frame| (c.id, f))
}

/// The messages of one connection are its buffered frames, in order, each with
/// that connection's id.
pub proof fn lemma_pending_single<S>(c: WebSocketController<S>)
    ensures
        pending_messages(seq![c]).len() == c.frames@.len(),
        forall|j: int|
            0 <= j < c.frames@.len() ==> #[trigger] pending_messages(seq![c])[j] == (
                c.id,
                c.frames@[j],
            ),
{
    assert(seq![c].drop_last() =~= Seq::<WebSocketController<S>>::empty());
    assert(pending_messages(Seq::<WebSocketController<S>>::empty()) =~= Seq::<(u64, Frame)>::empty());
    assert(pending_messages(seq![c]) =~= Seq::<(u64, Frame)>::empty() + tagged_frames(c));
}

/// The messages of two runs of connections are those of the first run
/// followed by those of the second.
pub proof fn lemma_pending_concat<S>(a: Seq<WebSocketController<S>>, b: Seq<WebSocketController<S>>)
    ensures
        pending_messages(a + b) == pending_messages(a) + pending_messages(b),
    decreases b.len(),
{
    if b.len() == 0 {
        assert(a + b =~= a);
        assert(pending_messages(b) =~= Seq::<(u64, Frame)>::empty());
        assert(pending_messages(a) + pending_messages(b) =~= pending_messages(a));
    } else {
        lemma_pending_concat(a, b.drop_last());
        assert((a + b).drop_last() =~= a + b.drop_last());
        assert((a + b).last() == b.last());
        assert(pending_messages(a + b) =~= pending_messages(a) + pending_messages(b));
    }
}

/// `m` is a frame buffered by one of the connections `cs`, with that
/// connection's id.
pub open spec fn from_connection<S>(cs: Seq<WebSocketController<S>>, m: (u64, Frame)) -> bool {
    exists|k: int, j: int|
        0 <= k < cs.len() && 0 <= j < cs[k].frames@.len() && m == (cs[k].id, #[trigger] cs[k].frames@[j])
}

/// Every message comes from a connection whose id it carries, and is one of
/// that connection's buffered frames.
pub proof fn lemma_pending_source<S>(cs: Seq<WebSocketController<S>>)
    ensures
        forall|i: int|
            0 <= i < pending_messages(cs).len() ==> from_connection(cs, #[trigger] pending_messages(cs)[i]),
    decreases cs.len(),
{
    if cs.len() > 0 {
        let init = cs.drop_last();
        lemma_pending_source(init);
        let c = cs.last();
        let p = pending_messages(init);
        assert forall|i: int| 0 <= i < pending_messages(cs).len() implies from_connection(
            cs,
            #[trigger] pending_messages(cs)[i],
        ) by {
            if i < p.len() {
                assert(from_connection(init, p[i]));
                let (k, j) = choose|k: int, j: int|
                    0 <= k < init.len() && 0 <= j < init[k].frames@.len() && p[i] == (
                        init[k].id,
                        #[trigger] init[k].frames@[j],
                    );
                assert(cs[k] == init[k]);
                assert(pending_messages(cs)[i] == p[i]);
                assert(pending_messages(cs)[i] == (cs[k].id, cs[k].frames@[j]));
            } else {
                let j = i - p.len();
                let k = cs.len() - 1;
                assert(pending_messages(cs)[i] == tagged_frames(c)[j]);
                assert(cs[k] == c);
                assert(pending_messages(cs)[i] == (cs[k].id, cs[k].frames@[j]));
            }
        }
    }
}

/// `c` is `d` with its buffer of frames emptied.
pub open spec fn drained<S>(c: WebSocketController<S>, d: WebSocketController<S>) -> bool {
    &&& c.id == d.id
    &&& c.is_valid == d.is_valid
    &&& c.request == d.request
    &&& c.stream == d.stream
    &&& c.frames@ == Seq::<Frame>::empty()
}

impl<'a, L, S> WebSocket<'a, L, S> {
    /// A server for `host` and `port`, not yet listening, with no connections.
    pub fn new_server(host: &'a str, port: &'a str) -> (w: Self)
        ensures
            w.host == host,
            w.port == port,
            w.listener is None,
            w.connections@ == Seq::<WebSocketController<S>>::empty(),
            !w.run_single_threaded,
            !w.is_active,
    {
        WebSocket {
            host,
            port,
            listener: None,
            connections: Vec::new(),
            run_single_threaded: false,
            is_active: false,
        }
    }

    /// The address to listen on: `host:port`.
    pub fn bind_address(&self) -> (s: String)
        ensures
            s@ == self.host@ + ":"@ + self.port@,
    {
        let mut s = self.host.to_string();
        s.append(":");
        s.append(self.port);
        s
    }

    /// Takes the outcome of binding [`WebSocket::bind_address`]: with a
    /// listener the server becomes active and keeps it; without one it keeps
    /// no listener. Returns whether it listens.
    pub fn spawn(&mut self, bound: Option<L>) -> (r: bool)
        ensures
            r == bound is Some,
            final(self).listener == bound,
            final(self).is_active == (old(self).is_active || bound is Some),
            final(self).host == old(self).host,
            final(self).port == old(self).port,
            final(self).run_single_threaded == old(self).run_single_threaded,
            final(self).connections == old(self).connections,
    {
        match bound {
            Some(l) => {
                self.listener = Some(l);
                self.is_active = true;
                true
            },
            None => {
                self.listener = None;
                false
            },
        }
    }

    /// Sets whether the server runs on one thread (its listener then does not
    /// block).
    pub fn set_single_thread_mode(&mut self, b: bool)
        ensures
            final(self).run_single_threaded == b,
            final(self).host == old(self).host,
            final(self).port == old(self).port,
            final(self).is_active == old(self).is_active,
            final(self).listener == old(self).listener,
            final(self).connections == old(self).connections,
    {
        self.run_single_threaded = b;
    }

    /// Adds a connection for each accepted stream whose request could be read,
    /// in order, skipping those whose request could not be read; each added
    /// connection gets the id one more than the number of connections before it.
    pub fn accept_connections(&mut self, incoming: Vec<(S, Result<Request, WebSocketError>)>)
        requires
            old(self).connections@.len() + incoming@.len() <= u64::MAX,
            old(self).connections@.len() + incoming@.len() < usize::MAX,
        ensures
            final(self).connections@.len() == old(self).connections@.len() + readable(
                incoming@,
            ).len(),
            forall|k: int|
                0 <= k < old(self).connections@.len() ==> #[trigger] final(self).connections@[k]
                    == old(self).connections@[k],
            forall|j: int|
                0 <= j < readable(incoming@).len() ==> made_connection(
                    #[trigger] final(self).connections@[old(self).connections@.len() + j],
                    readable(incoming@)[j].0,
                    (old(self).connections@.len() + j + 1) as u64,
                    readable(incoming@)[j].1,
                ),
            ids_are_positions(old(self).connections@) ==> ids_are_positions(
                final(self).connections@,
            ),
            final(self).host == old(self).host,
            final(self).port == old(self).port,
            final(self).is_active == old(self).is_active,
            final(self).run_single_threaded == old(self).run_single_threaded,
            final(self).listener == old(self).listener,
    {
        let ghost all = incoming@;
        let ghost before = self.connections@;
        let mut incoming = incoming;
        let n = incoming.len();
        let mut j: usize = 0;
        while j < n
            invariant
                j <= n == all.len(),
                before.len() + all.len() <= u64::MAX,
                before.len() + all.len() < usize::MAX,
                incoming@ == all.skip(j as int),
                self.connections@.len() == before.len() + readable(all.take(j as int)).len(),
                readable(all.take(j as int)).len() <= j,
                forall|k: int| 0 <= k < before.len() ==> #[trigger] self.connections@[k] == before[k],
                forall|i: int|
                    0 <= i < readable(all.take(j as int)).len() ==> made_connection(
                        #[trigger] self.connections@[before.len() + i],
                        readable(all.take(j as int))[i].0,
                        (before.len() + i + 1) as u64,
                        readable(all.take(j as int))[i].1,
                    ),
                self.host == old(self).host,
                self.port == old(self).port,
                self.is_active == old(self).is_active,
                self.run_single_threaded == old(self).run_single_threaded,
                self.listener == old(self).listener,
            decreases n - j,
        {
            let (stream, request) = incoming.remove(0);
            assert(all.skip(j as int)[0] == all[j as int]);
            assert(incoming@ =~= all.skip(j + 1));
            let ghost t = all.take(j + 1);
            let ghost prev = readable(all.take(j as int));
            assert(t.drop_last() =~= all.take(j as int));
            assert(t.last() == all[j as int]);
            proof {
                reveal_with_fuel(Seq::<_>::filter, 1);
            }
            assert(readable(t) == (if t.last().1 is Ok {
                prev.push(t.last())
            } else {
                prev
            }));
            if request.is_ok() {
                let new_id = (self.connections.len() + 1) as u64;
                let c = WebSocketController::new(stream, new_id, request);
                self.connections.push(c);
            }
            j = j + 1;
        }
        assert(all.take(n as int) =~= all);
        proof {
            let pred = |e: (S, Result<Request, WebSocketError>)| e.1 is Ok;
            if ids_are_positions(before) {
                assert forall|i: int|
                    0 <= i < self.connections@.len() implies #[trigger] self.connections@[i].id
                    == i + 1 by {
                    if i < before.len() {
                        assert(self.connections@[i] == before[i]);
                    } else {
                        let k = i - before.len();
                        all.lemma_filter_pred(pred, k);
                        assert(readable(all)[k].1 is Ok);
                        assert(made_connection(
                            self.connections@[before.len() + k],
                            readable(all)[k].0,
                            (before.len() + k + 1) as u64,
                            readable(all)[k].1,
                        ));
                    }
                }
            }
        }
    }

    /// Takes every frame buffered by the connections, each with the id of its
    /// connection, connection by connection in order; the buffers are left empty.
    pub fn accept_messages(&mut self) -> (r: Vec<(u64, Frame)>)
        ensures
            r@ == pending_messages(old(self).connections@),
            final(self).connections@.len() == old(self).connections@.len(),
            forall|k: int|
                0 <= k < old(self).connections@.len() ==> drained(
                    #[trigger] final(self).connections@[k],
                    old(self).connections@[k],
                ),
            final(self).host == old(self).host,
            final(self).port == old(self).port,
            final(self).is_active == old(self).is_active,
            final(self).run_single_threaded == old(self).run_single_threaded,
            final(self).listener == old(self).listener,
    {
        let ghost all = self.connections@;
        let mut rest: Vec<WebSocketController<S>> = Vec::new();
        std::mem::swap(&mut rest, &mut self.connections);
        let mut out: Vec<(u64, Frame)> = Vec::new();
        let n = rest.len();
        let mut j: usize = 0;
        while j < n
            invariant
                j <= n == all.len(),
                rest@ == all.skip(j as int),
                self.connections@.len() == j,
                forall|k: int| 0 <= k < j ==> drained(#[trigger] self.connections@[k], all[k]),
                out@ == pending_messages(all.take(j as int)),
                self.host == old(self).host,
                self.port == old(self).port,
                self.is_active == old(self).is_active,
                self.run_single_threaded == old(self).run_single_threaded,
                self.listener == old(self).listener,
            decreases n - j,
        {
            let mut c = rest.remove(0);
            assert(all.skip(j as int)[0] == all[j as int]);
            assert(rest@ =~= all.skip(j + 1));
            let mut frames: Vec<Frame> = Vec::new();
            std::mem::swap(&mut frames, &mut c.frames);
            let ghost fs = frames@;
            let ghost out0 = out@;
            let id = c.id;
            let m = frames.len();
            let mut i: usize = 0;
            while i < m
                invariant
                    i <= m == fs.len(),
                    frames@ == fs.skip(i as int),
                    out@ == out0 + fs.take(i as int).map_values(|f: Frame| (id, f)),
                decreases m - i,
            {
                let f = frames.remove(0);
                assert(fs.skip(i as int)[0] == fs[i as int]);
                assert(frames@ =~= fs.skip(i + 1));
                out.push((id, f));
                assert(out@ =~= out0 + fs.take(i + 1).map_values(|f: Frame| (id, f)));
                i = i + 1;
            }
            assert(fs.take(m as int) =~= fs);
            assert(all.take(j + 1).drop_last() =~= all.take(j as int));
            assert(out@ == pending_messages(all.take(j + 1)));
            self.connections.push(c);
            j = j + 1;
        }
        assert(all.take(n as int) =~= all);
        out
    }

    /// Drops the connections that are no longer valid, keeping the others in
    /// order.
    pub fn close_connections(&mut self)
        ensures
            final(self).connections@ == old(self).connections@.filter(
                |c: WebSocketController<S>| c.is_valid,
            ),
            final(self).host == old(self).host,
            final(self).port == old(self).port,
            final(self).is_active == old(self).is_active,
            final(self).run_single_threaded == old(self).run_single_threaded,
            final(self).listener == old(self).listener,
    {
        let ghost all = self.connections@;
        let ghost keep = |c: WebSocketController<S>| c.is_valid;
        let mut rest: Vec<WebSocketController<S>> = Vec::new();
        std::mem::swap(&mut rest, &mut self.connections);
        let n = rest.len();
        let mut j: usize = 0;
        while j < n
            invariant
                j <= n == all.len(),
                rest@ == all.skip(j as int),
                keep == (|c: WebSocketController<S>| c.is_valid),
                self.connections@ == all.take(j as int).filter(keep),
                self.host == old(self).host,
                self.port == old(self).port,
                self.is_active == old(self).is_active,
                self.run_single_threaded == old(self).run_single_threaded,
                self.listener == old(self).listener,
            decreases n - j,
        {
            let c = rest.remove(0);
            assert(all.skip(j as int)[0] == all[j as int]);
            assert(rest@ =~= all.skip(j + 1));
            let ghost t = all.take(j + 1);
            assert(t.drop_last() =~= all.take(j as int));
            assert(t.last() == all[j as int]);
            assert(keep(all[j as int]) == c.is_valid);
            let ghost before = self.connections@;
            proof {
                reveal_with_fuel(Seq::<_>::filter, 1);
            }
            assert(t.filter(keep) == (if keep(t.last()) {
                t.drop_last().filter(keep).push(t.last())
            } else {
                t.drop_last().filter(keep)
            }));
            if c.is_valid {
                self.connections.push(c);
            }
            assert(self.connections@ =~= t.filter(keep));
            j = j + 1;
        }
        assert(all.take(n as int) =~= all);
    }
}

} // verus!
