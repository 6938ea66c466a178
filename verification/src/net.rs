//! A loopback network stub: a socket is a named endpoint with a receive queue,
//! reached by address. `send` only queues a frame on the device's transmit
//! queue; `poll` moves each transmitted frame to the receive queue of the
//! socket bound to its destination, or drops it; `recv` pops a socket's queue.
use vstd::prelude::*;
use std::collections::{BTreeMap, VecDeque};
use vstd::string::StringSliceAdditionalSpecFns;

verus! {

broadcast use vstd::laws_cmp::group_laws_cmp;

/// Maximum payload a single frame may carry, in bytes.
pub const MTU: usize = 1500;

/// One frame: who from, who to, and an opaque payload.
#[derive(Debug, Clone, PartialEq, Eq)]
pub struct Frame {
    pub src: u16,
    pub dst: u16,
    pub payload: Vec<u8>,
}

/// Why a socket call failed.
#[derive(Debug, Clone, Copy, PartialEq, Eq, Structural)]
pub enum NetError {
    /// `bind` was given an address already bound.
    AddrInUse,
    /// `send` was given a payload larger than `MTU`.
    TooLong,
}

/// The loopback interface and its socket table: the device's transmit queue,
/// each bound address's receive queue, and the count of undeliverable frames.
pub struct Net {
    tx: VecDeque<Frame>,
    sockets: BTreeMap<u16, VecDeque<Frame>>,
    dropped: u64,
}

impl Net {
    /// Frames sent but not yet delivered, oldest first.
    pub closed spec fn tx_queue(&self) -> Seq<Frame> {
        self.tx@
    }

    /// The receive queue of every bound address, oldest frame first.
    pub closed spec fn queues(&self) -> Map<u16, Seq<Frame>> {
        self.sockets@.map_values(|q: VecDeque<Frame>| q@)
    }

    /// Frames the device has dropped for want of a bound destination.
    pub closed spec fn dropped_count(&self) -> nat {
        self.dropped as nat
    }

    /// A fresh interface: nothing in flight, nothing bound, nothing dropped.
    pub fn new() -> (n: Net)
        ensures
            n.tx_queue() == Seq::<Frame>::empty(),
            n.queues() == Map::<u16, Seq<Frame>>::empty(),
            n.dropped_count() == 0,
    {
        let n = Net { tx: VecDeque::new(), sockets: BTreeMap::new(), dropped: 0 };
        proof {
            assert(n.queues() =~= Map::<u16, Seq<Frame>>::empty());
        }
        n
    }
}

/// Bring up the loopback interface: nothing in flight, nothing bound,
/// nothing dropped.
pub fn init() -> (n: Net)
    ensures
        n.tx_queue() == Seq::<Frame>::empty(),
        n.queues() == Map::<u16, Seq<Frame>>::empty(),
        n.dropped_count() == 0,
{
    Net::new()
}

/// A bound endpoint: just its address.
#[derive(Debug)]
pub struct Socket(u16);

impl Socket {
    /// The address this handle is bound to.
    pub closed spec fn addr(&self) -> u16 {
        self.0
    }

    /// The address this handle is bound to.
    pub fn address(&self) -> (a: u16)
        ensures
            a == self.addr(),
    {
        self.0
    }

    /// Bind `addr` and return a handle to it, with an empty receive queue, or
    /// `AddrInUse` if some socket already holds it.
    pub fn bind(net: &mut Net, addr: u16) -> (r: Result<Socket, NetError>)
        ensures
            final(net).tx_queue() == old(net).tx_queue(),
            final(net).dropped_count() == old(net).dropped_count(),
            old(net).queues().contains_key(addr) ==> r == Err::<Socket, NetError>(NetError::AddrInUse)
                && final(net).queues() == old(net).queues(),
            !old(net).queues().contains_key(addr) ==> (r matches Ok(s) && s.addr() == addr
                && final(net).queues() == old(net).queues().insert(addr, Seq::<Frame>::empty())),
    {
        if net.sockets.contains_key(&addr) {
            return Err(NetError::AddrInUse);
        }
        net.sockets.insert(addr, VecDeque::new());
        proof {
            assert(net.queues() =~= old(net).queues().insert(addr, Seq::<Frame>::empty()));
        }
        Ok(Socket(addr))
    }

    /// Send `bytes` to address `to`: the frame joins the device's transmit
    /// queue and is not delivered until `poll` runs. Fails only with `TooLong`.
    pub fn send(&self, net: &mut Net, to: u16, bytes: &[u8]) -> (r: Result<(), NetError>)
        ensures
            final(net).queues() == old(net).queues(),
            final(net).dropped_count() == old(net).dropped_count(),
            bytes@.len() > MTU ==> r == Err::<(), NetError>(NetError::TooLong) && final(net).tx_queue() == old(net).tx_queue(),
            bytes@.len() <= MTU ==> {
                &&& r == Ok::<(), NetError>(())
                &&& final(net).tx_queue().len() == old(net).tx_queue().len() + 1
                &&& final(net).tx_queue().drop_last() == old(net).tx_queue()
                &&& final(net).tx_queue().last().src == self.addr()
                &&& final(net).tx_queue().last().dst == to
                &&& final(net).tx_queue().last().payload@ == bytes@
            },
    {
        if bytes.len() > MTU {
            return Err(NetError::TooLong);
        }
        let frame = Frame { src: self.0, dst: to, payload: vstd::slice::slice_to_vec(bytes) };
        net.tx.push_back(frame);
        proof {
            assert(net.tx_queue().drop_last() =~= old(net).tx_queue());
        }
        Ok(())
    }

    /// Pop the next frame off this socket's receive queue, or `None` if
    /// nothing has been delivered to it.
    pub fn recv(&self, net: &mut Net) -> (r: Option<Frame>)
        ensures
            final(net).tx_queue() == old(net).tx_queue(),
            final(net).dropped_count() == old(net).dropped_count(),
            ({
                let a = self.addr();
                if old(net).queues().contains_key(a) && old(net).queues()[a].len() > 0 {
                    &&& r == Some(old(net).queues()[a][0])
                    &&& final(net).queues() == old(net).queues().insert(
                        a,
                        old(net).queues()[a].drop_first(),
                    )
                } else {
                    r is None && final(net).queues() == old(net).queues()
                }
            }),
    {
        match net.sockets.remove(&self.0) {
            None => {
                proof {
                    assert(net.sockets@ =~= old(net).sockets@);
                }
                None
            },
            Some(mut q) => {
                let f = q.pop_front();
                net.sockets.insert(self.0, q);
                proof {
                    let a = self.addr();
                    if old(net).queues()[a].len() > 0 {
                        assert(net.queues() =~= old(net).queues().insert(
                            a,
                            old(net).queues()[a].drop_first(),
                        ));
                    } else {
                        assert(net.queues() =~= old(net).queues());
                    }
                }
                f
            },
        }
    }

    /// Unbind this socket, discarding any undelivered frames on its queue.
    pub fn close(self, net: &mut Net)
        ensures
            final(net).tx_queue() == old(net).tx_queue(),
            final(net).dropped_count() == old(net).dropped_count(),
            final(net).queues() == old(net).queues().remove(self.addr()),
    {
        let _ = net.sockets.remove(&self.0);
        proof {
            assert(net.queues() =~= old(net).queues().remove(self.addr()));
        }
    }
}

/// The frames of `q` addressed to `a`, in order.
pub open spec fn addressed_to(q: Seq<Frame>, a: u16) -> Seq<Frame> {
    q.filter(|f: Frame| f.dst == a)
}

/// The frames of `q` whose destination is bound in `m`.
pub open spec fn routable(q: Seq<Frame>, m: Map<u16, Seq<Frame>>) -> Seq<Frame> {
    q.filter(|f: Frame| m.contains_key(f.dst))
}

proof fn lemma_filter_step(q: Seq<Frame>, k: int, p: spec_fn(Frame) -> bool)
    requires
        0 <= k < q.len(),
    ensures
        q.take(k + 1).filter(p) == if p(q[k]) {
            q.take(k).filter(p).push(q[k])
        } else {
            q.take(k).filter(p)
        },
{
    reveal(Seq::filter);
    assert(q.take(k + 1).drop_last() =~= q.take(k));
}

/// Run the loopback device one step: drain the transmit queue, appending each
/// frame to the receive queue of the socket bound to its destination, or
/// dropping it when no socket holds that address. Returns the number delivered.
pub fn poll(net: &mut Net) -> (delivered: usize)
    requires
        old(net).dropped_count() + old(net).tx_queue().len() <= u64::MAX,
    ensures
        final(net).tx_queue() == Seq::<Frame>::empty(),
        final(net).queues().dom() == old(net).queues().dom(),
        forall|a: u16|
            #[trigger] old(net).queues().contains_key(a) ==> final(net).queues()[a] == old(net).queues()[a] + addressed_to(old(net).tx_queue(), a),
        delivered == routable(old(net).tx_queue(), old(net).queues()).len(),
        final(net).dropped_count() == old(net).dropped_count() + old(net).tx_queue().len()
            - delivered,
{
    let ghost q0 = old(net).tx_queue();
    let ghost m0 = old(net).queues();
    let pending = net.tx.len();
    let mut delivered: usize = 0;
    let ghost mut k: int = 0;
    proof {
        reveal(Seq::filter);
        assert(q0.take(0) =~= Seq::<Frame>::empty());
    }
    while net.tx.len() > 0
        invariant
            0 <= k <= q0.len(),
            net.tx_queue() == q0.skip(k),
            net.queues().dom() == m0.dom(),
            forall|a: u16| #[trigger]
                m0.contains_key(a) ==> net.queues()[a] == m0[a] + addressed_to(q0.take(k), a),
            delivered == routable(q0.take(k), m0).len(),
            routable(q0.take(k), m0).len() <= k,
            pending == q0.len(),
            net.dropped_count() == old(net).dropped_count() + k - delivered,
            old(net).dropped_count() + q0.len() <= u64::MAX,
        decreases net.tx_queue().len(),
    {
        let frame = match net.tx.pop_front() {
            Some(f) => f,
            None => {
                proof {
                    assert(false);
                }
                return delivered;
            },
        };
        proof {
            assert(frame == q0[k]);
            assert(q0.skip(k + 1) =~= q0.skip(k).subrange(1, q0.skip(k).len() as int));
            lemma_filter_step(q0, k, |f: Frame| m0.contains_key(f.dst));
        }
        let dst = frame.dst;
        let ghost before = net.queues();
        match net.sockets.remove(&dst) {
            Some(mut rx) => {
                rx.push_back(frame);
                net.sockets.insert(dst, rx);
                delivered = delivered + 1;
                proof {
                    assert(net.queues() =~= before.insert(dst, before[dst].push(q0[k])));
                }
            },
            None => {
                net.dropped = net.dropped + 1;
                proof {
                    assert(net.queues() =~= before);
                }
            },
        }
        proof {
            assert forall|a: u16| #[trigger]
                m0.contains_key(a) implies net.queues()[a] == m0[a] + addressed_to(
                q0.take(k + 1),
                a,
            ) by {
                lemma_filter_step(q0, k, |f: Frame| f.dst == a);
                assert(addressed_to(q0.take(k + 1), a) == if q0[k].dst == a {
                    addressed_to(q0.take(k), a).push(q0[k])
                } else {
                    addressed_to(q0.take(k), a)
                });
                if q0[k].dst == a {
                    assert(m0[a] + addressed_to(q0.take(k), a).push(q0[k]) =~= (m0[a]
                        + addressed_to(q0.take(k), a)).push(q0[k]));
                }
            }
            k = k + 1;
        }
    }
    proof {
        assert(q0.take(k) =~= q0);
    }
    delivered
}

/// Frames sent and not yet delivered.
pub fn in_flight(net: &Net) -> (n: usize)
    ensures
        n == net.tx_queue().len(),
{
    net.tx.len()
}

/// Total frames the device has dropped for want of a bound destination.
pub fn dropped(net: &Net) -> (n: u64)
    ensures
        n == net.dropped_count(),
{
    net.dropped
}


/// What the loopback self-test observed.
#[derive(Debug)]
pub struct SelfTestReport {
    /// The frame address 2 received.
    pub frame: Frame,
    /// Frames `poll` delivered in the first round.
    pub delivered: usize,
}

/// Send one frame from address 1 to address 2 and get the exact bytes back,
/// and show what makes this addressed delivery rather than an echo: a second
/// bind of a live address is refused, the frame is in flight until the device
/// polls, it reaches only the socket bound to its destination, a drained queue
/// gives nothing, a frame to an unbound address is dropped and counted, and an
/// oversized payload is refused. All of it holds on any interface where nothing
/// is in flight and addresses 1, 2 and 3 are free; the test closes its sockets,
/// so only the drop counter moves.
pub fn self_test(net: &mut Net) -> (r: SelfTestReport)
    requires
        old(net).tx_queue() == Seq::<Frame>::empty(),
        !old(net).queues().contains_key(1),
        !old(net).queues().contains_key(2),
        !old(net).queues().contains_key(3),
        !old(net).queues().contains_key(9),
        old(net).dropped_count() + 2 <= u64::MAX,
    ensures
        r.frame.src == 1 && r.frame.dst == 2,
        r.frame.payload@ == "hello from ziran".spec_bytes(),
        r.delivered == 1,
        final(net).tx_queue() == Seq::<Frame>::empty(),
        final(net).queues() == old(net).queues(),
        final(net).dropped_count() == old(net).dropped_count() + 1,
{
    let msg = "hello from ziran".as_bytes();
    proof {
        reveal_strlit("hello from ziran");
        vstd::string::is_ascii_spec_bytes("hello from ziran");
    }
    let ghost m0 = net.queues();
    let rx = match Socket::bind(net, 2) {
        Ok(s) => s,
        Err(_) => {
            proof {
                assert(false);
            }
            return SelfTestReport { frame: Frame { src: 0, dst: 0, payload: Vec::new() }, delivered: 0 };
        },
    };
    let tx = match Socket::bind(net, 1) {
        Ok(s) => s,
        Err(_) => {
            proof {
                assert(false);
            }
            return SelfTestReport { frame: Frame { src: 0, dst: 0, payload: Vec::new() }, delivered: 0 };
        },
    };
    let other = match Socket::bind(net, 3) {
        Ok(s) => s,
        Err(_) => {
            proof {
                assert(false);
            }
            return SelfTestReport { frame: Frame { src: 0, dst: 0, payload: Vec::new() }, delivered: 0 };
        },
    };
    let again = Socket::bind(net, 1);
    assert(again == Err::<Socket, NetError>(NetError::AddrInUse));

    let sent = tx.send(net, 2, msg);
    assert(sent is Ok);
    // In flight: the receiver sees nothing before the device polls.
    let early = rx.recv(net);
    assert(early is None);

    let ghost q = net.tx_queue();
    let delivered = poll(net);
    proof {
        reveal(Seq::filter);
        assert(q.drop_last() =~= Seq::<Frame>::empty());
        assert(q =~= seq![q[0]]);
        assert(routable(q, net.queues()).len() == 1) by {
            assert(q.drop_last().filter(|f: Frame| m0.insert(2, Seq::<Frame>::empty()).insert(1, Seq::<Frame>::empty()).insert(3, Seq::<Frame>::empty()).contains_key(f.dst)) =~= Seq::<Frame>::empty());
        }
        assert(addressed_to(q, 2) =~= seq![q[0]]) by {
            assert(q.drop_last().filter(|f: Frame| f.dst == 2) =~= Seq::<Frame>::empty());
        }
        assert(addressed_to(q, 3) =~= Seq::<Frame>::empty()) by {
            assert(q.drop_last().filter(|f: Frame| f.dst == 3) =~= Seq::<Frame>::empty());
        }
    }
    assert(delivered == 1);

    let frame = match rx.recv(net) {
        Some(f) => f,
        None => {
            proof {
                assert(false);
            }
            return SelfTestReport { frame: Frame { src: 0, dst: 0, payload: Vec::new() }, delivered: 0 };
        },
    };
    // Delivery is by address: the socket bound to 3 saw nothing.
    let stray = other.recv(net);
    assert(stray is None);
    // The queue is real: a drained socket gives nothing.
    let drained = rx.recv(net);
    assert(drained is None);

    // An unbound destination drops cleanly at poll, counted as no-route.
    proof {
        reveal_strlit("nobody home");
        vstd::string::is_ascii_spec_bytes("nobody home");
    }
    let sent2 = tx.send(net, 9, "nobody home".as_bytes());
    assert(sent2 is Ok);
    let ghost q2 = net.tx_queue();
    let ghost m2 = net.queues();
    let none = poll(net);
    proof {
        reveal(Seq::filter);
        assert(q2.drop_last() =~= Seq::<Frame>::empty());
        assert(m2.dom() =~= m0.dom().insert(1).insert(2).insert(3));
        assert(!m2.contains_key(9));
        assert(routable(q2, m2).len() == 0) by {
            assert(q2.drop_last().filter(|f: Frame| m2.contains_key(f.dst)) =~= Seq::<Frame>::empty());
        }
        assert forall|a: u16| #[trigger] m2.contains_key(a) implies addressed_to(q2, a) =~= Seq::<Frame>::empty() by {
            assert(q2.drop_last().filter(|f: Frame| f.dst == a) =~= Seq::<Frame>::empty());
        }
    }
    assert(none == 0);

    // Oversized payloads are refused.
    let big: Vec<u8> = vec![0u8; MTU + 1];
    let refused = tx.send(net, 2, big.as_slice());
    assert(refused == Err::<(), NetError>(NetError::TooLong));

    rx.close(net);
    tx.close(net);
    other.close(net);
    proof {
        assert(net.queues() =~= m0);
    }
    SelfTestReport { frame, delivered }
}

/// The queues `m` with the temporary sockets 1 and 2 the demo binds.
pub open spec fn with_demo_sockets(m: Map<u16, Seq<Frame>>) -> Map<u16, Seq<Frame>> {
    m.insert(1, Seq::<Frame>::empty()).insert(2, Seq::<Frame>::empty())
}

/// What one loopback round-trip of the `net` command saw.
#[derive(Debug)]
pub enum DemoOutcome {
    /// Address 1 or 2 was already bound: nothing was done.
    Busy,
    /// Address 2 received `frame`; `poll` delivered `delivered` frames.
    Received { frame: Frame, delivered: usize },
}

proof fn lemma_filter_push(q: Seq<Frame>, f: Frame, p: spec_fn(Frame) -> bool)
    ensures
        q.push(f).filter(p) == if p(f) {
            q.filter(p).push(f)
        } else {
            q.filter(p)
        },
{
    reveal(Seq::filter);
    assert(q.push(f).drop_last() =~= q);
}

/// One live round-trip: bind addresses 1 and 2, send a greeting from 1 to 2,
/// poll the device, receive at 2, and close both sockets again. If either
/// address is taken the interface is left as it was. Frames already in flight
/// are delivered by the same poll, so address 2 receives the oldest frame
/// addressed to it, which is the greeting when none was waiting.
pub fn demo(net: &mut Net) -> (r: DemoOutcome)
    requires
        old(net).dropped_count() + old(net).tx_queue().len() + 1 <= u64::MAX,
    ensures
        (old(net).queues().contains_key(1) || old(net).queues().contains_key(2)) ==> {
            &&& r is Busy
            &&& final(net).tx_queue() == old(net).tx_queue()
            &&& final(net).queues() == old(net).queues()
            &&& final(net).dropped_count() == old(net).dropped_count()
        },
        !(old(net).queues().contains_key(1) || old(net).queues().contains_key(2)) ==> {
            let q = old(net).tx_queue();
            let m = with_demo_sockets(old(net).queues());
            let waiting = addressed_to(q, 2);
            &&& r matches DemoOutcome::Received { frame, delivered } && {
                &&& delivered == routable(q, m).len() + 1
                &&& waiting.len() > 0 ==> frame == waiting[0]
                &&& waiting.len() == 0 ==> frame.src == 1 && frame.dst == 2 && frame.payload@
                    == "hello from ziran".spec_bytes()
            }
            &&& final(net).tx_queue() == Seq::<Frame>::empty()
            &&& final(net).queues().dom() == old(net).queues().dom()
            &&& forall|a: u16| #[trigger]
                old(net).queues().contains_key(a) ==> final(net).queues()[a] == old(net).queues()[a]
                    + addressed_to(q, a)
            &&& final(net).dropped_count() == old(net).dropped_count() + q.len() - routable(q, m).len()
        },
{
    let ghost m0 = net.queues();
    let ghost q0 = net.tx_queue();
    let a = match Socket::bind(net, 1) {
        Ok(s) => s,
        Err(_) => {
            return DemoOutcome::Busy;
        },
    };
    let b = match Socket::bind(net, 2) {
        Ok(s) => s,
        Err(_) => {
            a.close(net);
            proof {
                assert(net.queues() =~= m0);
            }
            return DemoOutcome::Busy;
        },
    };
    let msg = "hello from ziran".as_bytes();
    proof {
        reveal_strlit("hello from ziran");
        vstd::string::is_ascii_spec_bytes("hello from ziran");
    }
    let sent = a.send(net, 2, msg);
    assert(sent is Ok);
    let ghost q1 = net.tx_queue();
    let ghost m1 = net.queues();
    let delivered = poll(net);
    proof {
        let f = q1.last();
        assert(q1 =~= q0.push(f));
        assert(m1 == with_demo_sockets(m0));
        lemma_filter_push(q0, f, |g: Frame| m1.contains_key(g.dst));
        lemma_filter_push(q0, f, |g: Frame| g.dst == 2);
        assert forall|x: u16| x != 2 implies #[trigger] addressed_to(q1, x) == addressed_to(q0, x) by {
            lemma_filter_push(q0, f, |g: Frame| g.dst == x);
        }
        assert(net.queues()[2] == addressed_to(q1, 2));
        assert(m1[2] + addressed_to(q1, 2) =~= addressed_to(q1, 2));
    }
    let got = b.recv(net);
    let frame = match got {
        Some(f) => f,
        None => {
            proof {
                assert(addressed_to(q1, 2).len() > 0);
                assert(false);
            }
            return DemoOutcome::Busy;
        },
    };
    a.close(net);
    b.close(net);
    proof {
        assert(net.queues().dom() =~= m0.dom());
        assert forall|x: u16| #[trigger] m0.contains_key(x) implies net.queues()[x] == m0[x]
            + addressed_to(q0, x) by {
            assert(x != 1 && x != 2);
        }
        if addressed_to(q0, 2).len() > 0 {
            assert(addressed_to(q1, 2)[0] == addressed_to(q0, 2)[0]);
        }
    }
    DemoOutcome::Received { frame, delivered }
}

} // verus!
