//! Following referrals from the root servers down, as a state machine: it
//! decides which server to ask next from the answer of the last one. The
//! queries themselves are sent from outside the library.

use vstd::prelude::*;
use vstd::string::*;
use crate::dig::dns::{Message, Rdata, RdataView, RecordType, RecordView, ResourceRecord, records_view};
use crate::text::str_eq;

verus! {

/// A name server's address (port 53).
#[derive(Debug, Clone, Copy, PartialEq, Eq)]
pub enum TraceAddr {
    V4([u8; 4]),
    V6([u8; 16]),
}

/// The next thing to do.
#[derive(Debug, PartialEq)]
pub enum TraceAction {
    /// Send the query to this server (without recursion) and hand back
    /// the answer.
    Ask(TraceAddr),
    /// Ask a recursive resolver for the IPv4 addresses of this name server
    /// and hand back its answer, if any.
    ResolveGlue(String),
    /// The trace is over.
    Done,
}

/// What the last request gave.
pub enum TraceEvent {
    /// Nothing asked yet.
    Start,
    /// The answer of the server asked.
    Answer(Message),
    /// The recursive resolver's answer, when there was one.
    Glue(Option<Message>),
}

/// The longest chain of referrals followed.
pub const MAX_DEPTH: u32 = 30;

/// The trace's own state.
pub struct TraceRun {
    /// Servers of the current step; the first one is asked.
    pub servers: Vec<TraceAddr>,
    /// Queries sent so far.
    pub depth: u32,
    /// The referral being read, with the name servers it names.
    pub referral: Option<Message>,
    /// Index of the name server whose addresses are looked for.
    pub ns: usize,
    /// Addresses found for the next step.
    pub next: Vec<TraceAddr>,
    pub done: bool,
}

/// The thirteen root servers, by their IPv4 addresses.
pub open spec fn root_servers_spec() -> Seq<TraceAddr> {
    seq![
        TraceAddr::V4([198, 41, 0, 4]),
        TraceAddr::V4([199, 9, 14, 201]),
        TraceAddr::V4([192, 33, 4, 12]),
        TraceAddr::V4([199, 7, 91, 13]),
        TraceAddr::V4([192, 203, 230, 10]),
        TraceAddr::V4([192, 5, 5, 241]),
        TraceAddr::V4([192, 112, 36, 4]),
        TraceAddr::V4([198, 97, 190, 53]),
        TraceAddr::V4([192, 36, 148, 17]),
        TraceAddr::V4([192, 58, 128, 30]),
        TraceAddr::V4([193, 0, 14, 129]),
        TraceAddr::V4([199, 7, 83, 42]),
        TraceAddr::V4([202, 12, 27, 33]),
    ]
}

pub fn root_servers() -> (v: Vec<TraceAddr>)
    ensures
        v@ == root_servers_spec(),
{
    let v = vec![
        TraceAddr::V4([198, 41, 0, 4]),
        TraceAddr::V4([199, 9, 14, 201]),
        TraceAddr::V4([192, 33, 4, 12]),
        TraceAddr::V4([199, 7, 91, 13]),
        TraceAddr::V4([192, 203, 230, 10]),
        TraceAddr::V4([192, 5, 5, 241]),
        TraceAddr::V4([192, 112, 36, 4]),
        TraceAddr::V4([198, 97, 190, 53]),
        TraceAddr::V4([192, 36, 148, 17]),
        TraceAddr::V4([192, 58, 128, 30]),
        TraceAddr::V4([193, 0, 14, 129]),
        TraceAddr::V4([199, 7, 83, 42]),
        TraceAddr::V4([202, 12, 27, 33]),
    ];
    assert(v@ =~= root_servers_spec());
    v
}

/// An answer ends the trace when it is an error, holds answers, or names
/// no name servers in its authority section.
pub open spec fn ends_trace(m: crate::dig::dns::MessageView) -> bool {
    m.header.flags & 0x000F != 0 || m.answers.len() > 0 || !(exists|i: int|
        0 <= i < m.authority.len() && #[trigger] m.authority[i].rtype == RecordType::Ns)
}

/// The addresses that the records give for `name`: A and AAAA records of
/// that owner, in order.
pub open spec fn addrs_for(rs: Seq<RecordView>, name: Seq<char>) -> Seq<TraceAddr>
    decreases rs.len(),
{
    if rs.len() == 0 {
        Seq::empty()
    } else {
        let r = rs.last();
        addrs_for(rs.drop_last(), name) + (if r.name == name {
            match r.rdata {
                RdataView::A(a) => seq![TraceAddr::V4([a[0], a[1], a[2], a[3]])],
                RdataView::Aaaa(a) => seq![TraceAddr::V6([
                    a[0], a[1], a[2], a[3], a[4], a[5], a[6], a[7], a[8], a[9], a[10], a[11], a[12], a[13], a[14], a[15],
                ])],
                _ => Seq::empty(),
            }
        } else {
            Seq::empty()
        })
    }
}

/// The IPv4 addresses among answer records.
pub open spec fn v4_answers(rs: Seq<RecordView>) -> Seq<TraceAddr>
    decreases rs.len(),
{
    if rs.len() == 0 {
        Seq::empty()
    } else {
        v4_answers(rs.drop_last()) + match rs.last().rdata {
            RdataView::A(a) => seq![TraceAddr::V4([a[0], a[1], a[2], a[3]])],
            _ => Seq::empty(),
        }
    }
}

/// Where looking at the name servers of a referral from `ns` on leads
/// (`next` holds the addresses collected so far). Each NS record adds the
/// addresses the additional section gives for its name; when none are
/// known yet and it gives none, that name's addresses are asked from a
/// resolver (outcome 2, with the name). When all were looked at, the
/// collected addresses are the next step (outcome 1), or the trace ends
/// when there are none (outcome 0). The result: the outcome, the name to
/// resolve, the addresses collected and the index after.
pub open spec fn scan_spec(auth: Seq<RecordView>, addl: Seq<RecordView>, ns: int, next: Seq<TraceAddr>) -> (int, Seq<char>, Seq<TraceAddr>, int)
    decreases auth.len() - ns,
{
    if ns < 0 || ns >= auth.len() {
        (if next.len() == 0 { 0 } else { 1 }, Seq::empty(), next, ns)
    } else {
        let rr = auth[ns];
        let name_opt: Option<Seq<char>> = if rr.rtype == RecordType::Ns {
            match rr.rdata {
                RdataView::Ns(n) => Some(n),
                _ => None,
            }
        } else {
            None
        };
        match name_opt {
            Some(n) => {
                let glue = addrs_for(addl, n);
                if next.len() == 0 && glue.len() == 0 {
                    (2, n, next, ns + 1)
                } else {
                    scan_spec(auth, addl, ns + 1, next + glue)
                }
            },
            None => scan_spec(auth, addl, ns + 1, next),
        }
    }
}

/// The scan over the kept referral, if any.
pub open spec fn scan_of(m: Option<Message>, ns: int, next: Seq<TraceAddr>) -> (int, Seq<char>, Seq<TraceAddr>, int) {
    match m {
        Some(x) => scan_spec(x@.authority, x@.additional, ns, next),
        None => (0, Seq::empty(), next, ns),
    }
}

/// The IPv4 addresses a resolver's answer gives, if there was one.
pub open spec fn glue_answer(g: Option<Message>) -> Seq<TraceAddr> {
    match g {
        Some(gm) => v4_answers(gm@.answers),
        None => Seq::empty(),
    }
}

/// What follows a scan with result `s`, from a run at `depth` asking
/// `servers`: the end (outcome 0); the collected addresses become the
/// servers and the first is asked, unless the chain is at its longest
/// (outcome 1); or the name is handed to a resolver, the run waiting with
/// the addresses and index the scan reached (outcome 2).
pub open spec fn scan_done(
    s: (int, Seq<char>, Seq<TraceAddr>, int),
    depth: u32,
    servers: Seq<TraceAddr>,
    a: TraceAction,
    t: &TraceRun,
) -> bool {
    &&& s.0 == 0 ==> a == TraceAction::Done && t.done
    &&& s.0 == 1 ==> t.servers@ == s.2 && (if depth >= MAX_DEPTH {
        a == TraceAction::Done && t.done
    } else {
        a == TraceAction::Ask(s.2[0]) && t.depth == depth + 1 && !t.done
    })
    &&& s.0 == 2 ==> (a matches TraceAction::ResolveGlue(n) && n@ == s.1) && t.next@ == s.2 && t.ns == s.3
        && t.depth == depth && t.servers@ == servers && !t.done
}

fn addr_of(r: &ResourceRecord) -> (o: Option<TraceAddr>)
    ensures
        o == match r@.rdata {
            RdataView::A(a) => Some(TraceAddr::V4([a[0], a[1], a[2], a[3]])),
            RdataView::Aaaa(a) => Some(TraceAddr::V6([
                a[0], a[1], a[2], a[3], a[4], a[5], a[6], a[7], a[8], a[9], a[10], a[11], a[12], a[13], a[14], a[15],
            ])),
            _ => None,
        },
{
    match &r.rdata {
        Rdata::A(a) => {
            let x = TraceAddr::V4([a[0], a[1], a[2], a[3]]);
            Some(x)
        },
        Rdata::Aaaa(a) => {
            let x = TraceAddr::V6([
                a[0], a[1], a[2], a[3], a[4], a[5], a[6], a[7], a[8], a[9], a[10], a[11], a[12], a[13], a[14], a[15],
            ]);
            Some(x)
        },
        _ => None,
    }
}

/// Appends the addresses the records give for `name`.
fn collect_glue(out: &mut Vec<TraceAddr>, rs: &Vec<ResourceRecord>, name: &str)
    ensures
        final(out)@ == old(out)@ + addrs_for(records_view(rs@), name@),
{
    let ghost start = out@;
    let ghost all = records_view(rs@);
    let mut i: usize = 0;
    assert(all.take(0) =~= Seq::<RecordView>::empty());
    assert(out@ =~= start + addrs_for(all.take(0), name@));
    while i < rs.len()
        invariant
            i <= rs@.len(),
            all == records_view(rs@),
            all.len() == rs@.len(),
            out@ == start + addrs_for(all.take(i as int), name@),
        decreases rs@.len() - i,
    {
        assert(all.take(i + 1).drop_last() =~= all.take(i as int));
        assert(all.take(i + 1).last() == rs@[i as int]@);
        let ghost before = out@;
        if str_eq(rs[i].name.as_str(), name) {
            match addr_of(&rs[i]) {
                Some(a) => {
                    out.push(a);
                },
                None => {},
            }
        }
        assert(out@ =~= before + (if rs@[i as int]@.name == name@ {
            match rs@[i as int]@.rdata {
                RdataView::A(a) => seq![TraceAddr::V4([a[0], a[1], a[2], a[3]])],
                RdataView::Aaaa(a) => seq![TraceAddr::V6([
                    a[0], a[1], a[2], a[3], a[4], a[5], a[6], a[7], a[8], a[9], a[10], a[11], a[12], a[13], a[14], a[15],
                ])],
                _ => Seq::empty(),
            }
        } else {
            Seq::empty()
        }));
        i = i + 1;
    }
    assert(all.take(rs@.len() as int) =~= all);
}

/// Appends the IPv4 addresses among answer records.
fn collect_v4(out: &mut Vec<TraceAddr>, rs: &Vec<ResourceRecord>)
    ensures
        final(out)@ == old(out)@ + v4_answers(records_view(rs@)),
{
    let ghost start = out@;
    let ghost all = records_view(rs@);
    let mut i: usize = 0;
    assert(all.take(0) =~= Seq::<RecordView>::empty());
    assert(out@ =~= start + v4_answers(all.take(0)));
    while i < rs.len()
        invariant
            i <= rs@.len(),
            all == records_view(rs@),
            all.len() == rs@.len(),
            out@ == start + v4_answers(all.take(i as int)),
        decreases rs@.len() - i,
    {
        assert(all.take(i + 1).drop_last() =~= all.take(i as int));
        assert(all.take(i + 1).last() == rs@[i as int]@);
        let ghost before = out@;
        match &rs[i].rdata {
            Rdata::A(a) => {
                out.push(TraceAddr::V4([a[0], a[1], a[2], a[3]]));
            },
            _ => {},
        }
        assert(out@ =~= before + match rs@[i as int]@.rdata {
            RdataView::A(a) => seq![TraceAddr::V4([a[0], a[1], a[2], a[3]])],
            _ => Seq::<TraceAddr>::empty(),
        });
        i = i + 1;
    }
    assert(all.take(rs@.len() as int) =~= all);
}

/// Whether an answer ends the trace (see `ends_trace`).
pub fn answer_ends_trace(m: &Message) -> (b: bool)
    ensures
        b == ends_trace(m@),
{
    if m.header.flags & 0x000F != 0 || m.answers.len() > 0 {
        return true;
    }
    let mut i: usize = 0;
    while i < m.authority.len()
        invariant
            i <= m.authority@.len(),
            m@.authority.len() == m.authority@.len(),
            m@.header.flags & 0x000F == 0,
            m@.answers.len() == 0,
            forall|k: int| 0 <= k < i ==> m@.authority[k].rtype != RecordType::Ns,
        decreases m.authority@.len() - i,
    {
        assert(m@.authority[i as int] == m.authority@[i as int]@);
        if m.authority[i].rtype == RecordType::Ns {
            assert(m@.authority[i as int].rtype == RecordType::Ns);
            return false;
        }
        i = i + 1;
    }
    true
}

impl TraceRun {
    /// A trace that starts at the root servers.
    pub fn new() -> (t: TraceRun)
        ensures
            t.servers@ == root_servers_spec(),
            t.depth == 0,
            t.referral is None,
            t.next@.len() == 0,
            !t.done,
    {
        TraceRun { servers: root_servers(), depth: 0, referral: None, ns: 0, next: Vec::new(), done: false }
    }

    /// The state matches what the trace is waiting for: a referral is kept
    /// only while name servers are looked at.
    pub open spec fn inv(&self) -> bool {
        &&& self.servers@.len() > 0
        &&& self.depth <= MAX_DEPTH
        &&& (self.referral matches Some(m) ==> self.ns <= m.authority@.len())
    }

    fn finish(&mut self) -> (a: TraceAction)
        ensures
            a == TraceAction::Done,
            final(self).done,
            final(self).servers@ == old(self).servers@,
            final(self).depth == old(self).depth,
            final(self).referral is None,
    {
        self.done = true;
        self.referral = None;
        TraceAction::Done
    }

    /// Asks the first server of the step, unless the chain is too long.
    fn ask_next(&mut self) -> (a: TraceAction)
        requires
            old(self).inv(),
        ensures
            final(self).inv(),
            old(self).depth >= MAX_DEPTH ==> a == TraceAction::Done && final(self).done,
            old(self).depth < MAX_DEPTH ==> a == TraceAction::Ask(old(self).servers@[0]) && final(self).depth == old(
                self,
            ).depth + 1 && final(self).done == old(self).done,
            final(self).servers@ == old(self).servers@,
            final(self).referral is None,
            final(self).depth >= old(self).depth,
    {
        if self.depth >= MAX_DEPTH {
            return self.finish();
        }
        self.depth = self.depth + 1;
        self.referral = None;
        TraceAction::Ask(self.servers[0])
    }

    /// Looks at the name servers of the referral from `ns` on: the addresses
    /// given for each in the additional section are collected; while none
    /// are known, the addresses of a name server are asked from a
    /// recursive resolver. When all were looked at, the collected addresses
    /// are the next step, or the trace ends when there are none.
    fn scan_ns(&mut self) -> (a: TraceAction)
        requires
            old(self).inv(),
            old(self).referral is Some,
            !old(self).done,
        ensures
            final(self).inv(),
            a matches TraceAction::ResolveGlue(n) ==> final(self).next@.len() == 0 && final(self).referral is Some
                && !final(self).done,
            a matches TraceAction::Ask(s) ==> s == final(self).servers@[0] && final(self).depth == old(self).depth + 1,
            a is Done ==> final(self).done,
            a is Ask || a is Done || a is ResolveGlue,
            final(self).depth >= old(self).depth,
            scan_done(scan_of(old(self).referral, old(self).ns as int, old(self).next@), old(self).depth, old(self).servers@, a,
                final(self)),
            a is ResolveGlue ==> final(self).referral == old(self).referral,
    {
        let ghost s0 = scan_of(self.referral, self.ns as int, self.next@);
        loop
            invariant
                self.inv(),
                self.referral is Some,
                self.depth == old(self).depth,
                !self.done,
                scan_of(self.referral, self.ns as int, self.next@) == s0,
                s0 == scan_of(old(self).referral, old(self).ns as int, old(self).next@),
                self.referral == old(self).referral,
                self.servers@ == old(self).servers@,
            decreases self.referral->Some_0.authority@.len() - self.ns,
        {
            let n_auth = match &self.referral {
                Some(m) => m.authority.len(),
                None => 0,
            };
            if self.ns >= n_auth {
                if self.next.len() == 0 {
                    return self.finish();
                }
                std::mem::swap(&mut self.servers, &mut self.next);
                assert(self.depth == old(self).depth);
                return self.ask_next();
            }
            let mut glue: Vec<TraceAddr> = Vec::new();
            let mut resolve: Option<String> = None;
            match &self.referral {
                Some(m) => {
                    let rr = &m.authority[self.ns];
                    if rr.rtype == RecordType::Ns {
                        match &rr.rdata {
                            Rdata::Ns(name) => {
                                collect_glue(&mut glue, &m.additional, name.as_str());
                                if self.next.len() == 0 && glue.len() == 0 {
                                    resolve = Some(name.clone());
                                }
                            },
                            _ => {},
                        }
                    }
                },
                None => {},
            }
            let ghost next0 = self.next@;
            let ghost glue0 = glue@;
            self.next.append(&mut glue);
            self.ns = self.ns + 1;
            proof {
                assert(self.next@ == next0 + glue0);
                if glue0.len() == 0 {
                    assert(self.next@ =~= next0);
                }
            }
            match resolve {
                Some(n) => {
                    return TraceAction::ResolveGlue(n);
                },
                None => {},
            }
        }
    }

    /// Takes what the last request gave and decides what follows.
    pub fn step(&mut self, ev: TraceEvent) -> (a: TraceAction)
        requires
            old(self).inv(),
        ensures
            final(self).inv(),
            old(self).done ==> a == TraceAction::Done,
            ev is Start && !old(self).done ==> (if old(self).depth >= MAX_DEPTH {
                a == TraceAction::Done
            } else {
                a == TraceAction::Ask(old(self).servers@[0])
            }),
            (ev matches TraceEvent::Answer(m) && !old(self).done && ends_trace(m@)) ==> a == TraceAction::Done,
            a matches TraceAction::Ask(s) ==> s == final(self).servers@[0] && final(self).depth > old(self).depth,
            final(self).depth <= MAX_DEPTH,
            !old(self).done ==> match ev {
                TraceEvent::Answer(m) => !ends_trace(m@) ==> scan_done(scan_spec(m@.authority, m@.additional, 0,
                    Seq::empty()), old(self).depth, old(self).servers@, a, final(self)) && (a is ResolveGlue
                    ==> final(self).referral == Some(m)),
                TraceEvent::Glue(g) => if old(self).referral is None {
                    a == TraceAction::Done
                } else {
                    scan_done(scan_of(old(self).referral, old(self).ns as int, old(self).next@ + glue_answer(g)), old(
                        self,
                    ).depth, old(self).servers@, a, final(self)) && (a is ResolveGlue ==> final(self).referral == old(
                        self,
                    ).referral)
                },
                TraceEvent::Start => true,
            },
    {
        if self.done {
            return TraceAction::Done;
        }
        match ev {
            TraceEvent::Start => self.ask_next(),
            TraceEvent::Answer(m) => {
                if answer_ends_trace(&m) {
                    return self.finish();
                }
                let ghost mv = m;
                self.referral = Some(m);
                self.ns = 0;
                self.next = Vec::new();
                proof { assert(self.next@ =~= Seq::<TraceAddr>::empty()); }
                self.scan_ns()
            },
            TraceEvent::Glue(g) => {
                if self.referral.is_none() {
                    return self.finish();
                }
                let ghost gv = g;
                let ghost n0 = self.next@;
                match g {
                    Some(gm) => collect_v4(&mut self.next, &gm.answers),
                    None => {},
                }
                proof {
                    assert(self.next@ =~= n0 + glue_answer(gv));
                }
                self.scan_ns()
            },
        }
    }
}

} // verus!
