//! Measurements and their hosts, with the mathematical values they stand for.

use vstd::prelude::*;

verus! {

/// Where a measurement is in its life. It only ever moves forward.
#[derive(Clone, Copy, Debug, PartialEq, Eq, Structural)]
pub enum State {
    Waiting,
    InProgress,
    Complete,
}

/// The bandwidth of a background host, in bytes per second.
pub const BACKGROUND_BW: u32 = 125000;

/// The number of connections of a background host.
pub const BACKGROUND_CONNS: u32 = 1;

/// A resource that a measurement uses.
#[derive(Debug, PartialEq, Eq)]
pub struct Host {
    pub class: String,
    /// Bytes per second.
    pub bw: u32,
    /// Connections to open.
    pub conns: u32,
}

/// What a host is, as a mathematical value.
pub struct HostView {
    pub class: Seq<char>,
    pub bw: u32,
    pub conns: u32,
}

impl View for Host {
    type V = HostView;

    open spec fn view(&self) -> HostView {
        HostView { class: self.class@, bw: self.bw, conns: self.conns }
    }
}

impl Clone for Host {
    fn clone(&self) -> (r: Self)
        ensures
            r == *self,
    {
        Host { class: self.class.clone(), bw: self.bw, conns: self.conns }
    }
}

/// What a vector of hosts stands for.
pub open spec fn host_views(hosts: Seq<Host>) -> Seq<HostView> {
    Seq::new(hosts.len(), |i: int| hosts[i]@)
}

/// The class name that marks a background host.
pub open spec fn background_class() -> Seq<char> {
    seq!['b', 'g']
}

/// Whether `class` is the class name of background hosts.
pub fn is_background_class(class: &Vec<char>) -> (r: bool)
    ensures
        r == (class@ == background_class()),
{
    let r = class.len() == 2 && class[0] == 'b' && class[1] == 'g';
    proof {
        if r {
            assert(class@ =~= seq!['b', 'g']);
        }
    }
    r
}

/// Whether a host is of the background class.
pub open spec fn is_background(h: HostView) -> bool {
    h.class == background_class()
}

/// At most one host is a background host, and that one has exactly one
/// connection and the fixed bandwidth.
pub open spec fn background_ok(hosts: Seq<HostView>) -> bool {
    &&& forall|i: int|
        0 <= i < hosts.len() && is_background(#[trigger] hosts[i]) ==> hosts[i].conns
            == BACKGROUND_CONNS && hosts[i].bw == BACKGROUND_BW
    &&& forall|i: int, j: int|
        0 <= i < j < hosts.len() && is_background(#[trigger] hosts[i]) ==> !is_background(
            #[trigger] hosts[j],
        )
}

/// What a measurement is, as a mathematical value.
pub struct MeasurementView {
    pub id: u32,
    pub fp: Seq<char>,
    /// Expected run length in seconds.
    pub dur: u32,
    pub state: State,
    pub hosts: Seq<HostView>,
    /// The ids that must be complete before this measurement may start.
    pub depends: Seq<u32>,
    /// Those of `depends` seen complete so far, in the order they completed.
    pub finished_depends: Seq<u32>,
    /// Seconds since the epoch after which a started measurement counts as
    /// stuck; 0 while it waits.
    pub failsafe_stop: u64,
}

impl MeasurementView {
    /// What holds of every measurement at all times.
    pub open spec fn valid(self) -> bool {
        &&& self.id != 0
        &&& !self.depends.contains(self.id)
        &&& !self.depends.contains(0)
        &&& self.depends.no_duplicates()
        &&& background_ok(self.hosts)
        &&& self.finished_depends.no_duplicates()
        &&& forall|d: u32| self.finished_depends.contains(d) ==> self.depends.contains(d)
        &&& self.state == State::Waiting ==> self.failsafe_stop == 0
        &&& self.state != State::Waiting ==> self.finished_depends.len() == self.depends.len()
    }

    /// As a measurement is when it has just been read.
    pub open spec fn fresh(self) -> bool {
        &&& self.state == State::Waiting
        &&& self.finished_depends.len() == 0
        &&& self.failsafe_stop == 0
    }

    /// Waiting, with every dependency seen complete.
    pub open spec fn ready(self) -> bool {
        self.state == State::Waiting && self.finished_depends.len() == self.depends.len()
    }

    /// This measurement once it has started at `deadline`'s making.
    pub open spec fn started(self, deadline: u64) -> MeasurementView {
        MeasurementView { state: State::InProgress, failsafe_stop: deadline, ..self }
    }

    /// This measurement once it is complete.
    pub open spec fn completed(self) -> MeasurementView {
        MeasurementView { state: State::Complete, ..self }
    }

    /// This measurement once it has seen its dependency `id` complete.
    pub open spec fn noting(self, id: u32) -> MeasurementView {
        MeasurementView { finished_depends: self.finished_depends.push(id), ..self }
    }
}

/// One unit of schedulable work.
#[derive(Debug)]
pub struct Measurement {
    id: u32,
    fp: String,
    dur: u32,
    state: State,
    hosts: Vec<Host>,
    depends: Vec<u32>,
    finished_depends: Vec<u32>,
    failsafe_stop: u64,
}

impl View for Measurement {
    type V = MeasurementView;

    closed spec fn view(&self) -> MeasurementView {
        MeasurementView {
            id: self.id,
            fp: self.fp@,
            dur: self.dur,
            state: self.state,
            hosts: host_views(self.hosts@),
            depends: self.depends@,
            finished_depends: self.finished_depends@,
            failsafe_stop: self.failsafe_stop,
        }
    }
}

impl Measurement {
    /// What holds of every measurement that this library hands out.
    pub open spec fn wf(&self) -> bool {
        self@.valid()
    }

    /// A waiting measurement with nothing finished yet, from its parts.
    pub(crate) fn assemble(
        id: u32,
        fp: String,
        dur: u32,
        hosts: Vec<Host>,
        depends: Vec<u32>,
    ) -> (m: Measurement)
        ensures
            m@ == (MeasurementView {
                id,
                fp: fp@,
                dur,
                state: State::Waiting,
                hosts: host_views(hosts@),
                depends: depends@,
                finished_depends: Seq::empty(),
                failsafe_stop: 0,
            }),
    {
        Measurement {
            id,
            fp,
            dur,
            state: State::Waiting,
            hosts,
            depends,
            finished_depends: Vec::new(),
            failsafe_stop: 0,
        }
    }

    /// The id: never 0.
    pub fn id(&self) -> (r: u32)
        ensures
            r == self@.id,
    {
        self.id
    }

    /// The fingerprint, as it stood in the record.
    pub fn fingerprint(&self) -> (r: &String)
        ensures
            r@ == self@.fp,
    {
        &self.fp
    }

    /// The expected run length, in seconds.
    pub fn duration(&self) -> (r: u32)
        ensures
            r == self@.dur,
    {
        self.dur
    }

    /// Where the measurement is in its life.
    pub fn state(&self) -> (r: State)
        ensures
            r == self@.state,
    {
        self.state
    }

    /// The hosts, in the order of the record.
    pub fn hosts(&self) -> (r: &Vec<Host>)
        ensures
            host_views(r@) == self@.hosts,
    {
        &self.hosts
    }

    /// The ids this measurement waits for, each once.
    pub fn depends(&self) -> (r: &Vec<u32>)
        ensures
            r@ == self@.depends,
    {
        &self.depends
    }

    /// Those of the dependencies seen complete so far, in the order they
    /// completed.
    pub fn finished_depends(&self) -> (r: &Vec<u32>)
        ensures
            r@ == self@.finished_depends,
    {
        &self.finished_depends
    }

    /// The failsafe deadline in seconds since the epoch; 0 while waiting.
    pub fn failsafe_stop(&self) -> (r: u64)
        ensures
            r == self@.failsafe_stop,
    {
        self.failsafe_stop
    }

    /// Whether the measurement waits with every dependency seen complete.
    pub fn is_ready(&self) -> (r: bool)
        ensures
            r == self@.ready(),
    {
        self.state == State::Waiting && self.depends.len() == self.finished_depends.len()
    }

    /// Moves the measurement to in progress, due by `deadline`.
    pub(crate) fn start(&mut self, deadline: u64)
        ensures
            final(self)@ == old(self)@.started(deadline),
    {
        self.state = State::InProgress;
        self.failsafe_stop = deadline;
    }

    /// Moves the measurement to complete.
    pub(crate) fn complete(&mut self)
        ensures
            final(self)@ == old(self)@.completed(),
    {
        self.state = State::Complete;
    }

    /// Notes that the dependency `id` has completed.
    pub(crate) fn note_finished(&mut self, id: u32)
        ensures
            final(self)@ == old(self)@.noting(id),
    {
        self.finished_depends.push(id);
    }
}

} // verus!
