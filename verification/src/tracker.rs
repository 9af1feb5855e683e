use vstd::prelude::*;
use vstd::string::*;
use crate::errors::Error;
use crate::frame::{Frame, FrameModel, id_of};
use crate::settings::Settings;
use crate::text::{join_with, join_strings, str_views};
use crate::ts::{Timestamp, text_of};

verus! {

/// The open interval: its presence is the sole signal of "currently
/// tracking"; its absence means idle.
#[derive(Debug)]
pub struct State {
    pub tags: Vec<String>,
    pub start: Timestamp,
}

/// The mathematical content of an open interval.
pub ghost struct StateModel {
    pub tags: Seq<Seq<char>>,
    pub start: Timestamp,
}

impl State {
    pub open spec fn model(self) -> StateModel {
        StateModel { tags: str_views(self.tags@), start: self.start }
    }

    pub open spec fn wf(self) -> bool {
        self.start.valid()
    }
}

/// The frame each stored frame stands for.
pub open spec fn frames_models(fs: Seq<Frame>) -> Seq<FrameModel> {
    fs.map_values(|f: Frame| f.model())
}

/// The completed frame that stopping the interval `st` at `at` must yield.
pub open spec fn closed_frame(st: StateModel, at: Timestamp) -> FrameModel {
    FrameModel { id: id_of(st.start, at, st.tags), start: st.start, end: at, tags: st.tags }
}

/// The abstract state of the machine: the open interval, if any, and the
/// completed frames in stored order.
pub ghost struct TrackerModel {
    pub active: Option<StateModel>,
    pub frames: Seq<FrameModel>,
}

/// What stopping at `at` does: when tracking, the interval becomes exactly
/// one appended frame ending at `at`; when idle, nothing.
pub open spec fn spec_stop(m: TrackerModel, at: Timestamp) -> TrackerModel {
    match m.active {
        None => m,
        Some(st) => TrackerModel { active: None, frames: m.frames.push(closed_frame(st, at)) },
    }
}

/// What a start with non-empty tags does: any open interval is first
/// closed at `at`, then a new interval opens at `at`.
pub open spec fn spec_start(m: TrackerModel, at: Timestamp, tags: Seq<Seq<char>>) -> TrackerModel {
    TrackerModel {
        active: Some(StateModel { tags, start: at }),
        frames: spec_stop(m, at).frames,
    }
}

/// What the status operation reports.
pub open spec fn status_text(m: Option<StateModel>) -> Seq<char> {
    match m {
        Some(st) => "Started frame ["@ + join_with(st.tags, seq![' ']) + "] at "@ + text_of(
            st.start,
        ),
        None => "No frame started."@,
    }
}

/// The tracking state machine, over one in-memory snapshot of the stored
/// collections. `Tracking` is `state` being present, `Idle` its absence;
/// the caller persists the collections after a mutating operation.
#[derive(Debug)]
pub struct RTime {
    pub tags: Vec<String>,
    pub state: Option<State>,
    pub frames: Vec<Frame>,
    pub settings: Settings,
}

impl RTime {
    pub open spec fn active_model(self) -> Option<StateModel> {
        match self.state {
            Some(st) => Some(st.model()),
            None => None,
        }
    }

    pub open spec fn model(self) -> TrackerModel {
        TrackerModel { active: self.active_model(), frames: frames_models(self.frames@) }
    }

    pub open spec fn wf(self) -> bool {
        &&& match self.state {
            Some(st) => st.wf(),
            None => true,
        }
        &&& forall|i: int| 0 <= i < self.frames@.len() ==> (#[trigger] self.frames@[i]).storable()
    }

    /// Closes the open interval at `at`: the interval becomes exactly one
    /// frame, appended to the collection, and the machine is idle. When
    /// already idle this is a deliberate no-op, not an error.
    pub fn stop(&mut self, at: Timestamp)
        requires
            old(self).wf(),
            at.valid(),
        ensures
            final(self).wf(),
            final(self).state is None,
            final(self).tags == old(self).tags,
            final(self).settings == old(self).settings,
            final(self).model() == spec_stop(old(self).model(), at),
            old(self).state is None ==> final(self).frames == old(self).frames,
    {
        let prior = self.state.take();
        match prior {
            None => {},
            Some(st) => {
                let f = Frame::new(st.start, at, st.tags);
                self.frames.push(f);
                proof {
                    assert(frames_models(self.frames@) =~= frames_models(
                        old(self).frames@,
                    ).push(closed_frame(st.model(), at)));
                }
            },
        }
    }

    /// Opens an interval at `at` with the given tags. With no tags this
    /// fails with `EmptyTagSet` and changes nothing. When an interval is
    /// already open, it is first closed at `at` (stop-then-start), so every
    /// open interval becomes exactly one frame and at most one interval is
    /// ever open.
    pub fn start(&mut self, at: Timestamp, tags: Vec<String>) -> (r: Result<(), Error>)
        requires
            old(self).wf(),
            at.valid(),
        ensures
            final(self).wf(),
            final(self).tags == old(self).tags,
            final(self).settings == old(self).settings,
            tags@.len() == 0 ==> r == Err::<(), Error>(Error::EmptyTagSet) && *final(self) == *old(
                self,
            ),
            tags@.len() > 0 ==> r is Ok && final(self).model() == spec_start(
                old(self).model(),
                at,
                str_views(tags@),
            ),
    {
        if tags.len() == 0 {
            return Err(Error::EmptyTagSet);
        }
        self.stop(at);
        self.state = Some(State { start: at, tags });
        Ok(())
    }

    /// Builds the machine from the three stored documents as the caller
    /// read them, `None` standing for an absent artifact. A present
    /// document that does not decode fails with `CorruptState`; an absent
    /// one means idle, no frames, or no known tags.
    pub fn new(
        settings: Settings,
        state_doc: Option<&str>,
        tags_doc: Option<&str>,
        frames_doc: Option<&str>,
    ) -> (r: Result<RTime, Error>)
        ensures
            match r {
                Ok(rt) => {
                    &&& rt.wf()
                    &&& rt.settings == settings
                    &&& match state_doc {
                        None => rt.state is None,
                        Some(d) => crate::storage::dec_state_doc(d@) matches Some(m)
                            && rt.active_model() == Some(m),
                    }
                    &&& match frames_doc {
                        None => rt.frames@.len() == 0,
                        Some(d) => crate::storage::dec_frames_doc(d@) == Some(
                            frames_models(rt.frames@),
                        ),
                    }
                    &&& match tags_doc {
                        None => rt.tags@.len() == 0,
                        Some(d) => crate::storage::dec_tags_doc(d@) == Some(str_views(rt.tags@)),
                    }
                },
                Err(e) => {
                    &&& e == Error::CorruptState
                    &&& {
                        ||| state_doc matches Some(d) && crate::storage::dec_state_doc(d@) is None
                        ||| frames_doc matches Some(d) && crate::storage::dec_frames_doc(d@)
                            is None
                        ||| tags_doc matches Some(d) && crate::storage::dec_tags_doc(d@) is None
                    }
                },
            },
    {
        let state = match crate::storage::decode_state_doc(state_doc) {
            Ok(s) => s,
            Err(e) => { return Err(e); },
        };
        let tags = match crate::storage::decode_tags_doc(tags_doc) {
            Ok(t) => t,
            Err(e) => { return Err(e); },
        };
        let frames = match crate::storage::decode_frames_doc(frames_doc) {
            Ok(f) => f,
            Err(e) => { return Err(e); },
        };
        Ok(RTime { tags, state, frames, settings })
    }

    /// Reports the open interval, or that none is open; read-only.
    pub fn status(&self) -> (r: String)
        requires
            self.wf(),
        ensures
            r@ == status_text(self.active_model()),
    {
        match &self.state {
            Some(st) => {
                let mut r = String::from_str("Started frame [");
                r.append(join_strings(&st.tags, ' ').as_str());
                r.append("] at ");
                r.append(st.start.render().as_str());
                r
            },
            None => String::from_str("No frame started."),
        }
    }
}

/// Starting while idle and stopping at the same instant yields exactly one
/// new frame, carrying the input tags and spanning `at` to `at`.
pub proof fn lemma_start_then_stop(m: TrackerModel, at: Timestamp, tags: Seq<Seq<char>>)
    requires
        m.active is None,
        tags.len() > 0,
    ensures
        ({
            let m2 = spec_stop(spec_start(m, at, tags), at);
            &&& m2.active is None
            &&& m2.frames.len() == m.frames.len() + 1
            &&& m2.frames.last().tags == tags
            &&& m2.frames.last().start == at
            &&& m2.frames.last().end == at
            &&& m2.frames.take(m.frames.len() as int) == m.frames
        }),
{
    let m2 = spec_stop(spec_start(m, at, tags), at);
    assert(m2.frames.take(m.frames.len() as int) =~= m.frames);
}

/// The effect of a run of starts, first to last.
pub open spec fn spec_start_run(
    m: TrackerModel,
    steps: Seq<(Timestamp, Seq<Seq<char>>)>,
) -> TrackerModel
    decreases steps.len(),
{
    if steps.len() == 0 {
        m
    } else {
        spec_start_run(spec_start(m, steps[0].0, steps[0].1), steps.drop_first())
    }
}

proof fn lemma_start_run_tracking(m: TrackerModel, steps: Seq<(Timestamp, Seq<Seq<char>>)>)
    requires
        m.active is Some,
    ensures
        spec_start_run(m, steps).frames.len() == m.frames.len() + steps.len(),
        steps.len() == 0 ==> spec_start_run(m, steps) == m,
        steps.len() > 0 ==> spec_start_run(m, steps).active == Some(
            StateModel { tags: steps.last().1, start: steps.last().0 },
        ),
    decreases steps.len(),
{
    if steps.len() == 0 {
    } else {
        let m1 = spec_start(m, steps[0].0, steps[0].1);
        lemma_start_run_tracking(m1, steps.drop_first());
        if steps.len() > 1 {
            assert(steps.drop_first().last() == steps.last());
        }
    }
}

/// Starting N times in a row without stopping closes each prior interval
/// at the next start's time: exactly N-1 frames accrue, and the machine
/// tracks the last start.
pub proof fn lemma_consecutive_starts(m: TrackerModel, steps: Seq<(Timestamp, Seq<Seq<char>>)>)
    requires
        m.active is None,
        steps.len() > 0,
    ensures
        spec_start_run(m, steps).frames.len() == m.frames.len() + steps.len() - 1,
        spec_start_run(m, steps).active == Some(
            StateModel { tags: steps.last().1, start: steps.last().0 },
        ),
{
    let m1 = spec_start(m, steps[0].0, steps[0].1);
    assert(m1.frames == m.frames);
    lemma_start_run_tracking(m1, steps.drop_first());
    if steps.len() > 1 {
        assert(steps.drop_first().last() == steps.last());
    }
}

} // verus!
