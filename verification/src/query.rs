use vstd::prelude::*;
use crate::frame::{Frame, FrameModel};
use crate::tracker::{RTime, frames_models};
use crate::ts::Timestamp;

verus! {

/// Whether each given bound admits the frame: `from` at or before its
/// start, `to` at or after its end. The two bounds filter independently;
/// an absent bound admits everything.
pub open spec fn in_range(f: FrameModel, from: Option<Timestamp>, to: Option<Timestamp>) -> bool {
    &&& match from {
        Some(t) => t.spec_le(f.start),
        None => true,
    }
    &&& match to {
        Some(t) => f.end.spec_le(t),
        None => true,
    }
}

/// The frames the bounds admit, in stored order.
pub open spec fn range_filter(
    fs: Seq<FrameModel>,
    from: Option<Timestamp>,
    to: Option<Timestamp>,
) -> Seq<FrameModel> {
    fs.filter(|f: FrameModel| in_range(f, from, to))
}

/// Where a later frame belongs in an already ordered run: after every
/// frame that starts at or before it, so frames with equal starts keep
/// their original relative order.
pub open spec fn insert_by_start(f: FrameModel, fs: Seq<FrameModel>) -> Seq<FrameModel>
    decreases fs.len(),
{
    if fs.len() == 0 {
        seq![f]
    } else if fs.last().start.spec_le(f.start) {
        fs.push(f)
    } else {
        insert_by_start(f, fs.drop_last()).push(fs.last())
    }
}

/// Stable insertion sort, ascending by start.
pub open spec fn sort_by_start(fs: Seq<FrameModel>) -> Seq<FrameModel>
    decreases fs.len(),
{
    if fs.len() == 0 {
        Seq::empty()
    } else {
        insert_by_start(fs.last(), sort_by_start(fs.drop_last()))
    }
}

/// Ascending by start throughout.
pub open spec fn sorted_by_start(fs: Seq<FrameModel>) -> bool {
    forall|i: int, j: int|
        0 <= i <= j < fs.len() ==> (#[trigger] fs[i]).start.spec_le((#[trigger] fs[j]).start)
}

proof fn lemma_insert_by_start_len(f: FrameModel, fs: Seq<FrameModel>)
    ensures
        insert_by_start(f, fs).len() == fs.len() + 1,
    decreases fs.len(),
{
    if fs.len() == 0 {
    } else if fs.last().start.spec_le(f.start) {
    } else {
        lemma_insert_by_start_len(f, fs.drop_last());
    }
}

proof fn lemma_insert_by_start_bound(f: FrameModel, fs: Seq<FrameModel>, b: Timestamp)
    requires
        forall|i: int| 0 <= i < fs.len() ==> (#[trigger] fs[i]).start.spec_le(b),
        f.start.spec_le(b),
    ensures
        forall|i: int|
            0 <= i < insert_by_start(f, fs).len() ==> (#[trigger] insert_by_start(f, fs)[
                i]).start.spec_le(b),
    decreases fs.len(),
{
    if fs.len() == 0 {
    } else if fs.last().start.spec_le(f.start) {
        let r = fs.push(f);
        assert forall|i: int| 0 <= i < r.len() implies (#[trigger] r[i]).start.spec_le(b) by {
            if i < fs.len() {
                assert(r[i] == fs[i]);
            } else {
                assert(r[i] == f);
            }
        }
    } else {
        let ddl = fs.drop_last();
        assert forall|i: int| 0 <= i < ddl.len() implies (#[trigger] ddl[i]).start.spec_le(b) by {
            assert(ddl[i] == fs[i]);
        }
        lemma_insert_by_start_bound(f, ddl, b);
        let inner = insert_by_start(f, ddl);
        let r = inner.push(fs.last());
        assert(fs[fs.len() - 1] == fs.last());
        assert forall|i: int| 0 <= i < r.len() implies (#[trigger] r[i]).start.spec_le(b) by {
            if i < inner.len() {
                assert(r[i] == inner[i]);
            } else {
                assert(r[i] == fs.last());
            }
        }
    }
}

/// Inserting into an ordered run keeps it ordered.
proof fn lemma_insert_by_start_sorted(f: FrameModel, fs: Seq<FrameModel>)
    requires
        sorted_by_start(fs),
    ensures
        sorted_by_start(insert_by_start(f, fs)),
    decreases fs.len(),
{
    if fs.len() == 0 {
    } else if fs.last().start.spec_le(f.start) {
        let r = fs.push(f);
        assert forall|i: int, j: int| 0 <= i <= j < r.len() implies (#[trigger] r[i]).start.spec_le(
            (#[trigger] r[j]).start,
        ) by {
            if j < fs.len() {
            } else {
                if i < fs.len() {
                    assert(fs[i].start.spec_le(fs.last().start));
                }
            }
        }
    } else {
        let ddl = fs.drop_last();
        assert(forall|i: int, j: int|
            0 <= i <= j < ddl.len() ==> (#[trigger] ddl[i]).start.spec_le(
                (#[trigger] ddl[j]).start,
            ));
        lemma_insert_by_start_sorted(f, ddl);
        let inner = insert_by_start(f, ddl);
        lemma_insert_by_start_len(f, ddl);
        assert(!fs.last().start.spec_le(f.start));
        assert(f.start.spec_le(fs.last().start));
        assert forall|i: int| 0 <= i < ddl.len() implies (#[trigger] ddl[i]).start.spec_le(
            fs.last().start,
        ) by {
            assert(fs[i] == ddl[i]);
        }
        lemma_insert_by_start_bound(f, ddl, fs.last().start);
        let r = inner.push(fs.last());
        assert forall|i: int, j: int| 0 <= i <= j < r.len() implies (#[trigger] r[i]).start.spec_le(
            (#[trigger] r[j]).start,
        ) by {
            if j < inner.len() {
                assert(r[i] == inner[i] && r[j] == inner[j]);
            } else {
                if i < inner.len() {
                    assert(r[i] == inner[i]);
                    assert(inner[i].start.spec_le(fs.last().start));
                }
            }
        }
    }
}

/// The sort's result is ordered and has the same length.
pub proof fn lemma_sort_by_start_sorted(fs: Seq<FrameModel>)
    ensures
        sorted_by_start(sort_by_start(fs)),
        sort_by_start(fs).len() == fs.len(),
    decreases fs.len(),
{
    if fs.len() == 0 {
    } else {
        lemma_sort_by_start_sorted(fs.drop_last());
        lemma_insert_by_start_sorted(fs.last(), sort_by_start(fs.drop_last()));
        lemma_insert_by_start_len(fs.last(), sort_by_start(fs.drop_last()));
    }
}

proof fn lemma_filter_push(s: Seq<FrameModel>, e: FrameModel, pred: spec_fn(FrameModel) -> bool)
    ensures
        s.push(e).filter(pred) == if pred(e) {
            s.filter(pred).push(e)
        } else {
            s.filter(pred)
        },
{
    reveal_with_fuel(Seq::<_>::filter, 2);
    let r = s.push(e);
    assert(r.drop_last() =~= s);
    assert(r.last() == e);
    assert(r.len() > 0);
    assert(r.filter(pred) == if pred(e) {
        s.filter(pred).push(e)
    } else {
        s.filter(pred)
    });
}

/// Inserting a frame adds it behind the frames that share its start and
/// leaves every other start's run unchanged.
proof fn lemma_insert_by_start_filter(f: FrameModel, fs: Seq<FrameModel>, t: Timestamp)
    ensures
        insert_by_start(f, fs).filter(|x: FrameModel| x.start == t) == if f.start == t {
            fs.filter(|x: FrameModel| x.start == t).push(f)
        } else {
            fs.filter(|x: FrameModel| x.start == t)
        },
    decreases fs.len(),
{
    let pred = |x: FrameModel| x.start == t;
    if fs.len() == 0 {
        reveal_with_fuel(Seq::<_>::filter, 2);
        assert(seq![f] =~= Seq::<FrameModel>::empty().push(f));
        lemma_filter_push(Seq::<FrameModel>::empty(), f, pred);
        assert(fs =~= Seq::<FrameModel>::empty());
    } else if fs.last().start.spec_le(f.start) {
        lemma_filter_push(fs, f, pred);
    } else {
        let ddl = fs.drop_last();
        let last = fs.last();
        lemma_insert_by_start_filter(f, ddl, t);
        lemma_filter_push(insert_by_start(f, ddl), last, pred);
        assert(fs == ddl.push(last));
        lemma_filter_push(ddl, last, pred);
        if f.start == t && last.start == t {
            // equal starts would have taken the other branch
            assert(last.start.spec_le(f.start));
            assert(false);
        }
    }
}

/// Sorting never reorders frames that share a start: for every start, the
/// run with that start equals the unsorted run with that start.
pub proof fn lemma_sort_by_start_stable(fs: Seq<FrameModel>, t: Timestamp)
    ensures
        sort_by_start(fs).filter(|x: FrameModel| x.start == t) == fs.filter(
            |x: FrameModel| x.start == t,
        ),
    decreases fs.len(),
{
    let pred = |x: FrameModel| x.start == t;
    if fs.len() == 0 {
        assert(sort_by_start(fs) == Seq::<FrameModel>::empty());
    } else {
        let ddl = fs.drop_last();
        let last = fs.last();
        lemma_sort_by_start_stable(ddl, t);
        lemma_insert_by_start_filter(last, sort_by_start(ddl), t);
        assert(fs == ddl.push(last));
        lemma_filter_push(ddl, last, pred);
    }
}

/// Inserts a frame into an already ordered vector, behind every frame that
/// starts at or before it.
fn insert_frame(fs: Vec<Frame>, f: Frame) -> (r: Vec<Frame>)
    requires
        forall|i: int| 0 <= i < fs@.len() ==> (#[trigger] fs@[i]).storable(),
        f.storable(),
    ensures
        frames_models(r@) == insert_by_start(f.model(), frames_models(fs@)),
        forall|i: int| 0 <= i < r@.len() ==> (#[trigger] r@[i]).storable(),
    decreases fs@.len(),
{
    let mut fs = fs;
    let ghost models = frames_models(fs@);
    if fs.len() == 0 {
        proof {
            assert(models.len() == 0);
        }
        fs.push(f);
        proof {
            assert(frames_models(fs@) =~= seq![f.model()]);
            assert(insert_by_start(f.model(), models) == seq![f.model()]);
        }
        fs
    } else {
        proof {
            assert(models.last() == fs@.last().model());
        }
        let go_last = fs[fs.len() - 1].start.le(&f.start);
        if go_last {
            fs.push(f);
            proof {
                assert(frames_models(fs@) =~= models.push(f.model()));
            }
            fs
        } else {
            let last = fs.pop().unwrap();
            proof {
                assert(frames_models(fs@) =~= models.drop_last());
            }
            let mut r = insert_frame(fs, f);
            r.push(last);
            proof {
                assert(frames_models(r@) =~= insert_by_start(
                    f.model(),
                    models.drop_last(),
                ).push(last.model()));
                assert(insert_by_start(f.model(), models) == insert_by_start(
                    f.model(),
                    models.drop_last(),
                ).push(models.last()));
            }
            r
        }
    }
}

impl RTime {
    /// All stored frames that the bounds admit, ascending by start; frames
    /// with equal starts keep their stored relative order.
    pub fn list_frames(&self, from: Option<Timestamp>, to: Option<Timestamp>) -> (r: Vec<Frame>)
        requires
            self.wf(),
        ensures
            frames_models(r@) == sort_by_start(
                range_filter(frames_models(self.frames@), from, to),
            ),
            sorted_by_start(frames_models(r@)),
            forall|i: int| 0 <= i < r@.len() ==> (#[trigger] r@[i]).storable(),
    {
        let ghost all = frames_models(self.frames@);
        let mut out: Vec<Frame> = Vec::new();
        let mut i: usize = 0;
        proof {
            assert(all.take(0).filter(|f: FrameModel| in_range(f, from, to))
                =~= Seq::<FrameModel>::empty());
            assert(frames_models(out@) =~= Seq::<FrameModel>::empty());
        }
        while i < self.frames.len()
            invariant
                self.wf(),
                i <= self.frames@.len(),
                all == frames_models(self.frames@),
                all.len() == self.frames@.len(),
                frames_models(out@) == sort_by_start(range_filter(all.take(i as int), from, to)),
                forall|k: int| 0 <= k < out@.len() ==> (#[trigger] out@[k]).storable(),
            decreases self.frames@.len() - i,
        {
            let f = &self.frames[i];
            let ghost m = f.model();
            let keep_from = match &from {
                Some(t) => t.le(&f.start),
                None => true,
            };
            let keep_to = match &to {
                Some(t) => f.end.le(t),
                None => true,
            };
            proof {
                assert(all[i as int] == self.frames@[i as int].model());
                assert(all.take(i + 1 as int) =~= all.take(i as int).push(m));
                lemma_filter_push(
                    all.take(i as int),
                    m,
                    |x: FrameModel| in_range(x, from, to),
                );
                let filtered = range_filter(all.take(i as int), from, to);
                if in_range(m, from, to) {
                    assert(range_filter(all.take(i + 1 as int), from, to) == filtered.push(m));
                    assert(sort_by_start(filtered.push(m)) == insert_by_start(
                        m,
                        sort_by_start(filtered),
                    )) by {
                        assert(filtered.push(m).drop_last() =~= filtered);
                        assert(filtered.push(m).last() == m);
                    }
                } else {
                    assert(range_filter(all.take(i + 1 as int), from, to) == filtered);
                }
            }
            if keep_from && keep_to {
                let dup = f.duplicate();
                out = insert_frame(out, dup);
            }
            i = i + 1;
        }
        proof {
            assert(all.take(self.frames@.len() as int) =~= all);
            lemma_sort_by_start_sorted(range_filter(all, from, to));
        }
        out
    }
}

} // verus!
