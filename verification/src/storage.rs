use vstd::prelude::*;
use vstd::string::*;
use crate::codec::{enc_num, enc_str, enc_strs, dec_num, dec_str, dec_strs, push_num,
    push_str_field, read_num, read_str, read_strs, lemma_dec_enc_num, lemma_dec_enc_str,
    lemma_dec_enc_strs, lemma_prefix_parts};
use crate::errors::Error;
use crate::frame::{Frame, FrameModel};
use crate::text::{str_views, to_char_vec};
use crate::tracker::{State, StateModel, frames_models};
use crate::ts::{Timestamp, text_of, parse_at, read_ts, lemma_parse_render};

verus! {

// The three persisted artifacts are whole documents: the frame collection,
// the active-interval marker, and the tag registry. An absent artifact
// means the empty collection (or idle); a present artifact that does not
// decode is corrupt, never silently empty. Decoding must consume the whole
// document.

/// The encoded form of one frame: id, both timestamps, then the tags.
pub open spec fn enc_frame(f: FrameModel) -> Seq<char> {
    enc_str(f.id) + text_of(f.start) + text_of(f.end) + enc_num(f.tags.len()) + enc_strs(f.tags)
}

/// The encoded frames, back to back.
pub open spec fn enc_frame_seq(fs: Seq<FrameModel>) -> Seq<char>
    decreases fs.len(),
{
    if fs.len() == 0 {
        Seq::empty()
    } else {
        enc_frame(fs[0]) + enc_frame_seq(fs.drop_first())
    }
}

/// The frame-collection document: the count, then the frames.
pub open spec fn enc_frames_doc(fs: Seq<FrameModel>) -> Seq<char> {
    enc_num(fs.len()) + enc_frame_seq(fs)
}

/// The active-interval marker document: the start, then the tags.
pub open spec fn enc_state_doc(st: StateModel) -> Seq<char> {
    text_of(st.start) + enc_num(st.tags.len()) + enc_strs(st.tags)
}

/// The tag-registry document: the count, then the tags.
pub open spec fn enc_tags_doc(tags: Seq<Seq<char>>) -> Seq<char> {
    enc_num(tags.len()) + enc_strs(tags)
}

/// Decodes one frame at `i`.
pub open spec fn dec_frame(s: Seq<char>, i: int) -> Option<(FrameModel, int)> {
    match dec_str(s, i) {
        None => None,
        Some((id, j)) => match parse_at(s, j) {
            None => None,
            Some(start) => match parse_at(s, j + 19) {
                None => None,
                Some(end) => match dec_num(s, j + 38) {
                    None => None,
                    Some((k, l)) => match dec_strs(s, l, k as nat) {
                        None => None,
                        Some((tags, m)) => Some((FrameModel { id, start, end, tags }, m)),
                    },
                },
            },
        },
    }
}

/// Decodes `k` frames back to back.
pub open spec fn dec_frame_seq(s: Seq<char>, i: int, k: nat) -> Option<(Seq<FrameModel>, int)>
    decreases k,
{
    if k == 0 {
        Some((Seq::empty(), i))
    } else {
        match dec_frame(s, i) {
            None => None,
            Some((f, j)) => match dec_frame_seq(s, j, (k - 1) as nat) {
                None => None,
                Some((fs, l)) => Some((seq![f] + fs, l)),
            },
        }
    }
}

/// Decodes a whole frame-collection document.
pub open spec fn dec_frames_doc(s: Seq<char>) -> Option<Seq<FrameModel>> {
    match dec_num(s, 0) {
        None => None,
        Some((k, j)) => match dec_frame_seq(s, j, k as nat) {
            None => None,
            Some((fs, l)) => if l == s.len() {
                Some(fs)
            } else {
                None
            },
        },
    }
}

/// Decodes a whole marker document.
pub open spec fn dec_state_doc(s: Seq<char>) -> Option<StateModel> {
    match parse_at(s, 0) {
        None => None,
        Some(start) => match dec_num(s, 19) {
            None => None,
            Some((k, j)) => match dec_strs(s, j, k as nat) {
                None => None,
                Some((tags, l)) => if l == s.len() {
                    Some(StateModel { tags, start })
                } else {
                    None
                },
            },
        },
    }
}

/// Decodes a whole tag-registry document.
pub open spec fn dec_tags_doc(s: Seq<char>) -> Option<Seq<Seq<char>>> {
    match dec_num(s, 0) {
        None => None,
        Some((k, j)) => match dec_strs(s, j, k as nat) {
            None => None,
            Some((tags, l)) => if l == s.len() {
                Some(tags)
            } else {
                None
            },
        },
    }
}

/// A frame whose encoding a machine can hold: every count fits a word.
pub open spec fn frame_encodable(f: FrameModel) -> bool {
    &&& f.start.valid()
    &&& f.end.valid()
    &&& f.id.len() <= u64::MAX
    &&& f.tags.len() <= u64::MAX
    &&& forall|i: int| 0 <= i < f.tags.len() ==> (#[trigger] f.tags[i]).len() <= u64::MAX
}

/// An open interval whose encoding a machine can hold.
pub open spec fn state_encodable(st: StateModel) -> bool {
    &&& st.start.valid()
    &&& st.tags.len() <= u64::MAX
    &&& forall|i: int| 0 <= i < st.tags.len() ==> (#[trigger] st.tags[i]).len() <= u64::MAX
}

/// Appends the encoded tags of one list.
fn push_strs(s: &mut String, xs: &Vec<String>)
    ensures
        final(s)@ == old(s)@ + enc_strs(str_views(xs@)),
        forall|i: int|
            0 <= i < xs@.len() ==> (#[trigger] str_views(xs@)[i]).len() <= u64::MAX,
{
    let ghost views = str_views(xs@);
    let mut i: usize = 0;
    proof {
        assert(old(s)@ + enc_strs(views.take(0)) =~= old(s)@);
    }
    while i < xs.len()
        invariant
            i <= xs.len(),
            views == str_views(xs@),
            views.len() == xs@.len(),
            s@ == old(s)@ + enc_strs(views.take(i as int)),
            forall|k: int| 0 <= k < i ==> (#[trigger] views[k]).len() <= u64::MAX,
        decreases xs.len() - i,
    {
        push_str_field(s, xs[i].as_str());
        proof {
            lemma_enc_strs_push(views.take(i as int), views[i as int]);
            assert(views.take(i + 1 as int) =~= views.take(i as int).push(views[i as int]));
            assert(s@ =~= old(s)@ + enc_strs(views.take(i + 1 as int)));
        }
        i = i + 1;
    }
    proof {
        assert(views.take(xs@.len() as int) =~= views);
    }
}

proof fn lemma_enc_strs_push(ys: Seq<Seq<char>>, x: Seq<char>)
    ensures
        enc_strs(ys.push(x)) == enc_strs(ys) + enc_str(x),
    decreases ys.len(),
{
    if ys.len() == 0 {
        assert(ys.push(x)[0] == x);
        assert(ys.push(x).drop_first() =~= Seq::<Seq<char>>::empty());
        assert(enc_strs(ys.push(x).drop_first()) == Seq::<char>::empty());
        assert(enc_strs(ys.push(x)) == enc_str(x) + Seq::<char>::empty());
        assert(enc_strs(ys) == Seq::<char>::empty());
        assert(enc_str(x) + Seq::<char>::empty() =~= Seq::<char>::empty() + enc_str(x));
    } else {
        lemma_enc_strs_push(ys.drop_first(), x);
        assert(ys.push(x)[0] == ys[0]);
        assert(ys.push(x).drop_first() =~= ys.drop_first().push(x));
        assert(enc_strs(ys.push(x)) == enc_str(ys[0]) + enc_strs(ys.drop_first().push(x)));
        assert(enc_strs(ys.push(x)) == enc_str(ys[0]) + (enc_strs(ys.drop_first()) + enc_str(x)));
        assert(enc_str(ys[0]) + (enc_strs(ys.drop_first()) + enc_str(x)) =~= (enc_str(ys[0])
            + enc_strs(ys.drop_first())) + enc_str(x));
        assert(enc_strs(ys) == enc_str(ys[0]) + enc_strs(ys.drop_first()));
    }
}

proof fn lemma_enc_frame_seq_push(ys: Seq<FrameModel>, f: FrameModel)
    ensures
        enc_frame_seq(ys.push(f)) == enc_frame_seq(ys) + enc_frame(f),
    decreases ys.len(),
{
    if ys.len() == 0 {
        assert(ys.push(f)[0] == f);
        assert(ys.push(f).drop_first() =~= Seq::<FrameModel>::empty());
        assert(enc_frame_seq(ys.push(f).drop_first()) == Seq::<char>::empty());
        assert(enc_frame_seq(ys.push(f)) == enc_frame(f) + Seq::<char>::empty());
        assert(enc_frame_seq(ys) == Seq::<char>::empty());
        assert(enc_frame(f) + Seq::<char>::empty() =~= Seq::<char>::empty() + enc_frame(f));
    } else {
        lemma_enc_frame_seq_push(ys.drop_first(), f);
        assert(ys.push(f)[0] == ys[0]);
        assert(ys.push(f).drop_first() =~= ys.drop_first().push(f));
        assert(enc_frame_seq(ys.push(f)) == enc_frame(ys[0]) + enc_frame_seq(
            ys.drop_first().push(f),
        ));
        assert(enc_frame_seq(ys.push(f)) == enc_frame(ys[0]) + (enc_frame_seq(ys.drop_first())
            + enc_frame(f)));
        assert(enc_frame(ys[0]) + (enc_frame_seq(ys.drop_first()) + enc_frame(f)) =~= (enc_frame(
            ys[0],
        ) + enc_frame_seq(ys.drop_first())) + enc_frame(f));
        assert(enc_frame_seq(ys) == enc_frame(ys[0]) + enc_frame_seq(ys.drop_first()));
    }
}

/// Appends one encoded frame.
fn push_frame(s: &mut String, f: &Frame)
    requires
        f.storable(),
    ensures
        final(s)@ == old(s)@ + enc_frame(f.model()),
        frame_encodable(f.model()),
{
    push_str_field(s, f.id.as_str());
    s.append(f.start.render().as_str());
    s.append(f.end.render().as_str());
    push_num(s, f.tags.len() as u64);
    push_strs(s, &f.tags);
    proof {
        assert(final(s)@ =~= old(s)@ + enc_frame(f.model()));
    }
}

/// Encodes the whole frame collection as one document. What was written
/// reads back as the same sequence of frames, in the same order, with the
/// same field values.
#[verifier::rlimit(100)]
pub fn encode_frames_doc(frames: &Vec<Frame>) -> (r: String)
    requires
        forall|i: int| 0 <= i < frames@.len() ==> (#[trigger] frames@[i]).storable(),
    ensures
        r@ == enc_frames_doc(frames_models(frames@)),
        dec_frames_doc(r@) == Some(frames_models(frames@)),
{
    let ghost models = frames_models(frames@);
    let mut r = String::new();
    push_num(&mut r, frames.len() as u64);
    let mut i: usize = 0;
    proof {
        assert(r@ + enc_frame_seq(models.take(0)) =~= r@);
    }
    let ghost header = r@;
    while i < frames.len()
        invariant
            i <= frames.len(),
            models == frames_models(frames@),
            models.len() == frames@.len(),
            forall|k: int| 0 <= k < frames@.len() ==> (#[trigger] frames@[k]).storable(),
            r@ == header + enc_frame_seq(models.take(i as int)),
            forall|k: int| 0 <= k < i ==> frame_encodable(#[trigger] models[k]),
        decreases frames.len() - i,
    {
        push_frame(&mut r, &frames[i]);
        proof {
            lemma_enc_frame_seq_push(models.take(i as int), models[i as int]);
            assert(models.take(i + 1 as int) =~= models.take(i as int).push(models[i as int]));
            assert(r@ =~= header + enc_frame_seq(models.take(i + 1 as int)));
        }
        i = i + 1;
    }
    proof {
        assert(models.take(frames@.len() as int) =~= models);
        assert(r@ =~= enc_frames_doc(models));
        lemma_frames_doc_round_trip(models);
    }
    r
}

/// Encodes the active-interval marker as one document. What was written
/// reads back as the same interval.
pub fn encode_state_doc(st: &State) -> (r: String)
    requires
        st.wf(),
    ensures
        r@ == enc_state_doc(st.model()),
        dec_state_doc(r@) == Some(st.model()),
{
    let mut r = st.start.render();
    push_num(&mut r, st.tags.len() as u64);
    push_strs(&mut r, &st.tags);
    proof {
        assert(r@ =~= enc_state_doc(st.model()));
        lemma_state_doc_round_trip(st.model());
    }
    r
}

/// Encodes the tag registry as one document. What was written reads back
/// as the same tags.
pub fn encode_tags_doc(tags: &Vec<String>) -> (r: String)
    ensures
        r@ == enc_tags_doc(str_views(tags@)),
        dec_tags_doc(r@) == Some(str_views(tags@)),
{
    let mut r = String::new();
    push_num(&mut r, tags.len() as u64);
    push_strs(&mut r, tags);
    proof {
        assert(r@ =~= enc_tags_doc(str_views(tags@)));
        lemma_tags_doc_round_trip(str_views(tags@));
    }
    r
}

/// One frame reads back as itself from wherever its encoding stands.
#[verifier::rlimit(100)]
proof fn lemma_dec_enc_frame(s: Seq<char>, i: int, f: FrameModel)
    requires
        frame_encodable(f),
        0 <= i,
        i + enc_frame(f).len() <= s.len(),
        s.subrange(i, i + enc_frame(f).len()) == enc_frame(f),
    ensures
        dec_frame(s, i) == Some((f, i + enc_frame(f).len())),
{
    let p1 = enc_str(f.id);
    let p2 = text_of(f.start);
    let p3 = text_of(f.end);
    let p4 = enc_num(f.tags.len());
    let p5 = enc_strs(f.tags);
    let tail2 = p2 + p3 + p4 + p5;
    assert(enc_frame(f) =~= p1 + (p2 + p3 + p4 + p5));
    lemma_prefix_parts(s, i, p1, tail2);
    lemma_dec_enc_str(s, i, f.id);
    let j = i + p1.len();
    let tail3 = p3 + p4 + p5;
    assert(tail2 =~= p2 + (p3 + p4 + p5));
    lemma_prefix_parts(s, j, p2, tail3);
    lemma_parse_render(s, j, f.start);
    let j2 = j + p2.len();
    let tail4 = p4 + p5;
    assert(tail3 =~= p3 + (p4 + p5));
    lemma_prefix_parts(s, j2, p3, tail4);
    lemma_parse_render(s, j2, f.end);
    let j3 = j2 + p3.len();
    lemma_prefix_parts(s, j3, p4, p5);
    lemma_dec_enc_num(s, j3, f.tags.len());
    let j4 = j3 + p4.len();
    lemma_dec_enc_strs(s, j4, f.tags);
    assert(p2.len() == 19);
    assert(p3.len() == 19);
    assert(j2 == j + 19);
    assert(j3 == j + 38);
}

/// A run of frames reads back as itself from wherever its encoding stands.
#[verifier::rlimit(100)]
proof fn lemma_dec_enc_frame_seq(s: Seq<char>, i: int, fs: Seq<FrameModel>)
    requires
        forall|k: int| 0 <= k < fs.len() ==> frame_encodable(#[trigger] fs[k]),
        0 <= i,
        i + enc_frame_seq(fs).len() <= s.len(),
        s.subrange(i, i + enc_frame_seq(fs).len()) == enc_frame_seq(fs),
    ensures
        dec_frame_seq(s, i, fs.len()) == Some((fs, i + enc_frame_seq(fs).len())),
    decreases fs.len(),
{
    if fs.len() == 0 {
        assert(dec_frame_seq(s, i, 0) == Some((Seq::<FrameModel>::empty(), i)));
        assert(fs =~= Seq::<FrameModel>::empty());
    } else {
        let f = fs[0];
        let rest = fs.drop_first();
        let ef = enc_frame(f);
        let er = enc_frame_seq(rest);
        assert(enc_frame_seq(fs) == ef + er);
        lemma_prefix_parts(s, i, ef, er);
        lemma_dec_enc_frame(s, i, f);
        let j = i + ef.len();
        lemma_dec_enc_frame_seq(s, j, rest);
        assert(seq![f] + rest =~= fs);
    }
}

/// Writing the frame collection and reading it back yields the same
/// sequence: same order, same field values.
pub proof fn lemma_frames_doc_round_trip(fs: Seq<FrameModel>)
    requires
        fs.len() <= u64::MAX,
        forall|k: int| 0 <= k < fs.len() ==> frame_encodable(#[trigger] fs[k]),
    ensures
        dec_frames_doc(enc_frames_doc(fs)) == Some(fs),
{
    let s = enc_frames_doc(fs);
    let pn = enc_num(fs.len());
    let pf = enc_frame_seq(fs);
    assert(s.subrange(0, s.len() as int) =~= s);
    lemma_prefix_parts(s, 0, pn, pf);
    lemma_dec_enc_num(s, 0, fs.len());
    lemma_dec_enc_frame_seq(s, pn.len() as int, fs);
}

/// Writing the marker and reading it back yields the same interval.
#[verifier::rlimit(100)]
pub proof fn lemma_state_doc_round_trip(st: StateModel)
    requires
        state_encodable(st),
    ensures
        dec_state_doc(enc_state_doc(st)) == Some(st),
{
    let s = enc_state_doc(st);
    let p1 = text_of(st.start);
    let p2 = enc_num(st.tags.len());
    let p3 = enc_strs(st.tags);
    let tail2 = p2 + p3;
    assert(s =~= p1 + (p2 + p3));
    assert(s.subrange(0, s.len() as int) =~= s);
    lemma_prefix_parts(s, 0, p1, tail2);
    lemma_parse_render(s, 0, st.start);
    assert(p1.len() == 19);
    lemma_prefix_parts(s, 19, p2, p3);
    lemma_dec_enc_num(s, 19, st.tags.len());
    lemma_dec_enc_strs(s, 19 + p2.len() as int, st.tags);
}

/// Writing the tag registry and reading it back yields the same tags.
pub proof fn lemma_tags_doc_round_trip(tags: Seq<Seq<char>>)
    requires
        tags.len() <= u64::MAX,
        forall|k: int| 0 <= k < tags.len() ==> (#[trigger] tags[k]).len() <= u64::MAX,
    ensures
        dec_tags_doc(enc_tags_doc(tags)) == Some(tags),
{
    let s = enc_tags_doc(tags);
    let pn = enc_num(tags.len());
    let pt = enc_strs(tags);
    assert(s.subrange(0, s.len() as int) =~= s);
    lemma_prefix_parts(s, 0, pn, pt);
    lemma_dec_enc_num(s, 0, tags.len());
    lemma_dec_enc_strs(s, pn.len() as int, tags);
}

/// Reads one encoded frame.
fn read_frame(v: &Vec<char>, start: usize) -> (r: Option<(Frame, usize)>)
    requires
        start <= v@.len(),
    ensures
        match r {
            None => dec_frame(v@, start as int) is None,
            Some(p) => dec_frame(v@, start as int) == Some((p.0.model(), p.1 as int)) && start
                < p.1 <= v@.len() && p.0.storable(),
        },
{
    let (id, j) = match read_str(v, start) {
        None => { return None; },
        Some(p) => p,
    };
    let (t1, j1) = match read_ts(v, j) {
        None => { return None; },
        Some(p) => p,
    };
    let (t2, j2) = match read_ts(v, j1) {
        None => { return None; },
        Some(p) => p,
    };
    let (k, l) = match read_num(v, j2) {
        None => { return None; },
        Some(p) => p,
    };
    let (tags, m) = match read_strs(v, l, k) {
        None => { return None; },
        Some(p) => p,
    };
    Some((Frame { id, start: t1, end: t2, tags }, m))
}

/// Reads `k` encoded frames back to back.
fn read_frame_seq(v: &Vec<char>, start: usize, k: u64) -> (r: Option<(Vec<Frame>, usize)>)
    requires
        start <= v@.len(),
    ensures
        match r {
            None => dec_frame_seq(v@, start as int, k as nat) is None,
            Some(p) => dec_frame_seq(v@, start as int, k as nat) == Some(
                (frames_models(p.0@), p.1 as int),
            ) && start <= p.1 <= v@.len() && forall|i: int|
                0 <= i < p.0@.len() ==> (#[trigger] p.0@[i]).storable(),
        },
{
    let mut acc: Vec<Frame> = Vec::new();
    let mut pos: usize = start;
    let mut m: u64 = 0;
    proof {
        if dec_frame_seq(v@, start as int, k as nat) is Some {
            let p = dec_frame_seq(v@, start as int, k as nat)->Some_0;
            assert(frames_models(acc@) + p.0 =~= p.0);
        }
    }
    while m < k
        invariant
            start <= pos <= v@.len(),
            m <= k,
            forall|i: int| 0 <= i < acc@.len() ==> (#[trigger] acc@[i]).storable(),
            dec_frame_seq(v@, start as int, k as nat) == (match dec_frame_seq(
                v@,
                pos as int,
                (k - m) as nat,
            ) {
                None => None::<(Seq<FrameModel>, int)>,
                Some(p) => Some((frames_models(acc@) + p.0, p.1)),
            }),
        decreases k - m,
    {
        match read_frame(v, pos) {
            None => {
                return None;
            },
            Some((f, j)) => {
                proof {
                    let rem = (k - m) as nat;
                    assert(dec_frame_seq(v@, pos as int, rem) == (match dec_frame_seq(
                        v@,
                        j as int,
                        (rem - 1) as nat,
                    ) {
                        None => None::<(Seq<FrameModel>, int)>,
                        Some(p) => Some((seq![f.model()] + p.0, p.1)),
                    }));
                    if dec_frame_seq(v@, j as int, (rem - 1) as nat) is Some {
                        let p = dec_frame_seq(v@, j as int, (rem - 1) as nat)->Some_0;
                        assert(frames_models(acc@.push(f)) =~= frames_models(acc@).push(
                            f.model(),
                        ));
                        assert(frames_models(acc@) + (seq![f.model()] + p.0) =~= frames_models(
                            acc@.push(f),
                        ) + p.0);
                    }
                }
                acc.push(f);
                pos = j;
                m = m + 1;
            },
        }
    }
    proof {
        assert(dec_frame_seq(v@, pos as int, 0) == Some((Seq::<FrameModel>::empty(), pos as int)));
        assert(frames_models(acc@) + Seq::<FrameModel>::empty() =~= frames_models(acc@));
    }
    Some((acc, pos))
}

/// Decodes the frame-collection document. An absent artifact means the
/// empty collection; a present one that does not decode is corrupt, never
/// silently empty.
pub fn decode_frames_doc(doc: Option<&str>) -> (r: Result<Vec<Frame>, Error>)
    ensures
        match doc {
            None => r matches Ok(fs) && fs@.len() == 0,
            Some(d) => match dec_frames_doc(d@) {
                Some(ms) => r matches Ok(fs) && frames_models(fs@) == ms && forall|i: int|
                    0 <= i < fs@.len() ==> (#[trigger] fs@[i]).storable(),
                None => r == Err::<Vec<Frame>, Error>(Error::CorruptState),
            },
        },
{
    match doc {
        None => Ok(Vec::new()),
        Some(d) => {
            let v = to_char_vec(d);
            match read_num(&v, 0) {
                None => Err(Error::CorruptState),
                Some((k, j)) => match read_frame_seq(&v, j, k) {
                    None => Err(Error::CorruptState),
                    Some((fs, m)) => {
                        if m == v.len() {
                            Ok(fs)
                        } else {
                            Err(Error::CorruptState)
                        }
                    },
                },
            }
        },
    }
}

/// Decodes the active-interval marker document. An absent artifact means
/// idle; a present one that does not decode is corrupt.
pub fn decode_state_doc(doc: Option<&str>) -> (r: Result<Option<State>, Error>)
    ensures
        match doc {
            None => r matches Ok(st) && st is None,
            Some(d) => match dec_state_doc(d@) {
                Some(ms) => r matches Ok(st) && st matches Some(s) && s.model() == ms && s.wf(),
                None => r == Err::<Option<State>, Error>(Error::CorruptState),
            },
        },
{
    match doc {
        None => Ok(None),
        Some(d) => {
            let v = to_char_vec(d);
            match read_ts(&v, 0) {
                None => Err(Error::CorruptState),
                Some((t, j19)) => match read_num(&v, j19) {
                    None => Err(Error::CorruptState),
                    Some((k, j)) => match read_strs(&v, j, k) {
                        None => Err(Error::CorruptState),
                        Some((tags, l)) => {
                            if l == v.len() {
                                Ok(Some(State { tags, start: t }))
                            } else {
                                Err(Error::CorruptState)
                            }
                        },
                    },
                },
            }
        },
    }
}

/// Decodes the tag-registry document. An absent artifact means no known
/// tags; a present one that does not decode is corrupt.
pub fn decode_tags_doc(doc: Option<&str>) -> (r: Result<Vec<String>, Error>)
    ensures
        match doc {
            None => r matches Ok(tags) && tags@.len() == 0,
            Some(d) => match dec_tags_doc(d@) {
                Some(ms) => r matches Ok(tags) && str_views(tags@) == ms,
                None => r == Err::<Vec<String>, Error>(Error::CorruptState),
            },
        },
{
    match doc {
        None => Ok(Vec::new()),
        Some(d) => {
            let v = to_char_vec(d);
            match read_num(&v, 0) {
                None => Err(Error::CorruptState),
                Some((k, j)) => match read_strs(&v, j, k) {
                    None => Err(Error::CorruptState),
                    Some((tags, l)) => {
                        if l == v.len() {
                            Ok(tags)
                        } else {
                            Err(Error::CorruptState)
                        }
                    },
                },
            }
        },
    }
}

} // verus!
