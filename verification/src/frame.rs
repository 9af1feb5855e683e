use vstd::prelude::*;
use crate::hashing::{hex_of, sha256_of, sha256_digest, to_hex};
use crate::text::{join_with, join_strings, str_views};
use crate::ts::{Timestamp, text_of};

verus! {

/// An immutable completed interval.
///
/// Frames are append-only: created by the stop transition, never mutated.
/// The id is derived from the content, so identical content always yields
/// the identical id. Whether `end` lies at or after `start` is not enforced
/// here: a caller may supply retroactive timestamps, and they are held
/// verbatim.
#[derive(Debug)]
pub struct Frame {
    pub id: String,
    pub start: Timestamp,
    pub end: Timestamp,
    pub tags: Vec<String>,
}

/// The mathematical content of a frame.
pub ghost struct FrameModel {
    pub id: Seq<char>,
    pub start: Timestamp,
    pub end: Timestamp,
    pub tags: Seq<Seq<char>>,
}

/// The text whose digest identifies a frame: the canonical start text, the
/// canonical end text, and the tags joined by commas, in that order.
pub open spec fn id_text(start: Timestamp, end: Timestamp, tags: Seq<Seq<char>>) -> Seq<char> {
    text_of(start) + text_of(end) + join_with(tags, seq![','])
}

/// The identity a frame with this content must carry.
pub open spec fn id_of(start: Timestamp, end: Timestamp, tags: Seq<Seq<char>>) -> Seq<char> {
    hex_of(sha256_of(id_text(start, end, tags)))
}

/// The views of a frame's tags.
pub open spec fn tag_views(tags: Seq<String>) -> Seq<Seq<char>> {
    str_views(tags)
}

impl Frame {
    pub open spec fn model(self) -> FrameModel {
        FrameModel {
            id: self.id@,
            start: self.start,
            end: self.end,
            tags: tag_views(self.tags@),
        }
    }

    /// Both timestamps are printable, so the frame can be stored and shown.
    /// A frame read back from storage carries its stored id verbatim.
    pub open spec fn storable(self) -> bool {
        &&& self.start.valid()
        &&& self.end.valid()
    }

    /// Both timestamps are printable and the id is the one the content demands.
    pub open spec fn wf(self) -> bool {
        &&& self.start.valid()
        &&& self.end.valid()
        &&& self.id@ == id_of(self.start, self.end, tag_views(self.tags@))
    }

    /// Builds the frame for a completed interval; a pure constructor.
    ///
    /// The id is the hex-encoded 256-bit digest of the content text, so two
    /// frames with identical start, end and tag sequence carry identical ids.
    pub fn new(start: Timestamp, end: Timestamp, tags: Vec<String>) -> (f: Frame)
        requires
            start.valid(),
            end.valid(),
        ensures
            f.start == start,
            f.end == end,
            f.tags == tags,
            f.id@ == id_of(start, end, tag_views(tags@)),
            f.wf(),
    {
        let mut content = start.render();
        content.append(end.render().as_str());
        content.append(join_strings(&tags, ',').as_str());
        let digest = sha256_digest(content.as_str());
        let id = to_hex(&digest);
        Frame { id, start, end, tags }
    }

    /// An identical copy of the frame, field by field.
    pub fn duplicate(&self) -> (r: Frame)
        ensures
            r.id == self.id,
            r.start == self.start,
            r.end == self.end,
            r.tags@ == self.tags@,
            r.model() == self.model(),
    {
        let mut tags: Vec<String> = Vec::new();
        let mut i: usize = 0;
        while i < self.tags.len()
            invariant
                i <= self.tags@.len(),
                tags@ == self.tags@.take(i as int),
            decreases self.tags@.len() - i,
        {
            tags.push(self.tags[i].clone());
            proof {
                assert(tags@ =~= self.tags@.take(i + 1 as int));
            }
            i = i + 1;
        }
        proof {
            assert(self.tags@.take(self.tags@.len() as int) =~= self.tags@);
        }
        let r = Frame { id: self.id.clone(), start: self.start, end: self.end, tags };
        proof {
            assert(r.model().tags =~= self.model().tags);
        }
        r
    }
}

/// Frame identity is deterministic: two well-formed frames with identical
/// start, end and tag sequence carry the identical id.
pub proof fn lemma_id_deterministic(f: Frame, g: Frame)
    requires
        f.wf(),
        g.wf(),
        f.start == g.start,
        f.end == g.end,
        tag_views(f.tags@) == tag_views(g.tags@),
    ensures
        f.id@ == g.id@,
{
}

} // verus!
