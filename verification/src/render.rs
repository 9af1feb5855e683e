use vstd::prelude::*;
use vstd::string::*;
use crate::frame::{Frame, FrameModel};
use crate::text::{join_with, join_strings, str_views};
use crate::tracker::{RTime, frames_models};
use crate::ts::{Timestamp, text_of};

verus! {

/// The output encodings the log operation can render.
#[derive(Debug, Copy, Clone, PartialEq, Eq, Structural)]
pub enum Format {
    Pretty,
    Json,
    Yaml,
    Csv,
}

/// What every renderer yields for an empty frame set, in place of an empty
/// (and ambiguous) document.
pub open spec fn no_frames_text() -> Seq<char> {
    "no frames tracked"@
}

/// A character inside a double-quoted scalar.
pub open spec fn esc_char(c: char) -> Seq<char> {
    if c == '"' {
        seq!['\\', '"']
    } else if c == '\\' {
        seq!['\\', '\\']
    } else if c == '\n' {
        seq!['\\', 'n']
    } else if c == '\r' {
        seq!['\\', 'r']
    } else if c == '\t' {
        seq!['\\', 't']
    } else {
        seq![c]
    }
}

/// A text with quotes, backslashes and whitespace controls escaped.
pub open spec fn esc(s: Seq<char>) -> Seq<char>
    decreases s.len(),
{
    if s.len() == 0 {
        Seq::empty()
    } else {
        esc(s.drop_last()) + esc_char(s.last())
    }
}

/// A double-quoted, escaped scalar.
pub open spec fn quoted(s: Seq<char>) -> Seq<char> {
    seq!['"'] + esc(s) + seq!['"']
}

/// A character inside a quoted comma-separated field: quotes are doubled.
pub open spec fn csv_esc_char(c: char) -> Seq<char> {
    if c == '"' {
        seq!['"', '"']
    } else {
        seq![c]
    }
}

pub open spec fn csv_esc(s: Seq<char>) -> Seq<char>
    decreases s.len(),
{
    if s.len() == 0 {
        Seq::empty()
    } else {
        csv_esc(s.drop_last()) + csv_esc_char(s.last())
    }
}

/// The quoted tags, joined by commas.
pub open spec fn quoted_join(tags: Seq<Seq<char>>) -> Seq<char> {
    join_with(tags.map_values(|t: Seq<char>| quoted(t)), seq![','])
}

/// One frame as a structured object with a nested tag list.
pub open spec fn json_frame(f: FrameModel) -> Seq<char> {
    "{\"id\":\""@ + esc(f.id) + "\",\"start\":\""@ + text_of(f.start) + "\",\"end\":\""@ + text_of(
        f.end,
    ) + "\",\"tags\":["@ + quoted_join(f.tags) + "]}"@
}

/// The whole collection as one structured document.
pub open spec fn json_text(fs: Seq<FrameModel>) -> Seq<char> {
    if fs.len() == 0 {
        no_frames_text()
    } else {
        "["@ + join_with(fs.map_values(|f: FrameModel| json_frame(f)), seq![',']) + "]"@
    }
}

/// One frame as a block-mapping list entry.
pub open spec fn yaml_frame(f: FrameModel) -> Seq<char> {
    "- id: \""@ + esc(f.id) + "\"\n  start: \""@ + text_of(f.start) + "\"\n  end: \""@ + text_of(
        f.end,
    ) + "\"\n  tags: ["@ + quoted_join(f.tags) + "]"@
}

pub open spec fn yaml_text(fs: Seq<FrameModel>) -> Seq<char> {
    if fs.len() == 0 {
        no_frames_text()
    } else {
        join_with(fs.map_values(|f: FrameModel| yaml_frame(f)), seq!['\n'])
    }
}

/// One frame as a flat row: id, both timestamps, and the tags space-joined
/// in a single field.
pub open spec fn csv_row(f: FrameModel) -> Seq<char> {
    seq!['"'] + csv_esc(f.id) + "\","@ + text_of(f.start) + ","@ + text_of(f.end) + ",\""@
        + csv_esc(join_with(f.tags, seq![' '])) + seq!['"']
}

pub open spec fn csv_text(fs: Seq<FrameModel>) -> Seq<char> {
    if fs.len() == 0 {
        no_frames_text()
    } else {
        "id,start,end,tags\n"@ + join_with(fs.map_values(|f: FrameModel| csv_row(f)), seq!['\n'])
    }
}

/// One frame as a human-oriented summary line.
pub open spec fn pretty_line(f: FrameModel) -> Seq<char> {
    text_of(f.start) + " -> "@ + text_of(f.end) + "  ["@ + join_with(f.tags, seq![' ']) + "]"@
}

pub open spec fn pretty_text(fs: Seq<FrameModel>) -> Seq<char> {
    if fs.len() == 0 {
        no_frames_text()
    } else {
        join_with(fs.map_values(|f: FrameModel| pretty_line(f)), seq!['\n'])
    }
}

/// The document the log operation renders for the given format.
pub open spec fn rendered(format: Format, fs: Seq<FrameModel>) -> Seq<char> {
    match format {
        Format::Pretty => pretty_text(fs),
        Format::Json => json_text(fs),
        Format::Yaml => yaml_text(fs),
        Format::Csv => csv_text(fs),
    }
}

/// Every format renders the empty set as the same literal signal.
pub proof fn lemma_empty_render(format: Format)
    ensures
        rendered(format, Seq::empty()) == no_frames_text(),
{
}

/// Appends `s` with double-quoted-scalar escaping.
fn push_escaped(out: &mut String, s: &str)
    ensures
        final(out)@ == old(out)@ + esc(s@),
{
    let v = crate::text::to_char_vec(s);
    let mut i: usize = 0;
    proof {
        assert(old(out)@ + esc(v@.take(0)) =~= old(out)@);
    }
    while i < v.len()
        invariant
            i <= v@.len(),
            v@ == s@,
            out@ == old(out)@ + esc(v@.take(i as int)),
        decreases v@.len() - i,
    {
        let c = v[i];
        if c == '"' {
            out.push('\\');
            out.push('"');
        } else if c == '\\' {
            out.push('\\');
            out.push('\\');
        } else if c == '\n' {
            out.push('\\');
            out.push('n');
        } else if c == '\r' {
            out.push('\\');
            out.push('r');
        } else if c == '\t' {
            out.push('\\');
            out.push('t');
        } else {
            out.push(c);
        }
        proof {
            assert(v@.take(i + 1 as int).drop_last() =~= v@.take(i as int));
            assert(v@.take(i + 1 as int).last() == v@[i as int]);
            assert(out@ =~= old(out)@ + esc(v@.take(i + 1 as int)));
        }
        i = i + 1;
    }
    proof {
        assert(v@.take(v@.len() as int) =~= v@);
    }
}

/// Appends `s` with quoted-field escaping: quotes doubled.
fn push_csv_escaped(out: &mut String, s: &str)
    ensures
        final(out)@ == old(out)@ + csv_esc(s@),
{
    let v = crate::text::to_char_vec(s);
    let mut i: usize = 0;
    proof {
        assert(old(out)@ + csv_esc(v@.take(0)) =~= old(out)@);
    }
    while i < v.len()
        invariant
            i <= v@.len(),
            v@ == s@,
            out@ == old(out)@ + csv_esc(v@.take(i as int)),
        decreases v@.len() - i,
    {
        let c = v[i];
        if c == '"' {
            out.push('"');
            out.push('"');
        } else {
            out.push(c);
        }
        proof {
            assert(v@.take(i + 1 as int).drop_last() =~= v@.take(i as int));
            assert(v@.take(i + 1 as int).last() == v@[i as int]);
            assert(out@ =~= old(out)@ + csv_esc(v@.take(i + 1 as int)));
        }
        i = i + 1;
    }
    proof {
        assert(v@.take(v@.len() as int) =~= v@);
    }
}

/// The tags, quoted and comma-joined, as one string.
fn quoted_join_str(tags: &Vec<String>) -> (r: String)
    ensures
        r@ == quoted_join(str_views(tags@)),
{
    let mut parts: Vec<String> = Vec::new();
    let mut i: usize = 0;
    while i < tags.len()
        invariant
            i <= tags@.len(),
            parts@.len() == i,
            forall|k: int|
                0 <= k < i ==> (#[trigger] parts@[k])@ == quoted(str_views(tags@)[k]),
        decreases tags@.len() - i,
    {
        let mut q = String::new();
        q.push('"');
        push_escaped(&mut q, tags[i].as_str());
        q.push('"');
        proof {
            assert(q@ =~= quoted(str_views(tags@)[i as int]));
        }
        parts.push(q);
        i = i + 1;
    }
    let r = join_strings(&parts, ',');
    proof {
        assert(str_views(parts@) =~= str_views(tags@).map_values(|t: Seq<char>| quoted(t)));
    }
    r
}

/// One frame as its structured object.
fn json_frame_str(f: &Frame) -> (r: String)
    requires
        f.storable(),
    ensures
        r@ == json_frame(f.model()),
{
    let mut r = String::from_str("{\"id\":\"");
    push_escaped(&mut r, f.id.as_str());
    r.append("\",\"start\":\"");
    r.append(f.start.render().as_str());
    r.append("\",\"end\":\"");
    r.append(f.end.render().as_str());
    r.append("\",\"tags\":[");
    r.append(quoted_join_str(&f.tags).as_str());
    r.append("]}");
    proof {
        assert(r@ =~= json_frame(f.model()));
    }
    r
}

/// One frame as its block-mapping entry.
fn yaml_frame_str(f: &Frame) -> (r: String)
    requires
        f.storable(),
    ensures
        r@ == yaml_frame(f.model()),
{
    let mut r = String::from_str("- id: \"");
    push_escaped(&mut r, f.id.as_str());
    r.append("\"\n  start: \"");
    r.append(f.start.render().as_str());
    r.append("\"\n  end: \"");
    r.append(f.end.render().as_str());
    r.append("\"\n  tags: [");
    r.append(quoted_join_str(&f.tags).as_str());
    r.append("]");
    proof {
        assert(r@ =~= yaml_frame(f.model()));
    }
    r
}

/// One frame as its flat row.
fn csv_row_str(f: &Frame) -> (r: String)
    requires
        f.storable(),
    ensures
        r@ == csv_row(f.model()),
{
    let mut r = String::new();
    r.push('"');
    push_csv_escaped(&mut r, f.id.as_str());
    r.append("\",");
    r.append(f.start.render().as_str());
    r.append(",");
    r.append(f.end.render().as_str());
    r.append(",\"");
    push_csv_escaped(&mut r, join_strings(&f.tags, ' ').as_str());
    r.push('"');
    proof {
        assert(r@ =~= csv_row(f.model()));
    }
    r
}

/// One frame as its summary line.
fn pretty_line_str(f: &Frame) -> (r: String)
    requires
        f.storable(),
    ensures
        r@ == pretty_line(f.model()),
{
    let mut r = f.start.render();
    r.append(" -> ");
    r.append(f.end.render().as_str());
    r.append("  [");
    r.append(join_strings(&f.tags, ' ').as_str());
    r.append("]");
    proof {
        assert(r@ =~= pretty_line(f.model()));
    }
    r
}

/// Renders the frames in the asked-for format. An empty set yields the
/// literal "no frames tracked" signal in every format, never an empty
/// document.
#[verifier::rlimit(100)]
pub fn render(format: Format, frames: &Vec<Frame>) -> (r: String)
    requires
        forall|i: int| 0 <= i < frames@.len() ==> (#[trigger] frames@[i]).storable(),
    ensures
        r@ == rendered(format, frames_models(frames@)),
{
    let ghost models = frames_models(frames@);
    if frames.len() == 0 {
        return String::from_str("no frames tracked");
    }
    let mut parts: Vec<String> = Vec::new();
    let mut i: usize = 0;
    while i < frames.len()
        invariant
            i <= frames@.len(),
            models == frames_models(frames@),
            models.len() == frames@.len(),
            forall|k: int| 0 <= k < frames@.len() ==> (#[trigger] frames@[k]).storable(),
            parts@.len() == i,
            forall|k: int|
                0 <= k < i ==> (#[trigger] parts@[k])@ == frame_part(format, models[k]),
        decreases frames@.len() - i,
    {
        let part = match format {
            Format::Pretty => pretty_line_str(&frames[i]),
            Format::Json => json_frame_str(&frames[i]),
            Format::Yaml => yaml_frame_str(&frames[i]),
            Format::Csv => csv_row_str(&frames[i]),
        };
        proof {
            assert(models[i as int] == frames@[i as int].model());
        }
        parts.push(part);
        i = i + 1;
    }
    let sep = if matches!(format, Format::Csv) || matches!(format, Format::Yaml) || matches!(
        format,
        Format::Pretty,
    ) {
        '\n'
    } else {
        ','
    };
    let body = join_strings(&parts, sep);
    proof {
        assert(str_views(parts@) =~= models.map_values(|f: FrameModel| frame_part(format, f)));
    }
    match format {
        Format::Pretty => {
            proof {
                assert(models.map_values(|f: FrameModel| frame_part(format, f))
                    =~= models.map_values(|f: FrameModel| pretty_line(f)));
            }
            body
        },
        Format::Json => {
            proof {
                assert(models.map_values(|f: FrameModel| frame_part(format, f))
                    =~= models.map_values(|f: FrameModel| json_frame(f)));
            }
            let mut r = String::from_str("[");
            r.append(body.as_str());
            r.append("]");
            proof {
                assert(r@ =~= json_text(models));
            }
            r
        },
        Format::Yaml => {
            proof {
                assert(models.map_values(|f: FrameModel| frame_part(format, f))
                    =~= models.map_values(|f: FrameModel| yaml_frame(f)));
            }
            body
        },
        Format::Csv => {
            proof {
                assert(models.map_values(|f: FrameModel| frame_part(format, f))
                    =~= models.map_values(|f: FrameModel| csv_row(f)));
            }
            let mut r = String::from_str("id,start,end,tags\n");
            r.append(body.as_str());
            proof {
                assert(r@ =~= csv_text(models));
            }
            r
        },
    }
}

/// The piece one frame contributes in the given format.
pub open spec fn frame_part(format: Format, f: FrameModel) -> Seq<char> {
    match format {
        Format::Pretty => pretty_line(f),
        Format::Json => json_frame(f),
        Format::Yaml => yaml_frame(f),
        Format::Csv => csv_row(f),
    }
}

impl RTime {
    /// Renders the stored frames the bounds admit, ascending by start, in
    /// the asked-for format; read-only.
    pub fn log(&self, format: Format, from: Option<Timestamp>, to: Option<Timestamp>) -> (r:
        String)
        requires
            self.wf(),
        ensures
            r@ == rendered(
                format,
                crate::query::sort_by_start(
                    crate::query::range_filter(frames_models(self.frames@), from, to),
                ),
            ),
    {
        let frames = self.list_frames(from, to);
        render(format, &frames)
    }
}

} // verus!
