//! Output locations that a downstream agent treats as instructions or data.

use vstd::prelude::*;
use vstd::string::StringExecFns;

use crate::json::{field, get_field, parse_json, parsed_json, Json};
use crate::text::{chars_of, contains, contains_chars, lines, split_lines, trim, trimmed};

verus! {

/// One sink found on the module's standard output.
pub enum PromptSink {
    /// A line holding the `PROMPT:` marker.
    StdoutPrompt { line: String },
    /// A `prompt` or `messages` field of a JSON line.
    JsonPrompt { key: String, value: String },
    /// A string leaf of any other JSON line, with its path from the root `$`.
    ToolReturnLeaf { path: String, value: String },
}

/// The texts of a `PromptSink`.
pub enum SinkView {
    StdoutPrompt { line: Seq<char> },
    JsonPrompt { key: Seq<char>, value: Seq<char> },
    ToolReturnLeaf { path: Seq<char>, value: Seq<char> },
}

impl View for PromptSink {
    type V = SinkView;

    open spec fn view(&self) -> SinkView {
        match self {
            PromptSink::StdoutPrompt { line } => SinkView::StdoutPrompt { line: line@ },
            PromptSink::JsonPrompt { key, value } => SinkView::JsonPrompt { key: key@, value: value@ },
            PromptSink::ToolReturnLeaf { path, value } => SinkView::ToolReturnLeaf {
                path: path@,
                value: value@,
            },
        }
    }
}

impl SinkView {
    /// The text that snippets are matched against.
    pub open spec fn text(self) -> Seq<char> {
        match self {
            SinkView::StdoutPrompt { line } => line,
            SinkView::JsonPrompt { value, .. } => value,
            SinkView::ToolReturnLeaf { value, .. } => value,
        }
    }

    /// The sink's category: the name of its variant.
    pub open spec fn sink_type(self) -> Seq<char> {
        match self {
            SinkView::StdoutPrompt { .. } => "StdoutPrompt"@,
            SinkView::JsonPrompt { .. } => "JsonPrompt"@,
            SinkView::ToolReturnLeaf { .. } => "ToolReturnLeaf"@,
        }
    }
}

/// The views of a sequence of sinks.
pub open spec fn sink_views(s: Seq<PromptSink>) -> Seq<SinkView> {
    s.map_values(|k: PromptSink| k@)
}

impl PromptSink {
    /// The exact text that source snippets are matched against.
    pub open spec fn text_view(&self) -> Seq<char> {
        self@.text()
    }

    /// The sink's category: the name of its variant.
    pub open spec fn type_view(&self) -> Seq<char> {
        self@.sink_type()
    }

    pub fn as_text(&self) -> (r: &str)
        ensures
            r@ == self.text_view(),
    {
        match self {
            PromptSink::StdoutPrompt { line } => line.as_str(),
            PromptSink::JsonPrompt { value, .. } => value.as_str(),
            PromptSink::ToolReturnLeaf { value, .. } => value.as_str(),
        }
    }

    /// A copy with the same texts.
    pub fn duplicate(&self) -> (r: PromptSink)
        ensures
            r@ == self@,
    {
        match self {
            PromptSink::StdoutPrompt { line } => PromptSink::StdoutPrompt { line: line.clone() },
            PromptSink::JsonPrompt { key, value } => PromptSink::JsonPrompt {
                key: key.clone(),
                value: value.clone(),
            },
            PromptSink::ToolReturnLeaf { path, value } => PromptSink::ToolReturnLeaf {
                path: path.clone(),
                value: value.clone(),
            },
        }
    }

    pub fn sink_type(&self) -> (r: String)
        ensures
            r@ == self.type_view(),
    {
        match self {
            PromptSink::StdoutPrompt { .. } => String::from_str("StdoutPrompt"),
            PromptSink::JsonPrompt { .. } => String::from_str("JsonPrompt"),
            PromptSink::ToolReturnLeaf { .. } => String::from_str("ToolReturnLeaf"),
        }
    }
}

/// The `content` strings of the messages, each followed by a line feed.
pub open spec fn message_text(items: Seq<Json>) -> Seq<char>
    decreases items.len(),
{
    if items.len() == 0 {
        Seq::empty()
    } else {
        message_text(items.drop_last()) + match field(items.last(), "content"@) {
            Some(Json::Str(c)) => c@ + "\n"@,
            _ => Seq::empty(),
        }
    }
}

/// The instruction sinks of one JSON document: a string `prompt` field, then
/// the joined `content` of a `messages` array unless that is blank.
pub open spec fn json_prompt_views(v: Json) -> Seq<SinkView> {
    let p = match field(v, "prompt"@) {
        Some(Json::Str(s)) => seq![SinkView::JsonPrompt { key: "prompt"@, value: s@ }],
        _ => Seq::empty(),
    };
    let m = match field(v, "messages"@) {
        Some(Json::Array(items)) => {
            let c = trimmed(message_text(items@));
            if c.len() > 0 {
                seq![SinkView::JsonPrompt { key: "messages"@, value: c }]
            } else {
                Seq::empty()
            }
        },
        _ => Seq::empty(),
    };
    p + m
}

/// The instruction sinks of one output line: the line itself, verbatim, where
/// it holds the marker, else those of the JSON document that the trimmed line
/// parses as, if any.
pub open spec fn line_prompt_views(line: Seq<char>) -> Seq<SinkView> {
    let t = trimmed(line);
    if contains(t, "PROMPT:"@) {
        seq![SinkView::StdoutPrompt { line }]
    } else {
        match parsed_json(t) {
            Some(v) => json_prompt_views(v),
            None => Seq::empty(),
        }
    }
}

/// The instruction sinks of a sequence of lines, line by line.
pub open spec fn prompt_views(ls: Seq<Seq<char>>) -> Seq<SinkView>
    decreases ls.len(),
{
    if ls.len() == 0 {
        Seq::empty()
    } else {
        prompt_views(ls.drop_last()) + line_prompt_views(ls.last())
    }
}

/// The instruction sinks of one parsed JSON document (see `json_prompt_views`).
pub fn json_prompt_sinks(v: &Json) -> (r: Vec<PromptSink>)
    ensures
        sink_views(r@) == json_prompt_views(*v),
{
    let mut out: Vec<PromptSink> = Vec::new();
    match get_field(v, "prompt") {
        Some(Json::Str(p)) => {
            out.push(PromptSink::JsonPrompt { key: String::from_str("prompt"), value: p.clone() });
        },
        _ => {},
    }
    let ghost p_part = sink_views(out@);
    match get_field(v, "messages") {
        Some(Json::Array(items)) => {
            let mut combined = String::new();
            let mut i: usize = 0;
            while i < items.len()
                invariant
                    i <= items.len(),
                    combined@ == message_text(items@.subrange(0, i as int)),
                decreases items.len() - i,
            {
                assert(items@.subrange(0, i + 1).drop_last() =~= items@.subrange(0, i as int));
                match get_field(&items[i], "content") {
                    Some(Json::Str(c)) => {
                        combined.append(c.as_str());
                        combined.append("\n");
                    },
                    _ => {},
                }
                i = i + 1;
            }
            assert(items@.subrange(0, items.len() as int) =~= items@);
            let joined = trim(combined.as_str());
            if !joined.as_str().is_empty() {
                out.push(PromptSink::JsonPrompt { key: String::from_str("messages"), value: joined });
            }
        },
        _ => {},
    }
    assert(sink_views(out@) =~= json_prompt_views(*v));
    out
}

/// The instruction sinks of one output line (see `line_prompt_views`).
pub fn line_prompt_sinks(line: &str) -> (r: Vec<PromptSink>)
    ensures
        sink_views(r@) == line_prompt_views(line@),
{
    let t = trim(line);
    let tc = chars_of(t.as_str());
    let marker = chars_of("PROMPT:");
    if contains_chars(&tc, &marker) {
        let r = vec![PromptSink::StdoutPrompt { line: String::from_str(line) }];
        assert(sink_views(r@) =~= line_prompt_views(line@));
        r
    } else {
        match parse_json(t.as_str()) {
            Some(v) => json_prompt_sinks(&v),
            None => {
                let r = Vec::new();
                assert(sink_views(r@) =~= line_prompt_views(line@));
                r
            },
        }
    }
}

/// The instruction sinks of a module's standard output, line by line.
pub fn extract_prompt_sinks(stdout: &str) -> (r: Vec<PromptSink>)
    ensures
        sink_views(r@) == prompt_views(lines(stdout@)),
{
    let ls = split_lines(stdout);
    let ghost lv = crate::text::views(ls@);
    let mut out: Vec<PromptSink> = Vec::new();
    let mut i: usize = 0;
    while i < ls.len()
        invariant
            i <= ls.len(),
            lv == crate::text::views(ls@),
            lv == lines(stdout@),
            sink_views(out@) == prompt_views(lv.subrange(0, i as int)),
        decreases ls.len() - i,
    {
        let mut found = line_prompt_sinks(ls[i].as_str());
        let ghost before = sink_views(out@);
        let ghost add = sink_views(found@);
        out.append(&mut found);
        assert(sink_views(out@) =~= before + add);
        assert(lv.subrange(0, i + 1).drop_last() =~= lv.subrange(0, i as int));
        assert(lv.subrange(0, i + 1).last() == ls@[i as int]@);
        i = i + 1;
    }
    assert(lv.subrange(0, ls.len() as int) =~= lv);
    out
}

} // verus!
