//! Externally influenced data made available to the sandboxed module.

use vstd::prelude::*;
use vstd::string::StringExecFns;

verus! {

/// One piece of externally influenced data.
pub enum TaintSource {
    /// A file found under the directory exposed to the module.
    FileRead { path: String, content: String },
    /// One configured environment variable.
    EnvVar { key: String, value: String },
    /// A fetch the module declared on its output; `content` is a placeholder.
    HttpFetchIntent { url: String, content: String },
}

/// The texts of a `TaintSource`.
pub enum SourceView {
    FileRead { path: Seq<char>, content: Seq<char> },
    EnvVar { key: Seq<char>, value: Seq<char> },
    HttpFetchIntent { url: Seq<char>, content: Seq<char> },
}

impl View for TaintSource {
    type V = SourceView;

    open spec fn view(&self) -> SourceView {
        match self {
            TaintSource::FileRead { path, content } => SourceView::FileRead {
                path: path@,
                content: content@,
            },
            TaintSource::EnvVar { key, value } => SourceView::EnvVar { key: key@, value: value@ },
            TaintSource::HttpFetchIntent { url, content } => SourceView::HttpFetchIntent {
                url: url@,
                content: content@,
            },
        }
    }
}

impl SourceView {
    /// The text used for matching: the value or content, never the key or path.
    pub open spec fn content(self) -> Seq<char> {
        match self {
            SourceView::FileRead { content, .. } => content,
            SourceView::EnvVar { value, .. } => value,
            SourceView::HttpFetchIntent { content, .. } => content,
        }
    }

    /// The identifying text: variant name and key, path or URL.
    pub open spec fn id(self) -> Seq<char> {
        match self {
            SourceView::FileRead { path, .. } => "FileRead: "@ + path,
            SourceView::EnvVar { key, .. } => "EnvVar: "@ + key,
            SourceView::HttpFetchIntent { url, .. } => "HttpFetchIntent: "@ + url,
        }
    }
}

/// The views of a sequence of sources.
pub open spec fn source_views(s: Seq<TaintSource>) -> Seq<SourceView> {
    s.map_values(|x: TaintSource| x@)
}

impl TaintSource {
    /// The text used for matching: the value or content, never the key or path.
    pub open spec fn content_view(&self) -> Seq<char> {
        self@.content()
    }

    /// The identifying text: variant name and key, path or URL.
    pub open spec fn id_view(&self) -> Seq<char> {
        self@.id()
    }

    pub fn content(&self) -> (r: &str)
        ensures
            r@ == self.content_view(),
    {
        match self {
            TaintSource::FileRead { content, .. } => content.as_str(),
            TaintSource::EnvVar { value, .. } => value.as_str(),
            TaintSource::HttpFetchIntent { content, .. } => content.as_str(),
        }
    }

    /// A copy with the same texts.
    pub fn duplicate(&self) -> (r: TaintSource)
        ensures
            r@ == self@,
    {
        match self {
            TaintSource::FileRead { path, content } => TaintSource::FileRead {
                path: path.clone(),
                content: content.clone(),
            },
            TaintSource::EnvVar { key, value } => TaintSource::EnvVar { key: key.clone(), value: value.clone() },
            TaintSource::HttpFetchIntent { url, content } => TaintSource::HttpFetchIntent {
                url: url.clone(),
                content: content.clone(),
            },
        }
    }

    pub fn short_id(&self) -> (r: String)
        ensures
            r@ == self.id_view(),
    {
        match self {
            TaintSource::FileRead { path, .. } => String::from_str("FileRead: ").concat(path.as_str()),
            TaintSource::EnvVar { key, .. } => String::from_str("EnvVar: ").concat(key.as_str()),
            TaintSource::HttpFetchIntent { url, .. } => String::from_str("HttpFetchIntent: ").concat(
                url.as_str(),
            ),
        }
    }
}

} // verus!
