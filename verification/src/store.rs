//! The texts that a page is compiled from, and the paths that name them.
//!
//! The library reads no file. Whoever calls it hands it the texts of the page
//! and of the components under their paths; a text that is not there is
//! reported by its path.
//!
//! A path is a text here. [`request_page`] and [`join`] work on its
//! characters, by the rules of paths with `/` as separator.

use vstd::prelude::*;
use vstd::string::StringExecFns;
use crate::text::chars_of;

verus! {

/// The text of a page or component, under its path.
#[derive(Debug)]
pub struct Source {
    pub path: String,
    pub text: String,
}

/// The model of a [`Source`].
pub struct SourceModel {
    pub path: Seq<char>,
    pub text: Seq<char>,
}

impl View for Source {
    type V = SourceModel;

    open spec fn view(&self) -> SourceModel {
        SourceModel { path: self.path@, text: self.text@ }
    }
}

/// The models of a list of sources.
pub open spec fn sources_view(sources: Seq<Source>) -> Seq<SourceModel> {
    Seq::new(sources.len(), |i: int| sources[i]@)
}

/// The text of the first source under `path`.
pub open spec fn source_of(sources: Seq<SourceModel>, path: Seq<char>) -> Option<Seq<char>>
    decreases sources.len(),
{
    if sources.len() == 0 {
        None
    } else if sources[0].path == path {
        Some(sources[0].text)
    } else {
        source_of(sources.drop_first(), path)
    }
}

/// `text` without the separators at its start.
pub open spec fn trim_separators(text: Seq<char>) -> Seq<char>
    decreases text.len(),
{
    if text.len() > 0 && text[0] == '/' {
        trim_separators(text.drop_first())
    } else {
        text
    }
}

/// The path of the page that a request asks for, relative to the directory of
/// the pages: the request without the separators at its start. A request that
/// does not start with a separator asks for no page.
pub open spec fn page_path(request: Seq<char>) -> Option<Seq<char>> {
    if request.len() > 0 && request[0] == '/' {
        Some(trim_separators(request))
    } else {
        None
    }
}

/// `path` seen from the directory `root`: `path` itself where it starts at the
/// root of the file system, else `root` and `path` with one separator between
/// them.
pub open spec fn join_path(root: Seq<char>, path: Seq<char>) -> Seq<char> {
    if path.len() > 0 && path[0] == '/' {
        path
    } else if root.len() == 0 || root.last() == '/' {
        root + path
    } else {
        root + seq!['/'] + path
    }
}

/// Where the separators at the start of `text` end.
pub proof fn lemma_trim_separators(text: Seq<char>, start: int)
    requires
        0 <= start <= text.len(),
        forall|j: int| 0 <= j < start ==> text[j] == '/',
        start == text.len() || text[start] != '/',
    ensures
        trim_separators(text) == text.skip(start),
    decreases text.len(),
{
    if start == 0 {
        assert(text.skip(0) =~= text);
    } else {
        let rest = text.drop_first();
        assert(forall|j: int| 0 <= j < start - 1 ==> rest[j] == text[j + 1]);
        lemma_trim_separators(rest, start - 1);
        assert(rest.skip(start - 1) =~= text.skip(start));
    }
}

/// The text of the first source under `path`.
pub fn find_source<'a>(sources: &'a Vec<Source>, path: &str) -> (text: Option<&'a String>)
    ensures
        match text {
            Some(found) => source_of(sources_view(sources@), path@) == Some(found@),
            None => source_of(sources_view(sources@), path@) is None,
        },
{
    let ghost models = sources_view(sources@);
    assert(models.skip(0) =~= models);
    let mut i: usize = 0;
    while i < sources.len()
        invariant
            i <= sources.len(),
            models == sources_view(sources@),
            source_of(models, path@) == source_of(models.skip(i as int), path@),
        decreases sources.len() - i,
    {
        assert(models.skip(i as int)[0] == sources[i as int]@);
        assert(models.skip(i as int).drop_first() =~= models.skip(i + 1));
        if sources[i].path.as_str().eq(path) {
            return Some(&sources[i].text);
        }
        i += 1;
    }
    None
}

/// The path of the page that `request` asks for, relative to the directory of
/// the pages.
pub fn request_page(request: &str) -> (path: Option<String>)
    ensures
        match path {
            Some(relative) => page_path(request@) == Some(relative@),
            None => page_path(request@) is None,
        },
{
    let chars = chars_of(request);
    if chars.len() == 0 || chars[0] != '/' {
        return None;
    }
    let mut start: usize = 0;
    while start < chars.len() && chars[start] == '/'
        invariant
            start <= chars.len(),
            forall|j: int| 0 <= j < start ==> chars[j] == '/',
        decreases chars.len() - start,
    {
        start += 1;
    }
    proof {
        lemma_trim_separators(chars@, start as int);
    }
    let mut relative = String::new();
    let mut i: usize = start;
    assert(relative@ =~= chars@.subrange(start as int, i as int));
    while i < chars.len()
        invariant
            start <= i <= chars.len(),
            relative@ == chars@.subrange(start as int, i as int),
        decreases chars.len() - i,
    {
        relative.push(chars[i]);
        assert(chars@.subrange(start as int, i + 1) =~= chars@.subrange(
            start as int,
            i as int,
        ).push(chars[i as int]));
        i += 1;
    }
    assert(chars@.subrange(start as int, chars.len() as int) =~= chars@.skip(start as int));
    Some(relative)
}

/// `path` seen from the directory `root`.
pub fn join(root: &str, path: &str) -> (joined: String)
    ensures
        joined@ == join_path(root@, path@),
{
    let path_chars = chars_of(path);
    if path_chars.len() > 0 && path_chars[0] == '/' {
        return path.to_owned();
    }
    let root_chars = chars_of(root);
    let mut joined = root.to_owned();
    if root_chars.len() > 0 && root_chars[root_chars.len() - 1] != '/' {
        joined.push('/');
    }
    joined.append(path);
    assert(joined@ =~= join_path(root@, path@));
    joined
}

} // verus!
