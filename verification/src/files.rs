//! What was read from disk before a decision: the text of each file that was
//! there, by its path.

use vstd::prelude::*;

use crate::maps::TextMap;

verus! {

/// The files that were read.
pub struct Files {
    texts: TextMap<String>,
}

/// The text of the file at `path`, if that file was there.
pub open spec fn text_at(files: Map<Seq<char>, Seq<char>>, path: Seq<char>) -> Option<Seq<char>> {
    if files.dom().contains(path) {
        Some(files[path])
    } else {
        None
    }
}

impl View for Files {
    type V = Map<Seq<char>, Seq<char>>;

    closed spec fn view(&self) -> Map<Seq<char>, Seq<char>> {
        self.texts@.map_values(|text: String| text@)
    }
}

impl Files {
    /// Each path has one text.
    pub closed spec fn wf(&self) -> bool {
        self.texts.wf()
    }

    pub fn new() -> (files: Files)
        ensures
            files.wf(),
            files@ == Map::<Seq<char>, Seq<char>>::empty(),
    {
        let files = Files { texts: TextMap::new() };
        assert(files@ =~= Map::<Seq<char>, Seq<char>>::empty());
        files
    }

    /// The file at `path` was read and holds `text`.
    pub fn add_file(&mut self, path: &str, text: String)
        requires
            old(self).wf(),
        ensures
            final(self).wf(),
            final(self)@ == old(self)@.insert(path@, text@),
    {
        self.texts.put(path, text);
        assert(self@ =~= old(self)@.insert(path@, text@));
    }

    /// The text of the file at `path`, if that file was there.
    pub fn read(&self, path: &str) -> (text: Option<&String>)
        requires
            self.wf(),
        ensures
            match text {
                Some(text) => text_at(self@, path@) == Some(text@),
                None => text_at(self@, path@) is None,
            },
    {
        self.texts.get(path)
    }
}

} // verus!
