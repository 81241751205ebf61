use vstd::prelude::*;

use crate::project_registry::{join_path, path_join};
use crate::text::{append_chars, chars_of, has_at, has_at_exec, owned, slice_range, string_of};

verus! {

/// The layout of a project's wiki under `<project>/.wiki`.
pub struct WikiFileSystem {
    root_path: String,
}

/// A page id without a trailing `.md`.
pub open spec fn without_md(id: Seq<char>) -> Seq<char> {
    if id.len() >= 3 && id.subrange(id.len() - 3, id.len() as int) == ".md"@ {
        id.subrange(0, id.len() - 3)
    } else {
        id
    }
}

impl WikiFileSystem {
    pub closed spec fn root(self) -> Seq<char> {
        self.root_path@
    }

    /// The wiki of the project at `project_path`.
    pub fn new(project_path: &str) -> (r: Result<Self, String>)
        ensures
            r matches Ok(f) && f.root() == path_join(project_path@, ".wiki"@),
    {
        Ok(WikiFileSystem { root_path: join_path(project_path, ".wiki") })
    }

    /// The directory of the pages.
    pub fn pages_dir(&self) -> (r: String)
        ensures
            r@ == path_join(self.root(), "pages"@),
    {
        join_path(self.root_path.as_str(), "pages")
    }

    /// The directory of the index and graph files.
    pub fn meta_dir(&self) -> (r: String)
        ensures
            r@ == path_join(self.root(), "_meta"@),
    {
        join_path(self.root_path.as_str(), "_meta")
    }

    /// The index file.
    pub fn index_path(&self) -> (r: String)
        ensures
            r@ == path_join(path_join(self.root(), "_meta"@), "index.json"@),
    {
        join_path(self.meta_dir().as_str(), "index.json")
    }

    /// The graph file.
    pub fn graph_path(&self) -> (r: String)
        ensures
            r@ == path_join(path_join(self.root(), "_meta"@), "graph.json"@),
    {
        join_path(self.meta_dir().as_str(), "graph.json")
    }

    /// The purpose file.
    pub fn purpose_path(&self) -> (r: String)
        ensures
            r@ == path_join(self.root(), "purpose.md"@),
    {
        join_path(self.root_path.as_str(), "purpose.md")
    }

    /// The file of a page: `<pages>/<id>.md`, a trailing `.md` of the id dropped first.
    pub fn page_file(&self, page_id: &str) -> (r: String)
        ensures
            r@ == path_join(path_join(self.root(), "pages"@), without_md(page_id@) + ".md"@),
    {
        let id = chars_of(page_id);
        let md = chars_of(".md");
        proof {
            reveal_strlit(".md");
        }
        let mut name = if id.len() >= 3 && has_at_exec(&id, id.len() - 3, &md) {
            slice_range(&id, 0, id.len() - 3)
        } else {
            slice_range(&id, 0, id.len())
        };
        proof {
            assert(id@.subrange(0, id@.len() as int) =~= id@);
        }
        append_chars(&mut name, &md);
        join_path(self.pages_dir().as_str(), string_of(&name).as_str())
    }

    /// The file that `page_exists` looks at: `<pages>/<id>.md`, the id as given.
    pub fn page_exists_file(&self, page_id: &str) -> (r: String)
        ensures
            r@ == path_join(path_join(self.root(), "pages"@), page_id@ + ".md"@),
    {
        let mut name = chars_of(page_id);
        append_chars(&mut name, &chars_of(".md"));
        join_path(self.pages_dir().as_str(), string_of(&name).as_str())
    }

    /// The text a new wiki's purpose file starts with.
    pub fn default_purpose() -> (r: String)
        ensures
            r@ == default_purpose_text(),
    {
        owned("# Wiki Purpose\n\nThis wiki serves as persistent memory for AI assistants working on this project.\n\n## Goals\n\n1. **Context Persistence**: Preserve important information across conversation sessions\n2. **Knowledge Reuse**: Avoid re-explaining project architecture and decisions\n3. **Semantic Search**: Enable AI to quickly find relevant information\n\n## Structure\n\n- `pages/`: All wiki pages (flat structure)\n- `_meta/index.json`: Page metadata and index\n- `_meta/graph.json`: Knowledge graph (page relationships)\n\n## Usage\n\nWhen starting a new conversation, the AI will automatically load this purpose file\nand relevant pages based on your query.\n")
    }
}

/// The purpose text of a new wiki.
pub open spec fn default_purpose_text() -> Seq<char> {
    "# Wiki Purpose\n\nThis wiki serves as persistent memory for AI assistants working on this project.\n\n## Goals\n\n1. **Context Persistence**: Preserve important information across conversation sessions\n2. **Knowledge Reuse**: Avoid re-explaining project architecture and decisions\n3. **Semantic Search**: Enable AI to quickly find relevant information\n\n## Structure\n\n- `pages/`: All wiki pages (flat structure)\n- `_meta/index.json`: Page metadata and index\n- `_meta/graph.json`: Knowledge graph (page relationships)\n\n## Usage\n\nWhen starting a new conversation, the AI will automatically load this purpose file\nand relevant pages based on your query.\n"@
}

} // verus!
