//! A snapshot of the project's source files, each parsed once, and the
//! module loader that resolves a module declaration to its file.

use vstd::prelude::*;
use crate::error::BundleError;
use crate::source::{parse_source, too_deep_message};
use crate::syn_bridge::source_parses;
use crate::syntax::SourceFile;

verus! {

/// What parsing a file gave: the file, or the parser's message.
pub type Parsed = Result<SourceFile, String>;

/// The map that a sequence of registrations records: a later registration
/// of a path replaces an earlier one.
pub open spec fn keyed_map(s: Seq<(String, Parsed)>) -> Map<Seq<char>, Parsed>
    decreases s.len(),
{
    if s.len() == 0 {
        Map::empty()
    } else {
        keyed_map(s.drop_last()).insert(s.last().0@, s.last().1)
    }
}

/// Source files by path.
pub struct SourceTree {
    files: Vec<(String, Parsed)>,
}

/// `<base>/<name>.rs`
pub open spec fn module_file(base: Seq<char>, name: Seq<char>) -> Seq<char> {
    base + seq!['/'] + name + seq!['.', 'r', 's']
}

/// `<base>/<name>`
pub open spec fn module_dir(base: Seq<char>, name: Seq<char>) -> Seq<char> {
    base + seq!['/'] + name
}

/// `<base>/<name>/mod.rs`
pub open spec fn module_dir_file(base: Seq<char>, name: Seq<char>) -> Seq<char> {
    module_dir(base, name) + seq!['/', 'm', 'o', 'd', '.', 'r', 's']
}

/// The file that module `name`, declared in a file of directory `base`,
/// resolves to: its directory and its path. `<base>/<name>.rs` wins over
/// `<base>/<name>/mod.rs`.
pub open spec fn module_source(files: Map<Seq<char>, Parsed>, base: Seq<char>, name: Seq<char>) -> Option<
    (Seq<char>, Seq<char>),
> {
    if files.contains_key(module_file(base, name)) {
        Some((base, module_file(base, name)))
    } else if files.contains_key(module_dir_file(base, name)) {
        Some((module_dir(base, name), module_dir_file(base, name)))
    } else {
        None
    }
}

impl SourceTree {
    /// File path to what parsing the file gave.
    pub closed spec fn files_map(&self) -> Map<Seq<char>, Parsed> {
        keyed_map(self.files@)
    }

    /// Number of files recorded, counting replaced ones.
    pub closed spec fn recorded(&self) -> nat {
        self.files@.len()
    }

    /// An empty snapshot.
    pub fn new() -> (r: Self)
        ensures
            r.files_map() == Map::<Seq<char>, Parsed>::empty(),
            r.recorded() == 0,
    {
        SourceTree { files: Vec::new() }
    }

    /// Parses `text` and records the outcome for the file at `path`,
    /// replacing an earlier record.
    pub fn insert(&mut self, path: String, text: &str)
        ensures
            final(self).files_map() == old(self).files_map().insert(
                path@,
                final(self).files_map()[path@],
            ),
            final(self).recorded() == old(self).recorded() + 1,
            !source_parses(text@) ==> final(self).files_map()[path@] is Err,
            final(self).files_map()[path@] matches Err(m) ==> !source_parses(text@) || m@
                == too_deep_message(),
    {
        let parsed = parse_source(text);
        self.insert_parsed(path, parsed);
    }

    /// Records a parse outcome for the file at `path`, replacing an earlier
    /// record.
    pub fn insert_parsed(&mut self, path: String, parsed: Parsed)
        ensures
            final(self).files_map() == old(self).files_map().insert(path@, parsed),
            final(self).recorded() == old(self).recorded() + 1,
    {
        self.files.push((path, parsed));
        assert(self.files@.drop_last() =~= old(self).files@);
    }

    /// What parsing the file at `path` gave.
    pub fn get(&self, path: &str) -> (r: Option<&Parsed>)
        ensures
            r matches Some(t) ==> self.files_map().contains_key(path@) && self.files_map()[path@]
                == *t,
            r is None ==> !self.files_map().contains_key(path@),
    {
        let key = String::from_str(path);
        let mut i = self.files.len();
        while i > 0
            invariant
                i <= self.files.len(),
                key@ == path@,
                forall|j: int| i <= j < self.files@.len() ==> (#[trigger] self.files@[j]).0@ != path@,
            decreases i,
        {
            if self.files[i - 1].0 == key {
                proof {
                    lemma_keyed_last(self.files@, i - 1);
                }
                return Some(&self.files[i - 1].1);
            }
            i -= 1;
        }
        proof {
            lemma_keyed_absent(self.files@, path@);
        }
        None
    }

    /// The number of files recorded: no chain of module files that does not
    /// revisit a file is longer.
    pub fn recorded_count(&self) -> (r: usize)
        ensures
            r == self.recorded(),
    {
        self.files.len()
    }
}

proof fn lemma_keyed_last(s: Seq<(String, Parsed)>, k: int)
    requires
        0 <= k < s.len(),
        forall|j: int| k < j < s.len() ==> (#[trigger] s[j]).0@ != s[k].0@,
    ensures
        keyed_map(s).contains_key(s[k].0@),
        keyed_map(s)[s[k].0@] == s[k].1,
    decreases s.len(),
{
    if k < s.len() - 1 {
        assert(s.last() == s[s.len() - 1]);
        lemma_keyed_last(s.drop_last(), k);
    }
}

proof fn lemma_keyed_absent(s: Seq<(String, Parsed)>, a: Seq<char>)
    requires
        forall|j: int| 0 <= j < s.len() ==> (#[trigger] s[j]).0@ != a,
    ensures
        !keyed_map(s).contains_key(a),
    decreases s.len(),
{
    if s.len() > 0 {
        let init = s.drop_last();
        assert(s.last() == s[s.len() - 1]);
        assert forall|j: int| 0 <= j < init.len() implies (#[trigger] init[j]).0@ != a by {
            assert(init[j] == s[j]);
        }
        lemma_keyed_absent(init, a);
    }
}

/// Resolves module `mod_name` declared in a file of `base_path`:
/// `<base>/<name>.rs` if it is recorded, else `<base>/<name>/mod.rs`.
/// Returns the directory of the chosen file and its path.
pub fn load_mod(tree: &SourceTree, base_path: &str, mod_name: &str) -> (r: Result<
    (String, String),
    BundleError,
>)
    ensures
        module_source(tree.files_map(), base_path@, mod_name@) matches Some((d, p)) ==> (r matches Ok(
            (dir, path),
        ) && dir@ == d && path@ == p),
        module_source(tree.files_map(), base_path@, mod_name@) is None ==> (r matches Err(
            BundleError::PathNotFound { path },
        ) && path@ == module_file(base_path@, mod_name@)),
{
    proof {
        reveal_strlit("/");
        reveal_strlit(".rs");
        reveal_strlit("/mod.rs");
        assert("/"@ =~= seq!['/']);
        assert(".rs"@ =~= seq!['.', 'r', 's']);
        assert("/mod.rs"@ =~= seq!['/', 'm', 'o', 'd', '.', 'r', 's']);
    }
    let mut dir = String::from_str(base_path);
    dir.append("/");
    dir.append(mod_name);
    let mut file = dir.clone();
    file.append(".rs");
    assert(file@ =~= module_file(base_path@, mod_name@));
    if tree.get(file.as_str()).is_some() {
        return Ok((String::from_str(base_path), file));
    }
    let mut dir_file = dir.clone();
    dir_file.append("/mod.rs");
    assert(dir@ =~= module_dir(base_path@, mod_name@));
    assert(dir_file@ =~= module_dir_file(base_path@, mod_name@));
    if tree.get(dir_file.as_str()).is_some() {
        Ok((dir, dir_file))
    } else {
        Err(BundleError::PathNotFound { path: file })
    }
}

} // verus!
