//! The crates of the project: crate name (in identifier form) to directory.

use vstd::prelude::*;
use crate::path_index::{find_last, pairs_map};

verus! {

/// The name of the package that a manifest declares at `package.name`.
pub uninterp spec fn manifest_package_name(text: Seq<char>) -> Option<Seq<char>>;

/// Relies on toml's document parser (`str::parse::<toml::Value>`) and on
/// `toml::Value::get` and `toml::Value::as_str`: the string at
/// `package.name`, if the text parses and holds one there.
#[verifier::external_body]
fn package_name(manifest: &str) -> (r: Option<String>)
    ensures
        r matches Some(n) ==> manifest_package_name(manifest@) == Some(n@),
        r is None ==> manifest_package_name(manifest@) is None,
{
    let value = manifest.parse::<toml::Value>().ok()?;
    value.get("package")?.get("name")?.as_str().map(String::from)
}

/// The package name that a manifest declares, as written.
pub fn manifest_crate_name(manifest: &str) -> (r: Option<String>)
    ensures
        r matches Some(n) ==> manifest_package_name(manifest@) == Some(n@),
        r is None ==> manifest_package_name(manifest@) is None,
{
    package_name(manifest)
}

/// `s` with each `-` replaced by `_`: the identifier a crate is imported by.
pub open spec fn fold_hyphens(s: Seq<char>) -> Seq<char> {
    Seq::new(s.len(), |i: int| if s[i] == '-' { '_' } else { s[i] })
}

/// The registrations that no later registration of the same name replaces,
/// in order.
pub open spec fn live_entries(s: Seq<(String, String)>) -> Seq<(String, String)>
    decreases s.len(),
{
    if s.len() == 0 {
        Seq::empty()
    } else {
        let rest = s.subrange(1, s.len() as int);
        let later = exists|j: int| 0 <= j < rest.len() && (#[trigger] rest[j]).0@ == s[0].0@;
        if later {
            live_entries(rest)
        } else {
            seq![s[0]] + live_entries(rest)
        }
    }
}

/// The crates available in the project.
pub struct Crates {
    entries: Vec<(String, String)>,
}

impl Crates {
    /// Crate name to crate directory.
    pub closed spec fn crates_map(&self) -> Map<Seq<char>, Seq<char>> {
        pairs_map(self.entries@)
    }

    /// The crates in iteration order.
    pub closed spec fn listed(&self) -> Seq<(String, String)> {
        live_entries(self.entries@)
    }

    /// The crates listed are distinct by name, and each is in the map.
    pub proof fn lemma_listed_in_map(&self)
        ensures
            forall|a: int, b: int|
                0 <= a < b < self.listed().len() ==> (#[trigger] self.listed()[a]).0@
                    != (#[trigger] self.listed()[b]).0@,
            forall|a: int|
                0 <= a < self.listed().len() ==> self.crates_map().contains_key(
                    (#[trigger] self.listed()[a]).0@,
                ),
    {
        lemma_live_entries_distinct(self.entries@);
        assert forall|a: int| 0 <= a < self.listed().len() implies self.crates_map().contains_key(
            (#[trigger] self.listed()[a]).0@,
        ) by {
            let m = choose|m: int| 0 <= m < self.entries@.len() && self.entries@[m] == self.listed()[a];
            lemma_key_in_pairs_map(self.entries@, m);
        }
    }

    /// No crates.
    pub fn new() -> (r: Self)
        ensures
            r.crates_map() == Map::<Seq<char>, Seq<char>>::empty(),
            r.listed().len() == 0,
    {
        Crates { entries: Vec::new() }
    }

    /// The crates whose manifests declare a package name, each under that
    /// name with hyphens folded, in the order given. A manifest without a
    /// name is skipped.
    pub fn from_manifests(manifests: Vec<(String, String)>) -> (r: Self)
        ensures
            r.crates_map() == manifests_map(manifests@, manifests@.len() as int),
    {
        let mut crates = Crates::new();
        let mut i: usize = 0;
        while i < manifests.len()
            invariant
                i <= manifests@.len(),
                crates.crates_map() == manifests_map(manifests@, i as int),
            decreases manifests.len() - i,
        {
            let (dir, text) = (&manifests[i].0, &manifests[i].1);
            match package_name(text.as_str()) {
                Some(name) => {
                    crates.push(name.as_str(), dir.clone());
                },
                None => {},
            }
            i += 1;
        }
        crates
    }

    /// Registers the crate `name` at `path`, under `name` with hyphens folded;
    /// a later registration of the same name replaces this one.
    pub fn push(&mut self, name: &str, path: String)
        ensures
            final(self).crates_map() == old(self).crates_map().insert(fold_hyphens(name@), path@),
    {
        let key = fold_name(name);
        self.entries.push((key, path));
        assert(self.entries@.drop_last() =~= old(self).entries@);
    }

    /// Whether a crate of that name exists.
    pub fn contains(&self, name: &str) -> (r: bool)
        ensures
            r == self.crates_map().contains_key(name@),
    {
        find_last(&self.entries, name).is_some()
    }

    /// The directory of the crate of that name.
    pub fn path(&self, name: &str) -> (r: Option<&String>)
        ensures
            r matches Some(p) ==> self.crates_map().contains_key(name@) && self.crates_map()[name@]
                == p@,
            r is None ==> !self.crates_map().contains_key(name@),
    {
        match find_last(&self.entries, name) {
            Some(i) => Some(&self.entries[i].1),
            None => None,
        }
    }

    /// The crates, each once, in the order of their last registration.
    pub fn into_iter(self) -> (r: Vec<(String, String)>)
        ensures
            r@ == self.listed(),
    {
        self.entries_list()
    }

    /// The crates, each once, in the order of their last registration.
    pub fn entries_list(&self) -> (r: Vec<(String, String)>)
        ensures
            r@ == self.listed(),
    {
        let ghost all = self.entries@;
        let mut out: Vec<(String, String)> = Vec::new();
        let mut i: usize = self.entries.len();
        while i > 0
            invariant
                i <= all.len(),
                all == self.entries@,
                out@ == live_entries(all.subrange(i as int, all.len() as int)),
            decreases i,
        {
            let k = i - 1;
            let mut later = false;
            let mut j: usize = i;
            while j < self.entries.len()
                invariant
                    i <= j <= all.len(),
                    k == i - 1,
                    all == self.entries@,
                    later == exists|m: int| i <= m < j && (#[trigger] all[m]).0@ == all[k as int].0@,
                decreases self.entries.len() - j,
            {
                if self.entries[j].0 == self.entries[k].0 {
                    later = true;
                }
                j += 1;
            }
            proof {
                let s = all.subrange(k as int, all.len() as int);
                let rest = s.subrange(1, s.len() as int);
                assert(rest =~= all.subrange(i as int, all.len() as int));
                assert(s[0] == all[k as int]);
                if later {
                    let m = choose|m: int| i <= m < all.len() && (#[trigger] all[m]).0@ == all[k as int].0@;
                    assert(rest[m - i] == all[m]);
                } else {
                    assert forall|m: int| 0 <= m < rest.len() implies (#[trigger] rest[m]).0@ != s[0].0@ by {
                        assert(rest[m] == all[m + i]);
                    }
                }
            }
            if !later {
                let e = (self.entries[k].0.clone(), self.entries[k].1.clone());
                let ghost before = out@;
                let mut head = vec![e];
                head.append(&mut out);
                out = head;
                assert(out@ =~= seq![all[k as int]] + before);
            }
            i = k;
        }
        assert(all.subrange(0, all.len() as int) =~= all);
        out
    }
}

/// The crates listed are pairwise distinct by name, and each is one of the
/// registrations.
pub proof fn lemma_live_entries_distinct(s: Seq<(String, String)>)
    ensures
        forall|a: int, b: int|
            0 <= a < b < live_entries(s).len() ==> (#[trigger] live_entries(s)[a]).0@
                != (#[trigger] live_entries(s)[b]).0@,
        forall|a: int|
            0 <= a < live_entries(s).len() ==> exists|m: int|
                0 <= m < s.len() && s[m] == #[trigger] live_entries(s)[a],
    decreases s.len(),
{
    if s.len() > 0 {
        let rest = s.subrange(1, s.len() as int);
        lemma_live_entries_distinct(rest);
        let lr = live_entries(rest);
        assert forall|a: int| 0 <= a < lr.len() implies exists|m: int|
            0 <= m < s.len() && s[m] == #[trigger] lr[a] by {
            let m = choose|m: int| 0 <= m < rest.len() && rest[m] == lr[a];
            assert(s[m + 1] == rest[m]);
        }
        let later = exists|j: int| 0 <= j < rest.len() && (#[trigger] rest[j]).0@ == s[0].0@;
        if !later {
            let l = live_entries(s);
            assert(l == seq![s[0]] + lr);
            assert forall|a: int| 0 <= a < l.len() implies exists|m: int|
                0 <= m < s.len() && s[m] == #[trigger] l[a] by {
                if a > 0 {
                    assert(l[a] == lr[a - 1]);
                } else {
                    assert(s[0] == l[0]);
                }
            }
            assert forall|a: int, b: int| 0 <= a < b < l.len() implies (#[trigger] l[a]).0@
                != (#[trigger] l[b]).0@ by {
                assert(l[b] == lr[b - 1]);
                if a > 0 {
                    assert(l[a] == lr[a - 1]);
                } else {
                    let m = choose|m: int| 0 <= m < rest.len() && rest[m] == lr[b - 1];
                    assert(rest[m].0@ != s[0].0@);
                }
            }
        }
    }
}

/// Every registered key is in the map.
pub proof fn lemma_key_in_pairs_map(s: Seq<(String, String)>, m: int)
    requires
        0 <= m < s.len(),
    ensures
        pairs_map(s).contains_key(s[m].0@),
    decreases s.len(),
{
    if m < s.len() - 1 {
        lemma_key_in_pairs_map(s.drop_last(), m);
        assert(s.drop_last()[m] == s[m]);
    }
}

/// The crate map that the first `k` manifests give.
pub open spec fn manifests_map(manifests: Seq<(String, String)>, k: int) -> Map<Seq<char>, Seq<char>>
    decreases k,
{
    if k <= 0 || k > manifests.len() {
        Map::empty()
    } else {
        let prev = manifests_map(manifests, k - 1);
        match manifest_package_name(manifests[k - 1].1@) {
            Some(n) => prev.insert(fold_hyphens(n), manifests[k - 1].0@),
            None => prev,
        }
    }
}

/// `name` with each `-` replaced by `_`.
fn fold_name(name: &str) -> (r: String)
    ensures
        r@ == fold_hyphens(name@),
{
    proof {
        reveal_strlit("_");
        assert("_"@ =~= seq!['_']);
    }
    let n = name.unicode_len();
    let mut out = String::new();
    let mut i: usize = 0;
    while i < n
        invariant
            i <= n,
            n == name@.len(),
            out@ == fold_hyphens(name@).subrange(0, i as int),
        decreases n - i,
    {
        let ghost before = out@;
        let c = name.get_char(i);
        if c == '-' {
            out.append("_");
            proof {
                reveal_strlit("_");
            }
            assert(out@ =~= before + seq!['_']);
        } else {
            let piece = name.substring_char(i, i + 1);
            assert(piece@ =~= seq![c]);
            out.append(piece);
            assert(out@ =~= before + seq![c]);
        }
        assert(out@ =~= fold_hyphens(name@).subrange(0, i + 1));
        i += 1;
    }
    assert(fold_hyphens(name@).subrange(0, n as int) =~= fold_hyphens(name@));
    out
}

} // verus!
