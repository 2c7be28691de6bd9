//! The index of used module paths and of the aliases that `pub use`
//! re-exports introduce.

use vstd::prelude::*;
use crate::canonical::{
    all_segments, is_canonical, is_path_prefix, join_segments, path_prefixes, lemma_join_prefixes,
    lemma_prefix_at, lemma_prefix_reflexive, lemma_prefix_transitive,
};

verus! {

/// The set of the strings' contents.
pub open spec fn strings_set(s: Seq<String>) -> Set<Seq<char>> {
    Set::new(|p: Seq<char>| exists|i: int| 0 <= i < s.len() && #[trigger] s[i]@ == p)
}

/// The map that a sequence of key/value registrations records: a later
/// registration of a key replaces an earlier one.
pub open spec fn pairs_map(decls: Seq<(String, String)>) -> Map<Seq<char>, Seq<char>>
    decreases decls.len(),
{
    if decls.len() == 0 {
        Map::empty()
    } else {
        pairs_map(decls.drop_last()).insert(decls.last().0@, decls.last().1@)
    }
}

/// `w` follows every alias met in it whose target lies outside `base`: the
/// target and all its path prefixes belong to `w`.
pub open spec fn follows_aliases(
    aliases: Map<Seq<char>, Seq<char>>,
    base: Set<Seq<char>>,
    w: Set<Seq<char>>,
) -> bool {
    forall|x: Seq<char>|
        #[trigger] w.contains(x) && aliases.contains_key(x) && !base.contains(aliases[x])
            ==> path_prefixes(aliases[x]).subset_of(w)
}

/// `w` holds the path prefixes of `p` and follows aliases out of `base`.
pub open spec fn is_walk(
    aliases: Map<Seq<char>, Seq<char>>,
    base: Set<Seq<char>>,
    p: Seq<char>,
    w: Set<Seq<char>>,
) -> bool {
    &&& path_prefixes(p).subset_of(w)
    &&& follows_aliases(aliases, base, w)
}

/// `w` is the smallest walk from `p`.
pub open spec fn is_least_walk(
    aliases: Map<Seq<char>, Seq<char>>,
    base: Set<Seq<char>>,
    p: Seq<char>,
    w: Set<Seq<char>>,
) -> bool {
    &&& is_walk(aliases, base, p, w)
    &&& forall|s: Set<Seq<char>>| #[trigger] is_walk(aliases, base, p, s) ==> w.subset_of(s)
}

/// The paths that inserting `p` visits when `base` is already used: the path
/// prefixes of `p` and, for each visited alias whose target is not yet used,
/// the path prefixes of that target, and so on.
pub open spec fn walked(
    aliases: Map<Seq<char>, Seq<char>>,
    base: Set<Seq<char>>,
    p: Seq<char>,
) -> Set<Seq<char>> {
    choose|w: Set<Seq<char>>| is_least_walk(aliases, base, p, w)
}

/// Number of aliases whose target is not in `paths`.
pub open spec fn outside_count(aliases: Map<Seq<char>, Seq<char>>, paths: Set<Seq<char>>) -> nat {
    aliases.dom().filter(|x: Seq<char>| !paths.contains(aliases[x])).len()
}

/// The content of an index: used paths, aliases, met aliases.
pub struct IndexState {
    pub paths: Set<Seq<char>>,
    pub aliases: Map<Seq<char>, Seq<char>>,
    pub hits: Set<Seq<char>>,
}

/// The content after inserting `p`.
pub open spec fn state_after_insert(s: IndexState, p: Seq<char>) -> IndexState {
    let w = walked(s.aliases, s.paths, p);
    IndexState {
        paths: s.paths.union(w),
        aliases: s.aliases,
        hits: s.hits.union(w.intersect(s.aliases.dom())),
    }
}

/// The content after inserting each of `ps` in turn.
pub open spec fn state_after_inserts(s: IndexState, ps: Seq<Seq<char>>) -> IndexState
    decreases ps.len(),
{
    if ps.len() == 0 {
        s
    } else {
        state_after_insert(state_after_inserts(s, ps.drop_last()), ps.last())
    }
}

/// The used paths, the re-export aliases and the aliases met while inserting
/// paths.
pub struct ParsedPaths {
    paths: Vec<String>,
    pub_use_decls: Vec<(String, String)>,
    pub_use_used: Vec<String>,
}

impl ParsedPaths {
    /// The paths deemed used.
    pub closed spec fn paths_set(&self) -> Set<Seq<char>> {
        strings_set(self.paths@)
    }

    /// Alias path to fully qualified path.
    pub closed spec fn alias_map(&self) -> Map<Seq<char>, Seq<char>> {
        pairs_map(self.pub_use_decls@)
    }

    /// The aliases met while inserting paths.
    pub closed spec fn hits_set(&self) -> Set<Seq<char>> {
        strings_set(self.pub_use_used@)
    }

    /// The index's content.
    pub open spec fn state(&self) -> IndexState {
        IndexState { paths: self.paths_set(), aliases: self.alias_map(), hits: self.hits_set() }
    }

    /// Every path prefix of a used path is used, and every alias target is a
    /// canonical path.
    pub closed spec fn wf(&self) -> bool {
        &&& forall|p: Seq<char>, q: Seq<char>|
            #![trigger self.paths_set().contains(p), is_path_prefix(q, p)]
            self.paths_set().contains(p) && is_path_prefix(q, p) ==> self.paths_set().contains(q)
        &&& targets_canonical(self.alias_map())
    }

    /// An empty index.
    pub fn new() -> (r: Self)
        ensures
            r.wf(),
            r.paths_set() == Set::<Seq<char>>::empty(),
            r.alias_map() == Map::<Seq<char>, Seq<char>>::empty(),
            r.hits_set() == Set::<Seq<char>>::empty(),
    {
        let r = ParsedPaths { paths: Vec::new(), pub_use_decls: Vec::new(), pub_use_used: Vec::new() };
        assert(r.paths_set() =~= Set::<Seq<char>>::empty());
        assert(r.hits_set() =~= Set::<Seq<char>>::empty());
        r
    }

    /// Whether `other` is a used path.
    pub fn contains_path(&self, other: &str) -> (r: bool)
        ensures
            r == self.paths_set().contains(other@),
    {
        strings_contain(&self.paths, other)
    }

    /// Records that `alias` re-exports `fully_qualified`; a later record of the
    /// same alias replaces this one.
    pub fn insert_pub_use_decl(&mut self, alias: &str, fully_qualified: &str)
        requires
            old(self).wf(),
            is_canonical(fully_qualified@),
        ensures
            final(self).wf(),
            final(self).alias_map() == old(self).alias_map().insert(alias@, fully_qualified@),
            final(self).paths_set() == old(self).paths_set(),
            final(self).hits_set() == old(self).hits_set(),
    {
        let a = String::from_str(alias);
        let t = String::from_str(fully_qualified);
        self.pub_use_decls.push((a, t));
        proof {
            let d = self.pub_use_decls@;
            assert(d.drop_last() =~= old(self).pub_use_decls@);
            let m = self.alias_map();
            assert(m == old(self).alias_map().insert(alias@, fully_qualified@));
            assert(self.paths_set() == old(self).paths_set());
            assert forall|x: Seq<char>| #[trigger] m.contains_key(x) implies is_canonical(m[x]) by {
                if x != alias@ {
                    assert(old(self).alias_map().contains_key(x));
                }
            }
        }
    }

    /// Whether the alias was met while inserting a path.
    pub fn is_pub_use_used(&self, alias: &str) -> (r: bool)
        ensures
            r == self.hits_set().contains(alias@),
    {
        strings_contain(&self.pub_use_used, alias)
    }

    /// Marks `path` and every path prefix of it as used. Where a visited path
    /// is an alias, it is marked as met and its target is inserted too, unless
    /// that target is already used.
    pub fn insert_path(&mut self, path: &str)
        requires
            old(self).wf(),
            is_canonical(path@),
        ensures
            final(self).wf(),
            inserted(*old(self), path@, *final(self)),
            final(self).state() == state_after_insert(old(self).state(), path@),
            forall|q: Seq<char>| is_path_prefix(q, path@) ==> #[trigger] final(self).paths_set().contains(q),
            forall|q: Seq<char>|
                is_path_prefix(q, path@) && #[trigger] old(self).alias_map().contains_key(q) ==> {
                    &&& final(self).paths_set().contains(old(self).alias_map()[q])
                    &&& final(self).hits_set().contains(q)
                },
    {
        let ghost base = self.paths_set();
        let ghost a = self.alias_map();
        let p = String::from_str(path);
        self.add_path(&p);
        let w = self.walk(&p, Ghost(base));
        proof {
            lemma_least_unique(a, base, path@, w@);
            lemma_least_prefix_closed(a, base, path@, w@);
            let ps = self.paths_set();
            assert forall|x: Seq<char>, q: Seq<char>|
                #![trigger ps.contains(x), is_path_prefix(q, x)]
                ps.contains(x) && is_path_prefix(q, x) implies ps.contains(q) by {
                if base.contains(x) {
                    assert(old(self).paths_set().contains(x));
                } else {
                    assert(w@.contains(x));
                }
            }
            assert forall|q: Seq<char>| is_path_prefix(q, path@) implies #[trigger] ps.contains(q) by {
                assert(path_prefixes(path@).contains(q));
            }
            assert forall|q: Seq<char>|
                is_path_prefix(q, path@) && #[trigger] a.contains_key(q) implies {
                    &&& ps.contains(a[q])
                    &&& self.hits_set().contains(q)
                } by {
                assert(path_prefixes(path@).contains(q));
                assert(w@.contains(q));
                if !base.contains(a[q]) {
                    lemma_prefix_reflexive(a[q]);
                    assert(path_prefixes(a[q]).contains(a[q]));
                }
                assert(w@.intersect(a.dom()).contains(q));
            }
        }
    }

    /// Visits the path prefixes of `p`, which has just been added to the used
    /// paths on top of `base`.
    fn walk(&mut self, p: &String, Ghost(base): Ghost<Set<Seq<char>>>) -> (w: Ghost<Set<Seq<char>>>)
        requires
            old(self).paths_set() == base.insert(p@),
            is_canonical(p@),
            targets_canonical(old(self).alias_map()),
        ensures
            final(self).pub_use_decls@ == old(self).pub_use_decls@,
            is_least_walk(old(self).alias_map(), base, p@, w@),
            final(self).paths_set() == base.union(w@),
            final(self).hits_set() == old(self).hits_set().union(
                w@.intersect(old(self).alias_map().dom()),
            ),
        decreases outside_count(old(self).alias_map(), old(self).paths_set()),
    {
        let ghost a = self.alias_map();
        let ghost pv = p@;
        let ghost entry_paths = self.paths_set();
        let ghost mut w: Set<Seq<char>> = Set::empty();
        proof {
            lemma_alias_map_finite(self.pub_use_decls@);
            assert(self.paths_set() =~= base.insert(pv).union(w));
            assert(self.hits_set() =~= old(self).hits_set().union(w.intersect(a.dom())));
        }
        let n = p.as_str().unicode_len();
        let mut k: usize = 0;
        while k < n
            invariant
                n == pv.len(),
                k <= n,
                is_canonical(pv),
                p@ == pv,
                self.pub_use_decls@ == old(self).pub_use_decls@,
                a == self.alias_map(),
                a.dom().finite(),
                targets_canonical(a),
                entry_paths == base.insert(pv),
                entry_paths == old(self).paths_set(),
                a == old(self).alias_map(),
                self.paths_set() == base.insert(pv).union(w),
                self.hits_set() == old(self).hits_set().union(w.intersect(a.dom())),
                forall|j: int|
                    1 <= j <= k && (j == n || pv[j] == '/') ==> w.contains(
                        #[trigger] pv.subrange(0, j),
                    ),
                forall|s: Set<Seq<char>>| #[trigger] is_walk(a, base, pv, s) ==> w.subset_of(s),
                forall|y: Seq<char>|
                    #[trigger] w.contains(y) ==> path_prefixes(y).subset_of(
                        w.union(path_prefixes(pv)),
                    ),
                forall|x: Seq<char>|
                    #[trigger] w.contains(x) && a.contains_key(x) && !base.contains(a[x])
                        ==> path_prefixes(a[x]).subset_of(w.union(path_prefixes(pv))),
            decreases n - k,
        {
            let i = k + 1;
            if i == n || p.as_str().get_char(i) == '/' {
                let x = String::from_str(p.as_str().substring_char(0, i));
                proof {
                    lemma_prefix_at(pv, i as int);
                    assert(path_prefixes(pv).contains(x@));
                }
                self.add_path(&x);
                let ghost w0 = w;
                proof {
                    w = w.insert(x@);
                    assert forall|s: Set<Seq<char>>| #[trigger] is_walk(a, base, pv, s) implies w.subset_of(s) by {
                        assert(w0.subset_of(s));
                        assert(path_prefixes(pv).contains(x@));
                    }
                    assert forall|q: Seq<char>| path_prefixes(x@).contains(q) implies path_prefixes(pv).contains(q) by {
                        lemma_prefix_transitive(q, x@, pv);
                    }
                    assert(self.paths_set() =~= base.insert(pv).union(w));
                }
                let found = self.lookup_alias(&x);
                match found {
                    Some(t) => {
                        if !self.contains_path(t.as_str()) {
                            let ghost pi = self.paths_set();
                            let ghost w1 = w;
                            self.add_path(&t);
                            proof {
                                assert(entry_paths.subset_of(pi));
                                assert(!entry_paths.contains(a[x@]));
                                assert(entry_paths.subset_of(self.paths_set()));
                                lemma_count_decreases(a, entry_paths, self.paths_set(), x@);
                                assert(outside_count(self.alias_map(), self.paths_set())
                                    < outside_count(old(self).alias_map(), old(self).paths_set()));
                            }
                            let wt = self.walk(&t, Ghost(pi));
                            proof {
                                lemma_least_prefix_closed(a, pi, t@, wt@);
                                w = w.union(wt@);
                                assert(self.paths_set() =~= base.insert(pv).union(w));
                                assert(self.hits_set() =~= old(self).hits_set().union(
                                    w0.intersect(a.dom()),
                                ).union(wt@.intersect(a.dom())));
                                assert forall|s: Set<Seq<char>>| #[trigger] is_walk(a, base, pv, s) implies w.subset_of(s) by {
                                    assert(w1.subset_of(s));
                                    assert(s.contains(x@));
                                    assert(is_walk(a, pi, t@, s));
                                }
                                assert forall|y: Seq<char>| #[trigger] w.contains(y) implies path_prefixes(y).subset_of(
                                    w.union(path_prefixes(pv)),
                                ) by {
                                    if w1.contains(y) {
                                        assert(path_prefixes(y).subset_of(w1.union(path_prefixes(pv))));
                                    } else {
                                        assert(wt@.contains(y));
                                    }
                                }
                                assert forall|y: Seq<char>|
                                    #[trigger] w.contains(y) && a.contains_key(y) && !base.contains(a[y])
                                    implies path_prefixes(a[y]).subset_of(w.union(path_prefixes(pv))) by {
                                    let r = a[y];
                                    if y == x@ {
                                        assert(path_prefixes(t@).subset_of(wt@));
                                    } else if w1.contains(y) {
                                        assert(path_prefixes(r).subset_of(w1.union(path_prefixes(pv))));
                                    } else if !pi.contains(r) {
                                        assert(wt@.contains(y));
                                        assert(path_prefixes(r).subset_of(wt@));
                                    } else if r == pv {
                                        assert(path_prefixes(r).subset_of(path_prefixes(pv)));
                                    } else {
                                        assert(w1.contains(r));
                                        assert(path_prefixes(r).subset_of(w1.union(path_prefixes(pv))));
                                    }
                                }
                            }
                        } else {
                            proof {
                                let r = a[x@];
                                assert(self.hits_set() =~= old(self).hits_set().union(
                                    w0.intersect(a.dom()),
                                ));
                                assert forall|y: Seq<char>|
                                    #[trigger] w.contains(y) && a.contains_key(y) && !base.contains(a[y])
                                    implies path_prefixes(a[y]).subset_of(w.union(path_prefixes(pv))) by {
                                    if y == x@ {
                                        if r == pv {
                                        } else {
                                            assert(w.contains(r));
                                        }
                                    } else {
                                        assert(w0.contains(y));
                                    }
                                }
                            }
                        }
                        self.add_hit(&x);
                        proof {
                            assert(self.hits_set() =~= old(self).hits_set().union(w.intersect(a.dom())));
                        }
                    }
                    None => {
                        proof {
                            assert(w.intersect(a.dom()) =~= w0.intersect(a.dom()));
                            assert(self.hits_set() =~= old(self).hits_set().union(w.intersect(a.dom())));
                        }
                    }
                }
                proof {
                    assert forall|j: int|
                        1 <= j <= i && (j == n || pv[j] == '/') implies w.contains(
                            #[trigger] pv.subrange(0, j),
                        ) by {
                        if j == i {
                            assert(pv.subrange(0, j) == x@);
                        }
                    }
                }
            }
            k += 1;
        }
        proof {
            assert forall|q: Seq<char>| path_prefixes(pv).contains(q) implies w.contains(q) by {
                let j = q.len() as int;
                assert(pv.subrange(0, j) == q);
            }
            assert(w.union(path_prefixes(pv)) =~= w);
            lemma_prefix_reflexive(pv);
            assert(self.paths_set() =~= base.union(w));
        }
        Ghost(w)
    }

    /// The fully qualified path recorded last for `alias`.
    fn lookup_alias(&self, alias: &String) -> (r: Option<String>)
        ensures
            r matches Some(t) ==> self.alias_map().contains_key(alias@) && self.alias_map()[alias@]
                == t@,
            r is None ==> !self.alias_map().contains_key(alias@),
    {
        match find_last(&self.pub_use_decls, alias.as_str()) {
            Some(i) => Some(self.pub_use_decls[i].1.clone()),
            None => None,
        }
    }

    fn add_path(&mut self, s: &String)
        ensures
            final(self).paths_set() == old(self).paths_set().insert(s@),
            final(self).pub_use_decls@ == old(self).pub_use_decls@,
            final(self).pub_use_used@ == old(self).pub_use_used@,
    {
        if !strings_contain(&self.paths, s.as_str()) {
            self.paths.push(s.clone());
            proof {
                lemma_strings_set_push(old(self).paths@, *s);
            }
        } else {
            assert(self.paths_set() =~= old(self).paths_set().insert(s@));
        }
    }

    fn add_hit(&mut self, s: &String)
        ensures
            final(self).hits_set() == old(self).hits_set().insert(s@),
            final(self).pub_use_decls@ == old(self).pub_use_decls@,
            final(self).paths@ == old(self).paths@,
    {
        if !strings_contain(&self.pub_use_used, s.as_str()) {
            self.pub_use_used.push(s.clone());
            proof {
                lemma_strings_set_push(old(self).pub_use_used@, *s);
            }
        } else {
            assert(self.hits_set() =~= old(self).hits_set().insert(s@));
        }
    }
}

/// Every alias target is canonical.
pub open spec fn targets_canonical(aliases: Map<Seq<char>, Seq<char>>) -> bool {
    forall|x: Seq<char>| #[trigger] aliases.contains_key(x) ==> is_canonical(aliases[x])
}

/// What inserting `p` into `before` leaves: the walked paths become used, and
/// the aliases among them become met.
pub open spec fn inserted(before: ParsedPaths, p: Seq<char>, after: ParsedPaths) -> bool {
    let w = walked(before.alias_map(), before.paths_set(), p);
    &&& is_least_walk(before.alias_map(), before.paths_set(), p, w)
    &&& after.alias_map() == before.alias_map()
    &&& after.paths_set() == before.paths_set().union(w)
    &&& after.hits_set() == before.hits_set().union(w.intersect(before.alias_map().dom()))
}

/// Prefix closure: in an index that every operation has kept well formed,
/// every path prefix of a used path is used.
pub proof fn lemma_used_paths_prefix_closed(idx: ParsedPaths, p: Seq<char>, q: Seq<char>)
    requires
        idx.wf(),
        idx.paths_set().contains(p),
        is_path_prefix(q, p),
    ensures
        idx.paths_set().contains(q),
{
}

/// Alias closure: after inserting `p`, every alias met among the path
/// prefixes of `p` is marked as met and its target is used.
pub proof fn lemma_alias_closure(before: ParsedPaths, p: Seq<char>, after: ParsedPaths, pfx: Seq<char>)
    requires
        before.wf(),
        inserted(before, p, after),
        is_path_prefix(pfx, p),
        before.alias_map().contains_key(pfx),
    ensures
        after.paths_set().contains(before.alias_map()[pfx]),
        after.hits_set().contains(pfx),
{
    let a = before.alias_map();
    let w = walked(a, before.paths_set(), p);
    assert(path_prefixes(p).contains(pfx));
    if !before.paths_set().contains(a[pfx]) {
        lemma_prefix_reflexive(a[pfx]);
        assert(w.contains(a[pfx]));
    }
    assert(w.intersect(a.dom()).contains(pfx));
}

/// Inserting the join of segments makes the join of every leading run of
/// them a used path.
pub proof fn lemma_joined_prefixes_used(
    before: ParsedPaths,
    segs: Seq<Seq<char>>,
    after: ParsedPaths,
    k: int,
)
    requires
        before.wf(),
        all_segments(segs),
        1 <= k <= segs.len(),
        inserted(before, join_segments(segs), after),
    ensures
        after.paths_set().contains(join_segments(segs.subrange(0, k))),
{
    lemma_join_prefixes(segs, k);
    assert(path_prefixes(join_segments(segs)).contains(join_segments(segs.subrange(0, k))));
}

/// `std`
pub open spec fn std_path() -> Seq<char> {
    seq!['s', 't', 'd']
}

/// Following a re-export of a standard-library item stays in the standard
/// library: when no alias is recorded under `std`, every path that the walk
/// from a `std/...` target visits lies under `std`, so it names no user crate.
pub proof fn lemma_std_target_stays_in_std(
    aliases: Map<Seq<char>, Seq<char>>,
    base: Set<Seq<char>>,
    t: Seq<char>,
    w: Set<Seq<char>>,
)
    requires
        is_canonical(t),
        is_path_prefix(std_path(), t),
        forall|x: Seq<char>| #[trigger] aliases.contains_key(x) ==> !is_path_prefix(std_path(), x),
        is_least_walk(aliases, base, t, w),
    ensures
        forall|y: Seq<char>| #[trigger] w.contains(y) ==> is_path_prefix(std_path(), y),
{
    let s = path_prefixes(t);
    assert forall|y: Seq<char>| #[trigger] s.contains(y) implies is_path_prefix(std_path(), y) by {
        assert(t[0] == std_path()[0] && t[1] == std_path()[1] && t[2] == std_path()[2]);
        if y.len() < 3 {
            assert(y.len() == 1 || y.len() == 2);
            assert(t[y.len() as int] != '/');
        }
        assert(y.subrange(0, 3) =~= t.subrange(0, 3));
        assert(t.subrange(0, 3) =~= std_path());
        if y.len() > 3 {
            assert(y[3] == t[3]);
        }
    }
    assert(is_walk(aliases, base, t, s));
}

/// The position of the last registration of `key`.
pub fn find_last(pairs: &Vec<(String, String)>, key: &str) -> (r: Option<usize>)
    ensures
        r matches Some(i) ==> i < pairs@.len() && pairs_map(pairs@).contains_key(key@) && pairs_map(
            pairs@,
        )[key@] == pairs@[i as int].1@ && pairs@[i as int].0@ == key@,
        r is None ==> !pairs_map(pairs@).contains_key(key@),
{
    let k = String::from_str(key);
    let mut i = pairs.len();
    while i > 0
        invariant
            i <= pairs.len(),
            k@ == key@,
            forall|j: int| i <= j < pairs@.len() ==> (#[trigger] pairs@[j]).0@ != key@,
        decreases i,
    {
        if pairs[i - 1].0 == k {
            proof {
                lemma_pairs_map_last(pairs@, i - 1);
            }
            return Some(i - 1);
        }
        i -= 1;
    }
    proof {
        lemma_pairs_map_absent(pairs@, key@);
    }
    None
}

/// Whether some string of `v` equals `s`.
fn strings_contain(v: &Vec<String>, s: &str) -> (r: bool)
    ensures
        r == strings_set(v@).contains(s@),
{
    let target = String::from_str(s);
    let mut i: usize = 0;
    while i < v.len()
        invariant
            i <= v.len(),
            target@ == s@,
            forall|j: int| 0 <= j < i ==> (#[trigger] v@[j])@ != s@,
        decreases v.len() - i,
    {
        if v[i] == target {
            assert(v@[i as int]@ == s@);
            return true;
        }
        i += 1;
    }
    false
}

proof fn lemma_strings_set_push(v: Seq<String>, s: String)
    ensures
        strings_set(v.push(s)) == strings_set(v).insert(s@),
{
    let n = v.push(s);
    assert forall|p: Seq<char>| strings_set(n).contains(p) == strings_set(v).insert(s@).contains(p) by {
        if strings_set(v).contains(p) {
            let i = choose|i: int| 0 <= i < v.len() && #[trigger] v[i]@ == p;
            assert(n[i]@ == p);
        }
        if p == s@ {
            assert(n[v.len() as int]@ == p);
        }
        if strings_set(n).contains(p) && p != s@ {
            let i = choose|i: int| 0 <= i < n.len() && #[trigger] n[i]@ == p;
            assert(v[i]@ == p);
        }
    }
    assert(strings_set(n) =~= strings_set(v).insert(s@));
}

proof fn lemma_alias_map_finite(decls: Seq<(String, String)>)
    ensures
        pairs_map(decls).dom().finite(),
    decreases decls.len(),
{
    if decls.len() > 0 {
        lemma_alias_map_finite(decls.drop_last());
    }
}

pub proof fn lemma_pairs_map_last(decls: Seq<(String, String)>, k: int)
    requires
        0 <= k < decls.len(),
        forall|j: int| k < j < decls.len() ==> (#[trigger] decls[j]).0@ != decls[k].0@,
    ensures
        pairs_map(decls).contains_key(decls[k].0@),
        pairs_map(decls)[decls[k].0@] == decls[k].1@,
    decreases decls.len(),
{
    if k < decls.len() - 1 {
        let init = decls.drop_last();
        assert(decls.last() == decls[decls.len() - 1]);
        lemma_pairs_map_last(init, k);
    }
}

pub proof fn lemma_pairs_map_absent(decls: Seq<(String, String)>, a: Seq<char>)
    requires
        forall|j: int| 0 <= j < decls.len() ==> (#[trigger] decls[j]).0@ != a,
    ensures
        !pairs_map(decls).contains_key(a),
    decreases decls.len(),
{
    if decls.len() > 0 {
        let init = decls.drop_last();
        assert(decls.last() == decls[decls.len() - 1]);
        assert forall|j: int| 0 <= j < init.len() implies (#[trigger] init[j]).0@ != a by {
            assert(init[j] == decls[j]);
        }
        lemma_pairs_map_absent(init, a);
    }
}

/// A least walk is unique.
proof fn lemma_least_unique(
    aliases: Map<Seq<char>, Seq<char>>,
    base: Set<Seq<char>>,
    p: Seq<char>,
    w: Set<Seq<char>>,
)
    requires
        is_least_walk(aliases, base, p, w),
    ensures
        walked(aliases, base, p) == w,
{
    let c = walked(aliases, base, p);
    assert(is_least_walk(aliases, base, p, c));
    assert(c.subset_of(w));
    assert(w.subset_of(c));
    assert(c =~= w);
}

/// A least walk holds the path prefixes of each of its paths.
pub proof fn lemma_least_prefix_closed(
    aliases: Map<Seq<char>, Seq<char>>,
    base: Set<Seq<char>>,
    p: Seq<char>,
    w: Set<Seq<char>>,
)
    requires
        is_least_walk(aliases, base, p, w),
    ensures
        forall|y: Seq<char>| #[trigger] w.contains(y) ==> path_prefixes(y).subset_of(w),
{
    let c = w.filter(|y: Seq<char>| path_prefixes(y).subset_of(w));
    assert forall|q: Seq<char>| path_prefixes(p).contains(q) implies c.contains(q) by {
        assert forall|r: Seq<char>| path_prefixes(q).contains(r) implies w.contains(r) by {
            lemma_prefix_transitive(r, q, p);
            assert(path_prefixes(p).contains(r));
        }
    }
    assert forall|x: Seq<char>|
        #[trigger] c.contains(x) && aliases.contains_key(x) && !base.contains(aliases[x])
        implies path_prefixes(aliases[x]).subset_of(c) by {
        let t = aliases[x];
        assert(w.contains(x));
        assert(path_prefixes(t).subset_of(w));
        assert forall|q: Seq<char>| path_prefixes(t).contains(q) implies c.contains(q) by {
            assert forall|r: Seq<char>| path_prefixes(q).contains(r) implies w.contains(r) by {
                lemma_prefix_transitive(r, q, t);
                assert(path_prefixes(t).contains(r));
            }
        }
    }
    assert(is_walk(aliases, base, p, c));
    assert(w.subset_of(c));
}

/// Making an alias target used lowers the count of aliases whose target is
/// unused.
proof fn lemma_count_decreases(
    aliases: Map<Seq<char>, Seq<char>>,
    before: Set<Seq<char>>,
    after: Set<Seq<char>>,
    x: Seq<char>,
)
    requires
        aliases.dom().finite(),
        before.subset_of(after),
        aliases.contains_key(x),
        !before.contains(aliases[x]),
        after.contains(aliases[x]),
    ensures
        outside_count(aliases, after) < outside_count(aliases, before),
{
    let fb = aliases.dom().filter(|y: Seq<char>| !before.contains(aliases[y]));
    let fa = aliases.dom().filter(|y: Seq<char>| !after.contains(aliases[y]));
    vstd::set_lib::lemma_len_subset(fb, aliases.dom());
    assert(fa.subset_of(fb.remove(x)));
    vstd::set_lib::lemma_len_subset(fa, fb.remove(x));
}

} // verus!
