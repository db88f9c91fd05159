//! The dispatcher: a trie over pattern paths.
//!
//! A pattern has the same shape as a concrete path; a segment written `*`
//! is a wildcard that matches exactly one concrete segment at its depth.
//! Registration walks the trie along the pattern's raw segments, keeping
//! one edge per exact segment and one wildcard edge per node; resolution
//! walks it along a concrete path, trying the exact edge before the
//! wildcard edge at every depth and returning the first complete match,
//! so that the most specific registered pattern wins.

use vstd::prelude::*;
use vstd::string::StringExecFns;
use vstd::string::StrSliceExecFns;

use crate::paths::path_segs;
use crate::paths::split_segments;
use crate::paths::str_eq;
use crate::paths::views_from;

verus! {

/// The wildcard segment.
pub open spec fn star() -> Seq<char> {
    seq!['*']
}

/// One trie node: a value for the pattern ending here, one subtree per
/// exact segment, and one subtree for the wildcard segment.
pub struct PatternTrie<V> {
    value: Option<V>,
    children: Vec<(String, PatternTrie<V>)>,
    wild: Option<Box<PatternTrie<V>>>,
}

/// The first subtree listed under the segment, if any.
pub open spec fn child_find<V>(s: Seq<(String, PatternTrie<V>)>, seg: Seq<char>) -> Option<
    PatternTrie<V>,
>
    decreases s.len(),
{
    if s.len() == 0 {
        None
    } else if s[0].0@ == seg {
        Some(s[0].1)
    } else {
        child_find(s.drop_first(), seg)
    }
}

/// A found subtree is one of the listed subtrees.
proof fn lemma_child_find_member<V>(s: Seq<(String, PatternTrie<V>)>, seg: Seq<char>)
    ensures
        child_find(s, seg) is Some ==> exists|i: int|
            0 <= i < s.len() && child_find(s, seg) == Some(#[trigger] s[i].1),
    decreases s.len(),
{
    if s.len() > 0 && s[0].0@ != seg {
        let rest = s.drop_first();
        lemma_child_find_member(rest, seg);
        assert(forall|i: int| 0 <= i < rest.len() ==> rest[i] == #[trigger] s[i + 1]);
        if child_find(s, seg) is Some {
            let i = choose|i: int|
                0 <= i < rest.len() && child_find(rest, seg) == Some(#[trigger] rest[i].1);
            assert(child_find(s, seg) == Some(s[i + 1].1));
        }
    }
}

/// A segment first listed at position `j` finds the subtree there.
proof fn lemma_child_find_at<V>(s: Seq<(String, PatternTrie<V>)>, seg: Seq<char>, j: int)
    requires
        0 <= j < s.len(),
        s[j].0@ == seg,
        forall|m: int| 0 <= m < j ==> s[m].0@ != seg,
    ensures
        child_find(s, seg) == Some(s[j].1),
    decreases s.len(),
{
    if j > 0 {
        let rest = s.drop_first();
        assert(forall|m: int| 0 <= m < rest.len() ==> rest[m] == #[trigger] s[m + 1]);
        lemma_child_find_at(rest, seg, j - 1);
    }
}

/// A segment no subtree is listed under finds nothing.
proof fn lemma_child_find_none<V>(s: Seq<(String, PatternTrie<V>)>, seg: Seq<char>)
    requires
        forall|m: int| 0 <= m < s.len() ==> s[m].0@ != seg,
    ensures
        child_find(s, seg) is None,
    decreases s.len(),
{
    if s.len() > 0 {
        let rest = s.drop_first();
        assert(forall|m: int| 0 <= m < rest.len() ==> rest[m] == #[trigger] s[m + 1]);
        lemma_child_find_none(rest, seg);
    }
}

impl<V> PatternTrie<V> {
    /// Every node lists each segment once, none of them the wildcard, and
    /// its subtrees are well-formed in turn.
    pub closed spec fn wf(self) -> bool
        decreases self,
    {
        &&& forall|i: int, j: int|
            0 <= i < j < self.children@.len() ==> self.children@[i].0@ != self.children@[j].0@
        &&& forall|i: int| 0 <= i < self.children@.len() ==> self.children@[i].0@ != star()
        &&& forall|i: int|
            0 <= i < self.children@.len() ==> (#[trigger] self.children@[i].1).wf()
        &&& match self.wild {
            Some(w) => w.wf(),
            None => true,
        }
    }

    /// The value registered under a pattern, given by its segments; `*`
    /// segments are kept in the wildcard edge, all others in the edge of
    /// their own spelling.
    pub closed spec fn entry(self, q: Seq<Seq<char>>) -> Option<V>
        decreases self,
    {
        if q.len() == 0 {
            self.value
        } else if q[0] == star() {
            match self.wild {
                Some(w) => w.entry(q.drop_first()),
                None => None,
            }
        } else {
            match child_find(self.children@, q[0]) {
                Some(c) => {
                    proof {
                        lemma_child_find_member(self.children@, q[0]);
                        let i = choose|i: int|
                            0 <= i < self.children@.len() && child_find(self.children@, q[0])
                                == Some(#[trigger] self.children@[i].1);
                        assert(decreases_to!(self => self.children));
                        assert(decreases_to!(self.children => self.children@));
                        assert(decreases_to!(self.children@ => self.children@[i]));
                        assert(decreases_to!(self.children@[i] => self.children@[i].1));
                        assert(decreases_to!(self => c));
                    }
                    c.entry(q.drop_first())
                },
                None => None,
            }
        }
    }

    /// An empty dispatcher, with nothing registered.
    pub fn new() -> (r: Self)
        ensures
            r.wf(),
            forall|q: Seq<Seq<char>>| r.entry(q) is None,
    {
        let r = PatternTrie { value: None, children: Vec::new(), wild: None };
        proof {
            assert forall|q: Seq<Seq<char>>| r.entry(q) is None by {
                if q.len() > 0 && q[0] != star() {
                    assert(child_find(r.children@, q[0]) is None);
                }
            }
        }
        r
    }

    /// Registers `v` under the pattern, replacing what an earlier
    /// registration of the same pattern put there.
    pub fn insert(&mut self, pattern: &str, v: V)
        requires
            old(self).wf(),
            pattern@.len() == 0 || pattern@[0] == '/',
        ensures
            final(self).wf(),
            final(self).entry(path_segs(pattern@)) == Some(v),
            forall|q: Seq<Seq<char>>|
                q != path_segs(pattern@) ==> final(self).entry(q) == old(self).entry(q),
    {
        let segs = split_segments(pattern);
        let mut tmp = PatternTrie { value: None, children: Vec::new(), wild: None };
        core::mem::swap(&mut tmp, self);
        let mut done = tmp.insert_at(&segs, 0, v);
        core::mem::swap(self, &mut done);
        proof {
            assert(views_from(segs@, 0) == path_segs(pattern@));
        }
    }

    /// Registers `v` under the segments from position `i` on.
    fn insert_at(self, segs: &Vec<String>, i: usize, v: V) -> (r: Self)
        requires
            self.wf(),
            i <= segs@.len(),
        ensures
            r.wf(),
            r.entry(views_from(segs@, i as int)) == Some(v),
            forall|q: Seq<Seq<char>>|
                q != views_from(segs@, i as int) ==> r.entry(q) == self.entry(q),
        decreases segs@.len() - i,
    {
        let ghost self0 = self;
        let PatternTrie { value, children, wild } = self;
        if i == segs.len() {
            let r = PatternTrie { value: Some(v), children, wild };
            proof {
                assert(views_from(segs@, i as int) =~= Seq::<Seq<char>>::empty());
                assert(r.entry(Seq::empty()) == Some(v));
                assert forall|q: Seq<Seq<char>>|
                    q != views_from(segs@, i as int) implies r.entry(q) == self0.entry(q) by {
                    if q.len() == 0 {
                        assert(q =~= Seq::<Seq<char>>::empty());
                    }
                    assert(q.len() > 0);
                    assert(r.children == self0.children && r.wild == self0.wild);
                }
            }
            r
        } else {
            let is_wild = str_eq(segs[i].as_str(), "*");
            proof {
                reveal_strlit("*");
                assert("*"@ =~= star());
            }
            if is_wild {
                let w0 = match wild {
                    Some(b) => *b,
                    None => PatternTrie::new(),
                };
                let ghost w0g = w0;
                let w1 = w0.insert_at(segs, i + 1, v);
                let r = PatternTrie { value, children, wild: Some(Box::new(w1)) };
                proof {
                    let suffix = views_from(segs@, i as int);
                    assert(suffix =~= seq![segs@[i as int]@] + views_from(segs@, i + 1));
                    assert(suffix[0] == star());
                    assert(suffix.drop_first() =~= views_from(segs@, i + 1));
                    assert(r.entry(suffix) == w1.entry(views_from(segs@, i + 1)));
                    assert forall|q: Seq<Seq<char>>|
                        q != suffix implies r.entry(q) == self0.entry(q) by {
                        if q.len() == 0 {
                        } else if q[0] == star() {
                            assert(q.drop_first() != views_from(segs@, i + 1)) by {
                                if q.drop_first() == views_from(segs@, i + 1) {
                                    assert(q =~= suffix);
                                }
                            }
                            assert(w1.entry(q.drop_first()) == w0g.entry(q.drop_first()));
                            match self0.wild {
                                Some(b) => {
                                    assert(w0g == *b);
                                },
                                None => {
                                    assert(w0g.entry(q.drop_first()) is None);
                                },
                            }
                        } else {
                            assert(r.children == self0.children);
                        }
                    }
                }
                r
            } else {
                let mut children = children;
                let ghost kidsorig = children@;
                let n = children.len();
                let mut j: usize = 0;
                let mut found = false;
                while j < n && !found
                    invariant
                        0 <= j <= n,
                        n == children@.len(),
                        children@ == kidsorig,
                        i < segs@.len(),
                        self0.wf(),
                        value == self0.value,
                        wild == self0.wild,
                        kidsorig == self0.children@,
                        found ==> j < n && children@[j as int].0@ == segs@[i as int]@,
                        !found ==> forall|m: int|
                            0 <= m < j ==> #[trigger] children@[m].0@ != segs@[i as int]@,
                    decreases n - j + (if found {
                        0int
                    } else {
                        1int
                    }),
                {
                    if str_eq(children[j].0.as_str(), segs[i].as_str()) {
                        found = true;
                    } else {
                        j = j + 1;
                    }
                }
                if !found {
                    let fresh = PatternTrie::new();
                    let ghost fg = fresh;
                    children.push((String::from_str(segs[i].as_str()), fresh));
                    proof {
                        assert(children@[children@.len() - 1].1 == fg);
                        assert(forall|q: Seq<Seq<char>>|
                            #[trigger] children@[children@.len() - 1].1.entry(q) is None);
                        assert(fg.wf());
                    }
                }
                let ghost kids0 = children@;
                proof {
                    assert(kidsorig == self0.children@);
                    assert(0 <= j < kids0.len());
                    assert(kids0[j as int].0@ == segs@[i as int]@);
                    if !found {
                        assert(kids0.subrange(0, kids0.len() - 1) =~= kidsorig);
                        assert(j == kids0.len() - 1);
                        assert(forall|m: int|
                            0 <= m < kids0.len() - 1 ==> kids0[m] == #[trigger] kidsorig[m]);
                    }
                    assert(kids0[j as int].1.wf());
                    assert forall|a: int|
                        0 <= a < kids0.len() implies (#[trigger] kids0[a].1).wf() by {
                        if a < kidsorig.len() {
                            assert(kids0[a].1 == kidsorig[a].1);
                        }
                    }
                }
                let (key_s, subtree) = children.remove(j);
                let sub1 = subtree.insert_at(segs, i + 1, v);
                children.insert(j, (key_s, sub1));
                let r = PatternTrie { value, children, wild };
                proof {
                    assert(r.children@ =~= kids0.update(j as int, (kids0[j as int].0, sub1)));
                    lemma_insert_exact_case(
                        self0,
                        r,
                        kids0,
                        j as int,
                        segs@,
                        i as int,
                        v,
                        sub1,
                    );
                }
                r
            }
        }
    }
}

/// Whether a pattern segment accepts a concrete segment: itself, or any
/// one segment for the wildcard.
pub open spec fn seg_matches(q: Seq<char>, s: Seq<char>) -> bool {
    q == s || q == star()
}

/// Whether a pattern accepts a concrete path, segment by segment.
pub open spec fn pat_matches(q: Seq<Seq<char>>, s: Seq<Seq<char>>) -> bool {
    q.len() == s.len() && forall|i: int| 0 <= i < q.len() ==> seg_matches(#[trigger] q[i], s[i])
}

impl<V> PatternTrie<V> {
    /// The walk resolution performs: at each depth the exact edge is tried
    /// first, in full; only if nothing completes under it does the
    /// wildcard edge get its turn.
    pub closed spec fn resolve_model(self, segs: Seq<Seq<char>>) -> Option<V>
        decreases self,
    {
        if segs.len() == 0 {
            self.value
        } else {
            let exact = match child_find(self.children@, segs[0]) {
                Some(c) => {
                    proof {
                        lemma_child_find_member(self.children@, segs[0]);
                        let i = choose|i: int|
                            0 <= i < self.children@.len() && child_find(self.children@, segs[0])
                                == Some(#[trigger] self.children@[i].1);
                        assert(decreases_to!(self => self.children));
                        assert(decreases_to!(self.children => self.children@));
                        assert(decreases_to!(self.children@ => self.children@[i]));
                        assert(decreases_to!(self.children@[i] => self.children@[i].1));
                        assert(decreases_to!(self => c));
                    }
                    c.resolve_model(segs.drop_first())
                },
                None => None,
            };
            if exact is Some {
                exact
            } else {
                match self.wild {
                    Some(w) => w.resolve_model(segs.drop_first()),
                    None => None,
                }
            }
        }
    }

    /// Resolves the concrete path to the registered value whose pattern
    /// matches it, the exact edge beating the wildcard edge at each depth.
    pub fn resolve(&self, path: &str) -> (r: Option<&V>)
        requires
            path@.len() == 0 || path@[0] == '/',
        ensures
            match r {
                Some(v) => self.resolve_model(path_segs(path@)) == Some(*v),
                None => self.resolve_model(path_segs(path@)) is None,
            },
    {
        let segs = split_segments(path);
        self.resolve_at(&segs, 0)
    }

    /// Resolves the concrete segments from position `i` on.
    fn resolve_at(&self, segs: &Vec<String>, i: usize) -> (r: Option<&V>)
        requires
            i <= segs@.len(),
        ensures
            match r {
                Some(v) => self.resolve_model(views_from(segs@, i as int)) == Some(*v),
                None => self.resolve_model(views_from(segs@, i as int)) is None,
            },
        decreases segs@.len() - i,
    {
        let ghost suffix = views_from(segs@, i as int);
        if i == segs.len() {
            proof {
                assert(suffix =~= Seq::<Seq<char>>::empty());
            }
            return self.value.as_ref();
        }
        proof {
            assert(suffix =~= seq![segs@[i as int]@] + views_from(segs@, i + 1));
            assert(suffix[0] == segs@[i as int]@);
            assert(suffix.drop_first() =~= views_from(segs@, i + 1));
        }
        let n = self.children.len();
        let mut j: usize = 0;
        let mut found = false;
        while j < n && !found
            invariant
                0 <= j <= n,
                n == self.children@.len(),
                i < segs@.len(),
                found ==> j < n && self.children@[j as int].0@ == segs@[i as int]@,
                forall|m: int|
                    0 <= m < j ==> #[trigger] self.children@[m].0@ != segs@[i as int]@,
            decreases n - j + (if found {
                0int
            } else {
                1int
            }),
        {
            if str_eq(self.children[j].0.as_str(), segs[i].as_str()) {
                found = true;
            } else {
                j = j + 1;
            }
        }
        if found {
            proof {
                lemma_child_find_at(self.children@, segs@[i as int]@, j as int);
            }
            let under = self.children[j].1.resolve_at(segs, i + 1);
            match under {
                Some(v) => {
                    return Some(v);
                },
                None => {
                },
            }
        } else {
            proof {
                lemma_child_find_none(self.children@, segs@[i as int]@);
            }
        }
        match &self.wild {
            Some(w) => w.resolve_at(segs, i + 1),
            None => None,
        }
    }
}

/// Soundness of resolution: what comes back was registered, under some
/// pattern that matches the path.
pub proof fn lemma_resolve_sound<V>(t: PatternTrie<V>, segs: Seq<Seq<char>>, v: V)
    requires
        t.wf(),
        t.resolve_model(segs) == Some(v),
    ensures
        exists|q: Seq<Seq<char>>|
            #[trigger] pat_matches(q, segs) && t.entry(q) == Some(v),
    decreases segs.len(), 1int,
{
    if segs.len() == 0 {
        let q = Seq::<Seq<char>>::empty();
        assert(pat_matches(q, segs));
        assert(t.entry(q) == Some(v));
    } else {
        match child_find(t.children@, segs[0]) {
            Some(c) => {
                lemma_child_find_member(t.children@, segs[0]);
                let i = choose|i: int|
                    0 <= i < t.children@.len() && child_find(t.children@, segs[0]) == Some(
                        #[trigger] t.children@[i].1,
                    );
                assert(c.wf());
                assert(segs[0] != star()) by {
                    if segs[0] == star() {
                        lemma_child_find_none(t.children@, star());
                    }
                }
                if c.resolve_model(segs.drop_first()) == Some(v) {
                    lemma_resolve_sound(c, segs.drop_first(), v);
                    let q1 = choose|q1: Seq<Seq<char>>|
                        #[trigger] pat_matches(q1, segs.drop_first()) && c.entry(q1) == Some(v);
                    let q = seq![segs[0]] + q1;
                    assert(q[0] == segs[0]);
                    assert(q.drop_first() =~= q1);
                    assert forall|m: int| 0 <= m < q.len() implies seg_matches(
                        #[trigger] q[m],
                        segs[m],
                    ) by {
                        if m > 0 {
                            assert(q[m] == q1[m - 1] && segs[m] == segs.drop_first()[m - 1]);
                        }
                    }
                    assert(pat_matches(q, segs));
                    assert(t.entry(q) == c.entry(q1));
                } else {
                    lemma_resolve_wild_sound(t, segs, v);
                }
            },
            None => {
                lemma_resolve_wild_sound(t, segs, v);
            },
        }
    }
}

/// Soundness of the wildcard step of resolution.
proof fn lemma_resolve_wild_sound<V>(t: PatternTrie<V>, segs: Seq<Seq<char>>, v: V)
    requires
        t.wf(),
        segs.len() > 0,
        match t.wild {
            Some(w) => w.resolve_model(segs.drop_first()) == Some(v),
            None => false,
        },
    ensures
        exists|q: Seq<Seq<char>>|
            #[trigger] pat_matches(q, segs) && t.entry(q) == Some(v),
    decreases segs.len(), 0int,
{
    let w = t.wild->0;
    assert(w.wf());
    lemma_resolve_sound(*w, segs.drop_first(), v);
    let q1 = choose|q1: Seq<Seq<char>>|
        #[trigger] pat_matches(q1, segs.drop_first()) && w.entry(q1) == Some(v);
    let q = seq![star()] + q1;
    assert(q[0] == star());
    assert(q.drop_first() =~= q1);
    assert forall|m: int| 0 <= m < q.len() implies seg_matches(#[trigger] q[m], segs[m]) by {
        if m > 0 {
            assert(q[m] == q1[m - 1] && segs[m] == segs.drop_first()[m - 1]);
        }
    }
    assert(pat_matches(q, segs));
    assert(t.entry(q) == w.entry(q1));
}

/// Completeness of resolution: if any registered pattern matches the
/// path, resolution returns something.
pub proof fn lemma_resolve_complete<V>(t: PatternTrie<V>, segs: Seq<Seq<char>>, q: Seq<Seq<char>>)
    requires
        t.wf(),
        pat_matches(q, segs),
        t.entry(q) is Some,
    ensures
        t.resolve_model(segs) is Some,
    decreases segs.len(),
{
    if segs.len() == 0 {
        assert(q.len() == 0);
    } else {
        assert(seg_matches(q[0], segs[0]));
        assert forall|m: int| 0 <= m < q.drop_first().len() implies seg_matches(
            #[trigger] q.drop_first()[m],
            segs.drop_first()[m],
        ) by {
            assert(q.drop_first()[m] == q[m + 1] && segs.drop_first()[m] == segs[m + 1]);
        }
        assert(pat_matches(q.drop_first(), segs.drop_first()));
        if q[0] == star() {
            let w = t.wild->0;
            assert(w.wf());
            assert(w.entry(q.drop_first()) is Some);
            lemma_resolve_complete(*w, segs.drop_first(), q.drop_first());
            match child_find(t.children@, segs[0]) {
                Some(c) => {
                    if c.resolve_model(segs.drop_first()) is Some {
                    } else {
                        assert(t.resolve_model(segs) == w.resolve_model(segs.drop_first()));
                    }
                },
                None => {
                    assert(t.resolve_model(segs) == w.resolve_model(segs.drop_first()));
                },
            }
        } else {
            assert(q[0] == segs[0]);
            let c = child_find(t.children@, q[0])->0;
            assert(child_find(t.children@, q[0]) == Some(c));
            lemma_child_find_member(t.children@, q[0]);
            let i = choose|i: int|
                0 <= i < t.children@.len() && child_find(t.children@, q[0]) == Some(
                    #[trigger] t.children@[i].1,
                );
            assert(c.wf());
            assert(c.entry(q.drop_first()) is Some);
            lemma_resolve_complete(c, segs.drop_first(), q.drop_first());
        }
    }
}

/// Specificity of resolution: a pattern spelled exactly like the concrete
/// path beats every other matching pattern, wildcard ones included.
pub proof fn lemma_resolve_exact<V>(t: PatternTrie<V>, segs: Seq<Seq<char>>)
    requires
        t.wf(),
        t.entry(segs) is Some,
    ensures
        t.resolve_model(segs) == t.entry(segs),
    decreases segs.len(),
{
    if segs.len() == 0 {
    } else if segs[0] == star() {
        let w = t.wild->0;
        assert(w.wf());
        assert(w.entry(segs.drop_first()) is Some);
        lemma_resolve_exact(*w, segs.drop_first());
        assert(child_find(t.children@, segs[0]) is None) by {
            lemma_child_find_none(t.children@, star());
        }
    } else {
        let c = child_find(t.children@, segs[0])->0;
        assert(child_find(t.children@, segs[0]) == Some(c));
        lemma_child_find_member(t.children@, segs[0]);
        let i = choose|i: int|
            0 <= i < t.children@.len() && child_find(t.children@, segs[0]) == Some(
                #[trigger] t.children@[i].1,
            );
        assert(c.wf());
        assert(c.entry(segs.drop_first()) is Some);
        lemma_resolve_exact(c, segs.drop_first());
    }
}

/// What replacing one subtree does to the registry: the pattern's suffix
/// now leads to the new subtree's entries, every other pattern is as it
/// was.
proof fn lemma_insert_exact_case<V>(
    t0: PatternTrie<V>,
    t1: PatternTrie<V>,
    kids0: Seq<(String, PatternTrie<V>)>,
    j: int,
    segs: Seq<String>,
    i: int,
    v: V,
    sub1: PatternTrie<V>,
)
    requires
        t0.wf(),
        0 <= i < segs.len(),
        segs[i]@ != star(),
        0 <= j < kids0.len(),
        kids0[j].0@ == segs[i]@,
        forall|m: int| 0 <= m < j ==> kids0[m].0@ != segs[i]@,
        forall|a: int, b: int| 0 <= a < b < kids0.len() ==> kids0[a].0@ != kids0[b].0@,
        forall|a: int| 0 <= a < kids0.len() ==> kids0[a].0@ != star(),
        forall|a: int| 0 <= a < kids0.len() ==> (#[trigger] kids0[a].1).wf(),
        t1.children@ == kids0.update(j, (kids0[j].0, sub1)),
        t1.value == t0.value,
        t1.wild == t0.wild,
        t0.children@ == kids0 || (t0.children@ == kids0.subrange(0, kids0.len() - 1) && j
            == kids0.len() - 1 && (forall|q: Seq<Seq<char>>|
            #[trigger] kids0[kids0.len() - 1].1.entry(q) is None) && (forall|m: int|
            0 <= m < kids0.len() - 1 ==> kids0[m].0@ != segs[i]@)),
        sub1.wf(),
        sub1.entry(views_from(segs, i + 1)) == Some(v),
        forall|q: Seq<Seq<char>>|
            q != views_from(segs, i + 1) ==> sub1.entry(q) == kids0[j].1.entry(q),
        match t0.wild {
            Some(w) => w.wf(),
            None => true,
        },
    ensures
        t1.wf(),
        t1.entry(views_from(segs, i)) == Some(v),
        forall|q: Seq<Seq<char>>| q != views_from(segs, i) ==> t1.entry(q) == t0.entry(q),
{
    let suffix = views_from(segs, i);
    let kids1 = t1.children@;
    let seg = segs[i]@;
    assert(suffix =~= seq![seg] + views_from(segs, i + 1));
    assert(suffix[0] == seg);
    assert(suffix.drop_first() =~= views_from(segs, i + 1));
    // Well-formedness of the updated node.
    assert forall|a: int, b: int|
        0 <= a < b < kids1.len() implies kids1[a].0@ != kids1[b].0@ by {
        assert(kids1[a].0@ == kids0[a].0@ && kids1[b].0@ == kids0[b].0@);
    }
    assert forall|a: int| 0 <= a < kids1.len() implies kids1[a].0@ != star() by {
        assert(kids1[a].0@ == kids0[a].0@);
    }
    assert forall|a: int| 0 <= a < kids1.len() implies (#[trigger] kids1[a].1).wf() by {
        if a == j {
            assert(kids1[a].1 == sub1);
        } else {
            assert(kids1[a].1 == kids0[a].1);
        }
    }
    assert(t1.wf());
    // The registered pattern's suffix.
    lemma_child_find_at(kids1, seg, j);
    assert(kids1[j].1 == sub1);
    assert(t1.entry(suffix) == sub1.entry(views_from(segs, i + 1)));
    // Every other pattern.
    assert forall|q: Seq<Seq<char>>| q != suffix implies t1.entry(q) == t0.entry(q) by {
        if q.len() == 0 {
        } else if q[0] == star() {
            assert(t1.wild == t0.wild);
        } else {
            if q[0] == seg {
                lemma_child_find_at(kids1, seg, j);
                if t0.children@ == kids0 {
                    lemma_child_find_at(kids0, seg, j);
                    assert(child_find(t0.children@, q[0]) == Some(kids0[j].1));
                } else {
                    lemma_child_find_none(t0.children@, seg);
                    assert(child_find(t0.children@, q[0]) is None);
                    assert(kids0[j].1.entry(q.drop_first()) is None);
                }
                assert(q.drop_first() != views_from(segs, i + 1)) by {
                    if q.drop_first() == views_from(segs, i + 1) {
                        assert(q =~= suffix);
                    }
                }
                assert(sub1.entry(q.drop_first()) == kids0[j].1.entry(q.drop_first()));
            } else {
                lemma_child_find_other(kids0, kids1, j, seg, q[0]);
                if t0.children@ == kids0 {
                } else {
                    assert(child_find(kids0, q[0]) == child_find(t0.children@, q[0])) by {
                        lemma_child_find_last_new(kids0, t0.children@, q[0]);
                    }
                }
            }
        }
    }
}

/// Replacing the subtree at one position leaves every other segment's
/// lookup unchanged.
proof fn lemma_child_find_other<V>(
    kids0: Seq<(String, PatternTrie<V>)>,
    kids1: Seq<(String, PatternTrie<V>)>,
    j: int,
    seg: Seq<char>,
    other: Seq<char>,
)
    requires
        0 <= j < kids0.len(),
        kids1 == kids0.update(j, (kids0[j].0, kids1[j].1)),
        kids0[j].0@ == seg,
        other != seg,
    ensures
        child_find(kids1, other) == child_find(kids0, other),
    decreases kids0.len(),
{
    if kids0.len() > 0 {
        if j == 0 {
            assert(kids1[0].0@ == seg);
            assert(kids1.drop_first() =~= kids0.drop_first());
        } else {
            assert(kids1[0] == kids0[0]);
            if kids0[0].0@ != other {
                assert(kids1.drop_first() =~= kids0.drop_first().update(
                    j - 1,
                    (kids0[j].0, kids1[j].1),
                ));
                lemma_child_find_other(
                    kids0.drop_first(),
                    kids1.drop_first(),
                    j - 1,
                    seg,
                    other,
                );
            }
        }
    }
}

/// A trailing entry under a different segment does not change a lookup.
proof fn lemma_child_find_last_new<V>(
    kids0: Seq<(String, PatternTrie<V>)>,
    pre: Seq<(String, PatternTrie<V>)>,
    other: Seq<char>,
)
    requires
        kids0.len() > 0,
        pre == kids0.subrange(0, kids0.len() - 1),
        kids0[kids0.len() - 1].0@ != other,
    ensures
        child_find(kids0, other) == child_find(pre, other),
    decreases kids0.len(),
{
    if kids0.len() == 1 {
        assert(pre =~= Seq::<(String, PatternTrie<V>)>::empty());
    } else {
        assert(pre[0] == kids0[0]);
        if kids0[0].0@ != other {
            assert(pre.drop_first() =~= kids0.drop_first().subrange(
                0,
                kids0.drop_first().len() - 1,
            ));
            assert(kids0.drop_first()[kids0.drop_first().len() - 1] == kids0[kids0.len() - 1]);
            lemma_child_find_last_new(kids0.drop_first(), pre.drop_first(), other);
        }
    }
}

} // verus!
