//! Domain hack detection: splitting a label into a second-level part and a
//! known TLD that the label ends with (`bunsh` → `bun.sh`).
use vstd::prelude::*;
use vstd::string::*;
use crate::input::{is_label_char, label_ok, lemma_label_rules_accept, validate_label};
use crate::text::{chars_eq, chars_of, concat3, string_from_range};

verus! {

broadcast use vstd::string::group_string_axioms;

/// A split of the input into a second-level label and a TLD.
#[derive(Debug, Clone, PartialEq, Eq)]
pub struct HackMatch {
    pub sld: String,
    pub tld: String,
}

impl HackMatch {
    /// The domain `sld.tld`.
    pub fn domain(&self) -> (d: String)
        ensures
            d@ == self.sld@ + "."@ + self.tld@,
    {
        concat3(self.sld.as_str(), ".", self.tld.as_str())
    }
}

/// The set of TLDs that hacks are matched against.
/// A node of the trie: whether a TLD ends here, and one edge for each
/// character that continues a TLD towards its start.
#[derive(Debug)]
struct TrieNode {
    terminal: bool,
    children: Vec<(char, usize)>,
}

/// The known TLDs, in a trie of their characters read from the end, so
/// that all suffixes of an input are matched in one walk from its last
/// character. Node 0 is the root; every other node records, in `links`,
/// its parent and the character of the edge into it.
pub struct HackTrie {
    nodes: Vec<TrieNode>,
    links: Ghost<Seq<(int, char)>>,
}

/// The node that the last edge for `c` in `cs` leads to.
spec fn child_in(cs: Seq<(char, usize)>, c: char) -> Option<int>
    decreases cs.len(),
{
    if cs.len() == 0 {
        None
    } else if cs.last().0 == c {
        Some(cs.last().1 as int)
    } else {
        child_in(cs.drop_last(), c)
    }
}

/// The node reached from the root by the characters of `s`, last one
/// first.
spec fn reach(nodes: Seq<TrieNode>, s: Seq<char>) -> Option<int>
    decreases s.len(),
{
    if s.len() == 0 {
        Some(0)
    } else {
        match reach(nodes, s.drop_first()) {
            Some(i) => if 0 <= i < nodes.len() { child_in(nodes[i].children@, s[0]) } else { None },
            None => None,
        }
    }
}

/// The characters on the way from the root to node `j`, in TLD order.
spec fn path_of(links: Seq<(int, char)>, j: int) -> Seq<char>
    decreases j,
{
    if j <= 0 || j >= links.len() {
        Seq::empty()
    } else if 0 <= links[j].0 < j {
        seq![links[j].1] + path_of(links, links[j].0)
    } else {
        Seq::empty()
    }
}

/// The trie is a tree: every node but the root has an earlier parent with an
/// edge to it, and every edge leads to a node whose link names that edge.
spec fn trie_wf(nodes: Seq<TrieNode>, links: Seq<(int, char)>) -> bool {
    &&& nodes.len() >= 1
    &&& links.len() == nodes.len()
    &&& forall|j: int| 1 <= j < nodes.len() ==> {
        &&& 0 <= (#[trigger] links[j]).0 < j
        &&& child_in(nodes[links[j].0].children@, links[j].1) == Some(j)
    }
    &&& forall|i: int, k: int| 0 <= i < nodes.len() && 0 <= k < nodes[i].children@.len() ==> {
        let e = #[trigger] nodes[i].children@[k];
        &&& 1 <= e.1 < nodes.len()
        &&& links[e.1 as int].0 == i
        &&& links[e.1 as int].1 == e.0
    }
}

spec fn words_of(nodes: Seq<TrieNode>) -> Set<Seq<char>> {
    Set::new(|s: Seq<char>| reach(nodes, s) matches Some(j) && 0 <= j < nodes.len() && nodes[j].terminal)
}

proof fn lemma_child_in_entry(cs: Seq<(char, usize)>, c: char) -> (k: int)
    requires
        child_in(cs, c) is Some,
    ensures
        0 <= k < cs.len(),
        cs[k].0 == c,
        cs[k].1 as int == child_in(cs, c)->0,
    decreases cs.len(),
{
    if cs.last().0 == c {
        (cs.len() - 1) as int
    } else {
        let k = lemma_child_in_entry(cs.drop_last(), c);
        k
    }
}

proof fn lemma_child_in_push(cs: Seq<(char, usize)>, e: (char, usize), c: char)
    ensures
        child_in(cs.push(e), c) == if e.0 == c { Some(e.1 as int) } else { child_in(cs, c) },
{
    assert(cs.push(e).drop_last() =~= cs);
}

proof fn lemma_path_push(links: Seq<(int, char)>, x: (int, char), j: int)
    requires
        j < links.len(),
    ensures
        path_of(links.push(x), j) == path_of(links, j),
    decreases j,
{
    if j > 0 && 0 <= links[j].0 < j {
        lemma_path_push(links, x, links[j].0);
    }
}

/// Each node is reached by its path, and only by it.
proof fn lemma_reach_path(nodes: Seq<TrieNode>, links: Seq<(int, char)>, j: int)
    requires
        trie_wf(nodes, links),
        0 <= j < nodes.len(),
    ensures
        reach(nodes, path_of(links, j)) == Some(j),
    decreases j,
{
    if j > 0 {
        let p = links[j].0;
        lemma_reach_path(nodes, links, p);
        let s = path_of(links, j);
        assert(s.drop_first() =~= path_of(links, p));
    }
}

proof fn lemma_reach_unique(nodes: Seq<TrieNode>, links: Seq<(int, char)>, s: Seq<char>)
    requires
        trie_wf(nodes, links),
    ensures
        reach(nodes, s) matches Some(j) ==> 0 <= j < nodes.len() && s == path_of(links, j),
    decreases s.len(),
{
    if s.len() > 0 {
        lemma_reach_unique(nodes, links, s.drop_first());
        if let Some(i) = reach(nodes, s.drop_first()) {
            if 0 <= i < nodes.len() && child_in(nodes[i].children@, s[0]) is Some {
                let k = lemma_child_in_entry(nodes[i].children@, s[0]);
                let e = nodes[i].children@[k];
                let j = e.1 as int;
                assert(links[j].0 == i && links[j].1 == s[0]);
                assert(path_of(links, j) == seq![s[0]] + path_of(links, i));
                assert(s =~= seq![s[0]] + s.drop_first());
            }
        }
    }
}

/// The TLDs of a well-formed trie are the paths of its terminal nodes.
proof fn lemma_words_are_paths(nodes: Seq<TrieNode>, links: Seq<(int, char)>, s: Seq<char>)
    requires
        trie_wf(nodes, links),
    ensures
        words_of(nodes).contains(s) <==> exists|j: int| 0 <= j < nodes.len() && nodes[j].terminal
            && s == #[trigger] path_of(links, j),
{
    lemma_reach_unique(nodes, links, s);
    if exists|j: int| 0 <= j < nodes.len() && nodes[j].terminal && s == #[trigger] path_of(links, j) {
        let j = choose|j: int| 0 <= j < nodes.len() && nodes[j].terminal && s == #[trigger] path_of(links, j);
        lemma_reach_path(nodes, links, j);
    }
}

impl HackTrie {
    /// The TLDs inserted so far.
    pub closed spec fn words(&self) -> Set<Seq<char>> {
        words_of(self.nodes@)
    }

    /// The trie's structure holds together.
    pub closed spec fn wf(&self) -> bool {
        trie_wf(self.nodes@, self.links@)
    }

    fn empty() -> (t: Self)
        ensures
            t.wf(),
            t.words() == Set::<Seq<char>>::empty(),
    {
        let mut nodes: Vec<TrieNode> = Vec::new();
        nodes.push(TrieNode { terminal: false, children: Vec::new() });
        let ghost root_links: Seq<(int, char)> = seq![(0int, 'a')];
        let t = HackTrie { nodes, links: Ghost(root_links) };
        proof {
            assert forall|s: Seq<char>| !t.words().contains(s) by {
                lemma_words_are_paths(t.nodes@, t.links@, s);
            }
            assert(t.words() =~= Set::<Seq<char>>::empty());
        }
        t
    }

    /// A trie holding the given TLDs.
    pub fn new(tlds: &[&str]) -> (t: Self)
        ensures
            t.wf(),
            t.words() == tlds@.map_values(|s: &str| s@).to_set(),
    {
        let mut t = HackTrie::empty();
        let mut i: usize = 0;
        proof {
            assert(tlds@.take(0).map_values(|s: &str| s@) =~= Seq::<Seq<char>>::empty());
            assert(Seq::<Seq<char>>::empty().to_set() =~= Set::<Seq<char>>::empty());
        }
        while i < tlds.len()
            invariant
                i <= tlds@.len(),
                t.wf(),
                t.words() == tlds@.take(i as int).map_values(|s: &str| s@).to_set(),
            decreases tlds@.len() - i,
        {
            let ghost before = tlds@.take(i as int).map_values(|s: &str| s@);
            t.insert(tlds[i]);
            proof {
                let x = tlds@[i as int]@;
                assert(tlds@.take(i + 1).map_values(|s: &str| s@) =~= before.push(x));
                vstd::seq_lib::seq_to_set_distributes_over_add(before, seq![x]);
                assert(before.push(x) =~= before + seq![x]);
                assert(seq![x].to_set() =~= Set::empty().insert(x)) by {
                    assert(seq![x][0] == x);
                    assert(seq![x].contains(x));
                }
                assert(before.to_set().union(seq![x].to_set()) =~= before.to_set().insert(x));
            }
            i = i + 1;
        }
        assert(tlds@.take(tlds@.len() as int) =~= tlds@);
        t
    }

    /// The node that the edge for `c` leads to from node `i`, if any.
    fn child(&self, i: usize, c: char) -> (r: Option<usize>)
        requires
            self.wf(),
            i < self.nodes@.len(),
        ensures
            match r {
                Some(j) => child_in(self.nodes@[i as int].children@, c) == Some(j as int),
                None => child_in(self.nodes@[i as int].children@, c) is None,
            },
    {
        let cs = &self.nodes[i].children;
        assert(cs@ == self.nodes@[i as int].children@);
        let mut k: usize = cs.len();
        assert(cs@.take(k as int) =~= cs@);
        while k > 0
            invariant
                k <= cs@.len(),
                cs@ == self.nodes@[i as int].children@,
                child_in(cs@, c) == child_in(cs@.take(k as int), c),
            decreases k,
        {
            assert(cs@.take(k as int).drop_last() =~= cs@.take(k - 1));
            assert(cs@.take(k as int).last() == cs@[k - 1]);
            let e = cs[k - 1];
            if e.0 == c {
                assert(child_in(cs@.take(k as int), c) == Some(e.1 as int));
                return Some(e.1);
            }
            k = k - 1;
        }
        None
    }

    /// Adds one TLD.
    pub fn insert(&mut self, tld: &str)
        requires
            old(self).wf(),
        ensures
            final(self).wf(),
            final(self).words() == old(self).words().insert(tld@),
    {
        let chars = chars_of(tld);
        let n = chars.len();
        let ghost w0 = self.words();
        let mut cur: usize = 0;
        let mut k: usize = n;
        assert(chars@.subrange(n as int, n as int) =~= Seq::<char>::empty());
        while k > 0
            invariant
                n == chars@.len(),
                chars@ == tld@,
                k <= n,
                self.wf(),
                self.words() == w0,
                (cur as int) < self.nodes@.len(),
                reach(self.nodes@, chars@.subrange(k as int, n as int)) == Some(cur as int),
            decreases k,
        {
            let c = chars[k - 1];
            let ghost next = chars@.subrange(k - 1, n as int);
            assert(next.drop_first() =~= chars@.subrange(k as int, n as int));
            assert(next[0] == c);
            match self.child(cur, c) {
                Some(j) => {
                    proof {
                        let kk = lemma_child_in_entry(self.nodes@[cur as int].children@, c);
                        assert(self.nodes@[cur as int].children@[kk].1 == j);
                    }
                    cur = j;
                },
                None => {
                    let ghost n0 = self.nodes@;
                    let ghost l0 = self.links@;
                    let new_index = self.nodes.len();
                    self.nodes.push(TrieNode { terminal: false, children: Vec::new() });
                    self.nodes[cur].children.push((c, new_index));
                    self.links = Ghost(l0.push((cur as int, c)));
                    proof {
                        let n1 = self.nodes@;
                        let l1 = self.links@;
                        assert(n1.len() == n0.len() + 1);
                        assert forall|x: int| 0 <= x < n0.len() && x != cur ==> n1[x] == n0[x] by {}
                        assert(n1[cur as int].children@ == n0[cur as int].children@.push((c, new_index)));
                        assert(n1[cur as int].terminal == n0[cur as int].terminal);
                        assert(n1[new_index as int].children@.len() == 0);
                        assert forall|y: int| 1 <= y < n1.len() implies {
                            &&& 0 <= (#[trigger] l1[y]).0 < y
                            &&& child_in(n1[l1[y].0].children@, l1[y].1) == Some(y)
                        } by {
                            if y == new_index {
                                lemma_child_in_push(n0[cur as int].children@, (c, new_index), c);
                            } else {
                                assert(l1[y] == l0[y]);
                                if l0[y].0 == cur {
                                    lemma_child_in_push(n0[cur as int].children@, (c, new_index), l0[y].1);
                                }
                            }
                        }
                        assert forall|x: int, q: int| 0 <= x < n1.len() && 0 <= q < n1[x].children@.len() implies {
                            let e = #[trigger] n1[x].children@[q];
                            &&& 1 <= e.1 < n1.len()
                            &&& l1[e.1 as int].0 == x
                            &&& l1[e.1 as int].1 == e.0
                        } by {
                            if x == cur && q == n0[cur as int].children@.len() {
                            } else if x == cur {
                                assert(n1[x].children@[q] == n0[x].children@[q]);
                            } else if x < n0.len() {
                                assert(n1[x] == n0[x]);
                            }
                        }
                        assert(trie_wf(n1, l1));
                        assert forall|s: Seq<char>| words_of(n1).contains(s) == words_of(n0).contains(s) by {
                            lemma_words_are_paths(n0, l0, s);
                            lemma_words_are_paths(n1, l1, s);
                            if exists|j: int| 0 <= j < n1.len() && n1[j].terminal && s == #[trigger] path_of(l1, j) {
                                let j = choose|j: int| 0 <= j < n1.len() && n1[j].terminal && s == #[trigger] path_of(l1, j);
                                assert(j != new_index);
                                lemma_path_push(l0, (cur as int, c), j);
                                assert(n0[j].terminal);
                            }
                            if exists|j: int| 0 <= j < n0.len() && n0[j].terminal && s == #[trigger] path_of(l0, j) {
                                let j = choose|j: int| 0 <= j < n0.len() && n0[j].terminal && s == #[trigger] path_of(l0, j);
                                lemma_path_push(l0, (cur as int, c), j);
                                assert(n1[j].terminal);
                            }
                        }
                        assert(words_of(n1) =~= words_of(n0));
                        lemma_reach_unique(n0, l0, chars@.subrange(k as int, n as int));
                        lemma_path_push(l0, (cur as int, c), cur as int);
                        lemma_reach_path(n1, l1, cur as int);
                        lemma_child_in_push(n0[cur as int].children@, (c, new_index), c);
                    }
                    cur = new_index;
                },
            }
            k = k - 1;
        }
        assert(chars@.subrange(0, n as int) =~= tld@);
        let ghost n0 = self.nodes@;
        let ghost l0 = self.links@;
        self.nodes[cur].terminal = true;
        proof {
            let n1 = self.nodes@;
            assert forall|x: int| 0 <= x < n0.len() && x != cur ==> n1[x] == n0[x] by {}
            assert(n1[cur as int].children@ == n0[cur as int].children@);
            assert forall|x: int| 0 <= x < n1.len() implies (#[trigger] n1[x]).children@ == n0[x].children@ by {}
            assert(trie_wf(n1, l0)) by {
                assert forall|y: int| 1 <= y < n1.len() implies {
                    &&& 0 <= (#[trigger] l0[y]).0 < y
                    &&& child_in(n1[l0[y].0].children@, l0[y].1) == Some(y)
                } by {
                    assert(n1[l0[y].0].children@ == n0[l0[y].0].children@);
                }
                assert forall|x: int, q: int| 0 <= x < n1.len() && 0 <= q < n1[x].children@.len() implies {
                    let e = #[trigger] n1[x].children@[q];
                    &&& 1 <= e.1 < n1.len()
                    &&& l0[e.1 as int].0 == x
                    &&& l0[e.1 as int].1 == e.0
                } by {
                    assert(n1[x].children@ == n0[x].children@);
                }
            }
            lemma_reach_unique(n0, l0, tld@);
            assert(tld@ == path_of(l0, cur as int));
            assert forall|s: Seq<char>| words_of(n1).contains(s) == w0.insert(tld@).contains(s) by {
                lemma_words_are_paths(n0, l0, s);
                lemma_words_are_paths(n1, l0, s);
                if exists|j: int| 0 <= j < n1.len() && n1[j].terminal && s == #[trigger] path_of(l0, j) {
                    let j = choose|j: int| 0 <= j < n1.len() && n1[j].terminal && s == #[trigger] path_of(l0, j);
                    if j != cur {
                        assert(n0[j].terminal);
                    }
                }
                if w0.contains(s) {
                    let j = choose|j: int| 0 <= j < n0.len() && n0[j].terminal && s == #[trigger] path_of(l0, j);
                    if j != cur {
                        assert(n1[j].terminal);
                    }
                }
                if s == tld@ {
                    assert(n1[cur as int].terminal);
                }
            }
            assert(words_of(n1) =~= w0.insert(tld@));
        }
    }

    /// All domain hacks of `input`: each split into a valid, non-empty label
    /// and a TLD of the set that `input` ends with, shortest label first.
    pub fn find_matches(&self, input: &str) -> (r: Vec<HackMatch>)
        requires
            self.wf(),
        ensures
            r@.map_values(|m: HackMatch| match_view(m)) == hacks_of(input@, self.words()),
    {
        let s = chars_of(input);
        let n = s.len();
        let mut out: Vec<HackMatch> = Vec::new();
        if n < 2 {
            assert(out@.map_values(|m: HackMatch| match_view(m)) =~= hacks_of(input@, self.words()));
            return out;
        }
        let ghost words = self.words();
        let ghost total = hacks_of(input@, words);
        // One walk from the last character: `ends[d]` says whether the last
        // `d` characters are a TLD.
        let mut ends: Vec<bool> = Vec::new();
        ends.push(self.nodes[0].terminal);
        let mut cur: usize = 0;
        let mut alive = true;
        let mut d: usize = 0;
        proof {
            assert(s@.subrange(n as int, n as int) =~= Seq::<char>::empty());
        }
        while d < n
            invariant
                n == s@.len(),
                s@ == input@,
                d <= n,
                self.wf(),
                words == self.words(),
                ends@.len() == d + 1,
                forall|e: int| 0 <= e <= d ==> #[trigger] ends@[e] == words.contains(s@.subrange(n - e, n as int)),
                alive ==> (cur as int) < self.nodes@.len()
                    && reach(self.nodes@, s@.subrange(n - d, n as int)) == Some(cur as int),
                !alive ==> reach(self.nodes@, s@.subrange(n - d, n as int)) is None,
            decreases n - d,
        {
            let ghost next = s@.subrange(n - d - 1, n as int);
            assert(next.drop_first() =~= s@.subrange(n - d, n as int));
            let c = s[n - 1 - d];
            assert(next[0] == c);
            if alive {
                match self.child(cur, c) {
                    Some(j) => {
                        proof {
                            let kk = lemma_child_in_entry(self.nodes@[cur as int].children@, c);
                            assert(self.nodes@[cur as int].children@[kk].1 == j);
                        }
                        cur = j;
                        ends.push(self.nodes[cur].terminal);
                    },
                    None => {
                        alive = false;
                        ends.push(false);
                    },
                }
            } else {
                ends.push(false);
            }
            d = d + 1;
        }
        let mut k: usize = n - 1;
        proof {
            assert(out@.map_values(|m: HackMatch| match_view(m)) + hacks_upto(input@, words, k as int) =~= total);
        }
        while k >= 1
            invariant
                n == s@.len(),
                s@ == input@,
                n >= 2,
                k <= n - 1,
                words == self.words(),
                total == hacks_of(input@, words),
                out@.map_values(|m: HackMatch| match_view(m)) + hacks_upto(input@, words, k as int) == total,
                ends@.len() == n + 1,
                forall|e: int| 0 <= e <= n ==> #[trigger] ends@[e] == words.contains(s@.subrange(n - e, n as int)),
            decreases k,
        {
            let ghost before = out@.map_values(|m: HackMatch| match_view(m));
            if ends[k] {
                let sld = string_from_range(&s, 0, n - k);
                if validate_label(sld.as_str()).is_ok() {
                    let tld = string_from_range(&s, n - k, n);
                    out.push(HackMatch { sld, tld });
                    assert(out@.map_values(|m: HackMatch| match_view(m)) =~= before + seq![
                        (input@.subrange(0, n - k), input@.subrange(n - k, n as int))]);
                }
            }
            proof {
                let rest = hacks_upto(input@, words, k - 1);
                assert(hacks_upto(input@, words, k as int) == (if hack_at(input@, words, k as int) {
                    seq![(input@.subrange(0, n - k), input@.subrange(n - k, n as int))]
                } else {
                    Seq::<(Seq<char>, Seq<char>)>::empty()
                }) + rest);
                if hack_at(input@, words, k as int) {
                    assert(out@.map_values(|m: HackMatch| match_view(m)) + rest =~= before + hacks_upto(input@, words, k as int));
                } else {
                    assert(out@.map_values(|m: HackMatch| match_view(m)) + rest =~= before + hacks_upto(input@, words, k as int));
                }
            }
            k = k - 1;
        }
        proof {
            assert(hacks_upto(input@, words, 0) =~= Seq::<(Seq<char>, Seq<char>)>::empty());
            assert(out@.map_values(|m: HackMatch| match_view(m)) + hacks_upto(input@, words, 0) =~= out@.map_values(|m: HackMatch| match_view(m)));
        }
        out
    }
}

/// Whether the last `k` characters of `input` form a known TLD and the rest
/// is a non-empty, valid label.
pub open spec fn hack_at(input: Seq<char>, words: Set<Seq<char>>, k: int) -> bool {
    &&& 1 <= k < input.len()
    &&& words.contains(input.subrange(input.len() - k, input.len() as int))
    &&& label_ok(input.subrange(0, input.len() - k))
}

/// The hacks whose TLD is at most `k` characters long, longest TLD first.
pub open spec fn hacks_upto(input: Seq<char>, words: Set<Seq<char>>, k: int) -> Seq<(Seq<char>, Seq<char>)>
    decreases k,
{
    if k < 1 {
        Seq::empty()
    } else {
        let here = if hack_at(input, words, k) {
            seq![(input.subrange(0, input.len() - k), input.subrange(input.len() - k, input.len() as int))]
        } else {
            Seq::empty()
        };
        here + hacks_upto(input, words, k - 1)
    }
}

/// Every split of `input` into a valid label and a known TLD, ordered by
/// the length of the label (so the longest TLD comes first).
pub open spec fn hacks_of(input: Seq<char>, words: Set<Seq<char>>) -> Seq<(Seq<char>, Seq<char>)> {
    hacks_upto(input, words, input.len() - 1)
}

pub open spec fn match_view(m: HackMatch) -> (Seq<char>, Seq<char>) {
    (m.sld@, m.tld@)
}

/// Every domain hack is a split of the input: the label and the TLD put
/// together give the input back, the label is valid, the TLD is known, and
/// the labels grow strictly longer from one hack to the next.
pub proof fn lemma_hacks_are_splits(input: Seq<char>, words: Set<Seq<char>>)
    ensures
        forall|i: int| 0 <= i < hacks_of(input, words).len() ==> {
            let h = #[trigger] hacks_of(input, words)[i];
            &&& h.0 + h.1 == input
            &&& h.0.len() > 0
            &&& label_ok(h.0)
            &&& words.contains(h.1)
        },
        forall|i: int, j: int| 0 <= i < j < hacks_of(input, words).len() ==>
            (#[trigger] hacks_of(input, words)[i]).0.len() < (#[trigger] hacks_of(input, words)[j]).0.len(),
{
    lemma_hacks_upto(input, words, input.len() - 1);
}

proof fn lemma_hacks_upto(input: Seq<char>, words: Set<Seq<char>>, k: int)
    requires
        k < input.len(),
    ensures
        forall|i: int| 0 <= i < hacks_upto(input, words, k).len() ==> {
            let h = #[trigger] hacks_upto(input, words, k)[i];
            &&& h.0 + h.1 == input
            &&& h.0.len() > 0
            &&& input.len() - k <= h.0.len()
            &&& label_ok(h.0)
            &&& words.contains(h.1)
        },
        forall|i: int, j: int| 0 <= i < j < hacks_upto(input, words, k).len() ==>
            (#[trigger] hacks_upto(input, words, k)[i]).0.len() < (#[trigger] hacks_upto(input, words, k)[j]).0.len(),
    decreases k,
{
    if k >= 1 {
        lemma_hacks_upto(input, words, k - 1);
        let rest = hacks_upto(input, words, k - 1);
        let all = hacks_upto(input, words, k);
        if hack_at(input, words, k) {
            let h = (input.subrange(0, input.len() - k), input.subrange(input.len() - k, input.len() as int));
            assert(all == seq![h] + rest);
            assert(h.0 + h.1 =~= input);
            assert forall|i: int| 0 <= i < all.len() implies {
                let g = #[trigger] all[i];
                &&& g.0 + g.1 == input
                &&& g.0.len() > 0
                &&& input.len() - k <= g.0.len()
                &&& label_ok(g.0)
                &&& words.contains(g.1)
            } by {
                if i > 0 {
                    assert(all[i] == rest[i - 1]);
                }
            }
            assert forall|i: int, j: int| 0 <= i < j < all.len() implies
                (#[trigger] all[i]).0.len() < (#[trigger] all[j]).0.len() by {
                assert(all[j] == rest[j - 1]);
                if i > 0 {
                    assert(all[i] == rest[i - 1]);
                }
            }
        } else {
            assert(all =~= rest);
        }
    }
}

/// The split of `input` whose TLD is its last `k` characters.
pub open spec fn split_at(input: Seq<char>, k: int) -> (Seq<char>, Seq<char>) {
    (input.subrange(0, input.len() - k), input.subrange(input.len() - k, input.len() as int))
}

proof fn lemma_hacks_upto_contains(input: Seq<char>, words: Set<Seq<char>>, k: int, h: (Seq<char>, Seq<char>))
    requires
        k < input.len(),
    ensures
        hacks_upto(input, words, k).contains(h)
            <==> exists|j: int| 1 <= j <= k && #[trigger] hack_at(input, words, j) && h == split_at(input, j),
    decreases k,
{
    if k >= 1 {
        lemma_hacks_upto_contains(input, words, k - 1, h);
        let here = if hack_at(input, words, k) { seq![split_at(input, k)] } else { Seq::empty() };
        let rest = hacks_upto(input, words, k - 1);
        let all = hacks_upto(input, words, k);
        assert(all == here + rest);
        if all.contains(h) {
            let i = choose|i: int| 0 <= i < all.len() && all[i] == h;
            if i < here.len() {
                assert(hack_at(input, words, k) && h == split_at(input, k));
            } else {
                assert(rest[i - here.len()] == h);
                assert(rest.contains(h));
            }
        }
        if exists|j: int| 1 <= j <= k && #[trigger] hack_at(input, words, j) && h == split_at(input, j) {
            let j = choose|j: int| 1 <= j <= k && #[trigger] hack_at(input, words, j) && h == split_at(input, j);
            if j == k {
                assert(all[0] == h);
            } else {
                assert(rest.contains(h));
                let i = choose|i: int| 0 <= i < rest.len() && rest[i] == h;
                assert(all[i + here.len()] == h);
            }
        }
    }
}

/// The hacks depend only on which TLDs are known: two TLD lists with the
/// same entries, in any order and with any repeats, give the same hacks.
pub proof fn lemma_tld_order_irrelevant(input: Seq<char>, tlds1: Seq<Seq<char>>, tlds2: Seq<Seq<char>>)
    requires
        tlds1.to_set() == tlds2.to_set(),
    ensures
        hacks_of(input, tlds1.to_set()) == hacks_of(input, tlds2.to_set()),
{
}

/// Adding a TLD `x` adds exactly the hack that ends in `x` (when `input`
/// ends with `x` after a valid, non-empty label) and keeps every other
/// hack; adding it a second time changes nothing.
pub proof fn lemma_insert_adds_hack(input: Seq<char>, words: Set<Seq<char>>, x: Seq<char>, h: (Seq<char>, Seq<char>))
    ensures
        hacks_of(input, words.insert(x)).contains(h) <==> (hacks_of(input, words).contains(h) || (
            1 <= x.len() < input.len() && h == split_at(input, x.len() as int) && h.1 == x && label_ok(h.0))),
        words.insert(x).insert(x) == words.insert(x),
{
    let n = input.len() as int;
    let w2 = words.insert(x);
    lemma_hacks_upto_contains(input, words, n - 1, h);
    lemma_hacks_upto_contains(input, w2, n - 1, h);
    if hacks_of(input, w2).contains(h) {
        let j = choose|j: int| 1 <= j <= n - 1 && #[trigger] hack_at(input, w2, j) && h == split_at(input, j);
        if words.contains(input.subrange(n - j, n)) {
            assert(hack_at(input, words, j));
        } else {
            assert(input.subrange(n - j, n) == x);
            assert(x.len() == j);
        }
    }
    if hacks_of(input, words).contains(h) {
        let j = choose|j: int| 1 <= j <= n - 1 && #[trigger] hack_at(input, words, j) && h == split_at(input, j);
        assert(hack_at(input, w2, j));
    }
    if 1 <= x.len() < input.len() && h == split_at(input, x.len() as int) && h.1 == x && label_ok(h.0) {
        assert(hack_at(input, w2, x.len() as int));
    }
    assert(w2.insert(x) =~= w2);
}

/// Every split of `input` into a known TLD and a label that follows the
/// label rules (1 to 63 characters from `a-z`, `0-9` and `-`, no leading or
/// trailing `-`, no `--` in the third and fourth positions) is a hack,
/// whatever character the label starts with: `9gag` with `ag` known gives
/// `9g.ag`.
pub proof fn lemma_valid_split_is_hack(input: Seq<char>, words: Set<Seq<char>>, k: int)
    requires
        1 <= k < input.len(),
        words.contains(input.subrange(input.len() - k, input.len() as int)),
        input.len() - k <= 63,
        forall|i: int| 0 <= i < input.len() - k ==> is_label_char(#[trigger] input[i]),
        input[0] != '-',
        input[input.len() - k - 1] != '-',
        !(input.len() - k >= 4 && input[2] == '-' && input[3] == '-'),
    ensures
        hacks_of(input, words).contains(split_at(input, k)),
{
    let sld = input.subrange(0, input.len() - k);
    assert forall|i: int| 0 <= i < sld.len() implies is_label_char(#[trigger] sld[i]) by {
        assert(sld[i] == input[i]);
    }
    lemma_label_rules_accept(sld);
    assert(hack_at(input, words, k));
    lemma_hacks_upto_contains(input, words, input.len() - 1, split_at(input, k));
}

} // verus!
