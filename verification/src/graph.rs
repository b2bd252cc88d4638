//! The word graph: a dictionary of words with an edge between every pair of
//! words that are one letter apart, and shortest-path queries over it.
//!
//! Words are stored once in a deduplicated list; edges are stored as lists of
//! word indices. A shortest-path query maps its endpoints to indices, runs
//! the verified breadth-first search, and maps the resulting index path back
//! to words. The contracts are stated over word sequences: a returned path is
//! a valid ladder of minimum possible length, and `None` means no ladder
//! exists at all.

use vstd::prelude::*;

use crate::bfs::{adj_wf, bfs_shortest_path, edge, is_path_between};
use crate::words::{one_letter_apart, str_eq};

verus! {

/// No two entries of the word list hold the same characters.
pub open spec fn no_dup(dict: Seq<Seq<char>>) -> bool {
    forall|i: int, j: int| 0 <= i < j < dict.len() ==> dict[i] != dict[j]
}

/// One step of a word ladder: the words at positions `i` and `i + 1` are
/// dictionary members that are one letter apart.
pub open spec fn ladder_pair(dict: Seq<Seq<char>>, p: Seq<Seq<char>>, i: int) -> bool {
    dict.contains(p[i]) && dict.contains(p[i + 1]) && one_letter_apart(p[i], p[i + 1])
}

/// A word ladder over a dictionary: a non-empty word sequence in which each
/// consecutive pair consists of dictionary members that are one letter apart.
pub open spec fn is_ladder(dict: Seq<Seq<char>>, p: Seq<Seq<char>>) -> bool {
    p.len() >= 1 && forall|i: int| 0 <= i < p.len() - 1 ==> #[trigger] ladder_pair(dict, p, i)
}

/// A word ladder that starts at `s` and ends at `t`.
pub open spec fn is_ladder_between(
    dict: Seq<Seq<char>>,
    p: Seq<Seq<char>>,
    s: Seq<char>,
    t: Seq<char>,
) -> bool {
    is_ladder(dict, p) && p[0] == s && p[p.len() - 1] == t
}

/// The index at which a word appears in the word list.
pub open spec fn index_of(dict: Seq<Seq<char>>, w: Seq<char>) -> int {
    choose|i: int| 0 <= i < dict.len() && dict[i] == w
}

proof fn lemma_index_of(dict: Seq<Seq<char>>, w: Seq<char>)
    requires
        no_dup(dict),
        dict.contains(w),
    ensures
        0 <= index_of(dict, w) < dict.len(),
        dict[index_of(dict, w)] == w,
        forall|i: int| 0 <= i < dict.len() && dict[i] == w ==> i == index_of(dict, w),
{
    let i0 = choose|i: int| 0 <= i < dict.len() && dict[i] == w;
    assert(dict[i0] == w);
}


/// A ladder of at least two words has both endpoints in the dictionary.
proof fn lemma_ladder_endpoints_in_dict(
    dict: Seq<Seq<char>>,
    q: Seq<Seq<char>>,
    s: Seq<char>,
    t: Seq<char>,
)
    requires
        is_ladder_between(dict, q, s, t),
        q.len() >= 2,
    ensures
        dict.contains(s),
        dict.contains(t),
{
    assert(ladder_pair(dict, q, 0));
    assert(ladder_pair(dict, q, q.len() - 2));
}

/// The adjacency of the index structure mirrors the one-letter relation: an
/// edge joins `a` and `b` exactly when the words at those indices are one
/// letter apart, and every neighbor list names each neighbor once.
pub open spec fn adjacency_correct(dict: Seq<Seq<char>>, adjs: Seq<Seq<usize>>) -> bool {
    &&& adjs.len() == dict.len()
    &&& adj_wf(adjs)
    &&& forall|a: int, b: int|
        0 <= a < dict.len() && 0 <= b < dict.len() ==> (edge(adjs, a as usize, b as usize)
            <==> one_letter_apart(dict[a], dict[b]))
    &&& forall|a: int, k1: int, k2: int|
        0 <= a < adjs.len() && 0 <= k1 < k2 < adjs[a].len() ==> adjs[a][k1] != adjs[a][k2]
}

/// Any word ladder between two dictionary words corresponds to an index path
/// of the same length through a correct adjacency structure.
proof fn lemma_ladder_to_index_path(
    dict: Seq<Seq<char>>,
    adjs: Seq<Seq<usize>>,
    q: Seq<Seq<char>>,
    si: usize,
    ti: usize,
)
    requires
        no_dup(dict),
        dict.len() <= usize::MAX,
        adjacency_correct(dict, adjs),
        si < dict.len(),
        ti < dict.len(),
        is_ladder_between(dict, q, dict[si as int], dict[ti as int]),
    ensures
        exists|p: Seq<usize>| is_path_between(adjs, p, si, ti) && p.len() == q.len(),
{
    if q.len() == 1 {
        assert(dict[si as int] == dict[ti as int]);
        lemma_index_of(dict, dict[si as int]);
        assert(si == ti);
        let p = seq![si];
        assert(is_path_between(adjs, p, si, ti));
    } else {
        assert forall|i: int| 0 <= i < q.len() implies dict.contains(#[trigger] q[i]) by {
            if i < q.len() - 1 {
                assert(ladder_pair(dict, q, i));
            } else {
                assert(ladder_pair(dict, q, i - 1));
            }
        }
        let p = Seq::new(q.len(), |i: int| index_of(dict, q[i]) as usize);
        assert forall|i: int| 0 <= i < p.len() implies (#[trigger] p[i]) < dict.len() && dict[p[i] as int]
            == q[i] by {
            lemma_index_of(dict, q[i]);
        }
        assert forall|i: int| 0 <= i < p.len() - 1 implies edge(adjs, #[trigger] p[i], p[i + 1]) by {
            assert(ladder_pair(dict, q, i));
            assert(one_letter_apart(dict[p[i] as int], dict[p[i + 1] as int]));
        }
        assert(q[0] == dict[si as int]);
        lemma_index_of(dict, dict[si as int]);
        lemma_index_of(dict, dict[ti as int]);
        assert(p[0] == si);
        assert(p[p.len() - 1] == ti);
        assert(is_path_between(adjs, p, si, ti));
    }
}

/// A graph over a dictionary of words whose edges join words that are one
/// letter apart, together with a curated set of base words used as puzzle
/// endpoints.
#[derive(Debug, Clone)]
pub struct WordGraph {
    /// Deduplicated dictionary words; vertex `i` of the graph is `words[i]`.
    words: Vec<String>,
    /// Deduplicated base words, eligible as puzzle endpoints.
    base_words: Vec<String>,
    /// Adjacency list: `adj[i]` holds the indices of the neighbors of word `i`.
    adj: Vec<Vec<usize>>,
}

impl WordGraph {
    /// The dictionary as a sequence of character sequences.
    pub closed spec fn dict(&self) -> Seq<Seq<char>> {
        self.words.deep_view()
    }

    /// The base words as a sequence of character sequences.
    pub closed spec fn base(&self) -> Seq<Seq<char>> {
        self.base_words.deep_view()
    }

    /// Well-formedness: both word lists are deduplicated and the adjacency
    /// structure mirrors the one-letter relation over the dictionary.
    pub closed spec fn wf(&self) -> bool {
        &&& no_dup(self.dict())
        &&& no_dup(self.base())
        &&& adjacency_correct(self.dict(), self.adj.deep_view())
    }

    /// Two words are joined in the adjacency structure.
    pub closed spec fn adjacent(&self, a: Seq<char>, b: Seq<char>) -> bool {
        exists|i: int, j: int|
            0 <= i < self.dict().len() && 0 <= j < self.dict().len() && self.dict()[i] == a
                && self.dict()[j] == b && edge(self.adj.deep_view(), i as usize, j as usize)
    }

    /// Adjacency correctness: two words are neighbors in the adjacency
    /// structure exactly when both belong to the dictionary and they have
    /// equal length and differ in exactly one character position.
    pub proof fn lemma_adjacency_correct(&self)
        requires
            self.wf(),
        ensures
            forall|a: Seq<char>, b: Seq<char>|
                self.adjacent(a, b) <==> (self.dict().contains(a) && self.dict().contains(b)
                    && one_letter_apart(a, b)),
    {
        assert forall|a: Seq<char>, b: Seq<char>|
            self.adjacent(a, b) <==> (self.dict().contains(a) && self.dict().contains(b)
                && one_letter_apart(a, b)) by {
            if self.adjacent(a, b) {
                let (i, j) = choose|i: int, j: int|
                    0 <= i < self.dict().len() && 0 <= j < self.dict().len() && self.dict()[i] == a
                        && self.dict()[j] == b && edge(self.adj.deep_view(), i as usize, j as usize);
                assert(one_letter_apart(self.dict()[i], self.dict()[j]));
            }
            if self.dict().contains(a) && self.dict().contains(b) && one_letter_apart(a, b) {
                let i = choose|i: int| 0 <= i < self.dict().len() && self.dict()[i] == a;
                let j = choose|j: int| 0 <= j < self.dict().len() && self.dict()[j] == b;
                assert(edge(self.adj.deep_view(), i as usize, j as usize));
                assert(self.adjacent(a, b));
            }
        }
    }

    /// A well-formed graph keeps both of its word lists deduplicated.
    pub proof fn lemma_wf_no_dup(&self)
        requires
            self.wf(),
        ensures
            no_dup(self.dict()),
            no_dup(self.base()),
    {
    }

    /// Creates an empty word graph.
    pub fn new() -> (r: Self)
        ensures
            r.wf(),
            r.dict().len() == 0,
            r.base().len() == 0,
    {
        let r = Self { words: Vec::new(), base_words: Vec::new(), adj: Vec::new() };
        proof {
            assert(r.dict() =~= Seq::<Seq<char>>::empty());
            assert(r.base() =~= Seq::<Seq<char>>::empty());
            assert(r.adj.deep_view() =~= Seq::<Seq<usize>>::empty());
        }
        r
    }

    /// Replaces the dictionary with the given words, deduplicated, and
    /// rebuilds the whole adjacency structure. The base words are untouched.
    pub fn load_dictionary(&mut self, entries: Vec<String>)
        requires
            old(self).wf(),
        ensures
            final(self).wf(),
            final(self).base() == old(self).base(),
            forall|w: Seq<char>|
                final(self).dict().contains(w) <==> entries.deep_view().contains(w),
    {
        let unique = dedup_words(&entries);
        let adj = build_adjacency(&unique);
        self.words = unique;
        self.adj = adj;
    }

    /// Replaces the base words with the given words, deduplicated. The
    /// dictionary and its adjacency structure are untouched.
    pub fn load_base_words(&mut self, entries: Vec<String>)
        requires
            old(self).wf(),
        ensures
            final(self).wf(),
            final(self).dict() == old(self).dict(),
            forall|w: Seq<char>|
                final(self).base().contains(w) <==> entries.deep_view().contains(w),
    {
        let unique = dedup_words(&entries);
        self.base_words = unique;
    }

    /// The deduplicated dictionary words.
    pub fn get_words(&self) -> (r: &Vec<String>)
        ensures
            r.deep_view() == self.dict(),
    {
        &self.words
    }

    /// The deduplicated base words.
    pub fn get_base_words(&self) -> (r: &Vec<String>)
        ensures
            r.deep_view() == self.base(),
    {
        &self.base_words
    }

    /// Finds a shortest word ladder from `start` to `end`.
    ///
    /// Returns a ladder of minimum possible length whenever any ladder
    /// between the two words exists, and `None` exactly when none does. When
    /// `start` and `end` are equal the single-word ladder is returned without
    /// a search.
    pub fn find_shortest_path(&self, start: &str, end: &str) -> (r: Option<Vec<String>>)
        requires
            self.wf(),
        ensures
            match r {
                Some(p) => is_ladder_between(self.dict(), p.deep_view(), start@, end@) && forall|
                    q: Seq<Seq<char>>,
                |
                    is_ladder_between(self.dict(), q, start@, end@) ==> p@.len() <= q.len(),
                None => forall|q: Seq<Seq<char>>|
                    !is_ladder_between(self.dict(), q, start@, end@),
            },
    {
        if str_eq(start, end) {
            let mut p: Vec<String> = Vec::new();
            p.push(start.to_owned());
            proof {
                assert(p.deep_view() =~= seq![start@]);
                assert(is_ladder_between(self.dict(), p.deep_view(), start@, end@));
                assert(forall|q: Seq<Seq<char>>|
                    is_ladder_between(self.dict(), q, start@, end@) ==> p@.len() <= q.len());
            }
            return Some(p);
        }
        let si_opt = index_of_word(&self.words, start);
        let ei_opt = index_of_word(&self.words, end);
        let (si, ei) = match (si_opt, ei_opt) {
            (Some(si), Some(ei)) => (si, ei),
            _ => {
                proof {
                    // any ladder between the two distinct words would put both
                    // in the dictionary, but one of them is absent
                    assert forall|q: Seq<Seq<char>>|
                        !is_ladder_between(self.dict(), q, start@, end@) by {
                        if is_ladder_between(self.dict(), q, start@, end@) {
                            let dict = self.dict();
                            assert(q.len() >= 2);
                            lemma_ladder_endpoints_in_dict(dict, q, start@, end@);
                            let i = choose|i: int| 0 <= i < dict.len() && dict[i] == start@;
                            let j = choose|j: int| 0 <= j < dict.len() && dict[j] == end@;
                            assert(self.words@[i]@ == start@);
                            assert(self.words@[j]@ == end@);
                        }
                    }
                }
                return None;
            },
        };
        proof {
            assert(self.dict()[si as int] == start@);
            assert(self.dict()[ei as int] == end@);
            assert(si != ei);
        }
        let n_words = self.words.len();
        match bfs_shortest_path(&self.adj, si, ei) {
            Some(ip) => {
                let ghost adjs = self.adj.deep_view();
                let ghost dict = self.dict();
                proof {
                    assert(is_path_between(adjs, ip@, si, ei));
                    assert forall|m: int| 0 <= m < ip@.len() implies (#[trigger] ip@[m])
                        < dict.len() by {
                        if m == 0 {
                            assert(ip@[0] == si);
                        } else {
                            assert(edge(adjs, ip@[m - 1], ip@[m]));
                        }
                    }
                }
                let out = indices_to_words(&self.words, &ip);
                proof {
                    let ov = out.deep_view();
                    assert(ov.len() == ip@.len());
                    assert(ov[0] == dict[ip@[0] as int]);
                    assert(ov[ov.len() - 1] == dict[ip@[ip@.len() - 1] as int]);
                    assert forall|m: int|
                        0 <= m < ov.len() - 1 implies #[trigger] ladder_pair(dict, ov, m) by {
                        assert(edge(adjs, ip@[m], ip@[m + 1]));
                        assert(one_letter_apart(dict[ip@[m] as int], dict[ip@[m + 1] as int]));
                        assert(dict[ip@[m] as int] == ov[m]);
                        assert(dict[ip@[m + 1] as int] == ov[m + 1]);
                    }
                    assert(is_ladder_between(dict, ov, start@, end@));
                    assert forall|q: Seq<Seq<char>>|
                        is_ladder_between(dict, q, start@, end@) implies out@.len() <= q.len() by {
                        lemma_ladder_to_index_path(dict, adjs, q, si, ei);
                        let p = choose|p: Seq<usize>|
                            is_path_between(adjs, p, si, ei) && p.len() == q.len();
                        assert(ip@.len() <= p.len());
                    }
                }
                Some(out)
            },
            None => {
                proof {
                    assert forall|q: Seq<Seq<char>>|
                        !is_ladder_between(self.dict(), q, start@, end@) by {
                        if is_ladder_between(self.dict(), q, start@, end@) {
                            lemma_ladder_to_index_path(
                                self.dict(),
                                self.adj.deep_view(),
                                q,
                                si,
                                ei,
                            );
                        }
                    }
                }
                None
            },
        }
    }
}

/// Maps an index path back to the words it names.
fn indices_to_words(words: &Vec<String>, ip: &Vec<usize>) -> (out: Vec<String>)
    requires
        forall|m: int| 0 <= m < ip@.len() ==> (#[trigger] ip@[m]) < words@.len(),
    ensures
        out@.len() == ip@.len(),
        forall|m: int|
            0 <= m < ip@.len() ==> #[trigger] out.deep_view()[m] == words.deep_view()[ip@[m] as int],
{
    let ip_len = ip.len();
    let mut out: Vec<String> = Vec::new();
    let mut k: usize = 0;
    while k < ip_len
        invariant
            ip_len == ip@.len(),
            k <= ip_len,
            forall|m: int| 0 <= m < ip@.len() ==> (#[trigger] ip@[m]) < words@.len(),
            out@.len() == k as int,
            forall|m: int|
                0 <= m < k ==> #[trigger] out.deep_view()[m] == words.deep_view()[ip@[m] as int],
        decreases ip_len - k,
    {
        let ghost pre = out.deep_view();
        let idx = ip[k];
        out.push(words[idx].clone());
        proof {
            assert(out.deep_view() =~= pre.push(words.deep_view()[idx as int]));
        }
        k += 1;
    }
    out
}

impl Default for WordGraph {
    /// The default word graph is the empty one.
    fn default() -> (r: Self)
        ensures
            r.wf(),
            r.dict().len() == 0,
            r.base().len() == 0,
    {
        Self::new()
    }
}

/// Finds the index of a word in a word list by linear scan.
fn index_of_word(words: &Vec<String>, w: &str) -> (r: Option<usize>)
    ensures
        match r {
            Some(i) => i < words@.len() && words@[i as int]@ == w@,
            None => forall|i: int| 0 <= i < words@.len() ==> words@[i]@ != w@,
        },
{
    let n = words.len();
    let mut i: usize = 0;
    while i < n
        invariant
            i <= n,
            n == words@.len(),
            forall|k: int| 0 <= k < i ==> words@[k]@ != w@,
        decreases n - i,
    {
        if str_eq(words[i].as_str(), w) {
            return Some(i);
        }
        i += 1;
    }
    None
}

/// Returns true exactly when the word list holds a word with the given characters.
pub fn vec_contains_word(words: &Vec<String>, w: &str) -> (r: bool)
    ensures
        r == words.deep_view().contains(w@),
{
    let r = index_of_word(words, w);
    proof {
        match r {
            Some(i) => {
                assert(words.deep_view()[i as int] == w@);
            },
            None => {
                if words.deep_view().contains(w@) {
                    let i = choose|i: int|
                        0 <= i < words.deep_view().len() && words.deep_view()[i] == w@;
                    assert(words@[i]@ == w@);
                }
            },
        }
    }
    r.is_some()
}

/// Copies a word list, keeping only the first occurrence of each word.
fn dedup_words(entries: &Vec<String>) -> (r: Vec<String>)
    ensures
        no_dup(r.deep_view()),
        forall|w: Seq<char>| r.deep_view().contains(w) <==> entries.deep_view().contains(w),
{
    let n = entries.len();
    let mut unique: Vec<String> = Vec::new();
    let mut i: usize = 0;
    while i < n
        invariant
            i <= n,
            n == entries@.len(),
            no_dup(unique.deep_view()),
            forall|w: Seq<char>|
                unique.deep_view().contains(w) ==> entries.deep_view().contains(w),
            forall|k: int| 0 <= k < i ==> unique.deep_view().contains(#[trigger] entries.deep_view()[k]),
        decreases n - i,
    {
        let ghost pre = unique.deep_view();
        proof {
            assert(entries.deep_view()[i as int] == entries@[i as int]@);
        }
        if !vec_contains_word(&unique, entries[i].as_str()) {
            unique.push(entries[i].clone());
            proof {
                assert(unique.deep_view() =~= pre.push(entries.deep_view()[i as int]));
                assert(unique.deep_view()[unique.deep_view().len() - 1] == entries.deep_view()[i as int]);
                assert forall|w: Seq<char>|
                    unique.deep_view().contains(w) implies entries.deep_view().contains(w) by {
                    let k = choose|k: int|
                        0 <= k < unique.deep_view().len() && unique.deep_view()[k] == w;
                    if k < pre.len() {
                        assert(pre[k] == w);
                        assert(pre.contains(w));
                    } else {
                        assert(w == entries.deep_view()[i as int]);
                    }
                }
                assert forall|a: int, b: int|
                    0 <= a < b < unique.deep_view().len() implies unique.deep_view()[a]
                    != unique.deep_view()[b] by {
                    if b == unique.deep_view().len() - 1 {
                        assert(pre[a] == unique.deep_view()[a]);
                        assert(pre.contains(unique.deep_view()[a]));
                    }
                }
            }
        }
        proof {
            assert(unique.deep_view().contains(entries.deep_view()[i as int])) by {
                if pre.contains(entries.deep_view()[i as int]) {
                    let m = choose|m: int|
                        0 <= m < pre.len() && pre[m] == entries.deep_view()[i as int];
                    assert(unique.deep_view()[m] == entries.deep_view()[i as int]);
                } else {
                    assert(unique.deep_view()[unique.deep_view().len() - 1] == entries.deep_view()[i as int]);
                }
            }
            assert forall|k: int|
                0 <= k < i + 1 implies unique.deep_view().contains(
                #[trigger] entries.deep_view()[k],
            ) by {
                if k < i {
                    let m = choose|m: int|
                        0 <= m < pre.len() && pre[m] == entries.deep_view()[k];
                    assert(unique.deep_view()[m] == entries.deep_view()[k]);
                }
            }
        }
        i += 1;
    }
    proof {
        assert forall|w: Seq<char>|
            entries.deep_view().contains(w) implies unique.deep_view().contains(w) by {
            let k = choose|k: int|
                0 <= k < entries.deep_view().len() && entries.deep_view()[k] == w;
            assert(unique.deep_view().contains(entries.deep_view()[k]));
        }
    }
    unique
}

/// Lists the neighbors of word `a`: the indices of every word in the list
/// that is one letter apart from it, in increasing order, each once.
fn neighbor_row(words: &Vec<String>, a: usize) -> (row: Vec<usize>)
    requires
        a < words@.len(),
    ensures
        forall|k: int|
            0 <= k < row@.len() ==> (#[trigger] row@[k]) < words@.len() && one_letter_apart(
                words.deep_view()[a as int],
                words.deep_view()[row@[k] as int],
            ),
        forall|b: int|
            0 <= b < words@.len() && one_letter_apart(
                words.deep_view()[a as int],
                words.deep_view()[b],
            ) ==> row@.contains(b as usize),
        forall|k1: int, k2: int| 0 <= k1 < k2 < row@.len() ==> row@[k1] < row@[k2],
{
    let n = words.len();
    let mut row: Vec<usize> = Vec::new();
    let mut b: usize = 0;
    while b < n
        invariant
            b <= n,
            n == words@.len(),
            a < n,
            forall|k: int|
                0 <= k < row@.len() ==> (#[trigger] row@[k]) < n && one_letter_apart(
                    words.deep_view()[a as int],
                    words.deep_view()[row@[k] as int],
                ),
            forall|x: int|
                0 <= x < b && one_letter_apart(
                    words.deep_view()[a as int],
                    words.deep_view()[x],
                ) ==> row@.contains(x as usize),
            forall|k: int| 0 <= k < row@.len() ==> (#[trigger] row@[k]) < b,
            forall|k1: int, k2: int| 0 <= k1 < k2 < row@.len() ==> row@[k1] < row@[k2],
        decreases n - b,
    {
        let ghost pre = row@;
        if crate::words::are_neighbors_chars(words[a].as_str(), words[b].as_str()) {
            row.push(b);
        }
        proof {
            assert forall|x: int|
                0 <= x < b + 1 && one_letter_apart(
                    words.deep_view()[a as int],
                    words.deep_view()[x],
                ) implies row@.contains(x as usize) by {
                if x < b {
                    let m = choose|m: int| 0 <= m < pre.len() && pre[m] == x as usize;
                    assert(row@[m] == x as usize);
                } else {
                    assert(row@[row@.len() - 1] == x as usize);
                }
            }
        }
        b += 1;
    }
    row
}

/// Builds the full adjacency structure over a word list.
fn build_adjacency(words: &Vec<String>) -> (adj: Vec<Vec<usize>>)
    ensures
        adjacency_correct(words.deep_view(), adj.deep_view()),
{
    let n = words.len();
    let mut adj: Vec<Vec<usize>> = Vec::new();
    let mut a: usize = 0;
    while a < n
        invariant
            a <= n,
            n == words@.len(),
            adj@.len() == a as int,
            forall|i: int, k: int|
                0 <= i < a && 0 <= k < adj.deep_view()[i].len() ==> (#[trigger] adj.deep_view()[i][k])
                    < n && one_letter_apart(
                    words.deep_view()[i],
                    words.deep_view()[adj.deep_view()[i][k] as int],
                ),
            forall|i: int, b: int|
                0 <= i < a && 0 <= b < n && one_letter_apart(
                    words.deep_view()[i],
                    words.deep_view()[b],
                ) ==> adj.deep_view()[i].contains(b as usize),
            forall|i: int, k1: int, k2: int|
                #![trigger adj.deep_view()[i][k1], adj.deep_view()[i][k2]]
                0 <= i < a && 0 <= k1 < k2 < adj.deep_view()[i].len() ==> adj.deep_view()[i][k1]
                    != adj.deep_view()[i][k2],
        decreases n - a,
    {
        let ghost pre = adj.deep_view();
        let row = neighbor_row(words, a);
        adj.push(row);
        proof {
            assert(row.deep_view() =~= row@);
            assert(adj.deep_view() =~~= pre.push(row@));
        }
        a += 1;
    }
    proof {
        let dict = words.deep_view();
        let adjs = adj.deep_view();
        assert(adjs.len() == dict.len());
        assert forall|x: int, y: int|
            0 <= x < dict.len() && 0 <= y < dict.len() implies (edge(adjs, x as usize, y as usize)
            <==> one_letter_apart(dict[x], dict[y])) by {
            if edge(adjs, x as usize, y as usize) {
                let k = choose|k: int| 0 <= k < adjs[x].len() && adjs[x][k] == y as usize;
                assert(one_letter_apart(dict[x], dict[adjs[x][k] as int]));
            }
            if one_letter_apart(dict[x], dict[y]) {
                assert(adjs[x].contains(y as usize));
            }
        }
    }
    adj
}

} // verus!
