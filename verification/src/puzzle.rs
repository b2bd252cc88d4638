//! Puzzle generation and validation.
//!
//! A puzzle is a word ladder with a difficulty tier derived purely from its
//! step count. The generator wraps a word graph: it turns endpoint pairs into
//! classified puzzles, samples random endpoint pairs from the base words, and
//! checks externally supplied solutions by direct character comparison,
//! independent of dictionary membership.

use vstd::prelude::*;

use crate::graph::{is_ladder_between, no_dup, vec_contains_word, WordGraph};
use crate::random::rand_below;
use crate::words::{
    are_neighbors_chars, lower_of, one_letter_apart, split_commas, to_lowercase, trim_exec,
    trim_spec,
};

verus! {

/// The difficulty tier of a puzzle, a pure function of its step count:
/// 3 or 4 steps are easy, 5 to 7 steps are medium, everything else is hard.
#[derive(Debug, Clone, Copy, PartialEq, Eq, Structural)]
pub enum Difficulty {
    /// 3 or 4 word changes.
    Easy,
    /// 5 to 7 word changes.
    Medium,
    /// 8 or more word changes; fewer than 3 falls here as well.
    Hard,
}

/// The difficulty tier for a given number of steps.
pub open spec fn classify(steps: nat) -> Difficulty {
    if 3 <= steps <= 4 {
        Difficulty::Easy
    } else if 5 <= steps <= 7 {
        Difficulty::Medium
    } else {
        Difficulty::Hard
    }
}

/// Classifies a step count into its difficulty tier.
pub fn classify_steps(steps: usize) -> (d: Difficulty)
    ensures
        d == classify(steps as nat),
{
    if 3 <= steps && steps <= 4 {
        Difficulty::Easy
    } else if 5 <= steps && steps <= 7 {
        Difficulty::Medium
    } else {
        Difficulty::Hard
    }
}

/// The mathematical value of a puzzle: its endpoints and path as character
/// sequences, and its difficulty.
pub ghost struct PuzzleView {
    pub start: Seq<char>,
    pub end: Seq<char>,
    pub path: Seq<Seq<char>>,
    pub difficulty: Difficulty,
}

/// A word ladder puzzle: start word, end word, the full path between them,
/// and the difficulty derived from the path's step count.
#[derive(Debug)]
pub struct Puzzle {
    /// The starting word.
    pub start: String,
    /// The ending word.
    pub end: String,
    /// The complete path from start to end, both included.
    pub path: Vec<String>,
    /// The difficulty tier derived from the number of steps in the path.
    pub difficulty: Difficulty,
}

impl View for Puzzle {
    type V = PuzzleView;

    open spec fn view(&self) -> PuzzleView {
        PuzzleView {
            start: self.start@,
            end: self.end@,
            path: self.path.deep_view(),
            difficulty: self.difficulty,
        }
    }
}

impl Clone for Puzzle {
    /// Clones the puzzle; the copy has the same mathematical value.
    fn clone(&self) -> (r: Self)
        ensures
            r@ == self@,
    {
        let r = Puzzle {
            start: self.start.clone(),
            end: self.end.clone(),
            path: clone_string_vec(&self.path),
            difficulty: self.difficulty,
        };
        proof {
            assert(r@.path =~~= self@.path);
        }
        r
    }
}

/// Copies a vector of strings element by element.
fn clone_string_vec(v: &Vec<String>) -> (r: Vec<String>)
    ensures
        r@ =~= v@,
{
    let n = v.len();
    let mut r: Vec<String> = Vec::new();
    let mut i: usize = 0;
    while i < n
        invariant
            i <= n,
            n == v@.len(),
            r@.len() == i as int,
            forall|k: int| 0 <= k < i ==> r@[k] == v@[k],
        decreases n - i,
    {
        r.push(v[i].clone());
        i += 1;
    }
    r
}

/// A well-formed generated puzzle over a dictionary: the path is a ladder
/// from start to end of minimum possible length, and the difficulty is the
/// classification of its step count.
pub open spec fn puzzle_wf(dict: Seq<Seq<char>>, pz: PuzzleView) -> bool {
    &&& pz.path.len() >= 1
    &&& pz.path[0] == pz.start
    &&& pz.path[pz.path.len() - 1] == pz.end
    &&& is_ladder_between(dict, pz.path, pz.start, pz.end)
    &&& (forall|q: Seq<Seq<char>>|
        is_ladder_between(dict, q, pz.start, pz.end) ==> pz.path.len() <= q.len())
    &&& pz.difficulty == classify((pz.path.len() - 1) as nat)
}

impl Puzzle {
    /// Creates a puzzle from its endpoints and path; the difficulty is
    /// derived from the path's step count.
    pub fn new(start: String, end: String, path: Vec<String>) -> (r: Puzzle)
        requires
            path@.len() >= 1,
        ensures
            r@.start == start@,
            r@.end == end@,
            r@.path == path.deep_view(),
            r@.difficulty == classify((path@.len() - 1) as nat),
    {
        let steps = path.len() - 1;
        let difficulty = classify_steps(steps);
        Puzzle { start, end, path, difficulty }
    }
}

/// The tokens of a verification string: the comma-separated pieces, each
/// trimmed of surrounding white space and lowercased.
pub open spec fn parse_tokens(s: Seq<char>) -> Seq<Seq<char>> {
    split_commas(s).map_values(|t: Seq<char>| lower_of(trim_spec(t)))
}

/// A word sequence has ladder shape when each consecutive pair of words is
/// one letter apart; dictionary membership plays no role here.
pub open spec fn is_ladder_shape(ws: Seq<Seq<char>>) -> bool {
    forall|i: int| 0 <= i < ws.len() - 1 ==> one_letter_apart(#[trigger] ws[i], ws[i + 1])
}

/// Verification agrees with graph construction: a two-word sequence has
/// ladder shape exactly when the pair satisfies the one-letter-substitution
/// relation that adjacency is built from.
pub proof fn lemma_verification_symmetry(w1: Seq<char>, w2: Seq<char>)
    ensures
        is_ladder_shape(seq![w1, w2]) <==> one_letter_apart(w1, w2),
{
    let ws = seq![w1, w2];
    assert(ws[0] == w1 && ws[1] == w2);
    if one_letter_apart(w1, w2) {
        assert forall|i: int| 0 <= i < ws.len() - 1 implies one_letter_apart(
            #[trigger] ws[i],
            ws[i + 1],
        ) by {
            assert(i == 0);
        }
    }
}

/// The number of sampling attempts batch generation spends per requested
/// puzzle before giving up on the quota. The retry loop is bounded on
/// purpose: an unreachable difficulty tier ends in a short batch instead of
/// a search that never returns.
pub const BATCH_ATTEMPTS_PER_PUZZLE: u64 = 100;

/// Words of one shared length, eligible as puzzle endpoints.
struct LengthBucket {
    /// The character length of every word in this bucket.
    word_len: usize,
    /// The eligible words of that length.
    words: Vec<String>,
}

/// Returns true exactly when the vector holds the given value.
fn vec_contains_usize(v: &Vec<usize>, x: usize) -> (r: bool)
    ensures
        r == v@.contains(x),
{
    let n = v.len();
    let mut i: usize = 0;
    while i < n
        invariant
            i <= n,
            n == v@.len(),
            forall|k: int| 0 <= k < i ==> v@[k] != x,
        decreases n - i,
    {
        if v[i] == x {
            return true;
        }
        i += 1;
    }
    proof {
        if v@.contains(x) {
            let k = choose|k: int| 0 <= k < v@.len() && v@[k] == x;
        }
    }
    false
}

/// Generator for word ladder puzzles over a built word graph.
pub struct PuzzleGenerator {
    /// The word graph holding the dictionary, base words and adjacency.
    graph: WordGraph,
}

impl PuzzleGenerator {
    /// The generator's dictionary.
    pub closed spec fn dict(&self) -> Seq<Seq<char>> {
        self.graph.dict()
    }

    /// The generator's base words.
    pub closed spec fn base(&self) -> Seq<Seq<char>> {
        self.graph.base()
    }

    /// Well-formedness of the wrapped graph.
    pub closed spec fn wf(&self) -> bool {
        self.graph.wf()
    }

    /// A word eligible as a puzzle endpoint: a base word that also belongs
    /// to the dictionary.
    pub open spec fn is_valid_base(&self, w: Seq<char>) -> bool {
        self.base().contains(w) && self.dict().contains(w)
    }

    /// There are two distinct eligible endpoint words.
    pub open spec fn has_two_valid_base_words(&self) -> bool {
        exists|w1: Seq<char>, w2: Seq<char>|
            self.is_valid_base(w1) && self.is_valid_base(w2) && w1 != w2
    }

    /// There are two distinct eligible endpoint words of equal length, which
    /// is what sampling an endpoint pair needs.
    pub open spec fn has_samplable_pair(&self) -> bool {
        exists|w1: Seq<char>, w2: Seq<char>|
            self.is_valid_base(w1) && self.is_valid_base(w2) && w1 != w2 && w1.len() == w2.len()
    }

    /// Creates a generator around a built word graph.
    pub fn new(graph: WordGraph) -> (r: Self)
        requires
            graph.wf(),
        ensures
            r.wf(),
            r.dict() == graph.dict(),
            r.base() == graph.base(),
    {
        Self { graph }
    }

    /// Generates the puzzle between two endpoints: the shortest ladder, with
    /// its difficulty, or nothing when no ladder connects them.
    pub fn generate_puzzle(&self, start: &str, end: &str) -> (r: Option<Puzzle>)
        requires
            self.wf(),
        ensures
            match r {
                Some(pz) => pz@.start == start@ && pz@.end == end@ && puzzle_wf(self.dict(), pz@),
                None => forall|q: Seq<Seq<char>>|
                    !is_ladder_between(self.dict(), q, start@, end@),
            },
    {
        match self.graph.find_shortest_path(start, end) {
            Some(path) => {
                let pz = Puzzle::new(start.to_owned(), end.to_owned(), path);
                Some(pz)
            },
            None => None,
        }
    }

    /// Checks whether a puzzle matches a target difficulty tier.
    pub fn matches_difficulty(&self, puzzle: &Puzzle, target: &Difficulty) -> (r: bool)
        ensures
            r == (puzzle@.difficulty == *target),
    {
        puzzle.difficulty == *target
    }

    /// Checks whether two words differ in exactly one character position and
    /// have equal length, by direct character comparison.
    fn are_neighbors(&self, word1: &str, word2: &str) -> (r: bool)
        ensures
            r == one_letter_apart(word1@, word2@),
    {
        are_neighbors_chars(word1, word2)
    }

    /// Verifies an externally supplied solution: splits the input on commas,
    /// trims and lowercases each token, and checks that every consecutive
    /// pair of tokens is one letter apart. Fewer than two tokens is a
    /// malformed input, not an invalid puzzle.
    pub fn verify_puzzle(&self, puzzle_str: &str) -> (r: Result<bool, String>)
        ensures
            match r {
                Ok(b) => parse_tokens(puzzle_str@).len() >= 2 && b == is_ladder_shape(
                    parse_tokens(puzzle_str@),
                ),
                Err(m) => parse_tokens(puzzle_str@).len() < 2 && m@
                    == "Puzzle must have at least 2 words"@,
            },
    {
        let raw = crate::words::split_commas_exec(puzzle_str);
        let raw_len = raw.len();
        let mut ws: Vec<String> = Vec::new();
        let mut i: usize = 0;
        while i < raw_len
            invariant
                i <= raw_len,
                raw_len == raw@.len(),
                raw.deep_view() == split_commas(puzzle_str@),
                ws@.len() == i as int,
                forall|k: int|
                    0 <= k < i ==> #[trigger] ws.deep_view()[k] == lower_of(
                        trim_spec(raw.deep_view()[k]),
                    ),
            decreases raw_len - i,
        {
            let ghost pre = ws.deep_view();
            let trimmed = trim_exec(raw[i].as_str());
            let lowered = to_lowercase(trimmed.as_str());
            ws.push(lowered);
            proof {
                assert(ws.deep_view() =~= pre.push(lower_of(trim_spec(raw.deep_view()[i as int]))));
            }
            i += 1;
        }
        let ghost tokens = parse_tokens(puzzle_str@);
        proof {
            assert(ws.deep_view() =~= tokens);
        }
        let n = ws.len();
        if n < 2 {
            return Err(String::from_str("Puzzle must have at least 2 words"));
        }
        let mut k: usize = 0;
        while k + 1 < n
            invariant
                k + 1 <= n,
                n == ws@.len(),
                n >= 2,
                tokens == parse_tokens(puzzle_str@),
                ws.deep_view() == tokens,
                forall|m: int| 0 <= m < k ==> one_letter_apart(#[trigger] tokens[m], tokens[m + 1]),
            decreases n - k,
        {
            if !self.are_neighbors(ws[k].as_str(), ws[k + 1].as_str()) {
                proof {
                    assert(ws.deep_view()[k as int] == ws@[k as int]@);
                    assert(ws.deep_view()[k + 1] == ws@[k + 1]@);
                    assert(!one_letter_apart(tokens[k as int], tokens[k + 1]));
                    assert(!is_ladder_shape(tokens));
                }
                return Ok(false);
            }
            k += 1;
        }
        proof {
            assert(is_ladder_shape(tokens));
        }
        Ok(true)
    }

    /// Collects the base words that also belong to the dictionary, in base
    /// word order.
    fn collect_valid_base_words(&self) -> (r: Vec<String>)
        requires
            self.wf(),
        ensures
            no_dup(r.deep_view()),
            forall|w: Seq<char>| r.deep_view().contains(w) <==> self.is_valid_base(w),
    {
        let base_vec = self.graph.get_base_words();
        let words_vec = self.graph.get_words();
        let n = base_vec.len();
        let mut valid: Vec<String> = Vec::new();
        let ghost mut src: Seq<int> = Seq::empty();
        let mut i: usize = 0;
        while i < n
            invariant
                self.wf(),
                i <= n,
                n == base_vec@.len(),
                base_vec.deep_view() == self.base(),
                words_vec.deep_view() == self.dict(),
                src.len() == valid.deep_view().len(),
                forall|m: int| 0 <= m < src.len() ==> 0 <= #[trigger] src[m] < i,
                forall|m1: int, m2: int| 0 <= m1 < m2 < src.len() ==> src[m1] < src[m2],
                forall|m: int|
                    0 <= m < src.len() ==> #[trigger] valid.deep_view()[m] == self.base()[src[m]]
                        && self.dict().contains(valid.deep_view()[m]),
                forall|k: int|
                    0 <= k < i && self.dict().contains(#[trigger] self.base()[k])
                        ==> valid.deep_view().contains(self.base()[k]),
            decreases n - i,
        {
            let ghost pre = valid.deep_view();
            if vec_contains_word(words_vec, base_vec[i].as_str()) {
                valid.push(base_vec[i].clone());
                proof {
                    src = src.push(i as int);
                    assert(valid.deep_view() =~= pre.push(self.base()[i as int]));
                }
            }
            proof {
                assert forall|k: int|
                    0 <= k < i + 1 && self.dict().contains(#[trigger] self.base()[k])
                        implies valid.deep_view().contains(self.base()[k]) by {
                    if k < i {
                        let m = choose|m: int| 0 <= m < pre.len() && pre[m] == self.base()[k];
                        assert(valid.deep_view()[m] == self.base()[k]);
                    } else {
                        assert(valid.deep_view()[valid.deep_view().len() - 1] == self.base()[k]);
                    }
                }
            }
            i += 1;
        }
        proof {
            self.graph.lemma_wf_no_dup();
            let vd = valid.deep_view();
            assert(no_dup(vd)) by {
                assert forall|m1: int, m2: int| 0 <= m1 < m2 < vd.len() implies vd[m1] != vd[m2] by {
                    assert(vd[m1] == self.base()[src[m1]]);
                    assert(vd[m2] == self.base()[src[m2]]);
                    assert(src[m1] < src[m2]);
                }
            }
            assert forall|w: Seq<char>| vd.contains(w) implies self.is_valid_base(w) by {
                let m = choose|m: int| 0 <= m < vd.len() && vd[m] == w;
                assert(vd[m] == self.base()[src[m]]);
            }
            assert forall|w: Seq<char>| self.is_valid_base(w) implies vd.contains(w) by {
                let k = choose|k: int| 0 <= k < self.base().len() && self.base()[k] == w;
                assert(vd.contains(self.base()[k]));
            }
        }
        valid
    }

    /// Groups the eligible endpoint words by character length. Mirrors the
    /// sampling policy: with fewer than two eligible words no pair can ever
    /// be drawn, and the result is empty.
    fn get_valid_base_words_by_length(&self) -> (r: Vec<LengthBucket>)
        requires
            self.wf(),
        ensures
            forall|b: int|
                #![trigger r@[b]]
                0 <= b < r@.len() ==> {
                    let ws = r@[b].words.deep_view();
                    &&& ws.len() >= 1
                    &&& no_dup(ws)
                    &&& forall|m: int|
                        0 <= m < ws.len() ==> self.is_valid_base(#[trigger] ws[m]) && ws[m].len()
                            == r@[b].word_len as nat
                },
            forall|b1: int, b2: int| 0 <= b1 < b2 < r@.len() ==> r@[b1].word_len != r@[b2].word_len,
            r@.len() >= 1 ==> self.has_two_valid_base_words(),
            self.has_two_valid_base_words() ==> forall|w: Seq<char>|
                self.is_valid_base(w) ==> exists|b: int, m: int|
                    0 <= b < r@.len() && 0 <= m < r@[b].words.deep_view().len()
                        && r@[b].words.deep_view()[m] == w,
    {
        let valid = self.collect_valid_base_words();
        let ghost vd = valid.deep_view();
        let mut r: Vec<LengthBucket> = Vec::new();
        let vn = valid.len();
        if vn < 2 {
            proof {
                if self.has_two_valid_base_words() {
                    let (w1, w2) = choose|w1: Seq<char>, w2: Seq<char>|
                        self.is_valid_base(w1) && self.is_valid_base(w2) && w1 != w2;
                    let m1 = choose|m: int| 0 <= m < vd.len() && vd[m] == w1;
                    let m2 = choose|m: int| 0 <= m < vd.len() && vd[m] == w2;
                    assert(m1 != m2);
                }
            }
            return r;
        }
        let mut lengths: Vec<usize> = Vec::new();
        let ghost mut lsrc: Seq<int> = Seq::empty();
        let mut i: usize = 0;
        while i < vn
            invariant
                i <= vn,
                vn == valid@.len(),
                vd == valid.deep_view(),
                forall|j1: int, j2: int|
                    0 <= j1 < j2 < lengths@.len() ==> lengths@[j1] != lengths@[j2],
                lsrc.len() == lengths@.len(),
                forall|j: int|
                    0 <= j < lengths@.len() ==> 0 <= #[trigger] lsrc[j] < vn && (lengths@[j]) as nat
                        == vd[lsrc[j]].len(),
                forall|k: int|
                    0 <= k < i ==> lengths@.contains((#[trigger] vd[k]).len() as usize),
                forall|k: int| 0 <= k < i ==> (#[trigger] vd[k]).len() <= usize::MAX,
            decreases vn - i,
        {
            let ghost pre_lens = lengths@;
            let li = valid[i].as_str().unicode_len();
            proof {
                assert(valid@[i as int]@ == vd[i as int]);
            }
            if !vec_contains_usize(&lengths, li) {
                lengths.push(li);
                proof {
                    lsrc = lsrc.push(i as int);
                }
            }
            proof {
                assert forall|k: int|
                    0 <= k < i + 1 implies lengths@.contains((#[trigger] vd[k]).len() as usize) by {
                    if k < i {
                        let j = choose|j: int|
                            0 <= j < pre_lens.len() && pre_lens[j] == vd[k].len() as usize;
                        assert(lengths@[j] == vd[k].len() as usize);
                    } else {
                        if pre_lens.contains(li) {
                            let j = choose|j: int| 0 <= j < pre_lens.len() && pre_lens[j] == li;
                            assert(lengths@[j] == li);
                        } else {
                            assert(lengths@[lengths@.len() - 1] == li);
                        }
                    }
                }
            }
            i += 1;
        }
        let ln = lengths.len();
        let mut j: usize = 0;
        while j < ln
            invariant
                self.wf(),
                j <= ln,
                ln == lengths@.len(),
                vn == valid@.len(),
                vn >= 2,
                vd == valid.deep_view(),
                no_dup(vd),
                forall|w: Seq<char>| vd.contains(w) <==> self.is_valid_base(w),
                forall|j1: int, j2: int|
                    0 <= j1 < j2 < lengths@.len() ==> lengths@[j1] != lengths@[j2],
                lsrc.len() == lengths@.len(),
                forall|jj: int|
                    0 <= jj < lengths@.len() ==> 0 <= #[trigger] lsrc[jj] < vn && (lengths@[jj]) as nat
                        == vd[lsrc[jj]].len(),
                forall|k: int|
                    0 <= k < vn ==> lengths@.contains((#[trigger] vd[k]).len() as usize),
                forall|k: int| 0 <= k < vn ==> (#[trigger] vd[k]).len() <= usize::MAX,
                r@.len() == j as int,
                forall|b: int| 0 <= b < j ==> (#[trigger] r@[b]).word_len == lengths@[b],
                forall|b: int|
                    #![trigger r@[b]]
                    0 <= b < j ==> {
                        let ws = r@[b].words.deep_view();
                        &&& no_dup(ws)
                        &&& forall|m: int|
                            0 <= m < ws.len() ==> self.is_valid_base(#[trigger] ws[m])
                                && ws[m].len() == r@[b].word_len as nat
                    },
                forall|b: int, k: int|
                    0 <= b < j && 0 <= k < vn && (#[trigger] vd[k]).len() == (#[trigger] r@[b]).word_len as nat
                        ==> r@[b].words.deep_view().contains(vd[k]),
            decreases ln - j,
        {
            let lw = lengths[j];
            let mut ws: Vec<String> = Vec::new();
            let ghost mut src: Seq<int> = Seq::empty();
            let mut k: usize = 0;
            while k < vn
                invariant
                    self.wf(),
                    k <= vn,
                    vn == valid@.len(),
                    vd == valid.deep_view(),
                    no_dup(vd),
                    forall|w: Seq<char>| vd.contains(w) ==> self.is_valid_base(w),
                    src.len() == ws.deep_view().len(),
                    forall|m: int| 0 <= m < src.len() ==> 0 <= #[trigger] src[m] < k,
                    forall|m1: int, m2: int| 0 <= m1 < m2 < src.len() ==> src[m1] < src[m2],
                    forall|m: int|
                        0 <= m < src.len() ==> #[trigger] ws.deep_view()[m] == vd[src[m]]
                            && ws.deep_view()[m].len() == lw as nat,
                    forall|kk: int|
                        0 <= kk < k && (#[trigger] vd[kk]).len() == lw as nat
                            ==> ws.deep_view().contains(vd[kk]),
                decreases vn - k,
            {
                let ghost pre = ws.deep_view();
                let wl = valid[k].as_str().unicode_len();
                proof {
                    assert(valid@[k as int]@ == vd[k as int]);
                }
                if wl == lw {
                    ws.push(valid[k].clone());
                    proof {
                        src = src.push(k as int);
                        assert(ws.deep_view() =~= pre.push(vd[k as int]));
                    }
                }
                proof {
                    assert forall|kk: int|
                        0 <= kk < k + 1 && (#[trigger] vd[kk]).len() == lw as nat
                            implies ws.deep_view().contains(vd[kk]) by {
                        if kk < k {
                            let m = choose|m: int| 0 <= m < pre.len() && pre[m] == vd[kk];
                            assert(ws.deep_view()[m] == vd[kk]);
                        } else {
                            assert(ws.deep_view()[ws.deep_view().len() - 1] == vd[kk]);
                        }
                    }
                }
                k += 1;
            }
            proof {
                let wsd = ws.deep_view();
                assert(no_dup(wsd)) by {
                    assert forall|m1: int, m2: int|
                        0 <= m1 < m2 < wsd.len() implies wsd[m1] != wsd[m2] by {
                        assert(wsd[m1] == vd[src[m1]]);
                        assert(wsd[m2] == vd[src[m2]]);
                        assert(src[m1] < src[m2]);
                    }
                }
                assert forall|m: int|
                    0 <= m < wsd.len() implies self.is_valid_base(#[trigger] wsd[m]) && wsd[m].len()
                        == lw as nat by {
                    assert(wsd[m] == vd[src[m]]);
                    assert(vd.contains(vd[src[m]]));
                }
            }
            let ghost pre_r = r@;
            r.push(LengthBucket { word_len: lw, words: ws });
            proof {
                assert(r@ =~= pre_r.push(r@[r@.len() - 1]));
            }
            j += 1;
        }
        proof {
            // every bucket is nonempty: its length came from some eligible word
            assert forall|b: int| #![trigger r@[b]] 0 <= b < r@.len()
                implies r@[b].words.deep_view().len() >= 1 by {
                let k = lsrc[b];
                assert(vd[k].len() == (lengths@[b]) as nat);
                assert(r@[b].words.deep_view().contains(vd[k]));
            }
            assert(self.has_two_valid_base_words()) by {
                assert(vd[0] != vd[1]);
                assert(vd.contains(vd[0]) && vd.contains(vd[1]));
            }
            // completeness: every eligible word sits in the bucket of its length
            assert forall|w: Seq<char>| self.is_valid_base(w) implies exists|b: int, m: int|
                0 <= b < r@.len() && 0 <= m < r@[b].words.deep_view().len()
                    && r@[b].words.deep_view()[m] == w by {
                let k = choose|k: int| 0 <= k < vd.len() && vd[k] == w;
                assert(lengths@.contains(vd[k].len() as usize));
                let b = choose|b: int| 0 <= b < lengths@.len() && lengths@[b] == vd[k].len() as usize;
                assert(vd[k].len() <= usize::MAX);
                assert((vd[k].len() as usize) as nat == vd[k].len());
                assert(r@[b].word_len as nat == vd[k].len());
                assert(r@[b].words.deep_view().contains(vd[k]));
                let m = choose|m: int|
                    0 <= m < r@[b].words.deep_view().len() && r@[b].words.deep_view()[m] == vd[k];
            }
        }
        r
    }

    /// Draws a random endpoint pair: a uniformly chosen length bucket, then
    /// two distinct words from it. Fails exactly when no two distinct
    /// eligible words share a length.
    pub fn pick_random_words(&self) -> (r: Result<(String, String), String>)
        requires
            self.wf(),
        ensures
            match r {
                Ok(pair) => self.is_valid_base(pair.0@) && self.is_valid_base(pair.1@) && pair.0@
                    != pair.1@ && pair.0@.len() == pair.1@.len(),
                Err(m) => {
                    &&& !self.has_samplable_pair()
                    &&& (self.has_two_valid_base_words() ==> m@
                        == "No word lengths with at least 2 valid base words"@)
                    &&& (!self.has_two_valid_base_words() ==> m@ == "No base words loaded"@)
                },
            },
    {
        let buckets = self.get_valid_base_words_by_length();
        if buckets.len() == 0 {
            proof {
                if self.has_two_valid_base_words() {
                    let (w1, w2) = choose|w1: Seq<char>, w2: Seq<char>|
                        self.is_valid_base(w1) && self.is_valid_base(w2) && w1 != w2;
                    assert(exists|b: int, m: int|
                        0 <= b < buckets@.len() && 0 <= m < buckets@[b].words.deep_view().len()
                            && buckets@[b].words.deep_view()[m] == w1);
                }
                if self.has_samplable_pair() {
                    let (w1, w2) = choose|w1: Seq<char>, w2: Seq<char>|
                        self.is_valid_base(w1) && self.is_valid_base(w2) && w1 != w2 && w1.len()
                            == w2.len();
                    assert(self.has_two_valid_base_words());
                }
            }
            return Err(String::from_str("No base words loaded"));
        }
        let bn = buckets.len();
        let mut eligible: Vec<usize> = Vec::new();
        let mut b: usize = 0;
        while b < bn
            invariant
                b <= bn,
                bn == buckets@.len(),
                forall|m: int|
                    0 <= m < eligible@.len() ==> (#[trigger] eligible@[m]) < bn && buckets@[eligible@[m] as int].words@.len() >= 2,
                forall|bb: int|
                    0 <= bb < b && buckets@[bb].words@.len() >= 2 ==> eligible@.contains(
                        bb as usize,
                    ),
            decreases bn - b,
        {
            let ghost pre = eligible@;
            if buckets[b].words.len() >= 2 {
                eligible.push(b);
            }
            proof {
                assert forall|bb: int|
                    0 <= bb < b + 1 && buckets@[bb].words@.len() >= 2 implies eligible@.contains(
                    bb as usize,
                ) by {
                    if bb < b {
                        let m = choose|m: int| 0 <= m < pre.len() && pre[m] == bb as usize;
                        assert(eligible@[m] == bb as usize);
                    } else {
                        assert(eligible@[eligible@.len() - 1] == bb as usize);
                    }
                }
            }
            b += 1;
        }
        if eligible.len() == 0 {
            proof {
                if self.has_samplable_pair() {
                    let (w1, w2) = choose|w1: Seq<char>, w2: Seq<char>|
                        self.is_valid_base(w1) && self.is_valid_base(w2) && w1 != w2 && w1.len()
                            == w2.len();
                    assert(self.has_two_valid_base_words());
                    let (b1, m1) = choose|b1: int, m1: int|
                        0 <= b1 < buckets@.len() && 0 <= m1
                            < buckets@[b1].words.deep_view().len() && buckets@[
                        b1].words.deep_view()[m1] == w1;
                    let (b2, m2) = choose|b2: int, m2: int|
                        0 <= b2 < buckets@.len() && 0 <= m2
                            < buckets@[b2].words.deep_view().len() && buckets@[
                        b2].words.deep_view()[m2] == w2;
                    assert(w1.len() == buckets@[b1].word_len as nat);
                    assert(w2.len() == buckets@[b2].word_len as nat);
                    assert(b1 == b2);
                    assert(m1 != m2);
                    assert(buckets@[b1].words.deep_view().len() >= 2);
                    assert(buckets@[b1].words@.len() >= 2);
                    assert(eligible@.contains(b1 as usize));
                }
            }
            return Err(String::from_str("No word lengths with at least 2 valid base words"));
        }
        let ei = rand_below(eligible.len());
        let bi = eligible[ei];
        let bucket = &buckets[bi];
        let wn = bucket.words.len();
        let i1 = rand_below(wn);
        let mut i2 = rand_below(wn - 1);
        if i2 >= i1 {
            i2 = i2 + 1;
        }
        let w1 = bucket.words[i1].clone();
        let w2 = bucket.words[i2].clone();
        proof {
            let wsd = bucket.words.deep_view();
            assert(w1@ == wsd[i1 as int]);
            assert(w2@ == wsd[i2 as int]);
            assert(i1 != i2);
        }
        Ok((w1, w2))
    }

    /// Generates puzzles of one difficulty tier by repeated endpoint
    /// sampling, keeping only the matches; non-matching samples are
    /// discarded silently. Without two distinct eligible endpoint words of
    /// equal length the batch is empty. Sampling is capped at
    /// `BATCH_ATTEMPTS_PER_PUZZLE` attempts per requested puzzle, so the
    /// batch may come back short of `count` when the tier is rare or
    /// unreachable.
    pub fn generate_batch(&self, count: usize, difficulty: Difficulty) -> (r: Vec<Puzzle>)
        requires
            self.wf(),
        ensures
            r@.len() <= count,
            !self.has_samplable_pair() ==> r@.len() == 0,
            forall|i: int|
                #![trigger r@[i]]
                0 <= i < r@.len() ==> {
                    let pz = r@[i]@;
                    &&& puzzle_wf(self.dict(), pz)
                    &&& pz.difficulty == difficulty
                    &&& self.is_valid_base(pz.start)
                    &&& self.is_valid_base(pz.end)
                    &&& pz.start != pz.end
                    &&& pz.start.len() == pz.end.len()
                },
    {
        let mut puzzles: Vec<Puzzle> = Vec::new();
        let mut attempts: u128 = 0;
        proof {
            assert((count as u128) * (BATCH_ATTEMPTS_PER_PUZZLE as u128) <= u128::MAX) by (nonlinear_arith)
                requires
                    count as u128 <= 0xffff_ffff_ffff_ffffu128,
                    BATCH_ATTEMPTS_PER_PUZZLE == 100,
            ;
        }
        let cap: u128 = (count as u128) * (BATCH_ATTEMPTS_PER_PUZZLE as u128);
        while puzzles.len() < count && attempts < cap
            invariant
                self.wf(),
                attempts <= cap,
                puzzles@.len() <= count,
                !self.has_samplable_pair() ==> puzzles@.len() == 0,
                forall|i: int|
                    #![trigger puzzles@[i]]
                    0 <= i < puzzles@.len() ==> {
                        let pz = puzzles@[i]@;
                        &&& puzzle_wf(self.dict(), pz)
                        &&& pz.difficulty == difficulty
                        &&& self.is_valid_base(pz.start)
                        &&& self.is_valid_base(pz.end)
                        &&& pz.start != pz.end
                        &&& pz.start.len() == pz.end.len()
                    },
            decreases cap - attempts,
        {
            attempts = attempts + 1;
            match self.pick_random_words() {
                Ok((start, end)) => {
                    match self.generate_puzzle(start.as_str(), end.as_str()) {
                        Some(pz) => {
                            if self.matches_difficulty(&pz, &difficulty) {
                                let ghost pre = puzzles@;
                                puzzles.push(pz);
                                proof {
                                    assert(puzzles@[puzzles@.len() - 1]@.start == start@);
                                    assert(puzzles@[puzzles@.len() - 1]@.end == end@);
                                    // the drawn pair witnesses that a
                                    // samplable pair exists
                                    assert(self.has_samplable_pair());
                                }
                            }
                        },
                        None => {},
                    }
                },
                Err(_) => {
                    return puzzles;
                },
            }
        }
        puzzles
    }
}

} // verus!
