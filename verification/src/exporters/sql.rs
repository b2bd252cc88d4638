//! SQL export of puzzles and dictionaries.
//!
//! Renders puzzles and word lists as SQLite-compatible scripts: an optional
//! schema, an optional comment header, and batched INSERT statements. Every
//! produced character is pinned down by spec functions, including the
//! escaping of single quotes, the decimal rendering of numbers, and the
//! per-pair counters behind puzzle identifiers. The difficulty-balanced
//! selection of a fixed-size puzzle set lives here as well.

use vstd::prelude::*;

use crate::puzzle::{Difficulty, Puzzle, PuzzleView};
use crate::random::shuffle_puzzles;

verus! {

/// The decimal digits of a single digit value.
pub open spec fn digit_lit(d: int) -> Seq<char> {
    if d == 0 {
        "0"@
    } else if d == 1 {
        "1"@
    } else if d == 2 {
        "2"@
    } else if d == 3 {
        "3"@
    } else if d == 4 {
        "4"@
    } else if d == 5 {
        "5"@
    } else if d == 6 {
        "6"@
    } else if d == 7 {
        "7"@
    } else if d == 8 {
        "8"@
    } else {
        "9"@
    }
}

/// The decimal rendering of a number.
pub open spec fn dec_str(n: nat) -> Seq<char>
    decreases n,
{
    if n < 10 {
        digit_lit(n as int)
    } else {
        dec_str(n / 10) + digit_lit((n % 10) as int)
    }
}

/// The decimal rendering of a number, zero-padded to at least three digits.
pub open spec fn pad3(n: nat) -> Seq<char> {
    if n < 10 {
        "00"@ + dec_str(n)
    } else if n < 100 {
        "0"@ + dec_str(n)
    } else {
        dec_str(n)
    }
}

/// A string with every single quote doubled, safe for SQL insertion.
pub open spec fn escaped(s: Seq<char>) -> Seq<char>
    decreases s.len(),
{
    if s.len() == 0 {
        Seq::<char>::empty()
    } else {
        (if s[0] == '\'' {
            "''"@
        } else {
            seq![s[0]]
        }) + escaped(s.subrange(1, s.len() as int))
    }
}

/// The lowercase tag of a difficulty tier.
pub open spec fn difficulty_str(d: Difficulty) -> Seq<char> {
    match d {
        Difficulty::Easy => "easy"@,
        Difficulty::Medium => "medium"@,
        Difficulty::Hard => "hard"@,
    }
}

/// The key under which a puzzle's identifier counter runs.
pub open spec fn id_key(pz: PuzzleView) -> Seq<char> {
    pz.start + "_"@ + pz.end
}

/// The counter value the next puzzle with this key receives.
pub open spec fn next_count(counts: Map<Seq<char>, int>, key: Seq<char>) -> int {
    (if counts.dom().contains(key) {
        counts[key]
    } else {
        0
    }) + 1
}

/// The identifier of a puzzle under a given counter value.
pub open spec fn id_text(pz: PuzzleView, c: int) -> Seq<char> {
    id_key(pz) + "_"@ + pad3(c as nat)
}

/// One VALUES row of the puzzles INSERT statement.
pub open spec fn row_text(pz: PuzzleView, c: int) -> Seq<char> {
    "\t('"@ + id_text(pz, c) + "', '"@ + escaped(pz.start) + "', '"@ + escaped(pz.end) + "', "@
        + dec_str((pz.path.len() - 1) as nat) + ", '"@ + difficulty_str(pz.difficulty) + "')"@
}

/// The rows of one INSERT statement, separated by commas and closed with a
/// semicolon, with the identifier counters threaded from row to row.
pub open spec fn rows_text(pzs: Seq<PuzzleView>, counts: Map<Seq<char>, int>) -> Seq<char>
    decreases pzs.len(),
{
    if pzs.len() == 0 {
        Seq::<char>::empty()
    } else {
        let c = next_count(counts, id_key(pzs[0]));
        row_text(pzs[0], c) + (if pzs.len() == 1 {
            ";"@
        } else {
            ",\n"@ + rows_text(pzs.drop_first(), counts.insert(id_key(pzs[0]), c))
        })
    }
}

/// The counter state after issuing identifiers for a sequence of puzzles.
pub open spec fn counts_after(pzs: Seq<PuzzleView>, counts: Map<Seq<char>, int>) -> Map<
    Seq<char>,
    int,
>
    decreases pzs.len(),
{
    if pzs.len() == 0 {
        counts
    } else {
        let c = next_count(counts, id_key(pzs[0]));
        counts_after(pzs.drop_first(), counts.insert(id_key(pzs[0]), c))
    }
}

/// One batched INSERT statement for a chunk of puzzles; empty for an empty
/// chunk.
pub open spec fn batch_insert_text(pzs: Seq<PuzzleView>, counts: Map<Seq<char>, int>) -> Seq<
    char,
> {
    if pzs.len() == 0 {
        Seq::<char>::empty()
    } else {
        "INSERT INTO puzzles (id, start_word, target_word, min_steps, difficulty) VALUES\n"@
            + rows_text(pzs, counts)
    }
}

/// The INSERT statements for all puzzles, one per chunk of `batch` puzzles,
/// each followed by a newline.
pub open spec fn chunks_text(
    pzs: Seq<PuzzleView>,
    counts: Map<Seq<char>, int>,
    batch: int,
) -> Seq<char>
    decreases pzs.len(),
{
    if pzs.len() == 0 {
        Seq::<char>::empty()
    } else {
        let k = if batch < 1 {
            1int
        } else if batch > pzs.len() {
            pzs.len() as int
        } else {
            batch
        };
        let head = pzs.subrange(0, k);
        batch_insert_text(head, counts) + "\n"@ + chunks_text(
            pzs.subrange(k, pzs.len() as int),
            counts_after(head, counts),
            batch,
        )
    }
}

/// The CREATE TABLE statement for the puzzles table, with its indexes when
/// comments are included.
pub open spec fn schema_text(include_comments: bool) -> Seq<char> {
    "-- Create puzzles table\nCREATE TABLE IF NOT EXISTS puzzles (\n\tid TEXT PRIMARY KEY,\n\tstart_word TEXT NOT NULL,\n\ttarget_word TEXT NOT NULL,\n\tmin_steps INTEGER NOT NULL,\n\tdifficulty TEXT NOT NULL\n);"@
        + (if include_comments {
        "\n\n-- Indexes for better query performance\nCREATE INDEX IF NOT EXISTS idx_puzzles_difficulty ON puzzles(difficulty);\nCREATE INDEX IF NOT EXISTS idx_puzzles_steps ON puzzles(min_steps);\n"@
    } else {
        Seq::<char>::empty()
    })
}

/// The complete puzzles export: optional schema, optional comment header,
/// then the batched INSERT statements.
pub open spec fn export_text(
    include_schema: bool,
    include_comments: bool,
    batch: int,
    pzs: Seq<PuzzleView>,
    counts: Map<Seq<char>, int>,
) -> Seq<char> {
    (if include_schema {
        schema_text(include_comments) + "\n"@
    } else {
        Seq::<char>::empty()
    }) + (if include_comments {
        "-- Generated "@ + dec_str(pzs.len()) + " puzzles\n"@ + "\n"@
    } else {
        Seq::<char>::empty()
    }) + chunks_text(pzs, counts, batch)
}

/// The CREATE TABLE statement for the dictionary table.
pub open spec fn dictionary_schema_text(include_comments: bool) -> Seq<char> {
    "-- Create dictionary table\nCREATE TABLE IF NOT EXISTS dictionary (\n\tword TEXT PRIMARY KEY,\n\tlength INTEGER NOT NULL\n);"@
        + (if include_comments {
        "\n\n-- Indexes for efficient word lookups\nCREATE INDEX IF NOT EXISTS idx_dictionary_length ON dictionary(length);\n"@
    } else {
        Seq::<char>::empty()
    })
}

/// One VALUES row of the dictionary INSERT statement.
pub open spec fn dictionary_row_text(w: Seq<char>) -> Seq<char> {
    "\t('"@ + escaped(w) + "', "@ + dec_str(w.len()) + ")"@
}

/// The rows of one dictionary INSERT statement.
pub open spec fn dictionary_rows_text(ws: Seq<Seq<char>>) -> Seq<char>
    decreases ws.len(),
{
    if ws.len() == 0 {
        Seq::<char>::empty()
    } else {
        dictionary_row_text(ws[0]) + (if ws.len() == 1 {
            ";"@
        } else {
            ",\n"@ + dictionary_rows_text(ws.drop_first())
        })
    }
}

/// One batched INSERT statement for a chunk of dictionary words.
pub open spec fn dictionary_batch_insert_text(ws: Seq<Seq<char>>) -> Seq<char> {
    if ws.len() == 0 {
        Seq::<char>::empty()
    } else {
        "INSERT OR IGNORE INTO dictionary (word, length) VALUES\n"@ + dictionary_rows_text(ws)
    }
}

/// The INSERT statements for all dictionary words, chunked.
pub open spec fn dictionary_chunks_text(ws: Seq<Seq<char>>, batch: int) -> Seq<char>
    decreases ws.len(),
{
    if ws.len() == 0 {
        Seq::<char>::empty()
    } else {
        let k = if batch < 1 {
            1int
        } else if batch > ws.len() {
            ws.len() as int
        } else {
            batch
        };
        dictionary_batch_insert_text(ws.subrange(0, k)) + "\n"@ + dictionary_chunks_text(
            ws.subrange(k, ws.len() as int),
            batch,
        )
    }
}

/// The complete dictionary export.
pub open spec fn dictionary_export_text(
    include_schema: bool,
    include_comments: bool,
    batch: int,
    ws: Seq<Seq<char>>,
) -> Seq<char> {
    (if include_schema {
        dictionary_schema_text(include_comments) + "\n"@
    } else {
        Seq::<char>::empty()
    }) + (if include_comments {
        "-- Generated "@ + dec_str(ws.len()) + " dictionary words\n"@ + "\n"@
    } else {
        Seq::<char>::empty()
    }) + dictionary_chunks_text(ws, batch)
}

/// The views of a sequence of puzzles.
pub open spec fn puzzle_views(s: Seq<Puzzle>) -> Seq<PuzzleView> {
    s.map_values(|p: Puzzle| p@)
}

/// A counter map has room for `n` more increments on every key without
/// leaving the range of `usize`.
pub open spec fn counts_headroom(counts: Map<Seq<char>, int>, n: int) -> bool {
    0 <= n <= usize::MAX && forall|k: Seq<char>|
        counts.dom().contains(k) ==> 0 <= #[trigger] counts[k] && counts[k] + n <= usize::MAX
}

/// Renders a single decimal digit.
fn digit_str(d: usize) -> (r: &'static str)
    requires
        d < 10,
    ensures
        r@ == digit_lit(d as int),
{
    if d == 0 {
        "0"
    } else if d == 1 {
        "1"
    } else if d == 2 {
        "2"
    } else if d == 3 {
        "3"
    } else if d == 4 {
        "4"
    } else if d == 5 {
        "5"
    } else if d == 6 {
        "6"
    } else if d == 7 {
        "7"
    } else if d == 8 {
        "8"
    } else {
        "9"
    }
}

/// Renders a number in decimal.
pub fn usize_to_string(n: usize) -> (r: String)
    ensures
        r@ == dec_str(n as nat),
    decreases n,
{
    if n < 10 {
        String::from_str(digit_str(n))
    } else {
        let mut r = usize_to_string(n / 10);
        r.append(digit_str(n % 10));
        r
    }
}

/// Renders a number in decimal, zero-padded to at least three digits.
fn usize_to_string_pad3(n: usize) -> (r: String)
    ensures
        r@ == pad3(n as nat),
{
    if n < 10 {
        let mut r = String::from_str("00");
        r.append(usize_to_string(n).as_str());
        r
    } else if n < 100 {
        let mut r = String::from_str("0");
        r.append(usize_to_string(n).as_str());
        r
    } else {
        usize_to_string(n)
    }
}

/// Configuration of the SQL export: how many rows share one INSERT
/// statement, and whether schema and comments are included.
#[derive(Debug, Clone)]
pub struct SqlExportConfig {
    /// Number of rows batched into each INSERT statement.
    pub batch_size: usize,
    /// Whether a CREATE TABLE statement opens the script.
    pub include_schema: bool,
    /// Whether comments are included in the script.
    pub include_comments: bool,
}

impl Default for SqlExportConfig {
    /// The default export configuration: batches of 100 rows, with schema
    /// and comments.
    fn default() -> (r: Self)
        ensures
            r.batch_size == 100,
            r.include_schema,
            r.include_comments,
    {
        Self { batch_size: 100, include_schema: true, include_comments: true }
    }
}

/// Renders puzzles and dictionaries as SQL scripts, issuing each puzzle an
/// identifier of the form `start_end_counter`.
#[derive(Debug)]
pub struct SqlExporter {
    /// The export configuration.
    config: SqlExportConfig,
    /// Per-key identifier counters; keys are unique.
    id_counter: Vec<(String, usize)>,
}

impl Default for SqlExporter {
    /// The default exporter: default configuration, fresh counters.
    fn default() -> (r: Self)
        ensures
            r.wf(),
            r.id_counts() == Map::<Seq<char>, int>::empty(),
            r.spec_config() == (100usize, true, true),
    {
        Self::new()
    }
}

/// The counter map held in a counter list, later entries taking precedence.
pub open spec fn counts_of(s: Seq<(String, usize)>) -> Map<Seq<char>, int>
    decreases s.len(),
{
    if s.len() == 0 {
        Map::<Seq<char>, int>::empty()
    } else {
        counts_of(s.drop_last()).insert(s.last().0@, s.last().1 as int)
    }
}

/// The keys of the counter list are pairwise distinct.
pub open spec fn counter_keys_unique(s: Seq<(String, usize)>) -> bool {
    forall|i: int, j: int| 0 <= i < j < s.len() ==> s[i].0@ != s[j].0@
}

proof fn lemma_counts_of_lookup(s: Seq<(String, usize)>, i: int)
    requires
        counter_keys_unique(s),
        0 <= i < s.len(),
    ensures
        counts_of(s).dom().contains(s[i].0@),
        counts_of(s)[s[i].0@] == s[i].1 as int,
    decreases s.len(),
{
    if i < s.len() - 1 {
        lemma_counts_of_lookup(s.drop_last(), i);
        assert(s.drop_last()[i] == s[i]);
        assert(s.last().0@ != s[i].0@);
    }
}

proof fn lemma_counts_of_absent(s: Seq<(String, usize)>, key: Seq<char>)
    requires
        forall|i: int| 0 <= i < s.len() ==> s[i].0@ != key,
    ensures
        !counts_of(s).dom().contains(key),
    decreases s.len(),
{
    if s.len() > 0 {
        lemma_counts_of_absent(s.drop_last(), key);
    }
}

proof fn lemma_counts_of_update(s: Seq<(String, usize)>, i: int, v: usize)
    requires
        counter_keys_unique(s),
        0 <= i < s.len(),
    ensures
        counts_of(s.update(i, (s[i].0, v))) == counts_of(s).insert(s[i].0@, v as int),
    decreases s.len(),
{
    let t = s.update(i, (s[i].0, v));
    if i == s.len() - 1 {
        assert(t.drop_last() =~= s.drop_last());
        assert(t.last() == (s[i].0, v));
        assert(counts_of(t) =~= counts_of(s).insert(s[i].0@, v as int));
    } else {
        assert(t.drop_last() =~= s.drop_last().update(i, (s[i].0, v)));
        assert(s.drop_last()[i] == s[i]);
        lemma_counts_of_update(s.drop_last(), i, v);
        assert(t.last() == s.last());
        assert(s.last().0@ != s[i].0@);
        assert(counts_of(t) =~= counts_of(s).insert(s[i].0@, v as int));
    }
}

impl SqlExporter {
    /// The identifier counters as a map from key to count.
    pub closed spec fn id_counts(&self) -> Map<Seq<char>, int> {
        counts_of(self.id_counter@)
    }

    /// The exporter's configuration settings.
    pub closed spec fn spec_config(&self) -> (usize, bool, bool) {
        (self.config.batch_size, self.config.include_schema, self.config.include_comments)
    }

    /// Well-formedness: the counter keys are unique.
    pub closed spec fn wf(&self) -> bool {
        counter_keys_unique(self.id_counter@)
    }

    /// The counters have room for `n` more increments on every key.
    pub open spec fn ids_headroom(&self, n: int) -> bool {
        counts_headroom(self.id_counts(), n)
    }

    /// Creates an exporter with the default configuration and fresh
    /// identifier counters.
    pub fn new() -> (r: Self)
        ensures
            r.wf(),
            r.id_counts() == Map::<Seq<char>, int>::empty(),
            r.spec_config() == (100usize, true, true),
    {
        Self { config: SqlExportConfig::default(), id_counter: Vec::new() }
    }

    /// Creates an exporter with the given configuration and fresh
    /// identifier counters.
    pub fn with_config(config: SqlExportConfig) -> (r: Self)
        ensures
            r.wf(),
            r.id_counts() == Map::<Seq<char>, int>::empty(),
            r.spec_config() == (config.batch_size, config.include_schema, config.include_comments),
    {
        Self { config, id_counter: Vec::new() }
    }

    /// Sets the number of rows batched into each INSERT statement.
    pub fn with_batch_size(self, batch_size: usize) -> (r: Self)
        ensures
            r.wf() == self.wf(),
            r.id_counts() == self.id_counts(),
            r.spec_config() == (batch_size, self.spec_config().1, self.spec_config().2),
    {
        let mut s = self;
        s.config.batch_size = batch_size;
        s
    }

    /// Sets whether a CREATE TABLE statement opens the script.
    pub fn with_include_schema(self, include_schema: bool) -> (r: Self)
        ensures
            r.wf() == self.wf(),
            r.id_counts() == self.id_counts(),
            r.spec_config() == (self.spec_config().0, include_schema, self.spec_config().2),
    {
        let mut s = self;
        s.config.include_schema = include_schema;
        s
    }

    /// The lowercase tag of a difficulty tier.
    pub fn difficulty_to_string(&self, difficulty: Difficulty) -> (r: &'static str)
        ensures
            r@ == difficulty_str(difficulty),
    {
        match difficulty {
            Difficulty::Easy => "easy",
            Difficulty::Medium => "medium",
            Difficulty::Hard => "hard",
        }
    }

    /// Doubles every single quote so the string is safe inside SQL quotes.
    pub fn escape_sql_string(&self, s: &str) -> (r: String)
        ensures
            r@ == escaped(s@),
    {
        let len = s.unicode_len();
        let mut out = String::new();
        let mut i: usize = 0;
        proof {
            assert(s@.subrange(0, len as int) =~= s@);
            assert(out@ + escaped(s@) =~= escaped(s@));
        }
        while i < len
            invariant
                i <= len,
                len == s@.len(),
                escaped(s@) == out@ + escaped(s@.subrange(i as int, len as int)),
            decreases len - i,
        {
            let ghost t = s@.subrange(i as int, len as int);
            proof {
                assert(t[0] == s@[i as int]);
                assert(t.subrange(1, t.len() as int) =~= s@.subrange(i + 1, len as int));
            }
            if s.get_char(i) == '\'' {
                out.append("''");
            } else {
                let piece = s.substring_char(i, i + 1);
                proof {
                    assert(piece@ =~= seq![s@[i as int]]);
                }
                out.append(piece);
            }
            proof {
                assert(escaped(s@) =~= out@ + escaped(s@.subrange(i + 1, len as int)));
            }
            i += 1;
        }
        out
    }

    /// Issues the next identifier for a puzzle: its endpoint pair joined by
    /// underscores, followed by a three-digit counter of how many puzzles
    /// with that pair have been issued so far.
    pub fn generate_puzzle_id(&mut self, puzzle: &Puzzle) -> (r: String)
        requires
            old(self).wf(),
            old(self).ids_headroom(1),
        ensures
            final(self).wf(),
            final(self).spec_config() == old(self).spec_config(),
            final(self).id_counts() == old(self).id_counts().insert(
                id_key(puzzle@),
                next_count(old(self).id_counts(), id_key(puzzle@)),
            ),
            r@ == id_text(puzzle@, next_count(old(self).id_counts(), id_key(puzzle@))),
    {
        let mut key = puzzle.start.clone();
        key.append("_");
        key.append(puzzle.end.as_str());
        let n = self.id_counter.len();
        let mut idx: usize = 0;
        let mut found = false;
        while idx < n && !found
            invariant
                idx <= n,
                n == self.id_counter@.len(),
                key@ == id_key(puzzle@),
                forall|k: int| 0 <= k < idx ==> self.id_counter@[k].0@ != key@,
                found ==> idx < n && self.id_counter@[idx as int].0@ == key@,
            decreases 2 * (n - idx) + (if found { 0int } else { 1int }),
        {
            if crate::words::str_eq(self.id_counter[idx].0.as_str(), key.as_str()) {
                found = true;
            } else {
                idx += 1;
            }
        }
        let counter: usize;
        if found {
            let prev = self.id_counter[idx].1;
            proof {
                lemma_counts_of_lookup(self.id_counter@, idx as int);
            }
            counter = prev + 1;
            let entry_key = self.id_counter[idx].0.clone();
            let ghost pre = self.id_counter@;
            self.id_counter.set(idx, (entry_key, counter));
            proof {
                assert(self.id_counter@ =~= pre.update(idx as int, (pre[idx as int].0, counter)));
                lemma_counts_of_update(pre, idx as int, counter);
            }
        } else {
            proof {
                lemma_counts_of_absent(self.id_counter@, key@);
            }
            counter = 1;
            let entry_key = key.clone();
            let ghost pre = self.id_counter@;
            self.id_counter.push((entry_key, counter));
            proof {
                assert(self.id_counter@.drop_last() =~= pre);
                assert(forall|i: int|
                    0 <= i < pre.len() ==> self.id_counter@[i] == pre[i]);
            }
        }
        let mut id = key;
        id.append("_");
        id.append(usize_to_string_pad3(counter).as_str());
        id
    }

    /// The CREATE TABLE statement for the puzzles table.
    pub fn generate_schema(&self) -> (r: String)
        ensures
            r@ == schema_text(self.spec_config().2),
    {
        let mut schema = String::from_str(
            "-- Create puzzles table\nCREATE TABLE IF NOT EXISTS puzzles (\n\tid TEXT PRIMARY KEY,\n\tstart_word TEXT NOT NULL,\n\ttarget_word TEXT NOT NULL,\n\tmin_steps INTEGER NOT NULL,\n\tdifficulty TEXT NOT NULL\n);",
        );
        if self.config.include_comments {
            schema.append(
                "\n\n-- Indexes for better query performance\nCREATE INDEX IF NOT EXISTS idx_puzzles_difficulty ON puzzles(difficulty);\nCREATE INDEX IF NOT EXISTS idx_puzzles_steps ON puzzles(min_steps);\n",
            );
        } else {
            proof {
                assert(schema@ =~= schema_text(self.spec_config().2));
            }
        }
        schema
    }


    /// Renders one VALUES row for a puzzle, issuing its identifier.
    fn render_row(&mut self, pz: &Puzzle) -> (r: String)
        requires
            old(self).wf(),
            old(self).ids_headroom(1),
            pz@.path.len() >= 1,
        ensures
            final(self).wf(),
            final(self).spec_config() == old(self).spec_config(),
            final(self).id_counts() == old(self).id_counts().insert(
                id_key(pz@),
                next_count(old(self).id_counts(), id_key(pz@)),
            ),
            r@ == row_text(pz@, next_count(old(self).id_counts(), id_key(pz@))),
    {
        let id = self.generate_puzzle_id(pz);
        let start_e = self.escape_sql_string(pz.start.as_str());
        let end_e = self.escape_sql_string(pz.end.as_str());
        let steps = pz.path.len() - 1;
        let diff = self.difficulty_to_string(pz.difficulty);
        let num = usize_to_string(steps);
        let mut row = String::from_str("\t('");
        row.append(id.as_str());
        row.append("', '");
        row.append(start_e.as_str());
        row.append("', '");
        row.append(end_e.as_str());
        row.append("', ");
        row.append(num.as_str());
        row.append(", '");
        row.append(diff);
        row.append("')");
        row
    }

    /// One batched INSERT statement for the given puzzles, issuing their
    /// identifiers as a side effect.
    #[verifier::rlimit(100)]
    pub fn generate_batch_insert(&mut self, puzzles: &Vec<Puzzle>) -> (r: String)
        requires
            old(self).wf(),
            old(self).ids_headroom(puzzles@.len() as int),
            forall|i: int| 0 <= i < puzzles@.len() ==> (#[trigger] puzzles@[i])@.path.len() >= 1,
        ensures
            final(self).wf(),
            final(self).spec_config() == old(self).spec_config(),
            final(self).id_counts() == counts_after(puzzle_views(puzzles@), old(self).id_counts()),
            r@ == batch_insert_text(puzzle_views(puzzles@), old(self).id_counts()),
    {
        let n = puzzles.len();
        let ghost views = puzzle_views(puzzles@);
        let ghost counts0 = self.id_counts();
        let ghost cfg0 = self.spec_config();
        if n == 0 {
            proof {
                assert(views.len() == 0);
            }
            return String::new();
        }
        let mut sql = String::from_str(
            "INSERT INTO puzzles (id, start_word, target_word, min_steps, difficulty) VALUES\n",
        );
        let ghost total = batch_insert_text(views, counts0);
        proof {
            assert(views.subrange(0, n as int) =~= views);
        }
        let mut i: usize = 0;
        while i < n
            invariant
                i <= n,
                n >= 1,
                n == puzzles@.len(),
                views == puzzle_views(puzzles@),
                forall|k: int| 0 <= k < puzzles@.len() ==> (#[trigger] puzzles@[k])@.path.len() >= 1,
                self.wf(),
                self.spec_config() == cfg0,
                counts_headroom(self.id_counts(), n - i),
                counts_after(views, counts0) == counts_after(
                    views.subrange(i as int, n as int),
                    self.id_counts(),
                ),
                i < n ==> total == sql@ + rows_text(
                    views.subrange(i as int, n as int),
                    self.id_counts(),
                ),
                i == n ==> total == sql@,
            decreases n - i,
        {
            let ghost rem = views.subrange(i as int, n as int);
            let ghost counts_now = self.id_counts();
            proof {
                assert(rem[0] == views[i as int]);
                assert(views[i as int] == puzzles@[i as int]@);
                assert(rem.drop_first() =~= views.subrange(i + 1, n as int));
                assert(counts_headroom(self.id_counts(), 1));
            }
            let pz = &puzzles[i];
            let row = self.render_row(pz);
            sql.append(row.as_str());
            if i < n - 1 {
                sql.append(",\n");
            } else {
                sql.append(";");
            }
            proof {
                let c = next_count(counts_now, id_key(views[i as int]));
                assert(row@ == row_text(views[i as int], c));
                assert(self.id_counts() == counts_now.insert(id_key(views[i as int]), c));
                // headroom is preserved: the touched key rose by one and one
                // fewer increment remains
                assert(counts_headroom(self.id_counts(), n - (i + 1))) by {
                    assert forall|k: Seq<char>|
                        self.id_counts().dom().contains(k) implies 0 <= #[trigger] self.id_counts()[k]
                        && self.id_counts()[k] + (n - (i + 1)) <= usize::MAX by {
                        if k == id_key(views[i as int]) {
                            assert(self.id_counts()[k] == c);
                        } else {
                            assert(counts_now.dom().contains(k));
                        }
                    }
                }
            }
            i += 1;
        }
        sql
    }

    /// The complete SQL export of the given puzzles: optional schema,
    /// optional comment header, then batched INSERT statements.
    pub fn export_puzzles(&mut self, puzzles: &Vec<Puzzle>) -> (r: Result<String, String>)
        requires
            old(self).wf(),
            old(self).spec_config().0 >= 1,
            old(self).ids_headroom(puzzles@.len() as int),
            forall|i: int| 0 <= i < puzzles@.len() ==> (#[trigger] puzzles@[i])@.path.len() >= 1,
        ensures
            final(self).wf(),
            final(self).spec_config() == old(self).spec_config(),
            final(self).id_counts() == counts_after(puzzle_views(puzzles@), old(self).id_counts()),
            r matches Ok(s) && s@ == export_text(
                old(self).spec_config().1,
                old(self).spec_config().2,
                old(self).spec_config().0 as int,
                puzzle_views(puzzles@),
                old(self).id_counts(),
            ),
    {
        let ghost views = puzzle_views(puzzles@);
        let ghost counts0 = self.id_counts();
        let ghost cfg0 = self.spec_config();
        let mut sql = String::new();
        if self.config.include_schema {
            let schema = self.generate_schema();
            sql.append(schema.as_str());
            sql.append("\n");
        }
        if self.config.include_comments {
            let num = usize_to_string(puzzles.len());
            sql.append("-- Generated ");
            sql.append(num.as_str());
            sql.append(" puzzles\n");
            sql.append("\n");
        }
        let ghost header = sql@;
        let n = puzzles.len();
        let batch = self.config.batch_size;
        proof {
            assert(views.subrange(0, n as int) =~= views);
        }
        let mut i: usize = 0;
        while i < n
            invariant
                i <= n,
                n == puzzles@.len(),
                batch >= 1,
                batch == cfg0.0,
                views == puzzle_views(puzzles@),
                forall|k: int| 0 <= k < puzzles@.len() ==> (#[trigger] puzzles@[k])@.path.len() >= 1,
                self.wf(),
                self.spec_config() == cfg0,
                counts_headroom(self.id_counts(), n - i),
                counts_after(views, counts0) == counts_after(
                    views.subrange(i as int, n as int),
                    self.id_counts(),
                ),
                sql@ + chunks_text(views.subrange(i as int, n as int), self.id_counts(), batch as int)
                    == header + chunks_text(views, counts0, batch as int),
            decreases n - i,
        {
            let j = if n - i > batch {
                i + batch
            } else {
                n
            };
            let ghost rem = views.subrange(i as int, n as int);
            let ghost counts_now = self.id_counts();
            let mut chunk: Vec<Puzzle> = Vec::new();
            let mut k: usize = i;
            while k < j
                invariant
                    i <= k <= j <= n,
                    n == puzzles@.len(),
                    views == puzzle_views(puzzles@),
                    forall|m: int| 0 <= m < puzzles@.len() ==> (#[trigger] puzzles@[m])@.path.len() >= 1,
                    chunk@.len() == k - i,
                    forall|m: int| 0 <= m < chunk@.len() ==> (#[trigger] chunk@[m])@ == views[i + m],
                decreases j - k,
            {
                chunk.push(puzzles[k].clone());
                k += 1;
            }
            proof {
                assert(puzzle_views(chunk@) =~= views.subrange(i as int, j as int));
                assert(counts_headroom(self.id_counts(), j - i));
            }
            let t = self.generate_batch_insert(&chunk);
            sql.append(t.as_str());
            sql.append("\n");
            proof {
                let kk: int = j - i;
                assert(rem.len() == n - i);
                assert(rem.subrange(0, kk) =~= views.subrange(i as int, j as int));
                assert(rem.subrange(kk, rem.len() as int) =~= views.subrange(j as int, n as int));
                lemma_counts_after_headroom(
                    views.subrange(i as int, j as int),
                    counts_now,
                    n - j,
                );
                assert(rem =~= views.subrange(i as int, j as int) + views.subrange(
                    j as int,
                    n as int,
                ));
                lemma_counts_after_concat(
                    views.subrange(i as int, j as int),
                    views.subrange(j as int, n as int),
                    counts_now,
                );
            }
            i = j;
        }
        proof {
            assert(views.subrange(n as int, n as int) =~= Seq::<PuzzleView>::empty());
        }
        Ok(sql)
    }

    /// The CREATE TABLE statement for the dictionary table.
    pub fn generate_dictionary_schema(&self) -> (r: String)
        ensures
            r@ == dictionary_schema_text(self.spec_config().2),
    {
        let mut schema = String::from_str(
            "-- Create dictionary table\nCREATE TABLE IF NOT EXISTS dictionary (\n\tword TEXT PRIMARY KEY,\n\tlength INTEGER NOT NULL\n);",
        );
        if self.config.include_comments {
            schema.append(
                "\n\n-- Indexes for efficient word lookups\nCREATE INDEX IF NOT EXISTS idx_dictionary_length ON dictionary(length);\n",
            );
        } else {
            proof {
                assert(schema@ =~= dictionary_schema_text(self.spec_config().2));
            }
        }
        schema
    }

    /// One batched INSERT statement for a chunk of dictionary words.
    pub fn generate_dictionary_batch_insert(&self, words: &Vec<String>) -> (r: String)
        ensures
            r@ == dictionary_batch_insert_text(words.deep_view()),
    {
        let n = words.len();
        let ghost ws = words.deep_view();
        if n == 0 {
            return String::new();
        }
        let mut sql = String::from_str("INSERT OR IGNORE INTO dictionary (word, length) VALUES\n");
        let ghost total = dictionary_batch_insert_text(ws);
        proof {
            assert(ws.subrange(0, n as int) =~= ws);
        }
        let mut i: usize = 0;
        while i < n
            invariant
                i <= n,
                n >= 1,
                n == words@.len(),
                ws == words.deep_view(),
                i < n ==> total == sql@ + dictionary_rows_text(ws.subrange(i as int, n as int)),
                i == n ==> total == sql@,
            decreases n - i,
        {
            let ghost rem = ws.subrange(i as int, n as int);
            proof {
                assert(rem[0] == ws[i as int]);
                assert(rem.drop_first() =~= ws.subrange(i + 1, n as int));
            }
            let w = &words[i];
            let escaped_word = self.escape_sql_string(w.as_str());
            let length = w.as_str().unicode_len();
            let num = usize_to_string(length);
            sql.append("\t('");
            sql.append(escaped_word.as_str());
            sql.append("', ");
            sql.append(num.as_str());
            sql.append(")");
            if i < n - 1 {
                sql.append(",\n");
            } else {
                sql.append(";");
            }
            i += 1;
        }
        sql
    }

    /// The complete SQL export of a dictionary word list.
    pub fn export_dictionary(&mut self, words: &Vec<String>) -> (r: Result<String, String>)
        requires
            old(self).wf(),
            old(self).spec_config().0 >= 1,
        ensures
            final(self).wf(),
            final(self).spec_config() == old(self).spec_config(),
            final(self).id_counts() == old(self).id_counts(),
            r matches Ok(s) && s@ == dictionary_export_text(
                old(self).spec_config().1,
                old(self).spec_config().2,
                old(self).spec_config().0 as int,
                words.deep_view(),
            ),
    {
        let ghost ws = words.deep_view();
        let mut sql = String::new();
        if self.config.include_schema {
            let schema = self.generate_dictionary_schema();
            sql.append(schema.as_str());
            sql.append("\n");
        }
        if self.config.include_comments {
            let num = usize_to_string(words.len());
            sql.append("-- Generated ");
            sql.append(num.as_str());
            sql.append(" dictionary words\n");
            sql.append("\n");
        }
        let ghost header = sql@;
        let n = words.len();
        let batch = self.config.batch_size;
        proof {
            assert(ws.subrange(0, n as int) =~= ws);
        }
        let mut i: usize = 0;
        while i < n
            invariant
                i <= n,
                n == words@.len(),
                batch >= 1,
                batch == self.spec_config().0,
                ws == words.deep_view(),
                sql@ + dictionary_chunks_text(ws.subrange(i as int, n as int), batch as int)
                    == header + dictionary_chunks_text(ws, batch as int),
            decreases n - i,
        {
            let j = if n - i > batch {
                i + batch
            } else {
                n
            };
            let ghost rem = ws.subrange(i as int, n as int);
            let mut chunk: Vec<String> = Vec::new();
            let mut k: usize = i;
            while k < j
                invariant
                    i <= k <= j <= n,
                    n == words@.len(),
                    ws == words.deep_view(),
                    chunk@.len() == k - i,
                    forall|m: int|
                        0 <= m < chunk@.len() ==> #[trigger] chunk.deep_view()[m] == ws[i + m],
                decreases j - k,
            {
                let ghost pre = chunk.deep_view();
                chunk.push(words[k].clone());
                proof {
                    assert(chunk.deep_view() =~= pre.push(ws[k as int]));
                }
                k += 1;
            }
            proof {
                assert(chunk.deep_view() =~= ws.subrange(i as int, j as int));
            }
            let t = self.generate_dictionary_batch_insert(&chunk);
            sql.append(t.as_str());
            sql.append("\n");
            proof {
                let kk: int = j - i;
                assert(rem.subrange(0, kk) =~= ws.subrange(i as int, j as int));
                assert(rem.subrange(kk, rem.len() as int) =~= ws.subrange(j as int, n as int));
            }
            i = j;
        }
        proof {
            assert(ws.subrange(n as int, n as int) =~= Seq::<Seq<char>>::empty());
        }
        Ok(sql)
    }

    /// Selects exactly `total_count` puzzles from a pool, approximating the
    /// given per-tier targets: each tier is shuffled and drawn from
    /// cyclically, tiers that fall short are padded by cycling through the
    /// whole pool, and only an empty pool yields fewer than requested.
    pub fn create_balanced_set(
        &self,
        puzzles: &Vec<Puzzle>,
        total_count: usize,
        easy_target: usize,
        medium_target: usize,
        hard_target: usize,
    ) -> (r: Vec<Puzzle>)
        ensures
            puzzles@.len() == 0 ==> r@.len() == 0,
            puzzles@.len() > 0 ==> r@.len() == total_count as int,
            forall|i: int|
                0 <= i < r@.len() ==> puzzle_views(puzzles@).contains((#[trigger] r@[i])@),
            ({
                let c = balanced_counts(
                    total_count as int,
                    easy_target as int,
                    medium_target as int,
                    hard_target as int,
                );
                &&& (count_tier(puzzles@, Difficulty::Easy) > 0 ==> count_tier(
                    r@,
                    Difficulty::Easy,
                ) >= c.0)
                &&& (count_tier(puzzles@, Difficulty::Medium) > 0 ==> count_tier(
                    r@,
                    Difficulty::Medium,
                ) >= c.1)
                &&& (count_tier(puzzles@, Difficulty::Hard) > 0 ==> count_tier(
                    r@,
                    Difficulty::Hard,
                ) >= c.2)
            }),
    {
        broadcast use vstd::seq_lib::group_to_multiset_ensures;

        let ghost source = puzzle_views(puzzles@);
        proof {
            assert forall|j: int| 0 <= j < puzzles@.len() implies source[j] == puzzles@[j]@ by {}
        }
        let mut easy = filter_by_difficulty(puzzles, Difficulty::Easy);
        let mut medium = filter_by_difficulty(puzzles, Difficulty::Medium);
        let mut hard = filter_by_difficulty(puzzles, Difficulty::Hard);
        let ghost easy0 = easy@;
        let ghost medium0 = medium@;
        let ghost hard0 = hard@;
        shuffle_puzzles(&mut easy);
        shuffle_puzzles(&mut medium);
        shuffle_puzzles(&mut hard);
        proof {
            assert(easy@.len() == easy0.len()) by {
                assert(easy@.to_multiset().len() == easy0.to_multiset().len());
            }
            assert forall|i: int|
                0 <= i < easy@.len() implies source.contains((#[trigger] easy@[i])@)
                && (#[trigger] easy@[i])@.difficulty == Difficulty::Easy by {
                assert(easy@.contains(easy@[i]));
                assert(easy@.to_multiset().count(easy@[i]) > 0);
                assert(easy0.to_multiset().count(easy@[i]) > 0);
                assert(easy0.contains(easy@[i]));
                let k = choose|k: int| 0 <= k < easy0.len() && easy0[k] == easy@[i];
                assert(source.contains(easy0[k]@));
                assert(easy0[k]@.difficulty == Difficulty::Easy);
                assert(easy@[i]@ == easy0[k]@);
            }
            assert(medium@.len() == medium0.len()) by {
                assert(medium@.to_multiset().len() == medium0.to_multiset().len());
            }
            assert forall|i: int|
                0 <= i < medium@.len() implies source.contains((#[trigger] medium@[i])@)
                && (#[trigger] medium@[i])@.difficulty == Difficulty::Medium by {
                assert(medium@.contains(medium@[i]));
                assert(medium@.to_multiset().count(medium@[i]) > 0);
                assert(medium0.to_multiset().count(medium@[i]) > 0);
                assert(medium0.contains(medium@[i]));
                let k = choose|k: int| 0 <= k < medium0.len() && medium0[k] == medium@[i];
                assert(source.contains(medium0[k]@));
                assert(medium0[k]@.difficulty == Difficulty::Medium);
                assert(medium@[i]@ == medium0[k]@);
            }
            assert(hard@.len() == hard0.len()) by {
                assert(hard@.to_multiset().len() == hard0.to_multiset().len());
            }
            assert forall|i: int|
                0 <= i < hard@.len() implies source.contains((#[trigger] hard@[i])@)
                && (#[trigger] hard@[i])@.difficulty == Difficulty::Hard by {
                assert(hard@.contains(hard@[i]));
                assert(hard@.to_multiset().count(hard@[i]) > 0);
                assert(hard0.to_multiset().count(hard@[i]) > 0);
                assert(hard0.contains(hard@[i]));
                let k = choose|k: int| 0 <= k < hard0.len() && hard0[k] == hard@[i];
                assert(source.contains(hard0[k]@));
                assert(hard0[k]@.difficulty == Difficulty::Hard);
                assert(hard@[i]@ == hard0[k]@);
            }
        }
        let counts = balance_counts(total_count, easy_target, medium_target, hard_target);
        let mut selected: Vec<Puzzle> = Vec::new();
        add_cyclic(&mut selected, &easy, counts.0, Ghost(source), Ghost(Difficulty::Easy));
        add_cyclic(&mut selected, &medium, counts.1, Ghost(source), Ghost(Difficulty::Medium));
        add_cyclic(&mut selected, &hard, counts.2, Ghost(source), Ghost(Difficulty::Hard));
        let ghost easy_floor = count_tier(selected@, Difficulty::Easy);
        let ghost medium_floor = count_tier(selected@, Difficulty::Medium);
        let ghost hard_floor = count_tier(selected@, Difficulty::Hard);
        proof {
            assert(count_tier(Seq::<Puzzle>::empty(), Difficulty::Easy) == 0);
            assert(count_tier(Seq::<Puzzle>::empty(), Difficulty::Medium) == 0);
            assert(count_tier(Seq::<Puzzle>::empty(), Difficulty::Hard) == 0);
            assert(easy0.len() == count_tier(puzzles@, Difficulty::Easy));
            assert(medium0.len() == count_tier(puzzles@, Difficulty::Medium));
            assert(hard0.len() == count_tier(puzzles@, Difficulty::Hard));
            if count_tier(puzzles@, Difficulty::Easy) > 0 {
                assert(easy@.len() > 0);
                assert(easy_floor >= counts.0);
            }
            if count_tier(puzzles@, Difficulty::Medium) > 0 {
                assert(medium@.len() > 0);
                assert(medium_floor >= counts.1);
            }
            if count_tier(puzzles@, Difficulty::Hard) > 0 {
                assert(hard@.len() > 0);
                assert(hard_floor >= counts.2);
            }
        }
        proof {
            assert(selected@.len() <= total_count);
            if puzzles@.len() == 0 {
                assert(source.len() == 0);
                if easy@.len() > 0 {
                    assert(source.contains(easy@[0]@));
                    assert(false);
                }
                if medium@.len() > 0 {
                    assert(source.contains(medium@[0]@));
                    assert(false);
                }
                if hard@.len() > 0 {
                    assert(source.contains(hard@[0]@));
                    assert(false);
                }
                assert(selected@.len() == 0);
            }
        }
        let pn = puzzles.len();
        while selected.len() < total_count && pn > 0
            invariant
                pn == puzzles@.len(),
                source == puzzle_views(puzzles@),
                selected@.len() <= total_count,
                puzzles@.len() == 0 ==> selected@.len() == 0,
                count_tier(selected@, Difficulty::Easy) >= easy_floor,
                count_tier(selected@, Difficulty::Medium) >= medium_floor,
                count_tier(selected@, Difficulty::Hard) >= hard_floor,
                forall|i: int|
                    0 <= i < selected@.len() ==> source.contains((#[trigger] selected@[i])@),
            decreases total_count - selected@.len(),
        {
            let idx = selected.len() % pn;
            let ghost pre = selected@;
            selected.push(puzzles[idx].clone());
            proof {
                assert(selected@[selected@.len() - 1]@ == puzzles@[idx as int]@);
                assert(puzzles@[idx as int]@ == source[idx as int]);
                assert(source.contains(source[idx as int]));
                assert(selected@ =~= pre.push(selected@[selected@.len() - 1]));
                lemma_count_tier_push(pre, selected@[selected@.len() - 1], Difficulty::Easy);
                lemma_count_tier_push(pre, selected@[selected@.len() - 1], Difficulty::Medium);
                lemma_count_tier_push(pre, selected@[selected@.len() - 1], Difficulty::Hard);
            }
        }
        selected
    }
}



/// The number of puzzles of one difficulty tier in a sequence.
pub open spec fn count_tier(s: Seq<Puzzle>, d: Difficulty) -> int
    decreases s.len(),
{
    if s.len() == 0 {
        0
    } else {
        count_tier(s.drop_last(), d) + if s.last()@.difficulty == d {
            1int
        } else {
            0int
        }
    }
}

proof fn lemma_count_tier_push(s: Seq<Puzzle>, p: Puzzle, d: Difficulty)
    ensures
        count_tier(s.push(p), d) == count_tier(s, d) + if p@.difficulty == d {
            1int
        } else {
            0int
        },
{
    assert(s.push(p).drop_last() =~= s);
    assert(s.push(p).last() == p);
}

/// The per-tier counts after reconciling raw targets with the requested
/// total: a shortfall is added to the medium tier; an excess is removed
/// first from hard, then medium, then easy, each clamped at zero. The
/// reconciled counts always sum to the total.
pub open spec fn balanced_counts(total: int, e: int, m: int, h: int) -> (int, int, int) {
    let sum = e + m + h;
    if sum < total {
        (e, m + (total - sum), h)
    } else if sum > total {
        let excess = sum - total;
        if h >= excess {
            (e, m, h - excess)
        } else if m >= excess - h {
            (e, m - (excess - h), 0)
        } else {
            (e - (excess - h - m), 0, 0)
        }
    } else {
        (e, m, h)
    }
}

/// Reconciles raw per-tier targets with the requested total.
fn balance_counts(total: usize, e: usize, m: usize, h: usize) -> (r: (usize, usize, usize))
    ensures
        (r.0 as int, r.1 as int, r.2 as int) == balanced_counts(
            total as int,
            e as int,
            m as int,
            h as int,
        ),
        r.0 + r.1 + r.2 == total,
{
    let t128 = total as u128;
    let e128 = e as u128;
    let m128 = m as u128;
    let h128 = h as u128;
    let sum = e128 + m128 + h128;
    if sum < t128 {
        let mc = m128 + (t128 - sum);
        (e, mc as usize, h)
    } else if sum > t128 {
        let excess = sum - t128;
        if h128 >= excess {
            (e, m, (h128 - excess) as usize)
        } else if m128 >= excess - h128 {
            (e, (m128 - (excess - h128)) as usize, 0)
        } else {
            ((e128 - (excess - h128 - m128)) as usize, 0, 0)
        }
    } else {
        (e, m, h)
    }
}

/// Collects the puzzles of one difficulty tier, in pool order.
fn filter_by_difficulty(puzzles: &Vec<Puzzle>, d: Difficulty) -> (r: Vec<Puzzle>)
    ensures
        forall|i: int|
            0 <= i < r@.len() ==> (#[trigger] r@[i])@.difficulty == d && puzzle_views(
                puzzles@,
            ).contains(r@[i]@),
        r@.len() == count_tier(puzzles@, d),
{
    let n = puzzles.len();
    let mut r: Vec<Puzzle> = Vec::new();
    let mut i: usize = 0;
    proof {
        assert(puzzles@.subrange(0, 0) =~= Seq::<Puzzle>::empty());
    }
    while i < n
        invariant
            i <= n,
            n == puzzles@.len(),
            forall|k: int|
                0 <= k < r@.len() ==> (#[trigger] r@[k])@.difficulty == d && puzzle_views(
                    puzzles@,
                ).contains(r@[k]@),
            r@.len() == count_tier(puzzles@.subrange(0, i as int), d),
        decreases n - i,
    {
        if puzzles[i].difficulty == d {
            r.push(puzzles[i].clone());
            proof {
                assert(puzzle_views(puzzles@)[i as int] == puzzles@[i as int]@);
                assert(r@[r@.len() - 1]@ == puzzles@[i as int]@);
                assert(puzzle_views(puzzles@).contains(r@[r@.len() - 1]@));
            }
        }
        proof {
            let pre = puzzles@.subrange(0, i as int);
            let cur = puzzles@.subrange(0, i + 1);
            assert(cur.drop_last() =~= pre);
            assert(cur.last() == puzzles@[i as int]);
        }
        i += 1;
    }
    proof {
        assert(puzzles@.subrange(0, n as int) =~= puzzles@);
    }
    r
}

/// Appends `count` puzzles drawn cyclically from the pool; an empty pool
/// contributes nothing. Every appended puzzle matches some view in `source`.
fn add_cyclic(
    selected: &mut Vec<Puzzle>,
    pool: &Vec<Puzzle>,
    count: usize,
    Ghost(source): Ghost<Seq<PuzzleView>>,
    Ghost(d): Ghost<Difficulty>,
)
    requires
        forall|i: int| 0 <= i < pool@.len() ==> source.contains((#[trigger] pool@[i])@),
        forall|i: int| 0 <= i < pool@.len() ==> (#[trigger] pool@[i])@.difficulty == d,
    ensures
        final(selected)@.len() == old(selected)@.len() + (if pool@.len() == 0 {
            0int
        } else {
            count as int
        }),
        forall|i: int| 0 <= i < old(selected)@.len() ==> final(selected)@[i] == old(selected)@[i],
        forall|i: int|
            old(selected)@.len() <= i < final(selected)@.len() ==> source.contains(
                (#[trigger] final(selected)@[i])@,
            ),
        count_tier(final(selected)@, d) == count_tier(old(selected)@, d) + (if pool@.len() == 0 {
            0int
        } else {
            count as int
        }),
        forall|d2: Difficulty|
            d2 != d ==> #[trigger] count_tier(final(selected)@, d2) == count_tier(
                old(selected)@,
                d2,
            ),
{
    let pn = pool.len();
    if pn == 0 {
        return;
    }
    let ghost base = selected@;
    let mut i: usize = 0;
    while i < count
        invariant
            i <= count,
            pn == pool@.len(),
            pn >= 1,
            forall|k: int| 0 <= k < pool@.len() ==> source.contains((#[trigger] pool@[k])@),
            forall|k: int| 0 <= k < pool@.len() ==> (#[trigger] pool@[k])@.difficulty == d,
            selected@.len() == base.len() + i as int,
            forall|k: int| 0 <= k < base.len() ==> selected@[k] == base[k],
            forall|k: int|
                base.len() <= k < selected@.len() ==> source.contains(
                    (#[trigger] selected@[k])@,
                ),
            count_tier(selected@, d) == count_tier(base, d) + i as int,
            forall|d2: Difficulty|
                d2 != d ==> #[trigger] count_tier(selected@, d2) == count_tier(base, d2),
        decreases count - i,
    {
        let idx = i % pn;
        let ghost pre = selected@;
        selected.push(pool[idx].clone());
        proof {
            assert(selected@[selected@.len() - 1]@ == pool@[idx as int]@);
            assert(selected@ =~= pre.push(selected@[selected@.len() - 1]));
            lemma_count_tier_push(pre, selected@[selected@.len() - 1], d);
            assert forall|d2: Difficulty|
                d2 != d implies #[trigger] count_tier(selected@, d2) == count_tier(base, d2) by {
                lemma_count_tier_push(pre, selected@[selected@.len() - 1], d2);
            }
        }
        i += 1;
    }
}

/// Issuing identifiers for a concatenation issues them for the first part
/// and then the second.
proof fn lemma_counts_after_concat(
    a: Seq<PuzzleView>,
    b: Seq<PuzzleView>,
    counts: Map<Seq<char>, int>,
)
    ensures
        counts_after(a + b, counts) == counts_after(b, counts_after(a, counts)),
    decreases a.len(),
{
    if a.len() == 0 {
        assert(a + b =~= b);
    } else {
        let ab = a + b;
        assert(ab[0] == a[0]);
        let key = id_key(a[0]);
        let c = next_count(counts, key);
        assert(ab.drop_first() =~= a.drop_first() + b);
        lemma_counts_after_concat(a.drop_first(), b, counts.insert(key, c));
    }
}

/// Counters with room for a sequence of issuances and `m` more keep room
/// for the `m` after the sequence is issued.
proof fn lemma_counts_after_headroom(pzs: Seq<PuzzleView>, counts: Map<Seq<char>, int>, m: int)
    requires
        m >= 0,
        counts_headroom(counts, pzs.len() + m),
    ensures
        counts_headroom(counts_after(pzs, counts), m),
    decreases pzs.len(),
{
    if pzs.len() > 0 {
        let key = id_key(pzs[0]);
        let c = next_count(counts, key);
        let counts2 = counts.insert(key, c);
        assert(counts_headroom(counts2, (pzs.len() - 1) + m)) by {
            assert forall|k: Seq<char>|
                counts2.dom().contains(k) implies 0 <= #[trigger] counts2[k] && counts2[k] + ((
            pzs.len() - 1) + m) <= usize::MAX by {
                if k == key {
                    assert(counts2[k] == c);
                } else {
                    assert(counts.dom().contains(k));
                }
            }
        }
        lemma_counts_after_headroom(pzs.drop_first(), counts2, m);
    }
}

} // verus!
