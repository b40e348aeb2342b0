//! Differential fuzzing sessions. A session holds a reference chip and the
//! tiles under study; each sample is a chip that differs from the reference
//! in one known configuration choice, reduced to the bits that changed in
//! each studied tile. Solving turns the samples into database records.
use vstd::prelude::*;
use crate::bits::{diff, diff_bits, is_bitset, lemma_diff_upto, copy_bits, overlaps};
use crate::chip::Chip;
use crate::database::{
    Database, MergeConflict, WordRec, PipRec, words_view, pips_view, word_values, pip_values,
    word_clash, pip_clash, word_values_clash, pip_values_clash, word_table_clash, pip_table_clash,
    add_words, add_pips, is_pip, is_word, find_word_clash, find_pip_clash, word_present, has_value,
    lemma_add_words_extends, lemma_add_words_present, lemma_add_words_recorded, pip_present, has_source,
    lemma_add_pips_extends, lemma_add_pips_present, lemma_add_pips_recorded,
};

verus! {

/// What a session discovers.
#[derive(PartialEq, Eq, Structural, Debug, Clone, Copy)]
pub enum FuzzKind {
    /// The bits of each value of a configuration word.
    Word,
    /// The bits enabling each source of a destination wire.
    Pip,
}

/// Why a session could not be opened or a sample not taken.
#[derive(PartialEq, Eq, Debug)]
pub enum FuzzError {
    /// A word of this width has more values than a `u64` counts.
    WidthTooLarge,
    /// No tile of the chip has this tile type.
    UnknownTileType(String),
    /// The chip's tiles differ in number, type or size from the reference.
    LayoutMismatch,
    /// A word sample's index is not below two to the word's width.
    IndexOutOfRange,
    /// A word sample given to a pip session, or the other way round.
    WrongKind,
}

/// One word sample: the value set, and the bits that changed in each
/// studied tile.
pub struct WordSample {
    pub index: usize,
    pub diffs: Vec<Vec<usize>>,
}

/// One pip sample: the source connected, and the bits that changed in each
/// studied tile.
pub struct PipSample {
    pub from_wire: String,
    pub diffs: Vec<Vec<usize>>,
}

/// A fuzzing session. Word sessions diff samples against the all-zero chip;
/// pip sessions against the baseline. `tiles` lists, in increasing order, the
/// indices of the studied tiles of `reference`.
pub struct Fuzzer {
    pub kind: FuzzKind,
    pub reference: Chip,
    pub tiles: Vec<usize>,
    pub word: String,
    pub width: usize,
    pub to_wire: String,
    pub fixed_conn_tile: String,
    pub full_mux: bool,
    pub skip_fixed: bool,
    pub word_samples: Vec<WordSample>,
    pub pip_samples: Vec<PipSample>,
}

/// What solving did with one studied tile.
#[derive(PartialEq, Eq, Debug)]
pub enum TileOutcome {
    /// No sample changed the tile: the word or wire does not apply to it.
    Unchanged,
    /// Every entry was recorded.
    Committed,
    /// Two values of the word produced the same bits, or one value two
    /// different sets of bits.
    EncodingAmbiguous { value: usize, other: usize },
    /// Two sources share a bit, or one source produced two different sets.
    PipOverlapConflict { from_wire: String, other_wire: String },
    /// No sample sets this value of the word; nothing was recorded.
    IncompleteCoverage { missing_value: u64 },
    /// The result contradicts what the database holds; nothing was recorded.
    AliasConflict { conflict: MergeConflict },
    /// Every entry was recorded, but this known source of the wire was not
    /// sampled although every input was to be tried.
    CommittedIncomplete { source: String },
}

/// The outcome of one tile, as far as the proofs tell them apart.
pub enum TileResult {
    Unchanged,
    Committed,
    Ambiguous,
    Incomplete,
    Rejected,
    CommittedIncomplete,
}

/// The report of one solve: one outcome per studied tile, in order.
pub struct SolveReport {
    pub outcomes: Vec<TileOutcome>,
}

/// Two to the power `n`.
pub open spec fn pow2w(n: nat) -> nat
    decreases n,
{
    if n == 0 {
        1
    } else {
        2 * pow2w((n - 1) as nat)
    }
}

proof fn lemma_pow2w_monotone(a: nat, b: nat)
    requires
        a <= b,
    ensures
        pow2w(a) <= pow2w(b),
    decreases b,
{
    if a < b {
        lemma_pow2w_monotone(a, (b - 1) as nat);
    }
}

/// Two chips have the same tiles, by number, type and size.
pub open spec fn same_layout(a: Chip, b: Chip) -> bool {
    &&& a.tiles@.len() == b.tiles@.len()
    &&& forall|i: int| #![trigger a.tiles@[i], b.tiles@[i]]
        0 <= i < a.tiles@.len() ==> a.tiles@[i].tiletype@ == b.tiles@[i].tiletype@
            && a.tiles@[i].cram@.len() == b.tiles@[i].cram@.len()
}

/// Some tile of the chip has tile type `t`.
pub open spec fn type_known(c: Chip, t: Seq<char>) -> bool {
    exists|i: int| 0 <= i < c.tiles@.len() && c.tiles@[i].tiletype@ == t
}

/// Tile `i` of the chip has a type among `types`, and is not excluded by name.
pub open spec fn is_studied(c: Chip, types: Seq<String>, exclude: Option<Seq<char>>, i: int) -> bool {
    &&& exists|j: int| 0 <= j < types.len() && types[j]@ == c.tiles@[i].tiletype@
    &&& !(exclude matches Some(n) && c.tiles@[i].name@ == n)
}

/// `ts` lists, in increasing order, exactly the studied tiles of the chip.
pub open spec fn studies(ts: Seq<usize>, c: Chip, types: Seq<String>, exclude: Option<Seq<char>>) -> bool {
    &&& is_bitset(ts)
    &&& forall|k: int| 0 <= k < ts.len() ==> ts[k] < c.tiles@.len() && is_studied(c, types, exclude, ts[k] as int)
    &&& forall|i: int| 0 <= i < c.tiles@.len() && is_studied(c, types, exclude, i) ==> ts.contains(i as usize)
}

/// The changed bits of each studied tile between the reference and a chip.
pub open spec fn sample_diffs(reference: Chip, ts: Seq<usize>, c: Chip) -> Seq<Seq<usize>> {
    Seq::new(
        ts.len(),
        |k: int| diff_bits(reference.tiles@[ts[k] as int].cram@, c.tiles@[ts[k] as int].cram@),
    )
}

/// The bit sets of a sample.
pub open spec fn diffs_view(d: Vec<Vec<usize>>) -> Seq<Seq<usize>> {
    d@.map_values(|v: Vec<usize>| v@)
}

/// Each value sampled, with the bits it changed in studied tile `k`.
pub open spec fn sampled_words(ss: Seq<WordSample>, k: int) -> Seq<(usize, Seq<usize>)> {
    ss.map_values(|s: WordSample| (s.index, s.diffs@[k]@))
}

/// Some sample sets value zero.
pub open spec fn zero_sampled(ss: Seq<WordSample>) -> bool {
    exists|s: int| 0 <= s < ss.len() && ss[s].index == 0
}

/// The candidate encoding of studied tile `k`: each sampled value with its
/// bits, after value zero with no bits unless zero was sampled.
pub open spec fn word_entries(ss: Seq<WordSample>, k: int) -> Seq<(usize, Seq<usize>)> {
    if zero_sampled(ss) {
        sampled_words(ss, k)
    } else {
        seq![(0usize, Seq::<usize>::empty())] + sampled_words(ss, k)
    }
}

/// Each source sampled, with the bits it changed in studied tile `k`.
pub open spec fn pip_entries(ss: Seq<PipSample>, k: int) -> Seq<(Seq<char>, Seq<usize>)> {
    ss.map_values(|s: PipSample| (s.from_wire@, s.diffs@[k]@))
}

/// Some entry is for value `v`.
pub open spec fn has_entry(es: Seq<(usize, Seq<usize>)>, v: int) -> bool {
    exists|i: int| 0 <= i < es.len() && es[i].0 == v
}

/// Every value below `n` has an entry.
pub open spec fn covers(es: Seq<(usize, Seq<usize>)>, n: int) -> bool {
    forall|v: int| 0 <= v < n ==> #[trigger] has_entry(es, v)
}

/// Some word sample changed studied tile `k`.
pub open spec fn word_tile_varies(ss: Seq<WordSample>, k: int) -> bool {
    exists|s: int| 0 <= s < ss.len() && ss[s].diffs@[k]@.len() > 0
}

/// Some pip sample changed studied tile `k`.
pub open spec fn pip_tile_varies(ss: Seq<PipSample>, k: int) -> bool {
    exists|s: int| 0 <= s < ss.len() && ss[s].diffs@[k]@.len() > 0
}

/// A source of the wire that the table records and no entry samples.
pub open spec fn unsampled_source(
    tb: Seq<PipRec>,
    f: Seq<char>,
    t: Seq<char>,
    to: Seq<char>,
    es: Seq<(Seq<char>, Seq<usize>)>,
) -> bool {
    exists|r: int|
        0 <= r < tb.len() && is_pip(tb[r], f, t, to) && forall|i: int| 0 <= i < es.len() ==> es[i].0 != tb[r].from_wire
}

impl Fuzzer {
    /// Tile type of studied tile `k`.
    pub open spec fn tiletype_of(self, k: int) -> Seq<char> {
        self.reference.tiles@[self.tiles@[k] as int].tiletype@
    }

    /// The studied tiles are tiles of the reference, and each sample holds a
    /// canonical bit set for each of them.
    pub open spec fn wf(self) -> bool {
        &&& is_bitset(self.tiles@)
        &&& forall|k: int| 0 <= k < self.tiles@.len() ==> self.tiles@[k] < self.reference.tiles@.len()
        &&& self.kind == FuzzKind::Word ==> pow2w(self.width as nat) <= u64::MAX
        &&& forall|s: int| #![trigger self.word_samples@[s]] 0 <= s < self.word_samples@.len() ==> {
            &&& self.word_samples@[s].diffs@.len() == self.tiles@.len()
            &&& forall|k: int| 0 <= k < self.tiles@.len() ==> is_bitset(#[trigger] self.word_samples@[s].diffs@[k]@)
        }
        &&& forall|s: int| #![trigger self.pip_samples@[s]] 0 <= s < self.pip_samples@.len() ==> {
            &&& self.pip_samples@[s].diffs@.len() == self.tiles@.len()
            &&& forall|k: int| 0 <= k < self.tiles@.len() ==> is_bitset(#[trigger] self.pip_samples@[s].diffs@[k]@)
        }
    }

    /// What solving does with word tile `k` against word table `tb`.
    pub open spec fn word_result(self, tb: Seq<WordRec>, k: int) -> TileResult {
        let es = word_entries(self.word_samples@, k);
        if !word_tile_varies(self.word_samples@, k) {
            TileResult::Unchanged
        } else if word_values_clash(es) {
            TileResult::Ambiguous
        } else if !covers(es, pow2w(self.width as nat) as int) {
            TileResult::Incomplete
        } else if word_table_clash(tb, self.reference.family@, self.tiletype_of(k), self.word@, es) {
            TileResult::Rejected
        } else {
            TileResult::Committed
        }
    }

    /// The word table after solving the first `n` tiles.
    pub open spec fn word_solved(self, tb: Seq<WordRec>, n: int) -> Seq<WordRec>
        decreases n,
    {
        if n <= 0 {
            tb
        } else {
            let prev = self.word_solved(tb, n - 1);
            if self.word_result(prev, n - 1) is Committed {
                add_words(prev, self.reference.family@, self.tiletype_of(n - 1), self.word@,
                    word_entries(self.word_samples@, n - 1))
            } else {
                prev
            }
        }
    }

    /// What solving does with pip tile `k` against pip table `tb`.
    pub open spec fn pip_result(self, tb: Seq<PipRec>, k: int) -> TileResult {
        let es = pip_entries(self.pip_samples@, k);
        if !pip_tile_varies(self.pip_samples@, k) {
            TileResult::Unchanged
        } else if pip_values_clash(es) {
            TileResult::Ambiguous
        } else if pip_table_clash(tb, self.reference.family@, self.tiletype_of(k), self.to_wire@, es) {
            TileResult::Rejected
        } else if self.full_mux && unsampled_source(tb, self.reference.family@, self.tiletype_of(k), self.to_wire@, es) {
            TileResult::CommittedIncomplete
        } else {
            TileResult::Committed
        }
    }

    /// The pip table after solving the first `n` tiles.
    pub open spec fn pip_solved(self, tb: Seq<PipRec>, n: int) -> Seq<PipRec>
        decreases n,
    {
        if n <= 0 {
            tb
        } else {
            let prev = self.pip_solved(tb, n - 1);
            let r = self.pip_result(prev, n - 1);
            if r is Committed || r is CommittedIncomplete {
                add_pips(prev, self.reference.family@, self.tiletype_of(n - 1), self.to_wire@,
                    pip_entries(self.pip_samples@, n - 1))
            } else {
                prev
            }
        }
    }
}

/// Number of outcomes among the first `n` that recorded the tile's entries.
pub open spec fn committed_upto(os: Seq<TileOutcome>, n: int) -> int
    decreases n,
{
    if n <= 0 {
        0
    } else {
        committed_upto(os, n - 1) + if os[n - 1] is Committed || os[n - 1] is CommittedIncomplete {
            1int
        } else {
            0int
        }
    }
}

impl SolveReport {
    /// Number of tiles whose entries were recorded.
    pub fn committed(&self) -> (r: usize)
        ensures
            r == committed_upto(self.outcomes@, self.outcomes@.len() as int),
    {
        let mut n: usize = 0;
        let mut i: usize = 0;
        while i < self.outcomes.len()
            invariant
                i <= self.outcomes@.len(),
                n == committed_upto(self.outcomes@, i as int),
                n <= i,
            decreases self.outcomes@.len() - i,
        {
            match &self.outcomes[i] {
                TileOutcome::Committed | TileOutcome::CommittedIncomplete { .. } => {
                    n += 1;
                },
                _ => {},
            }
            i += 1;
        }
        n
    }
}

/// What a word outcome names is what it says: two values whose entries
/// clash, or a value without an entry.
pub open spec fn word_witness(o: TileOutcome, es: Seq<(usize, Seq<usize>)>, n: int) -> bool {
    &&& o matches TileOutcome::EncodingAmbiguous { value, other } ==> exists|i: int, j: int|
        0 <= i < j < es.len() && word_clash(es[i], es[j]) && es[i].0 == value && es[j].0 == other
    &&& o matches TileOutcome::IncompleteCoverage { missing_value } ==> missing_value < n && !has_entry(
        es,
        missing_value as int,
    )
}

/// What a pip outcome names is what it says: two sources whose entries
/// clash.
pub open spec fn pip_witness(o: TileOutcome, es: Seq<(Seq<char>, Seq<usize>)>) -> bool {
    o matches TileOutcome::PipOverlapConflict { from_wire, other_wire } ==> exists|i: int, j: int|
        0 <= i < j < es.len() && pip_clash(es[i], es[j]) && es[i].0 == from_wire@ && es[j].0 == other_wire@
}

/// The reported outcome is the one the proofs name.
pub open spec fn outcome_is(o: TileOutcome, r: TileResult) -> bool {
    match r {
        TileResult::Unchanged => o is Unchanged,
        TileResult::Committed => o is Committed,
        TileResult::Ambiguous => o is EncodingAmbiguous || o is PipOverlapConflict,
        TileResult::Incomplete => o is IncompleteCoverage,
        TileResult::Rejected => o is AliasConflict,
        TileResult::CommittedIncomplete => o is CommittedIncomplete,
    }
}

/// Number of values of a word of `width` bits, if a `u64` counts them.
pub fn value_count(width: usize) -> (r: Option<u64>)
    ensures
        r matches Some(n) ==> n == pow2w(width as nat),
        r is None <==> pow2w(width as nat) > u64::MAX,
{
    let mut n: u64 = 1;
    let mut i: usize = 0;
    while i < width
        invariant
            i <= width,
            n == pow2w(i as nat),
        decreases width - i,
    {
        match n.checked_mul(2) {
            None => {
                proof {
                    lemma_pow2w_monotone((i + 1) as nat, width as nat);
                }
                return None;
            },
            Some(m) => {
                n = m;
            },
        }
        i += 1;
    }
    Some(n)
}

/// Whether two chips have the same tiles, by number, type and size.
pub fn layouts_match(a: &Chip, b: &Chip) -> (r: bool)
    ensures
        r == same_layout(*a, *b),
{
    if a.tiles.len() != b.tiles.len() {
        return false;
    }
    let mut i: usize = 0;
    while i < a.tiles.len()
        invariant
            a.tiles@.len() == b.tiles@.len(),
            i <= a.tiles@.len(),
            forall|j: int| #![trigger a.tiles@[j], b.tiles@[j]]
                0 <= j < i ==> a.tiles@[j].tiletype@ == b.tiles@[j].tiletype@
                    && a.tiles@[j].cram@.len() == b.tiles@[j].cram@.len(),
        decreases a.tiles@.len() - i,
    {
        if a.tiles[i].tiletype != b.tiles[i].tiletype || a.tiles[i].cram.len() != b.tiles[i].cram.len() {
            return false;
        }
        i += 1;
    }
    true
}

/// Index of the first of `types` that no tile of the chip has.
fn first_unknown_type(c: &Chip, types: &Vec<String>) -> (r: Option<usize>)
    ensures
        r matches Some(j) ==> j < types@.len() && !type_known(*c, types@[j as int]@),
        r is None ==> forall|j: int| 0 <= j < types@.len() ==> type_known(*c, #[trigger] types@[j]@),
{
    let mut j: usize = 0;
    while j < types.len()
        invariant
            j <= types@.len(),
            forall|m: int| 0 <= m < j ==> type_known(*c, #[trigger] types@[m]@),
        decreases types@.len() - j,
    {
        let mut found = false;
        let mut i: usize = 0;
        while i < c.tiles.len()
            invariant
                j < types@.len(),
                i <= c.tiles@.len(),
                found ==> type_known(*c, types@[j as int]@),
                !found ==> forall|m: int| 0 <= m < i ==> c.tiles@[m].tiletype@ != types@[j as int]@,
            decreases c.tiles@.len() - i,
        {
            if c.tiles[i].tiletype == types[j] {
                found = true;
            }
            i += 1;
        }
        if !found {
            return Some(j);
        }
        j += 1;
    }
    None
}

/// Indices, in increasing order, of the tiles of the chip whose type is one
/// of `types`, leaving out the tile named `exclude`, if any.
fn studied_tiles(c: &Chip, types: &Vec<String>, exclude: Option<&String>) -> (r: Vec<usize>)
    ensures
        studies(r@, *c, types@, match exclude { Some(n) => Some(n@), None => None }),
{
    let ghost ex = match exclude { Some(n) => Some(n@), None => None };
    let mut r: Vec<usize> = Vec::new();
    let mut i: usize = 0;
    while i < c.tiles.len()
        invariant
            ex == match exclude { Some(n) => Some(n@), None => None },
            i <= c.tiles@.len(),
            is_bitset(r@),
            forall|k: int| 0 <= k < r@.len() ==> r@[k] < i && is_studied(*c, types@, ex, r@[k] as int),
            forall|m: int| 0 <= m < i && is_studied(*c, types@, ex, m) ==> r@.contains(m as usize),
        decreases c.tiles@.len() - i,
    {
        let mut typed = false;
        let mut j: usize = 0;
        while j < types.len()
            invariant
                i < c.tiles@.len(),
                j <= types@.len(),
                typed <==> exists|m: int| 0 <= m < j && types@[m]@ == c.tiles@[i as int].tiletype@,
            decreases types@.len() - j,
        {
            if types[j] == c.tiles[i].tiletype {
                typed = true;
            }
            j += 1;
        }
        let excluded = match exclude {
            Some(n) => c.tiles[i].name == *n,
            None => false,
        };
        assert(is_studied(*c, types@, ex, i as int) == (typed && !excluded));
        if typed && !excluded {
            let ghost old_r = r@;
            r.push(i);
            proof {
                assert forall|m: int| 0 <= m < i + 1 && is_studied(*c, types@, ex, m)
                    implies r@.contains(m as usize) by {
                    if m < i {
                        let q = choose|q: int| 0 <= q < old_r.len() && old_r[q] == m as usize;
                        assert(r@[q] == m as usize);
                    } else {
                        assert(r@[old_r.len() as int] == m as usize);
                    }
                }
            }
        }
        i += 1;
    }
    r
}

impl Fuzzer {
    /// The changed bits of each studied tile between the reference and `c`.
    fn diffs_of(&self, c: &Chip) -> (r: Vec<Vec<usize>>)
        requires
            self.wf(),
            same_layout(self.reference, *c),
        ensures
            diffs_view(r) == sample_diffs(self.reference, self.tiles@, *c),
            forall|k: int| 0 <= k < r@.len() ==> is_bitset(#[trigger] r@[k]@),
    {
        let mut r: Vec<Vec<usize>> = Vec::new();
        let mut k: usize = 0;
        while k < self.tiles.len()
            invariant
                self.wf(),
                same_layout(self.reference, *c),
                k <= self.tiles@.len(),
                diffs_view(r) =~= sample_diffs(self.reference, self.tiles@, *c).take(k as int),
                forall|m: int| 0 <= m < r@.len() ==> is_bitset(#[trigger] r@[m]@),
            decreases self.tiles@.len() - k,
        {
            let t = self.tiles[k];
            let a = &self.reference.tiles[t];
            let b = &c.tiles[t];
            let len = a.cram.len();
            assert(len == b.cram@.len());
            let d = diff(&a.cram, &b.cram);
            proof {
                lemma_diff_upto(a.cram@, b.cram@, len as int);
            }
            let ghost old_r = diffs_view(r);
            r.push(d);
            proof {
                assert(diffs_view(r) =~= old_r.push(d@));
                assert(sample_diffs(self.reference, self.tiles@, *c).take(k + 1) =~= sample_diffs(
                    self.reference,
                    self.tiles@,
                    *c,
                ).take(k as int).push(d@));
            }
            k += 1;
        }
        r
    }

    /// Opens a word session on word `name` of `width` bits, over the tiles of
    /// `base` whose type is in `fuzz_tiles`. Samples are diffed against
    /// `zero`, the chip with the word cleared.
    pub fn word_fuzzer(base: &Chip, fuzz_tiles: &Vec<String>, name: &String, width: usize, zero: Chip) -> (r:
        Result<Fuzzer, FuzzError>)
        ensures
            r matches Err(FuzzError::WidthTooLarge) <==> pow2w(width as nat) > u64::MAX,
            pow2w(width as nat) <= u64::MAX ==> (r matches Err(FuzzError::UnknownTileType(_)) <==> exists|j: int|
                0 <= j < fuzz_tiles@.len() && !type_known(*base, #[trigger] fuzz_tiles@[j]@)),
            r matches Err(FuzzError::UnknownTileType(t)) ==> exists|j: int|
                0 <= j < fuzz_tiles@.len() && fuzz_tiles@[j]@ == t@ && !type_known(*base, t@),
            r matches Err(FuzzError::LayoutMismatch) <==> (pow2w(width as nat) <= u64::MAX && (forall|j: int|
                0 <= j < fuzz_tiles@.len() ==> type_known(*base, #[trigger] fuzz_tiles@[j]@)) && !same_layout(
                *base,
                zero,
            )),
            !(r matches Err(FuzzError::IndexOutOfRange)),
            !(r matches Err(FuzzError::WrongKind)),
            r matches Ok(f) ==> {
                &&& f.wf()
                &&& f.kind == FuzzKind::Word
                &&& f.reference == zero
                &&& f.word@ == name@
                &&& f.width == width
                &&& studies(f.tiles@, *base, fuzz_tiles@, None)
                &&& f.word_samples@.len() == 0
                &&& f.pip_samples@.len() == 0
            },
    {
        if value_count(width).is_none() {
            return Err(FuzzError::WidthTooLarge);
        }
        match first_unknown_type(base, fuzz_tiles) {
            Some(j) => return Err(FuzzError::UnknownTileType(fuzz_tiles[j].clone())),
            None => {},
        }
        if !layouts_match(base, &zero) {
            return Err(FuzzError::LayoutMismatch);
        }
        let tiles = studied_tiles(base, fuzz_tiles, None);
        Ok(
            Fuzzer {
                kind: FuzzKind::Word,
                reference: zero,
                tiles,
                word: name.clone(),
                width,
                to_wire: String::new(),
                fixed_conn_tile: String::new(),
                full_mux: false,
                skip_fixed: false,
                word_samples: Vec::new(),
                pip_samples: Vec::new(),
            },
        )
    }

    /// Opens a pip session on destination wire `to_wire`, over the tiles of
    /// `base` whose type is in `fuzz_tiles`; with `skip_fixed`, the tile
    /// named `fixed_conn_tile` is left out. Samples are diffed against
    /// `base`. With `full_mux`, every known source of the wire is expected to
    /// be sampled.
    pub fn pip_fuzzer(
        base: Chip,
        fuzz_tiles: &Vec<String>,
        to_wire: &String,
        fixed_conn_tile: &String,
        full_mux: bool,
        skip_fixed: bool,
    ) -> (r: Result<Fuzzer, FuzzError>)
        ensures
            r matches Err(FuzzError::UnknownTileType(_)) <==> exists|j: int|
                0 <= j < fuzz_tiles@.len() && !type_known(base, #[trigger] fuzz_tiles@[j]@),
            r matches Err(FuzzError::UnknownTileType(t)) ==> exists|j: int|
                0 <= j < fuzz_tiles@.len() && fuzz_tiles@[j]@ == t@ && !type_known(base, t@),
            r is Err ==> r matches Err(FuzzError::UnknownTileType(_)),
            r matches Ok(f) ==> {
                &&& f.wf()
                &&& f.kind == FuzzKind::Pip
                &&& f.reference == base
                &&& f.to_wire@ == to_wire@
                &&& f.fixed_conn_tile@ == fixed_conn_tile@
                &&& f.full_mux == full_mux
                &&& f.skip_fixed == skip_fixed
                &&& studies(f.tiles@, base, fuzz_tiles@, if skip_fixed { Some(fixed_conn_tile@) } else { None })
                &&& f.word_samples@.len() == 0
                &&& f.pip_samples@.len() == 0
            },
    {
        match first_unknown_type(&base, fuzz_tiles) {
            Some(j) => return Err(FuzzError::UnknownTileType(fuzz_tiles[j].clone())),
            None => {},
        }
        let tiles = if skip_fixed {
            studied_tiles(&base, fuzz_tiles, Some(fixed_conn_tile))
        } else {
            studied_tiles(&base, fuzz_tiles, None)
        };
        Ok(
            Fuzzer {
                kind: FuzzKind::Pip,
                reference: base,
                tiles,
                word: String::new(),
                width: 0,
                to_wire: to_wire.clone(),
                fixed_conn_tile: fixed_conn_tile.clone(),
                full_mux,
                skip_fixed,
                word_samples: Vec::new(),
                pip_samples: Vec::new(),
            },
        )
    }

    /// Adds a word sample: `c` is the chip with value `index` of the word set.
    pub fn add_word_sample(&mut self, index: usize, c: &Chip) -> (r: Result<(), FuzzError>)
        requires
            old(self).wf(),
        ensures
            final(self).wf(),
            r matches Err(FuzzError::WrongKind) <==> old(self).kind != FuzzKind::Word,
            r matches Err(FuzzError::IndexOutOfRange) <==> (old(self).kind == FuzzKind::Word && index
                >= pow2w(old(self).width as nat)),
            r matches Err(FuzzError::LayoutMismatch) <==> (old(self).kind == FuzzKind::Word && index
                < pow2w(old(self).width as nat) && !same_layout(old(self).reference, *c)),
            !(r matches Err(FuzzError::WidthTooLarge)),
            !(r matches Err(FuzzError::UnknownTileType(_))),
            r is Err ==> *final(self) == *old(self),
            r is Ok ==> {
                &&& final(self).word_samples@.len() == old(self).word_samples@.len() + 1
                &&& final(self).word_samples@.drop_last() == old(self).word_samples@
                &&& final(self).word_samples@.last().index == index
                &&& diffs_view(final(self).word_samples@.last().diffs) == sample_diffs(
                    old(self).reference,
                    old(self).tiles@,
                    *c,
                )
                &&& final(self).pip_samples == old(self).pip_samples
                &&& final(self).reference == old(self).reference
                &&& final(self).tiles == old(self).tiles
                &&& final(self).kind == old(self).kind
                &&& final(self).word == old(self).word
                &&& final(self).width == old(self).width
            },
    {
        if self.kind != FuzzKind::Word {
            return Err(FuzzError::WrongKind);
        }
        let n = match value_count(self.width) {
            Some(n) => n,
            None => return Err(FuzzError::WrongKind),
        };
        if index as u64 >= n {
            return Err(FuzzError::IndexOutOfRange);
        }
        if !layouts_match(&self.reference, c) {
            return Err(FuzzError::LayoutMismatch);
        }
        let diffs = self.diffs_of(c);
        let ghost old_ss = self.word_samples@;
        self.word_samples.push(WordSample { index, diffs });
        proof {
            assert(self.word_samples@.drop_last() =~= old_ss);
            assert forall|s: int| #![trigger self.word_samples@[s]] 0 <= s < self.word_samples@.len() implies {
                &&& self.word_samples@[s].diffs@.len() == self.tiles@.len()
                &&& forall|k: int| 0 <= k < self.tiles@.len() ==> is_bitset(#[trigger] self.word_samples@[s].diffs@[k]@)
            } by {
                if s < old_ss.len() {
                    assert(self.word_samples@[s] == old_ss[s]);
                } else {
                    assert(diffs_view(self.word_samples@[s].diffs).len() == self.tiles@.len());
                }
            }
        }
        Ok(())
    }

    /// Adds a pip sample: `c` is the chip with `from_wire` connected.
    pub fn add_pip_sample(&mut self, from_wire: &String, c: &Chip) -> (r: Result<(), FuzzError>)
        requires
            old(self).wf(),
        ensures
            final(self).wf(),
            r matches Err(FuzzError::WrongKind) <==> old(self).kind != FuzzKind::Pip,
            r matches Err(FuzzError::LayoutMismatch) <==> (old(self).kind == FuzzKind::Pip && !same_layout(
                old(self).reference,
                *c,
            )),
            !(r matches Err(FuzzError::WidthTooLarge)),
            !(r matches Err(FuzzError::UnknownTileType(_))),
            !(r matches Err(FuzzError::IndexOutOfRange)),
            r is Err ==> *final(self) == *old(self),
            r is Ok ==> {
                &&& final(self).pip_samples@.len() == old(self).pip_samples@.len() + 1
                &&& final(self).pip_samples@.drop_last() == old(self).pip_samples@
                &&& final(self).pip_samples@.last().from_wire@ == from_wire@
                &&& diffs_view(final(self).pip_samples@.last().diffs) == sample_diffs(
                    old(self).reference,
                    old(self).tiles@,
                    *c,
                )
                &&& final(self).word_samples == old(self).word_samples
                &&& final(self).reference == old(self).reference
                &&& final(self).tiles == old(self).tiles
                &&& final(self).kind == old(self).kind
                &&& final(self).to_wire == old(self).to_wire
                &&& final(self).full_mux == old(self).full_mux
            },
    {
        if self.kind != FuzzKind::Pip {
            return Err(FuzzError::WrongKind);
        }
        if !layouts_match(&self.reference, c) {
            return Err(FuzzError::LayoutMismatch);
        }
        let diffs = self.diffs_of(c);
        let ghost old_ss = self.pip_samples@;
        self.pip_samples.push(PipSample { from_wire: from_wire.clone(), diffs });
        proof {
            assert(self.pip_samples@.drop_last() =~= old_ss);
            assert forall|s: int| #![trigger self.pip_samples@[s]] 0 <= s < self.pip_samples@.len() implies {
                &&& self.pip_samples@[s].diffs@.len() == self.tiles@.len()
                &&& forall|k: int| 0 <= k < self.tiles@.len() ==> is_bitset(#[trigger] self.pip_samples@[s].diffs@[k]@)
            } by {
                if s < old_ss.len() {
                    assert(self.pip_samples@[s] == old_ss[s]);
                } else {
                    assert(diffs_view(self.pip_samples@[s].diffs).len() == self.tiles@.len());
                }
            }
        }
        Ok(())
    }
}

/// The first value below `n` that no entry is for, if any.
pub fn first_uncovered(es: &Vec<(usize, Vec<usize>)>, n: u64) -> (r: Option<u64>)
    ensures
        r is None <==> covers(word_values(es@), n as int),
        r matches Some(v) ==> v < n && !has_entry(word_values(es@), v as int),
{
    let ghost vs = word_values(es@);
    let mut v: u64 = 0;
    while v < n
        invariant
            vs == word_values(es@),
            v <= n,
            forall|w: int| 0 <= w < v ==> #[trigger] has_entry(vs, w),
        decreases n - v,
    {
        let mut found = false;
        let mut i: usize = 0;
        while i < es.len()
            invariant
                vs == word_values(es@),
                v < n,
                i <= es@.len(),
                found ==> has_entry(vs, v as int),
                !found ==> forall|m: int| 0 <= m < i ==> vs[m].0 != v,
            decreases es@.len() - i,
        {
            if es[i].0 as u64 == v {
                assert(vs[i as int].0 == v);
                found = true;
            }
            i += 1;
        }
        if !found {
            assert(!has_entry(vs, v as int));
            return Some(v);
        }
        v += 1;
    }
    None
}

/// A source of `to_wire` that the database records and no entry samples, if
/// any.
fn unsampled(db: &Database, family: &String, tiletype: &String, to_wire: &String, es: &Vec<(String, Vec<usize>)>) -> (r:
    Option<String>)
    ensures
        r is None <==> !unsampled_source(pips_view(db.pips@), family@, tiletype@, to_wire@, pip_values(es@)),
{
    let ghost tb = pips_view(db.pips@);
    let ghost vs = pip_values(es@);
    let mut r: usize = 0;
    while r < db.pips.len()
        invariant
            tb == pips_view(db.pips@),
            vs == pip_values(es@),
            r <= db.pips@.len(),
            forall|a: int| 0 <= a < r && is_pip(tb[a], family@, tiletype@, to_wire@) ==> exists|i: int|
                0 <= i < vs.len() && vs[i].0 == tb[a].from_wire,
        decreases db.pips@.len() - r,
    {
        let rec = &db.pips[r];
        if rec.family == *family && rec.tiletype == *tiletype && rec.to_wire == *to_wire {
            let mut found = false;
            let mut i: usize = 0;
            while i < es.len()
                invariant
                    tb == pips_view(db.pips@),
                    vs == pip_values(es@),
                    r < db.pips@.len(),
                    rec == db.pips@[r as int],
                    i <= es@.len(),
                    found ==> exists|m: int| 0 <= m < vs.len() && vs[m].0 == tb[r as int].from_wire,
                    !found ==> forall|m: int| 0 <= m < i ==> vs[m].0 != tb[r as int].from_wire,
                decreases es@.len() - i,
            {
                if es[i].0 == rec.from_wire {
                    assert(vs[i as int].0 == tb[r as int].from_wire);
                    found = true;
                }
                i += 1;
            }
            if !found {
                assert(is_pip(tb[r as int], family@, tiletype@, to_wire@));
                return Some(rec.from_wire.clone());
            }
        }
        r += 1;
    }
    None
}

impl Fuzzer {
    /// Whether some word sample changed studied tile `k`.
    fn word_varies(&self, k: usize) -> (r: bool)
        requires
            self.wf(),
            k < self.tiles@.len(),
        ensures
            r == word_tile_varies(self.word_samples@, k as int),
    {
        let mut s: usize = 0;
        while s < self.word_samples.len()
            invariant
                self.wf(),
                k < self.tiles@.len(),
                s <= self.word_samples@.len(),
                forall|m: int| 0 <= m < s ==> self.word_samples@[m].diffs@[k as int]@.len() == 0,
            decreases self.word_samples@.len() - s,
        {
            assert(self.word_samples@[s as int].diffs@.len() == self.tiles@.len());
            if self.word_samples[s].diffs[k].len() > 0 {
                return true;
            }
            s += 1;
        }
        false
    }

    /// Whether some pip sample changed studied tile `k`.
    fn pip_varies(&self, k: usize) -> (r: bool)
        requires
            self.wf(),
            k < self.tiles@.len(),
        ensures
            r == pip_tile_varies(self.pip_samples@, k as int),
    {
        let mut s: usize = 0;
        while s < self.pip_samples.len()
            invariant
                self.wf(),
                k < self.tiles@.len(),
                s <= self.pip_samples@.len(),
                forall|m: int| 0 <= m < s ==> self.pip_samples@[m].diffs@[k as int]@.len() == 0,
            decreases self.pip_samples@.len() - s,
        {
            assert(self.pip_samples@[s as int].diffs@.len() == self.tiles@.len());
            if self.pip_samples[s].diffs[k].len() > 0 {
                return true;
            }
            s += 1;
        }
        false
    }

    /// The candidate encoding of studied tile `k`.
    fn word_entries_of(&self, k: usize) -> (r: Vec<(usize, Vec<usize>)>)
        requires
            self.wf(),
            k < self.tiles@.len(),
        ensures
            word_values(r@) == word_entries(self.word_samples@, k as int),
            forall|i: int| 0 <= i < r@.len() ==> is_bitset(#[trigger] r@[i].1@),
    {
        let ss = &self.word_samples;
        let mut zero = false;
        let mut s: usize = 0;
        while s < ss.len()
            invariant
                s <= ss@.len(),
                zero <==> exists|m: int| 0 <= m < s && ss@[m].index == 0,
            decreases ss@.len() - s,
        {
            if ss[s].index == 0 {
                zero = true;
            }
            s += 1;
        }
        let mut r: Vec<(usize, Vec<usize>)> = Vec::new();
        let ghost lead: Seq<(usize, Seq<usize>)> = if zero {
            Seq::empty()
        } else {
            seq![(0usize, Seq::<usize>::empty())]
        };
        if !zero {
            r.push((0, Vec::new()));
        }
        assert(word_values(r@) =~= lead);
        let mut s: usize = 0;
        while s < ss.len()
            invariant
                self.wf(),
                ss == self.word_samples,
                k < self.tiles@.len(),
                s <= ss@.len(),
                word_values(r@) =~= lead + sampled_words(ss@, k as int).take(s as int),
                forall|i: int| 0 <= i < r@.len() ==> is_bitset(#[trigger] r@[i].1@),
            decreases ss@.len() - s,
        {
            assert(ss@[s as int].diffs@.len() == self.tiles@.len());
            assert(is_bitset(ss@[s as int].diffs@[k as int]@));
            let bits = copy_bits(&ss[s].diffs[k]);
            let ghost old_r = word_values(r@);
            r.push((ss[s].index, bits));
            proof {
                assert(word_values(r@) =~= old_r.push((ss@[s as int].index, bits@)));
                assert(sampled_words(ss@, k as int).take(s + 1) =~= sampled_words(ss@, k as int).take(
                    s as int,
                ).push((ss@[s as int].index, ss@[s as int].diffs@[k as int]@)));
            }
            s += 1;
        }
        assert(sampled_words(ss@, k as int).take(ss@.len() as int) =~= sampled_words(ss@, k as int));
        r
    }

    /// The candidate connections of studied tile `k`.
    fn pip_entries_of(&self, k: usize) -> (r: Vec<(String, Vec<usize>)>)
        requires
            self.wf(),
            k < self.tiles@.len(),
        ensures
            pip_values(r@) == pip_entries(self.pip_samples@, k as int),
            forall|i: int| 0 <= i < r@.len() ==> is_bitset(#[trigger] r@[i].1@),
    {
        let ss = &self.pip_samples;
        let mut r: Vec<(String, Vec<usize>)> = Vec::new();
        let mut s: usize = 0;
        while s < ss.len()
            invariant
                self.wf(),
                ss == self.pip_samples,
                k < self.tiles@.len(),
                s <= ss@.len(),
                pip_values(r@) =~= pip_entries(ss@, k as int).take(s as int),
                forall|i: int| 0 <= i < r@.len() ==> is_bitset(#[trigger] r@[i].1@),
            decreases ss@.len() - s,
        {
            assert(ss@[s as int].diffs@.len() == self.tiles@.len());
            assert(is_bitset(ss@[s as int].diffs@[k as int]@));
            let bits = copy_bits(&ss[s].diffs[k]);
            let ghost old_r = pip_values(r@);
            r.push((ss[s].from_wire.clone(), bits));
            proof {
                assert(pip_values(r@) =~= old_r.push((ss@[s as int].from_wire@, bits@)));
                assert(pip_entries(ss@, k as int).take(s + 1) =~= pip_entries(ss@, k as int).take(
                    s as int,
                ).push((ss@[s as int].from_wire@, ss@[s as int].diffs@[k as int]@)));
            }
            s += 1;
        }
        assert(pip_entries(ss@, k as int).take(ss@.len() as int) =~= pip_entries(ss@, k as int));
        r
    }
}

impl Fuzzer {
    /// Solves a word session, tile after tile.
    fn solve_words(&self, db: &mut Database) -> (r: SolveReport)
        requires
            self.wf(),
            self.kind == FuzzKind::Word,
            old(db).wf(),
        ensures
            final(db).wf(),
            final(db).root == old(db).root,
            final(db).devices == old(db).devices,
            final(db).pips == old(db).pips,
            words_view(final(db).words@) == self.word_solved(words_view(old(db).words@), self.tiles@.len() as int),
            r.outcomes@.len() == self.tiles@.len(),
            forall|k: int| 0 <= k < self.tiles@.len() ==> outcome_is(
                #[trigger] r.outcomes@[k],
                self.word_result(self.word_solved(words_view(old(db).words@), k), k),
            ),
            forall|k: int| 0 <= k < self.tiles@.len() ==> word_witness(
                #[trigger] r.outcomes@[k],
                word_entries(self.word_samples@, k),
                pow2w(self.width as nat) as int,
            ),
    {
        let ghost tb0 = words_view(db.words@);
        let n = match value_count(self.width) {
            Some(n) => n,
            None => 0,
        };
        let mut outcomes: Vec<TileOutcome> = Vec::new();
        let mut k: usize = 0;
        while k < self.tiles.len()
            invariant
                self.wf(),
                self.kind == FuzzKind::Word,
                n == pow2w(self.width as nat),
                db.wf(),
                db.root == old(db).root,
                db.devices == old(db).devices,
                db.pips == old(db).pips,
                tb0 == words_view(old(db).words@),
                k <= self.tiles@.len(),
                words_view(db.words@) == self.word_solved(tb0, k as int),
                outcomes@.len() == k,
                forall|m: int| 0 <= m < k ==> outcome_is(
                    #[trigger] outcomes@[m],
                    self.word_result(self.word_solved(tb0, m), m),
                ),
                forall|m: int| 0 <= m < k ==> word_witness(
                    #[trigger] outcomes@[m],
                    word_entries(self.word_samples@, m),
                    pow2w(self.width as nat) as int,
                ),
            decreases self.tiles@.len() - k,
        {
            let t = self.tiles[k];
            let tiletype = &self.reference.tiles[t].tiletype;
            let outcome = if !self.word_varies(k) {
                TileOutcome::Unchanged
            } else {
                let es = self.word_entries_of(k);
                match find_word_clash(&es) {
                    Some((i, j)) => TileOutcome::EncodingAmbiguous { value: es[i].0, other: es[j].0 },
                    None => match first_uncovered(&es, n) {
                        Some(v) => TileOutcome::IncompleteCoverage { missing_value: v },
                        None => match db.merge_word(&self.reference.family, tiletype, &self.word, &es) {
                            Ok(()) => TileOutcome::Committed,
                            Err(e) => TileOutcome::AliasConflict { conflict: e },
                        },
                    },
                }
            };
            outcomes.push(outcome);
            proof {
                assert(outcomes@[k as int] == outcome);
            }
            k += 1;
        }
        SolveReport { outcomes }
    }

    /// Solves a pip session, tile after tile.
    fn solve_pips(&self, db: &mut Database) -> (r: SolveReport)
        requires
            self.wf(),
            old(db).wf(),
        ensures
            final(db).wf(),
            final(db).root == old(db).root,
            final(db).devices == old(db).devices,
            final(db).words == old(db).words,
            pips_view(final(db).pips@) == self.pip_solved(pips_view(old(db).pips@), self.tiles@.len() as int),
            r.outcomes@.len() == self.tiles@.len(),
            forall|k: int| 0 <= k < self.tiles@.len() ==> outcome_is(
                #[trigger] r.outcomes@[k],
                self.pip_result(self.pip_solved(pips_view(old(db).pips@), k), k),
            ),
            forall|k: int| 0 <= k < self.tiles@.len() ==> pip_witness(
                #[trigger] r.outcomes@[k],
                pip_entries(self.pip_samples@, k),
            ),
    {
        let ghost tb0 = pips_view(db.pips@);
        let mut outcomes: Vec<TileOutcome> = Vec::new();
        let mut k: usize = 0;
        while k < self.tiles.len()
            invariant
                self.wf(),
                db.wf(),
                db.root == old(db).root,
                db.devices == old(db).devices,
                db.words == old(db).words,
                tb0 == pips_view(old(db).pips@),
                k <= self.tiles@.len(),
                pips_view(db.pips@) == self.pip_solved(tb0, k as int),
                outcomes@.len() == k,
                forall|m: int| 0 <= m < k ==> outcome_is(
                    #[trigger] outcomes@[m],
                    self.pip_result(self.pip_solved(tb0, m), m),
                ),
                forall|m: int| 0 <= m < k ==> pip_witness(
                    #[trigger] outcomes@[m],
                    pip_entries(self.pip_samples@, m),
                ),
            decreases self.tiles@.len() - k,
        {
            let t = self.tiles[k];
            let tiletype = &self.reference.tiles[t].tiletype;
            let outcome = if !self.pip_varies(k) {
                TileOutcome::Unchanged
            } else {
                let es = self.pip_entries_of(k);
                match find_pip_clash(&es) {
                    Some((i, j)) => TileOutcome::PipOverlapConflict {
                        from_wire: es[i].0.clone(),
                        other_wire: es[j].0.clone(),
                    },
                    None => {
                        let missing = if self.full_mux {
                            unsampled(db, &self.reference.family, tiletype, &self.to_wire, &es)
                        } else {
                            None
                        };
                        match db.merge_pip(&self.reference.family, tiletype, &self.to_wire, &es) {
                            Ok(()) => match missing {
                                Some(w) => TileOutcome::CommittedIncomplete { source: w },
                                None => TileOutcome::Committed,
                            },
                            Err(e) => TileOutcome::AliasConflict { conflict: e },
                        }
                    },
                }
            };
            outcomes.push(outcome);
            proof {
                assert(outcomes@[k as int] == outcome);
            }
            k += 1;
        }
        SolveReport { outcomes }
    }

    /// Solves each studied tile from all samples taken so far, records what
    /// it can in `db`, and reports one outcome per tile. Samples are kept,
    /// so more can be added and the session solved again.
    pub fn solve(&self, db: &mut Database) -> (r: SolveReport)
        requires
            self.wf(),
            old(db).wf(),
        ensures
            final(db).wf(),
            final(db).root == old(db).root,
            final(db).devices == old(db).devices,
            r.outcomes@.len() == self.tiles@.len(),
            self.kind == FuzzKind::Word ==> {
                &&& final(db).pips == old(db).pips
                &&& words_view(final(db).words@) == self.word_solved(
                    words_view(old(db).words@),
                    self.tiles@.len() as int,
                )
                &&& forall|k: int| 0 <= k < self.tiles@.len() ==> outcome_is(
                    #[trigger] r.outcomes@[k],
                    self.word_result(self.word_solved(words_view(old(db).words@), k), k),
                )
                &&& forall|k: int| 0 <= k < self.tiles@.len() ==> word_witness(
                    #[trigger] r.outcomes@[k],
                    word_entries(self.word_samples@, k),
                    pow2w(self.width as nat) as int,
                )
            },
            self.kind == FuzzKind::Pip ==> {
                &&& final(db).words == old(db).words
                &&& pips_view(final(db).pips@) == self.pip_solved(
                    pips_view(old(db).pips@),
                    self.tiles@.len() as int,
                )
                &&& forall|k: int| 0 <= k < self.tiles@.len() ==> outcome_is(
                    #[trigger] r.outcomes@[k],
                    self.pip_result(self.pip_solved(pips_view(old(db).pips@), k), k),
                )
                &&& forall|k: int| 0 <= k < self.tiles@.len() ==> pip_witness(
                    #[trigger] r.outcomes@[k],
                    pip_entries(self.pip_samples@, k),
                )
            },
    {
        match self.kind {
            FuzzKind::Word => self.solve_words(db),
            FuzzKind::Pip => self.solve_pips(db),
        }
    }
}

/// Two word samples for different values that changed the same bits of a
/// tile make that tile ambiguous, whenever any sample changed it, and then
/// nothing is recorded for it.
pub proof fn lemma_ambiguity_detected(fz: Fuzzer, tb: Seq<WordRec>, k: int, a: int, b: int)
    requires
        fz.wf(),
        0 <= k < fz.tiles@.len(),
        0 <= a < fz.word_samples@.len(),
        0 <= b < fz.word_samples@.len(),
        fz.word_samples@[a].index != fz.word_samples@[b].index,
        fz.word_samples@[a].diffs@[k]@ == fz.word_samples@[b].diffs@[k]@,
        word_tile_varies(fz.word_samples@, k),
    ensures
        fz.word_result(tb, k) is Ambiguous,
        fz.word_solved(tb, k + 1) == fz.word_solved(tb, k),
        fz.word_result(fz.word_solved(tb, k), k) is Ambiguous,
{
    let ss = fz.word_samples@;
    let sw = sampled_words(ss, k);
    let es = word_entries(ss, k);
    let (i, j) = if a < b { (a, b) } else { (b, a) };
    if zero_sampled(ss) {
        assert(es[i] == sw[i] && es[j] == sw[j]);
        assert(word_clash(es[i], es[j]));
    } else {
        assert(es[i + 1] == sw[i] && es[j + 1] == sw[j]);
        assert(word_clash(es[i + 1], es[j + 1]));
    }
    assert(word_values_clash(es));
}

/// Two pip samples for different sources that changed overlapping bits of a
/// tile make that tile conflicting, and then nothing is recorded for it.
pub proof fn lemma_pip_overlap_detected(fz: Fuzzer, tb: Seq<PipRec>, k: int, a: int, b: int)
    requires
        fz.wf(),
        0 <= k < fz.tiles@.len(),
        0 <= a < fz.pip_samples@.len(),
        0 <= b < fz.pip_samples@.len(),
        fz.pip_samples@[a].from_wire@ != fz.pip_samples@[b].from_wire@,
        overlaps(fz.pip_samples@[a].diffs@[k]@, fz.pip_samples@[b].diffs@[k]@),
    ensures
        fz.pip_result(tb, k) is Ambiguous,
        fz.pip_solved(tb, k + 1) == fz.pip_solved(tb, k),
        fz.pip_result(fz.pip_solved(tb, k), k) is Ambiguous,
{
    let ss = fz.pip_samples@;
    let es = pip_entries(ss, k);
    assert(ss[a].diffs@[k]@.len() > 0);
    assert(pip_tile_varies(ss, k));
    crate::bits::lemma_overlaps_symmetric(ss[a].diffs@[k]@, ss[b].diffs@[k]@);
    let (i, j) = if a < b { (a, b) } else { (b, a) };
    assert(es[i] == (ss[i].from_wire@, ss[i].diffs@[k]@));
    assert(es[j] == (ss[j].from_wire@, ss[j].diffs@[k]@));
    assert(pip_clash(es[i], es[j]));
    assert(pip_values_clash(es));
}

proof fn lemma_word_solved_extends(fz: Fuzzer, tb: Seq<WordRec>, k: int, m: int)
    requires
        0 <= k <= m,
    ensures
        fz.word_solved(tb, m).len() >= fz.word_solved(tb, k).len(),
        forall|r: int| 0 <= r < fz.word_solved(tb, k).len() ==> fz.word_solved(tb, m)[r] == fz.word_solved(tb, k)[r],
    decreases m - k,
{
    if k < m {
        lemma_word_solved_extends(fz, tb, k, m - 1);
        lemma_add_words_extends(
            fz.word_solved(tb, m - 1),
            fz.reference.family@,
            fz.tiletype_of(m - 1),
            fz.word@,
            word_entries(fz.word_samples@, m - 1),
        );
    }
}

proof fn lemma_word_commit_persists(fz: Fuzzer, tb: Seq<WordRec>, k: int, m: int)
    requires
        0 <= k < m,
        fz.word_result(fz.word_solved(tb, k), k) is Committed,
    ensures
        !word_table_clash(fz.word_solved(tb, m), fz.reference.family@, fz.tiletype_of(k), fz.word@,
            word_entries(fz.word_samples@, k)),
        forall|i: int| 0 <= i < word_entries(fz.word_samples@, k).len() ==> word_present(
            fz.word_solved(tb, m),
            fz.reference.family@,
            fz.tiletype_of(k),
            fz.word@,
            #[trigger] word_entries(fz.word_samples@, k)[i],
        ),
    decreases m - k,
{
    let f = fz.reference.family@;
    let w = fz.word@;
    let tk = fz.tiletype_of(k);
    let ek = word_entries(fz.word_samples@, k);
    if m == k + 1 {
        let prev = fz.word_solved(tb, k);
        lemma_add_words_present(prev, f, tk, w, ek);
        lemma_add_words_extends(prev, f, tk, w, ek);
        let nt = fz.word_solved(tb, m);
        assert(!word_table_clash(nt, f, tk, w, ek)) by {
            if word_table_clash(nt, f, tk, w, ek) {
                let (r, i) = choose|r: int, i: int|
                    0 <= r < nt.len() && 0 <= i < ek.len() && is_word(nt[r], f, tk, w) && word_clash((nt[r].value, nt[r].bits), ek[i]);
                if r < prev.len() {
                    assert(nt[r] == prev[r]);
                } else {
                    let j = choose|j: int| 0 <= j < ek.len() && ek[j] == (nt[r].value, nt[r].bits);
                    if j < i {
                        assert(!word_clash(ek[j], ek[i]));
                    } else if i < j {
                        assert(!word_clash(ek[i], ek[j]));
                    }
                }
            }
        }
    } else {
        lemma_word_commit_persists(fz, tb, k, m - 1);
        let prev = fz.word_solved(tb, m - 1);
        let tm = fz.tiletype_of(m - 1);
        let em = word_entries(fz.word_samples@, m - 1);
        if fz.word_result(prev, m - 1) is Committed {
            lemma_add_words_extends(prev, f, tm, w, em);
            let nt = fz.word_solved(tb, m);
            assert forall|i: int| 0 <= i < ek.len() implies word_present(nt, f, tk, w, #[trigger] ek[i]) by {
                let q = choose|q: int| 0 <= q < prev.len() && is_word(prev[q], f, tk, w) && prev[q].value == ek[i].0 && prev[q].bits == ek[i].1;
                assert(nt[q] == prev[q]);
            }
            assert(!word_table_clash(nt, f, tk, w, ek)) by {
                if word_table_clash(nt, f, tk, w, ek) {
                    let (r, i) = choose|r: int, i: int|
                        0 <= r < nt.len() && 0 <= i < ek.len() && is_word(nt[r], f, tk, w) && word_clash((nt[r].value, nt[r].bits), ek[i]);
                    if r < prev.len() {
                        assert(nt[r] == prev[r]);
                    } else {
                        let j = choose|j: int| 0 <= j < em.len() && em[j] == (nt[r].value, nt[r].bits);
                        assert(word_present(prev, f, tk, w, ek[i]));
                        let q = choose|q: int| 0 <= q < prev.len() && is_word(prev[q], f, tk, w) && prev[q].value == ek[i].0 && prev[q].bits == ek[i].1;
                        assert(tm == tk);
                        assert(!word_clash((prev[q].value, prev[q].bits), em[j]));
                    }
                }
            }
        }
    }
}

proof fn lemma_word_resolve_prefix(fz: Fuzzer, tb: Seq<WordRec>, k: int)
    requires
        0 <= k <= fz.tiles@.len(),
    ensures
        fz.word_solved(fz.word_solved(tb, fz.tiles@.len() as int), k) == fz.word_solved(tb, fz.tiles@.len() as int),
        forall|j: int| 0 <= j < k ==> #[trigger] fz.word_result(
            fz.word_solved(fz.word_solved(tb, fz.tiles@.len() as int), j),
            j,
        ) == fz.word_result(fz.word_solved(tb, j), j),
    decreases k,
{
    let n = fz.tiles@.len() as int;
    let t1 = fz.word_solved(tb, n);
    if k > 0 {
        let j = k - 1;
        lemma_word_resolve_prefix(fz, tb, j);
        let f = fz.reference.family@;
        let w = fz.word@;
        let tj = fz.tiletype_of(j);
        let ej = word_entries(fz.word_samples@, j);
        let sj = fz.word_solved(tb, j);
        lemma_word_solved_extends(fz, tb, j, n);
        if word_tile_varies(fz.word_samples@, j) && !word_values_clash(ej) && covers(ej, pow2w(fz.width as nat) as int) {
            if word_table_clash(sj, f, tj, w, ej) {
                let (r, i) = choose|r: int, i: int|
                    0 <= r < sj.len() && 0 <= i < ej.len() && is_word(sj[r], f, tj, w) && word_clash((sj[r].value, sj[r].bits), ej[i]);
                assert(t1[r] == sj[r]);
                assert(word_table_clash(t1, f, tj, w, ej));
            } else {
                lemma_word_commit_persists(fz, tb, j, n);
                assert forall|i: int| 0 <= i < ej.len() implies has_value(t1, f, tj, w, (#[trigger] ej[i]).0) by {
                    assert(word_present(t1, f, tj, w, ej[i]));
                }
                lemma_add_words_recorded(t1, f, tj, w, ej);
            }
        }
        assert(fz.word_result(fz.word_solved(t1, j), j) == fz.word_result(sj, j));
    }
}

/// Solving twice with no new samples: the second solve finds the same
/// outcome for every tile as the first, and leaves the word table as the
/// first left it.
pub proof fn lemma_word_solve_idempotent(fz: Fuzzer, tb: Seq<WordRec>)
    ensures
        fz.word_solved(fz.word_solved(tb, fz.tiles@.len() as int), fz.tiles@.len() as int) == fz.word_solved(
            tb,
            fz.tiles@.len() as int,
        ),
        forall|k: int| 0 <= k < fz.tiles@.len() ==> #[trigger] fz.word_result(
            fz.word_solved(fz.word_solved(tb, fz.tiles@.len() as int), k),
            k,
        ) == fz.word_result(fz.word_solved(tb, k), k),
{
    lemma_word_resolve_prefix(fz, tb, fz.tiles@.len() as int);
}

proof fn lemma_pip_solved_extends(fz: Fuzzer, tb: Seq<PipRec>, k: int, m: int)
    requires
        0 <= k <= m,
    ensures
        fz.pip_solved(tb, m).len() >= fz.pip_solved(tb, k).len(),
        forall|r: int| 0 <= r < fz.pip_solved(tb, k).len() ==> fz.pip_solved(tb, m)[r] == fz.pip_solved(tb, k)[r],
    decreases m - k,
{
    if k < m {
        lemma_pip_solved_extends(fz, tb, k, m - 1);
        lemma_add_pips_extends(
            fz.pip_solved(tb, m - 1),
            fz.reference.family@,
            fz.tiletype_of(m - 1),
            fz.to_wire@,
            pip_entries(fz.pip_samples@, m - 1),
        );
    }
}

proof fn lemma_pip_commit_persists(fz: Fuzzer, tb: Seq<PipRec>, k: int, m: int)
    requires
        0 <= k < m,
        fz.pip_result(fz.pip_solved(tb, k), k) is Committed || fz.pip_result(fz.pip_solved(tb, k), k) is CommittedIncomplete,
    ensures
        !pip_table_clash(fz.pip_solved(tb, m), fz.reference.family@, fz.tiletype_of(k), fz.to_wire@,
            pip_entries(fz.pip_samples@, k)),
        forall|i: int| 0 <= i < pip_entries(fz.pip_samples@, k).len() ==> pip_present(
            fz.pip_solved(tb, m),
            fz.reference.family@,
            fz.tiletype_of(k),
            fz.to_wire@,
            #[trigger] pip_entries(fz.pip_samples@, k)[i],
        ),
    decreases m - k,
{
    let f = fz.reference.family@;
    let w = fz.to_wire@;
    let tk = fz.tiletype_of(k);
    let ek = pip_entries(fz.pip_samples@, k);
    if m == k + 1 {
        let prev = fz.pip_solved(tb, k);
        lemma_add_pips_present(prev, f, tk, w, ek);
        lemma_add_pips_extends(prev, f, tk, w, ek);
        let nt = fz.pip_solved(tb, m);
        assert(!pip_table_clash(nt, f, tk, w, ek)) by {
            if pip_table_clash(nt, f, tk, w, ek) {
                let (r, i) = choose|r: int, i: int|
                    0 <= r < nt.len() && 0 <= i < ek.len() && is_pip(nt[r], f, tk, w) && pip_clash((nt[r].from_wire, nt[r].bits), ek[i]);
                if r < prev.len() {
                    assert(nt[r] == prev[r]);
                } else {
                    let j = choose|j: int| 0 <= j < ek.len() && ek[j] == (nt[r].from_wire, nt[r].bits);
                    if j < i {
                        assert(!pip_clash(ek[j], ek[i]));
                    } else if i < j {
                        assert(!pip_clash(ek[i], ek[j]));
                        crate::bits::lemma_overlaps_symmetric(ek[i].1, ek[j].1);
                    }
                }
            }
        }
    } else {
        lemma_pip_commit_persists(fz, tb, k, m - 1);
        let prev = fz.pip_solved(tb, m - 1);
        let tm = fz.tiletype_of(m - 1);
        let em = pip_entries(fz.pip_samples@, m - 1);
        let rm = fz.pip_result(prev, m - 1);
        if rm is Committed || rm is CommittedIncomplete {
            lemma_add_pips_extends(prev, f, tm, w, em);
            let nt = fz.pip_solved(tb, m);
            assert forall|i: int| 0 <= i < ek.len() implies pip_present(nt, f, tk, w, #[trigger] ek[i]) by {
                let q = choose|q: int| 0 <= q < prev.len() && is_pip(prev[q], f, tk, w) && prev[q].from_wire == ek[i].0 && prev[q].bits == ek[i].1;
                assert(nt[q] == prev[q]);
            }
            assert(!pip_table_clash(nt, f, tk, w, ek)) by {
                if pip_table_clash(nt, f, tk, w, ek) {
                    let (r, i) = choose|r: int, i: int|
                        0 <= r < nt.len() && 0 <= i < ek.len() && is_pip(nt[r], f, tk, w) && pip_clash((nt[r].from_wire, nt[r].bits), ek[i]);
                    if r < prev.len() {
                        assert(nt[r] == prev[r]);
                    } else {
                        let j = choose|j: int| 0 <= j < em.len() && em[j] == (nt[r].from_wire, nt[r].bits);
                        assert(pip_present(prev, f, tk, w, ek[i]));
                        let q = choose|q: int| 0 <= q < prev.len() && is_pip(prev[q], f, tk, w) && prev[q].from_wire == ek[i].0 && prev[q].bits == ek[i].1;
                        assert(tm == tk);
                        assert(!pip_clash((prev[q].from_wire, prev[q].bits), em[j]));
                        crate::bits::lemma_overlaps_symmetric(prev[q].bits, em[j].1);
                    }
                }
            }
        }
    }
}

proof fn lemma_pip_solved_sources(fz: Fuzzer, tb: Seq<PipRec>, j: int, m: int)
    requires
        0 <= j <= m,
    ensures
        forall|r: int| fz.pip_solved(tb, j).len() <= r < fz.pip_solved(tb, m).len() ==> exists|i: int|
            0 <= i < fz.pip_samples@.len() && fz.pip_samples@[i].from_wire@ == (
            #[trigger] fz.pip_solved(tb, m)[r]).from_wire,
    decreases m - j,
{
    if j < m {
        lemma_pip_solved_sources(fz, tb, j, m - 1);
        let prev = fz.pip_solved(tb, m - 1);
        let cur = fz.pip_solved(tb, m);
        let em = pip_entries(fz.pip_samples@, m - 1);
        lemma_add_pips_extends(prev, fz.reference.family@, fz.tiletype_of(m - 1), fz.to_wire@, em);
        assert forall|r: int| fz.pip_solved(tb, j).len() <= r < cur.len() implies exists|i: int|
            0 <= i < fz.pip_samples@.len() && fz.pip_samples@[i].from_wire@ == (#[trigger] cur[r]).from_wire by {
            if r < prev.len() {
                assert(cur[r] == prev[r]);
            } else {
                let i = choose|i: int| 0 <= i < em.len() && em[i] == (cur[r].from_wire, cur[r].bits);
                assert(fz.pip_samples@[i].from_wire@ == em[i].0);
            }
        }
    }
}

proof fn lemma_pip_resolve_prefix(fz: Fuzzer, tb: Seq<PipRec>, k: int)
    requires
        0 <= k <= fz.tiles@.len(),
    ensures
        fz.pip_solved(fz.pip_solved(tb, fz.tiles@.len() as int), k) == fz.pip_solved(tb, fz.tiles@.len() as int),
        forall|j: int| 0 <= j < k ==> #[trigger] fz.pip_result(
            fz.pip_solved(fz.pip_solved(tb, fz.tiles@.len() as int), j),
            j,
        ) == fz.pip_result(fz.pip_solved(tb, j), j),
    decreases k,
{
    let n = fz.tiles@.len() as int;
    let t1 = fz.pip_solved(tb, n);
    if k > 0 {
        let j = k - 1;
        lemma_pip_resolve_prefix(fz, tb, j);
        let f = fz.reference.family@;
        let w = fz.to_wire@;
        let tj = fz.tiletype_of(j);
        let ej = pip_entries(fz.pip_samples@, j);
        let sj = fz.pip_solved(tb, j);
        lemma_pip_solved_extends(fz, tb, j, n);
        if pip_tile_varies(fz.pip_samples@, j) && !pip_values_clash(ej) {
            if pip_table_clash(sj, f, tj, w, ej) {
                let (r, i) = choose|r: int, i: int|
                    0 <= r < sj.len() && 0 <= i < ej.len() && is_pip(sj[r], f, tj, w) && pip_clash((sj[r].from_wire, sj[r].bits), ej[i]);
                assert(t1[r] == sj[r]);
                assert(pip_table_clash(t1, f, tj, w, ej));
            } else {
                lemma_pip_commit_persists(fz, tb, j, n);
                assert forall|i: int| 0 <= i < ej.len() implies has_source(t1, f, tj, w, (#[trigger] ej[i]).0) by {
                    assert(pip_present(t1, f, tj, w, ej[i]));
                }
                lemma_add_pips_recorded(t1, f, tj, w, ej);
                lemma_pip_solved_sources(fz, tb, j, n);
                if unsampled_source(t1, f, tj, w, ej) {
                    let r = choose|r: int| 0 <= r < t1.len() && is_pip(t1[r], f, tj, w) && forall|i: int|
                        0 <= i < ej.len() ==> ej[i].0 != t1[r].from_wire;
                    if r < sj.len() {
                        assert(t1[r] == sj[r]);
                    } else {
                        let i = choose|i: int| 0 <= i < fz.pip_samples@.len() && fz.pip_samples@[i].from_wire@ == t1[r].from_wire;
                        assert(ej[i].0 == fz.pip_samples@[i].from_wire@);
                    }
                }
                if unsampled_source(sj, f, tj, w, ej) {
                    let r = choose|r: int| 0 <= r < sj.len() && is_pip(sj[r], f, tj, w) && forall|i: int|
                        0 <= i < ej.len() ==> ej[i].0 != sj[r].from_wire;
                    assert(t1[r] == sj[r]);
                }
            }
        }
        assert(fz.pip_result(fz.pip_solved(t1, j), j) == fz.pip_result(sj, j));
    }
}

/// Solving twice with no new samples: the second solve finds the same
/// outcome for every tile as the first, and leaves the pip table as the
/// first left it.
pub proof fn lemma_pip_solve_idempotent(fz: Fuzzer, tb: Seq<PipRec>)
    ensures
        fz.pip_solved(fz.pip_solved(tb, fz.tiles@.len() as int), fz.tiles@.len() as int) == fz.pip_solved(
            tb,
            fz.tiles@.len() as int,
        ),
        forall|k: int| 0 <= k < fz.tiles@.len() ==> #[trigger] fz.pip_result(
            fz.pip_solved(fz.pip_solved(tb, fz.tiles@.len() as int), k),
            k,
        ) == fz.pip_result(fz.pip_solved(tb, k), k),
{
    lemma_pip_resolve_prefix(fz, tb, fz.tiles@.len() as int);
}

} // verus!
