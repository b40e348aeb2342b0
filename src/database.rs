//! The database of discovered encodings: for each family and tile type, the
//! bit set of every known value of every configuration word, and the bit set
//! enabling every known connection into every destination wire.
use vstd::prelude::*;
use crate::bits::{is_bitset, overlaps, same_bits, bits_overlap, copy_bits};
use crate::geometry::DeviceGeometry;

verus! {

/// The bits that set configuration word `word` of tile type `tiletype` to
/// `value`.
pub struct WordBits {
    pub family: String,
    pub tiletype: String,
    pub word: String,
    pub value: usize,
    pub bits: Vec<usize>,
}

/// The bits that connect `from_wire` to `to_wire` in tile type `tiletype`.
pub struct PipBits {
    pub family: String,
    pub tiletype: String,
    pub to_wire: String,
    pub from_wire: String,
    pub bits: Vec<usize>,
}

/// What a `WordBits` record says.
pub struct WordRec {
    pub family: Seq<char>,
    pub tiletype: Seq<char>,
    pub word: Seq<char>,
    pub value: usize,
    pub bits: Seq<usize>,
}

/// What a `PipBits` record says.
pub struct PipRec {
    pub family: Seq<char>,
    pub tiletype: Seq<char>,
    pub to_wire: Seq<char>,
    pub from_wire: Seq<char>,
    pub bits: Seq<usize>,
}

impl View for WordBits {
    type V = WordRec;

    open spec fn view(&self) -> WordRec {
        WordRec {
            family: self.family@,
            tiletype: self.tiletype@,
            word: self.word@,
            value: self.value,
            bits: self.bits@,
        }
    }
}

impl View for PipBits {
    type V = PipRec;

    open spec fn view(&self) -> PipRec {
        PipRec {
            family: self.family@,
            tiletype: self.tiletype@,
            to_wire: self.to_wire@,
            from_wire: self.from_wire@,
            bits: self.bits@,
        }
    }
}

/// Two merges that could not both hold.
#[derive(PartialEq, Eq, Debug)]
pub enum MergeConflict {
    /// Values `value` and `other` of a word would share a bit set, or value
    /// `value` would get a second, different bit set (then `other == value`).
    WordAlias { value: usize, other: usize },
    /// Sources `from_wire` and `other_wire` of a destination wire would
    /// share a bit, or `from_wire` would get a second, different bit set.
    PipOverlap { from_wire: String, other_wire: String },
}

/// Root of the store: device geometry, and every recorded encoding.
pub struct Database {
    pub root: String,
    pub devices: Vec<DeviceGeometry>,
    pub words: Vec<WordBits>,
    pub pips: Vec<PipBits>,
}

/// The records of a word table.
pub open spec fn words_view(ws: Seq<WordBits>) -> Seq<WordRec> {
    ws.map_values(|r: WordBits| r@)
}

/// The records of a pip table.
pub open spec fn pips_view(ps: Seq<PipBits>) -> Seq<PipRec> {
    ps.map_values(|r: PipBits| r@)
}

/// A word result handed to a merge: each value with its bit set.
pub open spec fn word_values(vs: Seq<(usize, Vec<usize>)>) -> Seq<(usize, Seq<usize>)> {
    vs.map_values(|p: (usize, Vec<usize>)| (p.0, p.1@))
}

/// A pip result handed to a merge: each source wire with its bit set.
pub open spec fn pip_values(vs: Seq<(String, Vec<usize>)>) -> Seq<(Seq<char>, Seq<usize>)> {
    vs.map_values(|p: (String, Vec<usize>)| (p.0@, p.1@))
}

/// Two (value, bits) pairs of one word cannot both be recorded: one value
/// with two bit sets, or two values with one bit set.
pub open spec fn word_clash(a: (usize, Seq<usize>), b: (usize, Seq<usize>)) -> bool {
    (a.0 == b.0 && a.1 != b.1) || (a.0 != b.0 && a.1 == b.1)
}

/// Two (source, bits) pairs of one destination cannot both be recorded: one
/// source with two bit sets, or two sources sharing a bit.
pub open spec fn pip_clash(a: (Seq<char>, Seq<usize>), b: (Seq<char>, Seq<usize>)) -> bool {
    (a.0 == b.0 && a.1 != b.1) || (a.0 != b.0 && overlaps(a.1, b.1))
}

pub open spec fn is_word(r: WordRec, f: Seq<char>, t: Seq<char>, w: Seq<char>) -> bool {
    r.family == f && r.tiletype == t && r.word == w
}

pub open spec fn is_pip(r: PipRec, f: Seq<char>, t: Seq<char>, to: Seq<char>) -> bool {
    r.family == f && r.tiletype == t && r.to_wire == to
}

/// Some two entries of a word result clash.
pub open spec fn word_values_clash(vs: Seq<(usize, Seq<usize>)>) -> bool {
    exists|i: int, j: int| 0 <= i < j < vs.len() && word_clash(vs[i], vs[j])
}

/// Some entry of a word result clashes with a record of the same word.
pub open spec fn word_table_clash(
    tb: Seq<WordRec>,
    f: Seq<char>,
    t: Seq<char>,
    w: Seq<char>,
    vs: Seq<(usize, Seq<usize>)>,
) -> bool {
    exists|r: int, i: int|
        0 <= r < tb.len() && 0 <= i < vs.len() && is_word(tb[r], f, t, w) && word_clash(
            (tb[r].value, tb[r].bits),
            vs[i],
        )
}

/// Some two entries of a pip result clash.
pub open spec fn pip_values_clash(vs: Seq<(Seq<char>, Seq<usize>)>) -> bool {
    exists|i: int, j: int| 0 <= i < j < vs.len() && pip_clash(vs[i], vs[j])
}

/// Some entry of a pip result clashes with a record of the same destination.
pub open spec fn pip_table_clash(
    tb: Seq<PipRec>,
    f: Seq<char>,
    t: Seq<char>,
    to: Seq<char>,
    vs: Seq<(Seq<char>, Seq<usize>)>,
) -> bool {
    exists|r: int, i: int|
        0 <= r < tb.len() && 0 <= i < vs.len() && is_pip(tb[r], f, t, to) && pip_clash(
            (tb[r].from_wire, tb[r].bits),
            vs[i],
        )
}

/// The word table records value `v` of the word.
pub open spec fn has_value(tb: Seq<WordRec>, f: Seq<char>, t: Seq<char>, w: Seq<char>, v: usize) -> bool {
    exists|r: int| 0 <= r < tb.len() && is_word(tb[r], f, t, w) && tb[r].value == v
}

/// The pip table records source `s` of the destination.
pub open spec fn has_source(
    tb: Seq<PipRec>,
    f: Seq<char>,
    t: Seq<char>,
    to: Seq<char>,
    s: Seq<char>,
) -> bool {
    exists|r: int| 0 <= r < tb.len() && is_pip(tb[r], f, t, to) && tb[r].from_wire == s
}

/// The word table after a merge: each value not yet recorded is appended,
/// in order.
pub open spec fn add_words(
    tb: Seq<WordRec>,
    f: Seq<char>,
    t: Seq<char>,
    w: Seq<char>,
    vs: Seq<(usize, Seq<usize>)>,
) -> Seq<WordRec>
    decreases vs.len(),
{
    if vs.len() == 0 {
        tb
    } else {
        let prev = add_words(tb, f, t, w, vs.drop_last());
        let last = vs.last();
        if has_value(prev, f, t, w, last.0) {
            prev
        } else {
            prev.push(WordRec { family: f, tiletype: t, word: w, value: last.0, bits: last.1 })
        }
    }
}

/// The pip table after a merge: each source not yet recorded is appended, in
/// order.
pub open spec fn add_pips(
    tb: Seq<PipRec>,
    f: Seq<char>,
    t: Seq<char>,
    to: Seq<char>,
    vs: Seq<(Seq<char>, Seq<usize>)>,
) -> Seq<PipRec>
    decreases vs.len(),
{
    if vs.len() == 0 {
        tb
    } else {
        let prev = add_pips(tb, f, t, to, vs.drop_last());
        let last = vs.last();
        if has_source(prev, f, t, to, last.0) {
            prev
        } else {
            prev.push(PipRec { family: f, tiletype: t, to_wire: to, from_wire: last.0, bits: last.1 })
        }
    }
}

/// Distinct records of one word have distinct values and distinct bit sets,
/// and every bit set is canonical.
pub open spec fn words_wf(tb: Seq<WordRec>) -> bool {
    &&& forall|r: int| 0 <= r < tb.len() ==> is_bitset(#[trigger] tb[r].bits)
    &&& forall|r: int, s: int| #![trigger tb[r], tb[s]]
        0 <= r < tb.len() && 0 <= s < tb.len() && r != s && is_word(tb[r], tb[s].family, tb[s].tiletype, tb[s].word)
            ==> tb[r].value != tb[s].value && tb[r].bits != tb[s].bits
}

/// Distinct records of one destination wire have distinct sources and bit
/// sets that share no bit, and every bit set is canonical.
pub open spec fn pips_wf(tb: Seq<PipRec>) -> bool {
    &&& forall|r: int| 0 <= r < tb.len() ==> is_bitset(#[trigger] tb[r].bits)
    &&& forall|r: int, s: int| #![trigger tb[r], tb[s]]
        0 <= r < tb.len() && 0 <= s < tb.len() && r != s && is_pip(tb[r], tb[s].family, tb[s].tiletype, tb[s].to_wire)
            ==> tb[r].from_wire != tb[s].from_wire && !overlaps(tb[r].bits, tb[s].bits)
}

/// The first pair of entries of a word result that clash, if any.
pub fn find_word_clash(values: &Vec<(usize, Vec<usize>)>) -> (r: Option<(usize, usize)>)
    ensures
        r is None <==> !word_values_clash(word_values(values@)),
        r matches Some((i, j)) ==> i < j < values@.len() && word_clash(
            word_values(values@)[i as int],
            word_values(values@)[j as int],
        ),
{
    let ghost vs = word_values(values@);
    let mut i: usize = 0;
    while i < values.len()
        invariant
            vs == word_values(values@),
            i <= values@.len(),
            forall|a: int, b: int| 0 <= a < i && a < b < vs.len() ==> !word_clash(vs[a], vs[b]),
        decreases values@.len() - i,
    {
        let mut j: usize = i + 1;
        while j < values.len()
            invariant
                vs == word_values(values@),
                i < values@.len(),
                i + 1 <= j <= values@.len(),
                forall|a: int, b: int| 0 <= a < i && a < b < vs.len() ==> !word_clash(vs[a], vs[b]),
                forall|b: int| i < b < j ==> !word_clash(vs[i as int], vs[b]),
            decreases values@.len() - j,
        {
            let same = same_bits(&values[i].1, &values[j].1);
            if (values[i].0 == values[j].0) != same {
                assert(word_clash(vs[i as int], vs[j as int]));
                return Some((i, j));
            }
            j += 1;
        }
        i += 1;
    }
    None
}

/// The first pair of entries of a pip result that clash, if any.
pub fn find_pip_clash(values: &Vec<(String, Vec<usize>)>) -> (r: Option<(usize, usize)>)
    ensures
        r is None <==> !pip_values_clash(pip_values(values@)),
        r matches Some((i, j)) ==> i < j < values@.len() && pip_clash(
            pip_values(values@)[i as int],
            pip_values(values@)[j as int],
        ),
{
    let ghost vs = pip_values(values@);
    let mut i: usize = 0;
    while i < values.len()
        invariant
            vs == pip_values(values@),
            i <= values@.len(),
            forall|a: int, b: int| 0 <= a < i && a < b < vs.len() ==> !pip_clash(vs[a], vs[b]),
        decreases values@.len() - i,
    {
        let mut j: usize = i + 1;
        while j < values.len()
            invariant
                vs == pip_values(values@),
                i < values@.len(),
                i + 1 <= j <= values@.len(),
                forall|a: int, b: int| 0 <= a < i && a < b < vs.len() ==> !pip_clash(vs[a], vs[b]),
                forall|b: int| i < b < j ==> !pip_clash(vs[i as int], vs[b]),
            decreases values@.len() - j,
        {
            let clash = if values[i].0 == values[j].0 {
                !same_bits(&values[i].1, &values[j].1)
            } else {
                bits_overlap(&values[i].1, &values[j].1)
            };
            assert(clash == pip_clash(vs[i as int], vs[j as int]));
            if clash {
                return Some((i, j));
            }
            j += 1;
        }
        i += 1;
    }
    None
}

impl Database {
    /// Both tables keep their invariants.
    pub open spec fn wf(self) -> bool {
        &&& words_wf(words_view(self.words@))
        &&& pips_wf(pips_view(self.pips@))
    }

    /// An empty database rooted at `root`, for the devices of `devices`.
    pub fn new(root: String, devices: Vec<DeviceGeometry>) -> (r: Database)
        ensures
            r.wf(),
            r.root == root,
            r.devices == devices,
            r.words@.len() == 0,
            r.pips@.len() == 0,
    {
        Database { root, devices, words: Vec::new(), pips: Vec::new() }
    }

    /// Indices of the records of one word.
    pub fn word_entry(&self, family: &String, tiletype: &String, word: &String) -> (r: Vec<usize>)
        ensures
            is_bitset(r@),
            forall|i: int| 0 <= i < r@.len() ==> r@[i] < self.words@.len() && is_word(
                self.words@[r@[i] as int]@,
                family@,
                tiletype@,
                word@,
            ),
            forall|j: int| 0 <= j < self.words@.len() && is_word(self.words@[j]@, family@, tiletype@, word@)
                ==> r@.contains(j as usize),
    {
        let mut r: Vec<usize> = Vec::new();
        let mut i: usize = 0;
        while i < self.words.len()
            invariant
                i <= self.words@.len(),
                is_bitset(r@),
                forall|k: int| 0 <= k < r@.len() ==> r@[k] < i && is_word(
                    self.words@[r@[k] as int]@,
                    family@,
                    tiletype@,
                    word@,
                ),
                forall|j: int| 0 <= j < i && is_word(self.words@[j]@, family@, tiletype@, word@)
                    ==> r@.contains(j as usize),
            decreases self.words@.len() - i,
        {
            let rec = &self.words[i];
            if rec.family == *family && rec.tiletype == *tiletype && rec.word == *word {
                let ghost old_r = r@;
                r.push(i);
                proof {
                    assert forall|j: int| 0 <= j < i + 1 && is_word(self.words@[j]@, family@, tiletype@, word@)
                        implies r@.contains(j as usize) by {
                        if j < i {
                            let m = choose|m: int| 0 <= m < old_r.len() && old_r[m] == j as usize;
                            assert(r@[m] == j as usize);
                        } else {
                            assert(r@[old_r.len() as int] == j as usize);
                        }
                    }
                }
            }
            i += 1;
        }
        r
    }

    /// Records a word result: `values` pairs each value of the word with
    /// its bit set. Nothing is recorded if two entries of the result clash,
    /// or an entry clashes with a record of the word; otherwise each value
    /// not yet recorded is appended.
    pub fn merge_word(
        &mut self,
        family: &String,
        tiletype: &String,
        word: &String,
        values: &Vec<(usize, Vec<usize>)>,
    ) -> (r: Result<(), MergeConflict>)
        requires
            old(self).wf(),
            forall|i: int| 0 <= i < values@.len() ==> is_bitset(#[trigger] values@[i].1@),
        ensures
            final(self).wf(),
            r is Err <==> (word_values_clash(word_values(values@)) || word_table_clash(
                words_view(old(self).words@),
                family@,
                tiletype@,
                word@,
                word_values(values@),
            )),
            r is Err ==> *final(self) == *old(self),
            r is Ok ==> words_view(final(self).words@) == add_words(
                words_view(old(self).words@),
                family@,
                tiletype@,
                word@,
                word_values(values@),
            ),
            final(self).root == old(self).root,
            final(self).devices == old(self).devices,
            final(self).pips == old(self).pips,
    {
        let ghost vs = word_values(values@);
        let ghost tb0 = words_view(self.words@);
        // Entries of the result against each other.
        match find_word_clash(values) {
            Some((i, j)) => {
                return Err(MergeConflict::WordAlias { value: values[i].0, other: values[j].0 });
            },
            None => {},
        }
        assert(!word_values_clash(vs));
        // Entries of the result against the records of the word.
        let mut r: usize = 0;
        while r < self.words.len()
            invariant
                vs == word_values(values@),
                tb0 == words_view(self.words@),
                *self == *old(self),
                self.wf(),
                r <= self.words@.len(),
                forall|a: int, b: int| 0 <= a < r && 0 <= b < vs.len() && is_word(tb0[a], family@, tiletype@, word@)
                    ==> !word_clash((tb0[a].value, tb0[a].bits), vs[b]),
            decreases self.words@.len() - r,
        {
            let rec = &self.words[r];
            if rec.family == *family && rec.tiletype == *tiletype && rec.word == *word {
                let mut k: usize = 0;
                while k < values.len()
                    invariant
                        vs == word_values(values@),
                        tb0 == words_view(self.words@),
                        *self == *old(self),
                        self.wf(),
                        r < self.words@.len(),
                        rec == self.words@[r as int],
                        is_word(tb0[r as int], family@, tiletype@, word@),
                        k <= values@.len(),
                        forall|a: int, b: int| 0 <= a < r && 0 <= b < vs.len() && is_word(tb0[a], family@, tiletype@, word@)
                            ==> !word_clash((tb0[a].value, tb0[a].bits), vs[b]),
                        forall|b: int| 0 <= b < k ==> !word_clash((tb0[r as int].value, tb0[r as int].bits), vs[b]),
                    decreases values@.len() - k,
                {
                    let same = same_bits(&rec.bits, &values[k].1);
                    if (rec.value == values[k].0) != same {
                        assert(word_clash((tb0[r as int].value, tb0[r as int].bits), vs[k as int]));
                        return Err(MergeConflict::WordAlias { value: values[k].0, other: rec.value });
                    }
                    k += 1;
                }
            }
            r += 1;
        }
        assert(!word_table_clash(tb0, family@, tiletype@, word@, vs));
        // Append each value not yet recorded.
        let mut i: usize = 0;
        while i < values.len()
            invariant
                vs == word_values(values@),
                !word_values_clash(vs),
                forall|b: int| 0 <= b < vs.len() ==> is_bitset(#[trigger] vs[b].1),
                i <= values@.len(),
                words_view(self.words@) == add_words(tb0, family@, tiletype@, word@, vs.take(i as int)),
                words_wf(words_view(self.words@)),
                forall|a: int, b: int| 0 <= a < self.words@.len() && 0 <= b < vs.len() && is_word(
                    words_view(self.words@)[a], family@, tiletype@, word@)
                    ==> !word_clash((words_view(self.words@)[a].value, words_view(self.words@)[a].bits), vs[b]),
                pips_wf(pips_view(self.pips@)),
                self.root == old(self).root,
                self.devices == old(self).devices,
                self.pips == old(self).pips,
            decreases values@.len() - i,
        {
            let ghost tb = words_view(self.words@);
            assert(vs.take(i + 1).drop_last() =~= vs.take(i as int));
            let v = values[i].0;
            let mut found = false;
            let mut r: usize = 0;
            while r < self.words.len()
                invariant
                    tb == words_view(self.words@),
                    r <= self.words@.len(),
                    found <==> exists|a: int| 0 <= a < r && is_word(tb[a], family@, tiletype@, word@) && tb[a].value == v,
                decreases self.words@.len() - r,
            {
                let rec = &self.words[r];
                if rec.family == *family && rec.tiletype == *tiletype && rec.word == *word && rec.value == v {
                    assert(tb[r as int] == rec@);
                    found = true;
                }
                r += 1;
            }
            if !found {
                let rec = WordBits {
                    family: family.clone(),
                    tiletype: tiletype.clone(),
                    word: word.clone(),
                    value: v,
                    bits: copy_bits(&values[i].1),
                };
                self.words.push(rec);
                proof {
                    let nt = words_view(self.words@);
                    assert(nt =~= tb.push(rec@));
                    assert forall|b: int| 0 <= b < vs.len() implies !word_clash((rec@.value, rec@.bits), vs[b]) by {
                        if b < i {
                            assert(!word_clash(vs[b], vs[i as int]));
                        } else if b > i {
                            assert(!word_clash(vs[i as int], vs[b]));
                        }
                    }
                    assert forall|a: int, s: int|
                        0 <= a < nt.len() && 0 <= s < nt.len() && a != s && is_word(nt[a], nt[s].family, nt[s].tiletype, nt[s].word)
                        implies nt[a].value != nt[s].value && nt[a].bits != nt[s].bits by {
                        if s == tb.len() {
                            assert(!word_clash((tb[a].value, tb[a].bits), vs[i as int]));
                        } else if a == tb.len() {
                            assert(!word_clash((tb[s].value, tb[s].bits), vs[i as int]));
                        }
                    }
                }
            }
            i += 1;
        }
        assert(vs.take(values@.len() as int) =~= vs);
        Ok(())
    }
    /// Indices of the records of one destination wire.
    pub fn pip_entry(&self, family: &String, tiletype: &String, to_wire: &String) -> (r: Vec<usize>)
        ensures
            is_bitset(r@),
            forall|i: int| 0 <= i < r@.len() ==> r@[i] < self.pips@.len() && is_pip(
                self.pips@[r@[i] as int]@,
                family@,
                tiletype@,
                to_wire@,
            ),
            forall|j: int| 0 <= j < self.pips@.len() && is_pip(self.pips@[j]@, family@, tiletype@, to_wire@)
                ==> r@.contains(j as usize),
    {
        let mut r: Vec<usize> = Vec::new();
        let mut i: usize = 0;
        while i < self.pips.len()
            invariant
                i <= self.pips@.len(),
                is_bitset(r@),
                forall|k: int| 0 <= k < r@.len() ==> r@[k] < i && is_pip(
                    self.pips@[r@[k] as int]@,
                    family@,
                    tiletype@,
                    to_wire@,
                ),
                forall|j: int| 0 <= j < i && is_pip(self.pips@[j]@, family@, tiletype@, to_wire@)
                    ==> r@.contains(j as usize),
            decreases self.pips@.len() - i,
        {
            let rec = &self.pips[i];
            if rec.family == *family && rec.tiletype == *tiletype && rec.to_wire == *to_wire {
                let ghost old_r = r@;
                r.push(i);
                proof {
                    assert forall|j: int| 0 <= j < i + 1 && is_pip(self.pips@[j]@, family@, tiletype@, to_wire@)
                        implies r@.contains(j as usize) by {
                        if j < i {
                            let m = choose|m: int| 0 <= m < old_r.len() && old_r[m] == j as usize;
                            assert(r@[m] == j as usize);
                        } else {
                            assert(r@[old_r.len() as int] == j as usize);
                        }
                    }
                }
            }
            i += 1;
        }
        r
    }

    /// Records a pip result: `values` pairs each source wire of `to_wire`
    /// with the bits that connect it. Nothing is recorded if two entries of
    /// the result clash, or an entry clashes with a record of the
    /// destination; otherwise each source not yet recorded is appended.
    pub fn merge_pip(
        &mut self,
        family: &String,
        tiletype: &String,
        to_wire: &String,
        values: &Vec<(String, Vec<usize>)>,
    ) -> (r: Result<(), MergeConflict>)
        requires
            old(self).wf(),
            forall|i: int| 0 <= i < values@.len() ==> is_bitset(#[trigger] values@[i].1@),
        ensures
            final(self).wf(),
            r is Err <==> (pip_values_clash(pip_values(values@)) || pip_table_clash(
                pips_view(old(self).pips@),
                family@,
                tiletype@,
                to_wire@,
                pip_values(values@),
            )),
            r is Err ==> *final(self) == *old(self),
            r is Ok ==> pips_view(final(self).pips@) == add_pips(
                pips_view(old(self).pips@),
                family@,
                tiletype@,
                to_wire@,
                pip_values(values@),
            ),
            final(self).root == old(self).root,
            final(self).devices == old(self).devices,
            final(self).words == old(self).words,
    {
        let ghost vs = pip_values(values@);
        let ghost tb0 = pips_view(self.pips@);
        // Entries of the result against each other.
        match find_pip_clash(values) {
            Some((i, j)) => {
                return Err(MergeConflict::PipOverlap {
                        from_wire: values[i].0.clone(),
                        other_wire: values[j].0.clone(),
                    });
            },
            None => {},
        }
        assert(!pip_values_clash(vs));
        // Entries of the result against the records of the word.
        let mut r: usize = 0;
        while r < self.pips.len()
            invariant
                vs == pip_values(values@),
                tb0 == pips_view(self.pips@),
                *self == *old(self),
                self.wf(),
                r <= self.pips@.len(),
                forall|a: int, b: int| 0 <= a < r && 0 <= b < vs.len() && is_pip(tb0[a], family@, tiletype@, to_wire@)
                    ==> !pip_clash((tb0[a].from_wire, tb0[a].bits), vs[b]),
            decreases self.pips@.len() - r,
        {
            let rec = &self.pips[r];
            if rec.family == *family && rec.tiletype == *tiletype && rec.to_wire == *to_wire {
                let mut k: usize = 0;
                while k < values.len()
                    invariant
                        vs == pip_values(values@),
                        tb0 == pips_view(self.pips@),
                        *self == *old(self),
                        self.wf(),
                        r < self.pips@.len(),
                        rec == self.pips@[r as int],
                        is_pip(tb0[r as int], family@, tiletype@, to_wire@),
                        k <= values@.len(),
                        forall|a: int, b: int| 0 <= a < r && 0 <= b < vs.len() && is_pip(tb0[a], family@, tiletype@, to_wire@)
                            ==> !pip_clash((tb0[a].from_wire, tb0[a].bits), vs[b]),
                        forall|b: int| 0 <= b < k ==> !pip_clash((tb0[r as int].from_wire, tb0[r as int].bits), vs[b]),
                    decreases values@.len() - k,
                {
                    let clash = if rec.from_wire == values[k].0 {
                        !same_bits(&rec.bits, &values[k].1)
                    } else {
                        bits_overlap(&rec.bits, &values[k].1)
                    };
                    if clash {
                        assert(pip_clash((tb0[r as int].from_wire, tb0[r as int].bits), vs[k as int]));
                        return Err(
                            MergeConflict::PipOverlap {
                                from_wire: values[k].0.clone(),
                                other_wire: rec.from_wire.clone(),
                            },
                        );
                    }
                    k += 1;
                }
            }
            r += 1;
        }
        assert(!pip_table_clash(tb0, family@, tiletype@, to_wire@, vs));
        // Append each value not yet recorded.
        let mut i: usize = 0;
        while i < values.len()
            invariant
                vs == pip_values(values@),
                !pip_values_clash(vs),
                forall|b: int| 0 <= b < vs.len() ==> is_bitset(#[trigger] vs[b].1),
                i <= values@.len(),
                pips_view(self.pips@) == add_pips(tb0, family@, tiletype@, to_wire@, vs.take(i as int)),
                pips_wf(pips_view(self.pips@)),
                forall|a: int, b: int| 0 <= a < self.pips@.len() && 0 <= b < vs.len() && is_pip(
                    pips_view(self.pips@)[a], family@, tiletype@, to_wire@)
                    ==> !pip_clash((pips_view(self.pips@)[a].from_wire, pips_view(self.pips@)[a].bits), vs[b]),
                words_wf(words_view(self.words@)),
                self.root == old(self).root,
                self.devices == old(self).devices,
                self.words == old(self).words,
            decreases values@.len() - i,
        {
            let ghost tb = pips_view(self.pips@);
            assert(vs.take(i + 1).drop_last() =~= vs.take(i as int));
            let v = &values[i].0;
            let mut found = false;
            let mut r: usize = 0;
            while r < self.pips.len()
                invariant
                    tb == pips_view(self.pips@),
                    pips_wf(tb),
                    r <= self.pips@.len(),
                    found <==> exists|a: int| 0 <= a < r && is_pip(tb[a], family@, tiletype@, to_wire@) && tb[a].from_wire == v@,
                decreases self.pips@.len() - r,
            {
                let rec = &self.pips[r];
                if rec.family == *family && rec.tiletype == *tiletype && rec.to_wire == *to_wire && rec.from_wire == *v {
                    assert(tb[r as int] == rec@);
                    found = true;
                }
                r += 1;
            }
            if !found {
                let rec = PipBits {
                    family: family.clone(),
                    tiletype: tiletype.clone(),
                    to_wire: to_wire.clone(),
                    from_wire: v.clone(),
                    bits: copy_bits(&values[i].1),
                };
                self.pips.push(rec);
                proof {
                    let nt = pips_view(self.pips@);
                    assert(nt =~= tb.push(rec@));
                    assert(rec@.from_wire == vs[i as int].0 && rec@.bits == vs[i as int].1);
                    assert forall|b: int| 0 <= b < vs.len() implies !pip_clash((rec@.from_wire, rec@.bits), vs[b]) by {
                        if b < i {
                            assert(!pip_clash(vs[b], vs[i as int]));
                            crate::bits::lemma_overlaps_symmetric(vs[b].1, vs[i as int].1);
                        } else if b > i {
                            assert(!pip_clash(vs[i as int], vs[b]));
                        }
                    }
                    assert forall|a: int, s: int|
                        0 <= a < nt.len() && 0 <= s < nt.len() && a != s && is_pip(nt[a], nt[s].family, nt[s].tiletype, nt[s].to_wire)
                        implies nt[a].from_wire != nt[s].from_wire && !overlaps(nt[a].bits, nt[s].bits) by {
                        if s == tb.len() {
                            assert(is_pip(tb[a], family@, tiletype@, to_wire@));
                            assert(tb[a].from_wire != v@);
                            assert(!pip_clash((tb[a].from_wire, tb[a].bits), vs[i as int]));
                        } else if a == tb.len() {
                            assert(is_pip(tb[s], family@, tiletype@, to_wire@));
                            assert(tb[s].from_wire != v@);
                            assert(!pip_clash((tb[s].from_wire, tb[s].bits), vs[i as int]));
                            crate::bits::lemma_overlaps_symmetric(nt[a].bits, nt[s].bits);
                        } else {
                            assert(nt[a] == tb[a] && nt[s] == tb[s]);
                            assert(is_pip(tb[a], tb[s].family, tb[s].tiletype, tb[s].to_wire));
                        }
                    }
                }
            }
            i += 1;
        }
        assert(vs.take(values@.len() as int) =~= vs);
        Ok(())
    }
}

/// In a well-formed database, two distinct values recorded for one word of
/// one tile type never have the same bit set.
pub proof fn lemma_word_values_unaliased(db: Database, r: int, s: int)
    requires
        db.wf(),
        0 <= r < db.words@.len(),
        0 <= s < db.words@.len(),
        is_word(db.words@[r]@, db.words@[s]@.family, db.words@[s]@.tiletype, db.words@[s]@.word),
        db.words@[r].value != db.words@[s].value,
    ensures
        db.words@[r].bits@ != db.words@[s].bits@,
{
    let tb = words_view(db.words@);
    assert(tb[r] == db.words@[r]@ && tb[s] == db.words@[s]@);
}

/// In a well-formed database, two distinct sources recorded for one
/// destination wire of one tile type never share a bit.
pub proof fn lemma_pip_sources_disjoint(db: Database, r: int, s: int)
    requires
        db.wf(),
        0 <= r < db.pips@.len(),
        0 <= s < db.pips@.len(),
        is_pip(db.pips@[r]@, db.pips@[s]@.family, db.pips@[s]@.tiletype, db.pips@[s]@.to_wire),
        db.pips@[r].from_wire@ != db.pips@[s].from_wire@,
    ensures
        !overlaps(db.pips@[r].bits@, db.pips@[s].bits@),
{
    let tb = pips_view(db.pips@);
    assert(tb[r] == db.pips@[r]@ && tb[s] == db.pips@[s]@);
}

/// The table holds entry `e` of the word, with its bits.
pub open spec fn word_present(tb: Seq<WordRec>, f: Seq<char>, t: Seq<char>, w: Seq<char>, e: (usize, Seq<usize>)) -> bool {
    exists|r: int| 0 <= r < tb.len() && is_word(tb[r], f, t, w) && tb[r].value == e.0 && tb[r].bits == e.1
}

/// A merge keeps every record in place and appends only entries of the
/// result, under the merged word.
pub proof fn lemma_add_words_extends(
    tb: Seq<WordRec>,
    f: Seq<char>,
    t: Seq<char>,
    w: Seq<char>,
    vs: Seq<(usize, Seq<usize>)>,
)
    ensures
        add_words(tb, f, t, w, vs).len() >= tb.len(),
        forall|r: int| 0 <= r < tb.len() ==> add_words(tb, f, t, w, vs)[r] == tb[r],
        forall|r: int| tb.len() <= r < add_words(tb, f, t, w, vs).len() ==> {
            &&& is_word(add_words(tb, f, t, w, vs)[r], f, t, w)
            &&& exists|j: int| 0 <= j < vs.len() && vs[j] == (
                add_words(tb, f, t, w, vs)[r].value,
                add_words(tb, f, t, w, vs)[r].bits,
            )
        },
    decreases vs.len(),
{
    if vs.len() > 0 {
        let p = vs.drop_last();
        lemma_add_words_extends(tb, f, t, w, p);
        let prev = add_words(tb, f, t, w, p);
        let nt = add_words(tb, f, t, w, vs);
        assert forall|r: int| tb.len() <= r < nt.len() implies {
            &&& is_word(nt[r], f, t, w)
            &&& exists|j: int| 0 <= j < vs.len() && vs[j] == (nt[r].value, nt[r].bits)
        } by {
            if r < prev.len() {
                let j = choose|j: int| 0 <= j < p.len() && p[j] == (prev[r].value, prev[r].bits);
                assert(vs[j] == p[j]);
            } else {
                assert(vs[vs.len() - 1] == (nt[r].value, nt[r].bits));
            }
        }
    }
}

/// After a merge that met no clash, every entry of the result is recorded
/// with its bits.
pub proof fn lemma_add_words_present(
    tb: Seq<WordRec>,
    f: Seq<char>,
    t: Seq<char>,
    w: Seq<char>,
    vs: Seq<(usize, Seq<usize>)>,
)
    requires
        !word_values_clash(vs),
        !word_table_clash(tb, f, t, w, vs),
    ensures
        forall|i: int| 0 <= i < vs.len() ==> word_present(add_words(tb, f, t, w, vs), f, t, w, #[trigger] vs[i]),
    decreases vs.len(),
{
    if vs.len() > 0 {
        let p = vs.drop_last();
        assert(!word_values_clash(p)) by {
            if word_values_clash(p) {
                let (i, j) = choose|i: int, j: int| 0 <= i < j < p.len() && word_clash(p[i], p[j]);
                assert(vs[i] == p[i] && vs[j] == p[j]);
            }
        }
        assert(!word_table_clash(tb, f, t, w, p)) by {
            if word_table_clash(tb, f, t, w, p) {
                let (r, i) = choose|r: int, i: int|
                    0 <= r < tb.len() && 0 <= i < p.len() && is_word(tb[r], f, t, w) && word_clash((tb[r].value, tb[r].bits), p[i]);
                assert(vs[i] == p[i]);
            }
        }
        lemma_add_words_present(tb, f, t, w, p);
        lemma_add_words_extends(tb, f, t, w, p);
        let prev = add_words(tb, f, t, w, p);
        let nt = add_words(tb, f, t, w, vs);
        let last = vs.last();
        assert forall|i: int| 0 <= i < vs.len() implies word_present(nt, f, t, w, #[trigger] vs[i]) by {
            if i < p.len() {
                assert(vs[i] == p[i]);
                assert(word_present(prev, f, t, w, p[i]));
                let r = choose|r: int| 0 <= r < prev.len() && is_word(prev[r], f, t, w) && prev[r].value == p[i].0 && prev[r].bits == p[i].1;
                assert(nt[r] == prev[r]);
            } else if has_value(prev, f, t, w, last.0) {
                let r = choose|r: int| 0 <= r < prev.len() && is_word(prev[r], f, t, w) && prev[r].value == last.0;
                if r < tb.len() {
                    assert(!word_clash((tb[r].value, tb[r].bits), vs[vs.len() - 1]));
                } else {
                    let j = choose|j: int| 0 <= j < p.len() && p[j] == (prev[r].value, prev[r].bits);
                    assert(vs[j] == p[j]);
                    assert(!word_clash(vs[j], vs[vs.len() - 1]));
                }
            } else {
                assert(nt[prev.len() as int].value == last.0);
            }
        }
    }
}

/// Merging entries whose values are all recorded changes nothing.
pub proof fn lemma_add_words_recorded(
    tb: Seq<WordRec>,
    f: Seq<char>,
    t: Seq<char>,
    w: Seq<char>,
    vs: Seq<(usize, Seq<usize>)>,
)
    requires
        forall|i: int| 0 <= i < vs.len() ==> has_value(tb, f, t, w, (#[trigger] vs[i]).0),
    ensures
        add_words(tb, f, t, w, vs) == tb,
    decreases vs.len(),
{
    if vs.len() > 0 {
        let p = vs.drop_last();
        assert forall|i: int| 0 <= i < p.len() implies has_value(tb, f, t, w, (#[trigger] p[i]).0) by {
            assert(vs[i] == p[i]);
        }
        lemma_add_words_recorded(tb, f, t, w, p);
        assert(has_value(tb, f, t, w, vs[vs.len() - 1].0));
    }
}

/// The table holds entry `e` of the destination, with its bits.
pub open spec fn pip_present(tb: Seq<PipRec>, f: Seq<char>, t: Seq<char>, to: Seq<char>, e: (Seq<char>, Seq<usize>)) -> bool {
    exists|r: int| 0 <= r < tb.len() && is_pip(tb[r], f, t, to) && tb[r].from_wire == e.0 && tb[r].bits == e.1
}

/// A merge keeps every record in place and appends only entries of the
/// result, under the merged destination.
pub proof fn lemma_add_pips_extends(
    tb: Seq<PipRec>,
    f: Seq<char>,
    t: Seq<char>,
    to: Seq<char>,
    vs: Seq<(Seq<char>, Seq<usize>)>,
)
    ensures
        add_pips(tb, f, t, to, vs).len() >= tb.len(),
        forall|r: int| 0 <= r < tb.len() ==> add_pips(tb, f, t, to, vs)[r] == tb[r],
        forall|r: int| tb.len() <= r < add_pips(tb, f, t, to, vs).len() ==> {
            &&& is_pip(add_pips(tb, f, t, to, vs)[r], f, t, to)
            &&& exists|j: int| 0 <= j < vs.len() && vs[j] == (
                add_pips(tb, f, t, to, vs)[r].from_wire,
                add_pips(tb, f, t, to, vs)[r].bits,
            )
        },
    decreases vs.len(),
{
    if vs.len() > 0 {
        let p = vs.drop_last();
        lemma_add_pips_extends(tb, f, t, to, p);
        let prev = add_pips(tb, f, t, to, p);
        let nt = add_pips(tb, f, t, to, vs);
        assert forall|r: int| tb.len() <= r < nt.len() implies {
            &&& is_pip(nt[r], f, t, to)
            &&& exists|j: int| 0 <= j < vs.len() && vs[j] == (nt[r].from_wire, nt[r].bits)
        } by {
            if r < prev.len() {
                let j = choose|j: int| 0 <= j < p.len() && p[j] == (prev[r].from_wire, prev[r].bits);
                assert(vs[j] == p[j]);
            } else {
                assert(vs[vs.len() - 1] == (nt[r].from_wire, nt[r].bits));
            }
        }
    }
}

/// After a merge that met no clash, every entry of the result is recorded
/// with its bits.
pub proof fn lemma_add_pips_present(
    tb: Seq<PipRec>,
    f: Seq<char>,
    t: Seq<char>,
    to: Seq<char>,
    vs: Seq<(Seq<char>, Seq<usize>)>,
)
    requires
        !pip_values_clash(vs),
        !pip_table_clash(tb, f, t, to, vs),
    ensures
        forall|i: int| 0 <= i < vs.len() ==> pip_present(add_pips(tb, f, t, to, vs), f, t, to, #[trigger] vs[i]),
    decreases vs.len(),
{
    if vs.len() > 0 {
        let p = vs.drop_last();
        assert(!pip_values_clash(p)) by {
            if pip_values_clash(p) {
                let (i, j) = choose|i: int, j: int| 0 <= i < j < p.len() && pip_clash(p[i], p[j]);
                assert(vs[i] == p[i] && vs[j] == p[j]);
            }
        }
        assert(!pip_table_clash(tb, f, t, to, p)) by {
            if pip_table_clash(tb, f, t, to, p) {
                let (r, i) = choose|r: int, i: int|
                    0 <= r < tb.len() && 0 <= i < p.len() && is_pip(tb[r], f, t, to) && pip_clash((tb[r].from_wire, tb[r].bits), p[i]);
                assert(vs[i] == p[i]);
            }
        }
        lemma_add_pips_present(tb, f, t, to, p);
        lemma_add_pips_extends(tb, f, t, to, p);
        let prev = add_pips(tb, f, t, to, p);
        let nt = add_pips(tb, f, t, to, vs);
        let last = vs.last();
        assert forall|i: int| 0 <= i < vs.len() implies pip_present(nt, f, t, to, #[trigger] vs[i]) by {
            if i < p.len() {
                assert(vs[i] == p[i]);
                assert(pip_present(prev, f, t, to, p[i]));
                let r = choose|r: int| 0 <= r < prev.len() && is_pip(prev[r], f, t, to) && prev[r].from_wire == p[i].0 && prev[r].bits == p[i].1;
                assert(nt[r] == prev[r]);
            } else if has_source(prev, f, t, to, last.0) {
                let r = choose|r: int| 0 <= r < prev.len() && is_pip(prev[r], f, t, to) && prev[r].from_wire == last.0;
                if r < tb.len() {
                    assert(!pip_clash((tb[r].from_wire, tb[r].bits), vs[vs.len() - 1]));
                } else {
                    let j = choose|j: int| 0 <= j < p.len() && p[j] == (prev[r].from_wire, prev[r].bits);
                    assert(vs[j] == p[j]);
                    assert(!pip_clash(vs[j], vs[vs.len() - 1]));
                }
            } else {
                assert(nt[prev.len() as int].from_wire == last.0);
            }
        }
    }
}

/// Merging entries whose sources are all recorded changes nothing.
pub proof fn lemma_add_pips_recorded(
    tb: Seq<PipRec>,
    f: Seq<char>,
    t: Seq<char>,
    to: Seq<char>,
    vs: Seq<(Seq<char>, Seq<usize>)>,
)
    requires
        forall|i: int| 0 <= i < vs.len() ==> has_source(tb, f, t, to, (#[trigger] vs[i]).0),
    ensures
        add_pips(tb, f, t, to, vs) == tb,
    decreases vs.len(),
{
    if vs.len() > 0 {
        let p = vs.drop_last();
        assert forall|i: int| 0 <= i < p.len() implies has_source(tb, f, t, to, (#[trigger] p[i]).0) by {
            assert(vs[i] == p[i]);
        }
        lemma_add_pips_recorded(tb, f, t, to, p);
        assert(has_source(tb, f, t, to, vs[vs.len() - 1].0));
    }
}

} // verus!
