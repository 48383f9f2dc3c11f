//! The dictionary store: a packed, immutable binary blob of dictionary
//! entries, decoded on demand.
//!
//! The blob consists of a flat pool of null-terminated UTF-8 strings, an
//! offset table with one slot per string (grouped by category: kanji forms,
//! then kana forms, then glosses, then part-of-speech tags, then entry ids),
//! a flat buffer of packed entry records, and an offset table with one slot
//! per entry. An entry record holds a 4-byte little-endian index into the id
//! category, four 1-byte string counts, a 1-byte commonness flag, and then
//! one 4-byte little-endian string-table index per string, in the fixed order
//! kanji, kana, gloss, part of speech.

use vstd::prelude::*;
use vstd::utf8::{decode_utf8, encode_utf8, valid_utf8};

verus! {

/// The little-endian 32-bit value stored at position `p` of `b`.
pub open spec fn le32(b: Seq<u8>, p: int) -> int {
    b[p] + 0x100 * b[p + 1] + 0x1_0000 * b[p + 2] + 0x100_0000 * b[p + 3]
}

/// The position of the first null byte of `pool` at or after `off`, or the
/// pool length when no null byte follows.
pub open spec fn str_end(pool: Seq<u8>, off: int) -> int
    decreases pool.len() - off,
{
    if off < 0 || off >= pool.len() {
        pool.len() as int
    } else if pool[off] == 0 {
        off
    } else {
        str_end(pool, off + 1)
    }
}

pub proof fn lemma_str_end(pool: Seq<u8>, off: int)
    requires
        0 <= off <= pool.len(),
    ensures
        off <= str_end(pool, off) <= pool.len(),
        forall|i: int| off <= i < str_end(pool, off) ==> pool[i] != 0,
        str_end(pool, off) < pool.len() ==> pool[str_end(pool, off)] == 0,
    decreases pool.len() - off,
{
    if off < pool.len() && pool[off] != 0 {
        lemma_str_end(pool, off + 1);
    }
}

/// The mathematical model of a packed dictionary blob: the two byte pools,
/// the two offset tables, and the per-category string counts.
pub struct BlobView {
    pub strings: Seq<u8>,
    pub string_offsets: Seq<u32>,
    pub entries: Seq<u8>,
    pub entry_offsets: Seq<u32>,
    pub n_kanji: int,
    pub n_kana: int,
    pub n_english: int,
    pub n_pos: int,
    pub n_id: int,
}

impl BlobView {
    /// How many string slots the offset table holds.
    pub open spec fn slots(self) -> int {
        self.string_offsets.len() as int
    }

    /// How many entries the blob holds.
    pub open spec fn words(self) -> int {
        self.entry_offsets.len() as int
    }

    /// The per-category counts are non-negative and sum to the slot count.
    pub open spec fn counts_ok(self) -> bool {
        &&& self.n_kanji >= 0
        &&& self.n_kana >= 0
        &&& self.n_english >= 0
        &&& self.n_pos >= 0
        &&& self.n_id >= 0
        &&& self.slots() == self.n_kanji + self.n_kana + self.n_english + self.n_pos + self.n_id
    }

    /// The byte offset of string slot `s` in the pool.
    pub open spec fn slot_off(self, s: int) -> int {
        self.string_offsets[s] as int
    }

    /// The bytes of string slot `s`: the run from its offset up to the first
    /// null byte.
    pub open spec fn slot_bytes(self, s: int) -> Seq<u8> {
        self.strings.subrange(self.slot_off(s), str_end(self.strings, self.slot_off(s)))
    }

    /// String slot `s` points into the pool, is non-empty, and holds valid
    /// UTF-8 up to its terminator.
    pub open spec fn slot_ok(self, s: int) -> bool {
        &&& 0 <= self.slot_off(s) < self.strings.len()
        &&& self.strings[self.slot_off(s)] != 0
        &&& valid_utf8(self.slot_bytes(s))
    }

    /// The characters of string slot `s`.
    pub open spec fn slot_str(self, s: int) -> Seq<char> {
        decode_utf8(self.slot_bytes(s))
    }

    /// The start offset of entry record `j`.
    pub open spec fn eoff(self, j: int) -> int {
        self.entry_offsets[j] as int
    }

    /// The kanji-form count of entry `j`.
    pub open spec fn kanji_count(self, j: int) -> int {
        self.entries[self.eoff(j) + 4] as int
    }

    /// The kana-form count of entry `j`.
    pub open spec fn kana_count(self, j: int) -> int {
        self.entries[self.eoff(j) + 5] as int
    }

    /// The gloss count of entry `j`.
    pub open spec fn gloss_count(self, j: int) -> int {
        self.entries[self.eoff(j) + 6] as int
    }

    /// The part-of-speech count of entry `j`.
    pub open spec fn pos_count(self, j: int) -> int {
        self.entries[self.eoff(j) + 7] as int
    }

    /// The commonness flag of entry `j`.
    pub open spec fn entry_common(self, j: int) -> bool {
        self.entries[self.eoff(j) + 8] != 0
    }

    /// The id-category index stored in entry `j`.
    pub open spec fn id_idx(self, j: int) -> int {
        le32(self.entries, self.eoff(j))
    }

    /// The string slot of the id of entry `j`: id indices count from the end
    /// of the four form/gloss/tag categories.
    pub open spec fn id_slot(self, j: int) -> int {
        self.n_kanji + self.n_kana + self.n_english + self.n_pos + self.id_idx(j)
    }

    /// The string slot of the `t`-th kanji form of entry `j`.
    pub open spec fn kanji_slot(self, j: int, t: int) -> int {
        le32(self.entries, self.eoff(j) + 9 + 4 * t)
    }

    /// The string slot of the `t`-th kana form of entry `j`.
    pub open spec fn kana_slot(self, j: int, t: int) -> int {
        le32(self.entries, self.eoff(j) + 9 + 4 * self.kanji_count(j) + 4 * t)
    }

    /// The string slot of the `t`-th gloss of entry `j`.
    pub open spec fn gloss_slot(self, j: int, t: int) -> int {
        le32(self.entries, self.eoff(j) + 9 + 4 * (self.kanji_count(j) + self.kana_count(j)) + 4 * t)
    }

    /// The string slot of the `t`-th part-of-speech tag of entry `j`.
    pub open spec fn pos_slot(self, j: int, t: int) -> int {
        le32(
            self.entries,
            self.eoff(j) + 9 + 4 * (self.kanji_count(j) + self.kana_count(j) + self.gloss_count(j))
                + 4 * t,
        )
    }

    /// The total byte size of entry record `j`.
    pub open spec fn entry_size(self, j: int) -> int {
        9 + 4 * (self.kanji_count(j) + self.kana_count(j) + self.gloss_count(j) + self.pos_count(
            j,
        ))
    }

    /// Entry record `j` lies inside the entry buffer and every string index
    /// it embeds resolves to a slot of the offset table.
    pub open spec fn entry_ok(self, j: int) -> bool {
        &&& self.eoff(j) + 9 <= self.entries.len()
        &&& self.eoff(j) + self.entry_size(j) <= self.entries.len()
        &&& 0 <= self.id_idx(j) < self.n_id
        &&& forall|t: int| 0 <= t < self.kanji_count(j) ==> 0 <= #[trigger] self.kanji_slot(j, t)
            < self.slots()
        &&& forall|t: int| 0 <= t < self.kana_count(j) ==> 0 <= #[trigger] self.kana_slot(j, t)
            < self.slots()
        &&& forall|t: int| 0 <= t < self.gloss_count(j) ==> 0 <= #[trigger] self.gloss_slot(j, t)
            < self.slots()
        &&& forall|t: int| 0 <= t < self.pos_count(j) ==> 0 <= #[trigger] self.pos_slot(j, t)
            < self.slots()
    }

    /// The whole blob is internally consistent: counts add up, every string
    /// slot resolves to a non-empty valid UTF-8 run, and every entry record
    /// is in bounds.
    pub open spec fn wf(self) -> bool {
        &&& self.counts_ok()
        &&& forall|s: int| 0 <= s < self.slots() ==> #[trigger] self.slot_ok(s)
        &&& forall|j: int| 0 <= j < self.words() ==> #[trigger] self.entry_ok(j)
    }

    /// The decoded view of entry `j`.
    pub open spec fn entry_view(self, j: int) -> WordEntryView {
        WordEntryView {
            id: self.slot_str(self.id_slot(j)),
            kanji: Seq::new(self.kanji_count(j) as nat, |t: int| self.slot_str(self.kanji_slot(j, t))),
            kana: Seq::new(self.kana_count(j) as nat, |t: int| self.slot_str(self.kana_slot(j, t))),
            english: Seq::new(
                self.gloss_count(j) as nat,
                |t: int| self.slot_str(self.gloss_slot(j, t)),
            ),
            pos: Seq::new(self.pos_count(j) as nat, |t: int| self.slot_str(self.pos_slot(j, t))),
            is_common: self.entry_common(j),
        }
    }

    /// The decoded view of the whole blob, entry by entry.
    pub open spec fn entries_view(self) -> Seq<WordEntryView> {
        Seq::new(self.words() as nat, |j: int| self.entry_view(j))
    }
}

/// The blob model assembled from the raw pieces handed to [`Dictionary::new`].
pub open spec fn blob_of(
    strings: Seq<u8>,
    string_offsets: Seq<u32>,
    entries: Seq<u8>,
    entry_offsets: Seq<u32>,
    n_kanji: int,
    n_kana: int,
    n_english: int,
    n_pos: int,
    n_id: int,
) -> BlobView {
    BlobView { strings, string_offsets, entries, entry_offsets, n_kanji, n_kana, n_english, n_pos, n_id }
}

/// The mathematical view of one decoded entry.
#[verifier::ext_equal]
pub struct WordEntryView {
    pub id: Seq<char>,
    pub kanji: Seq<Seq<char>>,
    pub kana: Seq<Seq<char>>,
    pub english: Seq<Seq<char>>,
    pub pos: Seq<Seq<char>>,
    pub is_common: bool,
}

/// One decoded dictionary entry: a unique id, the written forms, the English
/// glosses, the part-of-speech tags, and the commonness flag. Produced fresh
/// on every decode call and owned by the caller.
#[derive(Debug)]
pub struct WordEntry {
    pub id: String,
    pub kanji: Vec<String>,
    pub kana: Vec<String>,
    pub english: Vec<String>,
    pub pos: Vec<String>,
    pub is_common: bool,
}

impl View for WordEntry {
    type V = WordEntryView;

    open spec fn view(&self) -> WordEntryView {
        WordEntryView {
            id: self.id@,
            kanji: self.kanji.deep_view(),
            kana: self.kana.deep_view(),
            english: self.english.deep_view(),
            pos: self.pos.deep_view(),
            is_common: self.is_common,
        }
    }
}

/// A valid non-empty string slot decodes to a non-empty character sequence.
pub proof fn lemma_slot_str_nonempty(b: BlobView, s: int)
    requires
        b.slot_ok(s),
    ensures
        b.slot_str(s).len() > 0,
{
    lemma_str_end(b.strings, b.slot_off(s));
    assert(str_end(b.strings, b.slot_off(s)) > b.slot_off(s)) by {
        if str_end(b.strings, b.slot_off(s)) == b.slot_off(s) {
            assert(b.strings[b.slot_off(s)] == 0);
        }
    }
    assert(b.slot_bytes(s).len() > 0);
    vstd::utf8::decode_utf8_encode_utf8(b.slot_bytes(s));
    if b.slot_str(s).len() == 0 {
        assert(encode_utf8(b.slot_str(s)) =~= Seq::<u8>::empty());
    }
}

/// Relies on `String::from_utf8`: it succeeds exactly on valid UTF-8 input,
/// and the bytes of the returned string are the input bytes.
#[verifier::external_body]
fn utf8_string(v: &[u8]) -> (r: Option<String>)
    ensures
        r is Some <==> valid_utf8(v@),
        r is Some ==> encode_utf8(r->0@) == v@,
{
    String::from_utf8(v.to_vec()).ok()
}

/// Reads the little-endian 32-bit value at position `p` of `b`.
fn read_le32(b: &Vec<u8>, p: usize) -> (r: u32)
    requires
        p + 4 <= b@.len(),
    ensures
        r as int == le32(b@, p as int),
{
    // Naming the length keeps the buffer's size bound in scope for the
    // index arithmetic below.
    let n = b.len();
    let b0 = b[p] as u32;
    let b1 = b[p + 1] as u32;
    let b2 = b[p + 2] as u32;
    let b3 = b[p + 3] as u32;
    b0 + 0x100 * b1 + 0x1_0000 * b2 + 0x100_0000 * b3
}

/// Finds the end of the null-terminated run starting at `off`.
fn find_str_end(pool: &Vec<u8>, off: usize) -> (end: usize)
    requires
        off <= pool@.len(),
    ensures
        end as int == str_end(pool@, off as int),
{
    proof {
        lemma_str_end(pool@, off as int);
    }
    let n = pool.len();
    let mut end = off;
    while end < n && pool[end] != 0
        invariant
            n == pool@.len(),
            off <= end <= str_end(pool@, off as int) <= n,
            forall|i: int| off <= i < str_end(pool@, off as int) ==> pool@[i] != 0,
            str_end(pool@, off as int) < n ==> pool@[str_end(pool@, off as int)] == 0,
        decreases n - end,
    {
        assert(end < str_end(pool@, off as int)) by {
            if end == str_end(pool@, off as int) {
                assert(pool@[end as int] == 0);
            }
        }
        end += 1;
    }
    assert(end == str_end(pool@, off as int)) by {
        if end < str_end(pool@, off as int) {
            assert(pool@[end as int] != 0);
        }
    }
    end
}

/// An immutable packed dictionary: the blob is validated once when the
/// dictionary is constructed and never changes afterwards.
pub struct Dictionary {
    strings: Vec<u8>,
    string_offsets: Vec<u32>,
    entries: Vec<u8>,
    entry_offsets: Vec<u32>,
    n_kanji: usize,
    n_kana: usize,
    n_english: usize,
    n_pos: usize,
    n_id: usize,
}

impl View for Dictionary {
    type V = Seq<WordEntryView>;

    /// A dictionary is, to its callers, the sequence of its decoded entries.
    closed spec fn view(&self) -> Seq<WordEntryView> {
        self.blob().entries_view()
    }
}

impl Dictionary {
    /// The blob model of this dictionary's backing data.
    pub closed spec fn blob(&self) -> BlobView {
        blob_of(
            self.strings@,
            self.string_offsets@,
            self.entries@,
            self.entry_offsets@,
            self.n_kanji as int,
            self.n_kana as int,
            self.n_english as int,
            self.n_pos as int,
            self.n_id as int,
        )
    }

    #[verifier::type_invariant]
    spec fn inv(self) -> bool {
        self.blob().wf()
    }

    /// How many entries the dictionary holds.
    pub fn word_count(&self) -> (n: usize)
        ensures
            n == self@.len(),
    {
        self.entry_offsets.len()
    }

    /// Decodes the string stored in slot `s` of the string table.
    fn pool_string(&self, s: usize) -> (r: String)
        requires
            self.blob().wf(),
            s < self.blob().slots(),
        ensures
            r@ == self.blob().slot_str(s as int),
            r@.len() > 0,
    {
        let ghost b = self.blob();
        assert(b.slot_ok(s as int));
        let off = self.string_offsets[s] as usize;
        proof {
            lemma_str_end(self.strings@, off as int);
        }
        let end = find_str_end(&self.strings, off);
        let sl = vstd::slice::slice_subrange(self.strings.as_slice(), off, end);
        assert(sl@ == b.slot_bytes(s as int));
        match utf8_string(sl) {
            Some(r) => {
                proof {
                    vstd::utf8::encode_utf8_decode_utf8(r@);
                    assert(b.slot_bytes(s as int).len() > 0);
                    assert(r@.len() > 0) by {
                        if r@.len() == 0 {
                            assert(encode_utf8(r@) =~= Seq::<u8>::empty());
                        }
                    }
                }
                r
            },
            None => {
                proof {
                    assert(false);
                }
                vstd::pervasive::unreached()
            },
        }
    }

    /// Decodes the strings of one category of entry `j`: `count` embedded
    /// 4-byte indices starting at byte `pos` of the entry buffer.
    fn read_category(&self, pos: usize, count: usize, Ghost(slot_of): Ghost<spec_fn(int) -> int>) -> (r:
        Vec<String>)
        requires
            self.blob().wf(),
            pos + 4 * count <= self.blob().entries.len(),
            forall|t: int|
                0 <= t < count ==> #[trigger] slot_of(t) == le32(self.blob().entries, pos + 4 * t),
            forall|t: int| 0 <= t < count ==> 0 <= #[trigger] slot_of(t) < self.blob().slots(),
        ensures
            r.deep_view() =~~= Seq::new(count as nat, |t: int| self.blob().slot_str(slot_of(t))),
    {
        let ghost b = self.blob();
        let n = self.entries.len();
        let mut r: Vec<String> = Vec::new();
        let mut t: usize = 0;
        while t < count
            invariant
                self.blob().wf(),
                b == self.blob(),
                n == b.entries.len(),
                0 <= t <= count,
                pos + 4 * count <= b.entries.len(),
                forall|u: int| 0 <= u < count ==> #[trigger] slot_of(u) == le32(b.entries, pos + 4 * u),
                forall|u: int| 0 <= u < count ==> 0 <= #[trigger] slot_of(u) < b.slots(),
                r.deep_view() =~~= Seq::new(t as nat, |u: int| b.slot_str(slot_of(u))),
            decreases count - t,
        {
            let ghost prev = r.deep_view();
            let idx = read_le32(&self.entries, pos + 4 * t);
            assert(idx as int == slot_of(t as int));
            let s = self.pool_string(idx as usize);
            r.push(s);
            proof {
                assert(r.deep_view() =~~= prev.push(s@));
            }
            t += 1;
        }
        r
    }

    /// Decodes entry `index` afresh from the blob.
    ///
    /// Every string of the result is non-empty, and the result is exactly the
    /// entry's view: this never fails and never panics for an index in range.
    pub fn get_word_entry(&self, index: usize) -> (r: WordEntry)
        requires
            index < self@.len(),
        ensures
            r@ == self@[index as int],
            forall|t: int| 0 <= t < r@.kanji.len() ==> (#[trigger] r@.kanji[t]).len() > 0,
            forall|t: int| 0 <= t < r@.kana.len() ==> (#[trigger] r@.kana[t]).len() > 0,
            forall|t: int| 0 <= t < r@.english.len() ==> (#[trigger] r@.english[t]).len() > 0,
            forall|t: int| 0 <= t < r@.pos.len() ==> (#[trigger] r@.pos[t]).len() > 0,
            r@.id.len() > 0,
    {
        proof {
            use_type_invariant(self);
        }
        let ghost b = self.blob();
        let ghost j = index as int;
        assert(b.entry_ok(j));
        // Naming the length keeps the buffer's size bound in scope for the
        // offset arithmetic below.
        let n = self.entries.len();
        let o = self.entry_offsets[index] as usize;
        let id_idx = read_le32(&self.entries, o);
        let kc = self.entries[o + 4] as usize;
        let nc = self.entries[o + 5] as usize;
        let ec = self.entries[o + 6] as usize;
        let pc = self.entries[o + 7] as usize;
        let is_common = self.entries[o + 8] != 0;

        let kanji = self.read_category(
            o + 9,
            kc,
            Ghost(|t: int| b.kanji_slot(j, t)),
        );
        let kana = self.read_category(
            o + 9 + 4 * kc,
            nc,
            Ghost(|t: int| b.kana_slot(j, t)),
        );
        let english = self.read_category(
            o + 9 + 4 * kc + 4 * nc,
            ec,
            Ghost(|t: int| b.gloss_slot(j, t)),
        );
        let pos = self.read_category(
            o + 9 + 4 * kc + 4 * nc + 4 * ec,
            pc,
            Ghost(|t: int| b.pos_slot(j, t)),
        );

        assert(b.counts_ok());
        let slots = self.string_offsets.len();
        assert(b.n_kanji + b.n_kana + b.n_english + b.n_pos <= slots as int);
        let id_base = self.n_kanji + self.n_kana + self.n_english + self.n_pos;
        assert(0 <= b.id_idx(j) < b.n_id);
        let id_slot = id_base + id_idx as usize;
        let id = self.pool_string(id_slot);

        let r = WordEntry { id, kanji, kana, english, pos, is_common };
        proof {
            assert(r@ =~~= b.entry_view(j));
            let v = self@[j];
            assert forall|t: int| 0 <= t < v.kanji.len() implies (#[trigger] v.kanji[t]).len() > 0 by {
                lemma_slot_str_nonempty(b, b.kanji_slot(j, t));
            }
            assert forall|t: int| 0 <= t < v.kana.len() implies (#[trigger] v.kana[t]).len() > 0 by {
                lemma_slot_str_nonempty(b, b.kana_slot(j, t));
            }
            assert forall|t: int| 0 <= t < v.english.len() implies (#[trigger] v.english[t]).len()
                > 0 by {
                lemma_slot_str_nonempty(b, b.gloss_slot(j, t));
            }
            assert forall|t: int| 0 <= t < v.pos.len() implies (#[trigger] v.pos[t]).len() > 0 by {
                lemma_slot_str_nonempty(b, b.pos_slot(j, t));
            }
            lemma_slot_str_nonempty(b, b.id_slot(j));
        }
        r
    }
}

impl Dictionary {
    /// Validates a packed blob and wraps it. Returns the dictionary exactly
    /// when the blob is well formed: the category counts sum to the length of
    /// the string offset table, every slot of that table points at a
    /// non-empty, valid UTF-8, null-terminated run of the string pool, and
    /// every entry record lies inside the entry buffer with every embedded
    /// string index resolving to a slot of the table.
    pub fn new(
        strings: Vec<u8>,
        string_offsets: Vec<u32>,
        entries: Vec<u8>,
        entry_offsets: Vec<u32>,
        n_kanji: usize,
        n_kana: usize,
        n_english: usize,
        n_pos: usize,
        n_id: usize,
    ) -> (r: Option<Dictionary>)
        ensures
            ({
                let b = blob_of(
                    strings@,
                    string_offsets@,
                    entries@,
                    entry_offsets@,
                    n_kanji as int,
                    n_kana as int,
                    n_english as int,
                    n_pos as int,
                    n_id as int,
                );
                &&& (r is Some <==> b.wf())
                &&& (r is Some ==> r->0@ == b.entries_view())
            }),
    {
        let ghost b = blob_of(
            strings@,
            string_offsets@,
            entries@,
            entry_offsets@,
            n_kanji as int,
            n_kana as int,
            n_english as int,
            n_pos as int,
            n_id as int,
        );
        let slots = string_offsets.len();

        // Category counts must sum to the slot count, without overflowing.
        let mut total: usize = n_kanji;
        if n_kana > slots || total > slots - n_kana {
            return None;
        }
        total += n_kana;
        if n_english > slots || total > slots - n_english {
            return None;
        }
        total += n_english;
        if n_pos > slots || total > slots - n_pos {
            return None;
        }
        total += n_pos;
        if n_id > slots || total > slots - n_id {
            return None;
        }
        total += n_id;
        if total != slots {
            return None;
        }
        assert(b.counts_ok());

        // Every string slot must resolve to a non-empty valid UTF-8 run.
        let pool_len = strings.len();
        let mut s: usize = 0;
        while s < slots
            invariant
                slots == b.slots(),
                pool_len == b.strings.len(),
                b == blob_of(
                    strings@,
                    string_offsets@,
                    entries@,
                    entry_offsets@,
                    n_kanji as int,
                    n_kana as int,
                    n_english as int,
                    n_pos as int,
                    n_id as int,
                ),
                0 <= s <= slots,
                forall|u: int| 0 <= u < s ==> #[trigger] b.slot_ok(u),
            decreases slots - s,
        {
            let off = string_offsets[s] as usize;
            if off >= pool_len {
                assert(!b.slot_ok(s as int));
                return None;
            }
            if strings[off] == 0 {
                assert(!b.slot_ok(s as int));
                return None;
            }
            proof {
                lemma_str_end(strings@, off as int);
            }
            let end = find_str_end(&strings, off);
            let sl = vstd::slice::slice_subrange(strings.as_slice(), off, end);
            assert(sl@ == b.slot_bytes(s as int));
            match utf8_string(sl) {
                Some(_) => (),
                None => {
                    assert(!b.slot_ok(s as int));
                    return None;
                },
            }
            assert(b.slot_ok(s as int));
            s += 1;
        }

        // Every entry record must lie inside the buffer with in-range
        // embedded string indices.
        let words = entry_offsets.len();
        let blob_len = entries.len();
        let mut j: usize = 0;
        while j < words
            invariant
                words == b.words(),
                blob_len == b.entries.len(),
                slots == b.slots(),
                b == blob_of(
                    strings@,
                    string_offsets@,
                    entries@,
                    entry_offsets@,
                    n_kanji as int,
                    n_kana as int,
                    n_english as int,
                    n_pos as int,
                    n_id as int,
                ),
                n_id == b.n_id,
                0 <= j <= words,
                forall|u: int| 0 <= u < j ==> #[trigger] b.entry_ok(u),
            decreases words - j,
        {
            let ghost ji = j as int;
            let o = entry_offsets[j] as usize;
            if blob_len < 9 || o > blob_len - 9 {
                assert(!b.entry_ok(ji));
                return None;
            }
            let kc = entries[o + 4] as usize;
            let nc = entries[o + 5] as usize;
            let ec = entries[o + 6] as usize;
            let pc = entries[o + 7] as usize;
            let count = kc + nc + ec + pc;
            if 4 * count > blob_len - 9 - o {
                assert(!b.entry_ok(ji));
                return None;
            }
            let id_idx = read_le32(&entries, o);
            if id_idx as usize >= n_id {
                assert(!b.entry_ok(ji));
                return None;
            }
            assert(0 <= b.id_idx(ji) < b.n_id);
            let mut t: usize = 0;
            while t < count
                invariant
                    b == blob_of(
                        strings@,
                        string_offsets@,
                        entries@,
                        entry_offsets@,
                        n_kanji as int,
                        n_kana as int,
                        n_english as int,
                        n_pos as int,
                        n_id as int,
                    ),
                    blob_len == b.entries.len(),
                    b.entries == entries@,
                    slots == b.slots(),
                    0 <= ji < b.words(),
                    0 <= t <= count,
                    o == b.eoff(ji),
                    o + 9 + 4 * count <= blob_len,
                    count == b.kanji_count(ji) + b.kana_count(ji) + b.gloss_count(ji)
                        + b.pos_count(ji),
                    forall|u: int|
                        0 <= u < t ==> 0 <= #[trigger] le32(b.entries, o + 9 + 4 * u) < slots,
                decreases count - t,
            {
                let idx = read_le32(&entries, o + 9 + 4 * t);
                if idx as usize >= slots {
                    proof {
                        let u = t as int;
                        let kcs = b.kanji_count(ji);
                        let ncs = b.kana_count(ji);
                        let ecs = b.gloss_count(ji);
                        if u < kcs {
                            assert(b.kanji_slot(ji, u) == le32(b.entries, o + 9 + 4 * u));
                            assert(!b.entry_ok(ji));
                        } else if u < kcs + ncs {
                            assert(b.kana_slot(ji, u - kcs) == le32(b.entries, o + 9 + 4 * u));
                            assert(!b.entry_ok(ji));
                        } else if u < kcs + ncs + ecs {
                            assert(b.gloss_slot(ji, u - kcs - ncs) == le32(b.entries, o + 9 + 4 * u));
                            assert(!b.entry_ok(ji));
                        } else {
                            assert(b.pos_slot(ji, u - kcs - ncs - ecs) == le32(
                                b.entries,
                                o + 9 + 4 * u,
                            ));
                            assert(!b.entry_ok(ji));
                        }
                    }
                    return None;
                }
                t += 1;
            }
            proof {
                let kcs = b.kanji_count(ji);
                let ncs = b.kana_count(ji);
                let ecs = b.gloss_count(ji);
                let pcs = b.pos_count(ji);
                assert forall|u: int| 0 <= u < kcs implies 0 <= #[trigger] b.kanji_slot(ji, u)
                    < b.slots() by {
                    assert(0 <= le32(b.entries, o + 9 + 4 * u) < slots);
                }
                assert forall|u: int| 0 <= u < ncs implies 0 <= #[trigger] b.kana_slot(ji, u)
                    < b.slots() by {
                    assert(0 <= le32(b.entries, o + 9 + 4 * (kcs + u)) < slots);
                }
                assert forall|u: int| 0 <= u < ecs implies 0 <= #[trigger] b.gloss_slot(ji, u)
                    < b.slots() by {
                    assert(0 <= le32(b.entries, o + 9 + 4 * (kcs + ncs + u)) < slots);
                }
                assert forall|u: int| 0 <= u < pcs implies 0 <= #[trigger] b.pos_slot(ji, u)
                    < b.slots() by {
                    assert(0 <= le32(b.entries, o + 9 + 4 * (kcs + ncs + ecs + u)) < slots);
                }
                assert(b.entry_ok(ji));
            }
            j += 1;
        }

        let d = Dictionary {
            strings,
            string_offsets,
            entries,
            entry_offsets,
            n_kanji,
            n_kana,
            n_english,
            n_pos,
            n_id,
        };
        assert(d.blob() == b);
        assert(b.wf());
        Some(d)
    }
}

} // verus!
