//! The check sums of a written font: each table's record holds the sum of its padded bytes,
//! and the head table's check sum adjustment makes the whole font sum to `0xB1B0AFBA`.
use vstd::prelude::*;
use crate::big_endian::{be16s, get_u16, get_u32, lemma_be16s, lemma_join32};
use crate::otf::search_range::two_to;
use crate::otf::tables::offset::records_words;
use crate::otf::font::{OpenTypeFont, TableTag};
use crate::otf::tables::offset::TableRecord;
use crate::otf::writer::{
    adjustment, check_sum_of, directory_words, pad_len, sum_check_sums, sum_words, tag_array, wrap_add,
    written_entry_selector, written_tags, zeros,
};

verus! {

/// Adding modulo 2^32 is associative.
pub proof fn lemma_wrap_assoc(a: u32, b: u32, c: u32)
    ensures
        wrap_add(wrap_add(a, b), c) == wrap_add(a, wrap_add(b, c)),
{
    let m = 0x1_0000_0000int;
    let ab = if a + b >= m { a + b - m } else { a + b };
    assert(wrap_add(a, b) == ab);
    let bc = if b + c >= m { b + c - m } else { b + c };
    assert(wrap_add(b, c) == bc);
    let l = if ab + c >= m { ab + c - m } else { ab + c };
    let r = if a + bc >= m { a + bc - m } else { a + bc };
    assert(wrap_add(ab as u32, c) == l);
    assert(wrap_add(a, bc as u32) == r);
}

/// The words of `x + y` before the end of `x` are those of `x`.
proof fn lemma_sum_words_prefix(x: Seq<u8>, y: Seq<u8>, n: nat)
    requires
        4 * n <= x.len(),
    ensures
        sum_words(x + y, n) == sum_words(x, n),
    decreases n,
{
    if n > 0 {
        lemma_sum_words_prefix(x, y, (n - 1) as nat);
        let i = 4 * (n - 1);
        assert((x + y)[i] == x[i]);
        assert((x + y)[i + 1] == x[i + 1]);
        assert((x + y)[i + 2] == x[i + 2]);
        assert((x + y)[i + 3] == x[i + 3]);
    }
}

/// The sum of the words of `x + y` is the sum of the sums of `x` and of the first `k` words
/// of `y`, where `x` holds whole words.
proof fn lemma_sum_words_concat(x: Seq<u8>, y: Seq<u8>, k: nat)
    requires
        x.len() % 4 == 0,
        4 * k <= y.len(),
    ensures
        sum_words(x + y, x.len() / 4 + k) == wrap_add(sum_words(x, x.len() / 4), sum_words(y, k)),
    decreases k,
{
    let nx = x.len() / 4;
    if k == 0 {
        lemma_sum_words_prefix(x, y, nx);
    } else {
        lemma_sum_words_concat(x, y, (k - 1) as nat);
        let i = 4 * (k - 1);
        let j = x.len() + i;
        assert((x + y)[j] == y[i]);
        assert((x + y)[j + 1] == y[i + 1]);
        assert((x + y)[j + 2] == y[i + 2]);
        assert((x + y)[j + 3] == y[i + 3]);
        assert(4 * (nx + k - 1) == j);
        assert(get_u32(x + y, j) == get_u32(y, i));
        lemma_wrap_assoc(sum_words(x, nx), sum_words(y, (k - 1) as nat), get_u32(y, i));
    }
}

/// The check sum of `x + y` is the sum of their check sums, where `x` holds whole words.
pub proof fn lemma_check_sum_concat(x: Seq<u8>, y: Seq<u8>)
    requires
        x.len() % 4 == 0,
    ensures
        check_sum_of(x + y) == wrap_add(check_sum_of(x), check_sum_of(y)),
{
    assert((x.len() + y.len()) / 4 == x.len() / 4 + y.len() / 4);
    lemma_sum_words_concat(x, y, y.len() / 4);
}

/// Summing check sums from `init` adds `init` to their sum.
proof fn lemma_sum_check_sums_init(init: u32, recs: Seq<TableRecord>)
    ensures
        sum_check_sums(init, recs) == wrap_add(init, sum_check_sums(0, recs)),
    decreases recs.len(),
{
    if recs.len() > 0 {
        lemma_sum_check_sums_init(init, recs.drop_last());
        lemma_wrap_assoc(init, sum_check_sums(0, recs.drop_last()), recs.last().check_sum);
    }
}

/// Adding `0xB1B0AFBA - t` to `t` modulo 2^32 gives `0xB1B0AFBA`.
proof fn lemma_balance(t: u32)
    ensures
        wrap_add(t, ((0xB1B0AFBAu32 - t) % 0x1_0000_0000) as u32) == 0xB1B0AFBAu32,
{
    if t <= 0xB1B0AFBA {
        assert(((0xB1B0AFBAu32 - t) % 0x1_0000_0000) == 0xB1B0AFBA - t);
    } else {
        assert(((0xB1B0AFBAu32 - t) % 0x1_0000_0000) == 0xB1B0AFBA - t + 0x1_0000_0000);
    }
}

/// Padding makes whole words.
proof fn lemma_pad(n: nat)
    ensures
        (n + pad_len(n)) % 4 == 0,
{
    let r = n % 4;
    if r == 0 {
        assert(pad_len(n) == 0);
    } else if r == 1 {
        assert(pad_len(n) == 3);
    } else if r == 2 {
        assert(pad_len(n) == 2);
    } else {
        assert(pad_len(n) == 1);
    }
}

impl OpenTypeFont {
    /// The data of the first `k` written tables holds whole words and sums to the sum of their
    /// records' check sums.
    #[verifier::spinoff_prover]
    #[verifier::rlimit(50)]
    proof fn lemma_data_sum(self, tags: Seq<TableTag>, k: nat, cap: nat)
        requires
            self.writer_after(tags, k, cap) is Ok,
        ensures
            ({
                let (recs, data) = self.writer_after(tags, k, cap)->Ok_0;
                &&& data.len() % 4 == 0
                &&& check_sum_of(data) == sum_check_sums(0, recs)
            }),
        decreases k,
    {
        if k > 0 {
            self.lemma_data_sum(tags, (k - 1) as nat, cap);
            let (recs0, data0) = self.writer_after(tags, (k - 1) as nat, cap)->Ok_0;
            let b = self.table_bytes_of(tags[k - 1])->Ok_0;
            let padded = b + zeros(pad_len(data0.len() + b.len()));
            let (recs, data) = self.writer_after(tags, k, cap)->Ok_0;
            assert(data == data0 + padded);
            assert(recs.drop_last() =~= recs0);
            lemma_pad(data0.len() + b.len());
            assert(padded.len() == b.len() + pad_len(data0.len() + b.len()));
            assert(padded.len() % 4 == 0);
            lemma_check_sum_concat(data0, padded);
        }
    }

    /// The check sum adjustment balances the font: the words of the written font, with the
    /// head table's adjustment 0, sum with the adjustment to `0xB1B0AFBA` modulo 2^32.
    #[verifier::spinoff_prover]
    #[verifier::rlimit(50)]
    pub proof fn law_check_sum_adjustment(self, pdf_subset: bool)
        requires
            self.spec_to_vec(pdf_subset) is Ok,
        ensures
            ({
                let tags = written_tags(pdf_subset);
                let (recs, data) = self.writer_after(tags, tags.len(), tags.len())->Ok_0;
                let directory = self.spec_to_vec(pdf_subset)->Ok_0.0;
                wrap_add(check_sum_of(directory + data), adjustment(directory, recs)) == 0xB1B0AFBAu32
            }),
    {
        let tags = written_tags(pdf_subset);
        let (recs, data) = self.writer_after(tags, tags.len(), tags.len())->Ok_0;
        let w = directory_words(self.sfnt_version, recs, written_entry_selector(pdf_subset));
        let directory = be16s(w);
        lemma_be16s(w);
        assert(crate::otf::tables::offset::records_words(recs).len() == 8 * recs.len());
        assert(directory.len() % 4 == 0);
        lemma_check_sum_concat(directory, data);
        self.lemma_data_sum(tags, tags.len(), tags.len());
        lemma_sum_check_sums_init(check_sum_of(directory), recs);
        lemma_balance(wrap_add(check_sum_of(directory), check_sum_of(data)));
    }
}

impl OpenTypeFont {
    /// The header of the written directory: the sfnt version, the number of tables (10, or 7
    /// for a PDF subset), the search range (128, or 64), the entry selector (3, or 2) and the
    /// range shift (32, or 48), then a record of 16 bytes for each table, in the order written.
    #[verifier::spinoff_prover]
    pub proof fn law_directory_shape(self, pdf_subset: bool)
        requires
            self.spec_to_vec(pdf_subset) is Ok,
        ensures
            ({
                let d = self.spec_to_vec(pdf_subset)->Ok_0.0;
                let tags = written_tags(pdf_subset);
                let recs = self.writer_after(tags, tags.len(), tags.len())->Ok_0.0;
                &&& d.len() == 12 + 16 * tags.len()
                &&& get_u32(d, 0) == self.sfnt_version.spec_number()
                &&& get_u16(d, 4) == (if pdf_subset { 7u16 } else { 10u16 })
                &&& get_u16(d, 6) == (if pdf_subset { 64u16 } else { 128u16 })
                &&& get_u16(d, 8) == (if pdf_subset { 2u16 } else { 3u16 })
                &&& get_u16(d, 10) == (if pdf_subset { 48u16 } else { 32u16 })
                &&& recs.len() == tags.len()
                &&& forall|k: int| 0 <= k < recs.len() ==> (#[trigger] recs[k]).tag == tag_array(tags[k])
            }),
    {
        let tags = written_tags(pdf_subset);
        let (recs, data) = self.writer_after(tags, tags.len(), tags.len())->Ok_0;
        let es = written_entry_selector(pdf_subset);
        let w = directory_words(self.sfnt_version, recs, es);
        let d = be16s(w);
        self.lemma_records_tags(tags, tags.len(), tags.len());
        lemma_be16s(w);
        assert(records_words(recs).len() == 8 * recs.len());
        reveal_with_fuel(two_to, 4);
        assert(get_u16(d, 2 * 0int) == w[0]);
        assert(get_u16(d, 2 * 1int) == w[1]);
        assert(get_u16(d, 2 * 2int) == w[2]);
        assert(get_u16(d, 2 * 3int) == w[3]);
        assert(get_u16(d, 2 * 4int) == w[4]);
        assert(get_u16(d, 2 * 5int) == w[5]);
        lemma_join32(self.sfnt_version.spec_number());
    }

    /// The records of the first `k` written tables have their tags, in order.
    proof fn lemma_records_tags(self, tags: Seq<TableTag>, k: nat, cap: nat)
        requires
            self.writer_after(tags, k, cap) is Ok,
        ensures
            self.writer_after(tags, k, cap)->Ok_0.0.len() == k,
            forall|j: int| 0 <= j < k ==> (#[trigger] self.writer_after(tags, k, cap)->Ok_0.0[j]).tag == tag_array(tags[j]),
        decreases k,
    {
        if k > 0 {
            self.lemma_records_tags(tags, (k - 1) as nat, cap);
        }
    }
}

} // verus!

verus! {

impl OpenTypeFont {
    /// The data of the first `k` written tables fills whole 4-byte words, and the table of each
    /// record starts on a 4-byte boundary after the directory and lies within the data.
    proof fn lemma_table_layout(self, tags: Seq<TableTag>, k: nat, cap: nat)
        requires
            self.writer_after(tags, k, cap) is Ok,
            12 + 16 * cap + self.writer_after(tags, k, cap)->Ok_0.1.len() <= u32::MAX,
        ensures
            ({
                let (recs, data) = self.writer_after(tags, k, cap)->Ok_0;
                &&& data.len() % 4 == 0
                &&& recs.len() == k
                &&& forall|j: int|
                    0 <= j < k ==> (#[trigger] recs[j]).offset % 4 == 0 && recs[j].offset >= 12 + 16 * cap
                        && recs[j].offset - (12 + 16 * cap) + recs[j].length <= data.len()
            }),
        decreases k,
    {
        if k > 0 {
            let (recs0, data0) = self.writer_after(tags, (k - 1) as nat, cap)->Ok_0;
            let b = self.table_bytes_of(tags[k - 1])->Ok_0;
            let pad = pad_len(data0.len() + b.len());
            let (recs, data) = self.writer_after(tags, k, cap)->Ok_0;
            assert(data == data0 + (b + zeros(pad)));
            self.lemma_table_layout(tags, (k - 1) as nat, cap);
            let n = data0.len() + b.len();
            assert((n + (4 - n % 4) % 4) % 4 == 0);
            assert forall|j: int| 0 <= j < k implies (#[trigger] recs[j]).offset % 4 == 0 && recs[j].offset >= 12
                + 16 * cap && recs[j].offset - (12 + 16 * cap) + recs[j].length <= data.len() by {
                if j < k - 1 {
                    assert(recs[j] == recs0[j]);
                }
            }
        }
    }

    /// The tables that `to_vec` writes after the directory fill whole 4-byte words; the table
    /// of each record starts on a 4-byte boundary and lies within them, where the font's size
    /// fits 32 bits. (The written data is this, with the check sum adjustment set.)
    pub proof fn law_table_layout(self, pdf_subset: bool)
        requires
            self.spec_to_vec(pdf_subset) is Ok,
            12 + 16 * written_tags(pdf_subset).len() + self.writer_after(
                written_tags(pdf_subset),
                written_tags(pdf_subset).len(),
                written_tags(pdf_subset).len(),
            )->Ok_0.1.len() <= u32::MAX,
        ensures
            ({
                let tags = written_tags(pdf_subset);
                let (recs, data) = self.writer_after(tags, tags.len(), tags.len())->Ok_0;
                let h = 12 + 16 * tags.len();
                &&& data.len() % 4 == 0
                &&& recs.len() == tags.len()
                &&& forall|j: int|
                    0 <= j < recs.len() ==> (#[trigger] recs[j]).offset % 4 == 0 && recs[j].offset >= h
                        && recs[j].offset - h + recs[j].length <= data.len()
            }),
    {
        let tags = written_tags(pdf_subset);
        self.lemma_table_layout(tags, tags.len(), tags.len());
    }
}

} // verus!
