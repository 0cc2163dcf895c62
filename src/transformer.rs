use crate::seq_compression::{zstd_decompressed, SeqCompressor};
use vstd::prelude::*;

verus! {

/// Why a transposition run failed.
#[derive(Clone, Copy, Debug, PartialEq, Eq, Structural)]
pub enum TransformError {
    /// Every sequence is absent, so the length of the sequences is unknown.
    NoSequencePresent,
    /// A sequence could not be decompressed.
    Decompression,
    /// A sequence is shorter than the first present one.
    ShortSequence,
    /// A column could not be compressed.
    Compression,
}

/// The rows with each absent row replaced by `len` copies of `unknown`.
pub open spec fn filled_rows(rows: Seq<Option<Seq<u8>>>, len: nat, unknown: u8) -> Seq<Seq<u8>> {
    Seq::new(rows.len(), |k: int| match rows[k] {
        Some(r) => r,
        None => Seq::new(len, |j: int| unknown),
    })
}

/// The `len` columns of a list of rows: column `j` holds the `j`-th symbol of
/// every row, in the rows' order.
pub open spec fn transpose(rows: Seq<Seq<u8>>, len: nat) -> Seq<Seq<u8>> {
    Seq::new(len, |j: int| Seq::new(rows.len(), |k: int| rows[k][j]))
}

/// The columns of rows of which some may be absent: an absent row contributes
/// `unknown` to every column.
pub open spec fn columns_of(rows: Seq<Option<Seq<u8>>>, len: nat, unknown: u8) -> Seq<Seq<u8>> {
    transpose(filled_rows(rows, len, unknown), len)
}

/// Transposing the columns of `K` rows of length `len` back gives the rows,
/// with every absent row as a run of `unknown`.
pub proof fn lemma_transpose_round_trip(rows: Seq<Option<Seq<u8>>>, len: nat, unknown: u8)
    requires
        forall|k: int| 0 <= k < rows.len() ==> ((#[trigger] rows[k]) matches Some(r) ==> r.len() == len),
    ensures
        transpose(columns_of(rows, len, unknown), rows.len()) == filled_rows(rows, len, unknown),
{
    let filled = filled_rows(rows, len, unknown);
    let back = transpose(columns_of(rows, len, unknown), rows.len());
    assert forall|k: int| 0 <= k < rows.len() implies #[trigger] back[k] == filled[k] by {
        assert(back[k] =~= filled[k]);
    }
    assert(back =~= filled);
}

/// The decompressed content of each present row.
pub open spec fn decompressed_rows(rows: Seq<Option<Vec<u8>>>, dict: Seq<u8>) -> Seq<Option<Seq<u8>>> {
    rows.map_values(|r: Option<Vec<u8>>| match r {
        Some(v) => Some(zstd_decompressed(dict, v@)),
        None => None,
    })
}

/// The outcome of reading the first `n` rows, each of which must be at least
/// `len` long: the first row that does not decompress, or is shorter, decides
/// the error.
pub open spec fn row_check(rows: Seq<Option<Vec<u8>>>, dec: SeqCompressor, len: nat, n: int) -> Result<(), TransformError>
    decreases n,
{
    if n <= 0 {
        Ok(())
    } else {
        match row_check(rows, dec, len, n - 1) {
            Err(e) => Err(e),
            Ok(()) => match rows[n - 1] {
                None => Ok(()),
                Some(f) => if !dec.decodes(f@) {
                    Err(TransformError::Decompression)
                } else if zstd_decompressed(dec.dict(), f@).len() < len {
                    Err(TransformError::ShortSequence)
                } else {
                    Ok(())
                },
            },
        }
    }
}

/// The index of the first present row at or after `i`, or the number of rows.
pub open spec fn first_present(rows: Seq<Option<Vec<u8>>>, i: int) -> int
    decreases rows.len() - i,
{
    if i < 0 || i >= rows.len() {
        rows.len() as int
    } else if rows[i] is Some {
        i
    } else {
        first_present(rows, i + 1)
    }
}

/// The length of the sequences: that of the first present one.
pub open spec fn sequence_length(rows: Seq<Option<Vec<u8>>>, dec: SeqCompressor) -> nat {
    zstd_decompressed(dec.dict(), rows[first_present(rows, 0)]->0@).len()
}

/// An error among the first rows is the outcome of all of them.
pub proof fn lemma_row_check_err(rows: Seq<Option<Vec<u8>>>, dec: SeqCompressor, len: nat, n: int, m: int)
    requires
        0 <= n <= m,
        row_check(rows, dec, len, n) is Err,
    ensures
        row_check(rows, dec, len, m) == row_check(rows, dec, len, n),
    decreases m - n,
{
    if m > n {
        lemma_row_check_err(rows, dec, len, n, m - 1);
    }
}

/// Rows that are long enough for `len` are long enough for any shorter length.
pub proof fn lemma_row_check_shorter(rows: Seq<Option<Vec<u8>>>, dec: SeqCompressor, len: nat, shorter: nat, n: int)
    requires
        shorter <= len,
        row_check(rows, dec, len, n) is Ok,
    ensures
        row_check(rows, dec, shorter, n) is Ok,
    decreases n,
{
    if n > 0 {
        lemma_row_check_shorter(rows, dec, len, shorter, n - 1);
    }
}

/// Before the first present row, nothing can fail.
proof fn lemma_row_check_absent_prefix(rows: Seq<Option<Vec<u8>>>, dec: SeqCompressor, len: nat, n: int)
    requires
        0 <= n <= first_present(rows, 0),
        forall|k: int| 0 <= k < first_present(rows, 0) ==> (#[trigger] rows[k]) is None,
    ensures
        row_check(rows, dec, len, n) is Ok,
    decreases n,
{
    if n > 0 {
        lemma_row_check_absent_prefix(rows, dec, len, n - 1);
    }
}

/// The first present row is present, and every row before it is absent.
proof fn lemma_first_present(rows: Seq<Option<Vec<u8>>>, i: int)
    requires
        0 <= i <= rows.len(),
    ensures
        i <= first_present(rows, i) <= rows.len(),
        first_present(rows, i) < rows.len() ==> rows[first_present(rows, i)] is Some,
        forall|k: int| i <= k < first_present(rows, i) ==> (#[trigger] rows[k]) is None,
    decreases rows.len() - i,
{
    if i < rows.len() && rows[i] is None {
        lemma_first_present(rows, i + 1);
    }
}

/// Turns row-compressed sequences into column-compressed ones, a range of
/// positions at a time, so that the decompressed rows never all stand in
/// memory together.
pub struct SequenceRowToColumnTransformer {
    pub number_workers: usize,
    /// How many positions one chunk covers: each chunk holds this many columns
    /// of all the sequences.
    pub position_range_size: usize,
    /// How many sequences one decompression task handles.
    pub batch_size: usize,
}

impl SequenceRowToColumnTransformer {
    pub fn new(number_workers: usize, position_range_size: usize) -> (r: Self)
        ensures
            r.number_workers == number_workers,
            r.position_range_size == position_range_size,
            r.batch_size == 30000,
    {
        SequenceRowToColumnTransformer { number_workers, position_range_size, batch_size: 30000 }
    }

    /// The number of chunks that cover `sequence_length` positions.
    pub fn number_of_chunks(&self, sequence_length: usize) -> (r: usize)
        requires
            self.position_range_size > 0,
        ensures
            r == if sequence_length % self.position_range_size == 0 {
                (sequence_length / self.position_range_size) as int
            } else {
                sequence_length / self.position_range_size + 1
            },
    {
        let size = self.position_range_size;
        let q = sequence_length / size;
        if sequence_length % size == 0 {
            q
        } else {
            proof {
                assert(q < usize::MAX) by (nonlinear_arith)
                    requires q == sequence_length / size, sequence_length % size != 0, size > 0, sequence_length <= usize::MAX;
            }
            q + 1
        }
    }

    /// Writes the symbols at `start..end` of the rows `rows[first..last]` into
    /// their cells of the chunk, where `chunk[c][k]` is the symbol at
    /// `start + c` of row `k`; an absent row gets `unknown` in each cell.
    pub fn fill_rows(
        chunk: &mut Vec<Vec<u8>>,
        rows: &Vec<Option<Vec<u8>>>,
        decompressor: &SeqCompressor,
        first: usize,
        last: usize,
        start: usize,
        end: usize,
        unknown: u8,
    ) -> (r: Result<(), TransformError>)
        requires
            first <= last <= rows@.len(),
            start <= end,
            old(chunk)@.len() == end - start,
            forall|c: int| 0 <= c < old(chunk)@.len() ==> (#[trigger] old(chunk)@[c])@.len() == rows@.len(),
        ensures
            final(chunk)@.len() == old(chunk)@.len(),
            forall|c: int| 0 <= c < final(chunk)@.len() ==> (#[trigger] final(chunk)@[c])@.len() == rows@.len(),
            forall|c: int, k: int| 0 <= c < final(chunk)@.len() && 0 <= k < rows@.len() && !(first <= k < last)
                ==> #[trigger] final(chunk)@[c]@[k] == old(chunk)@[c]@[k],
            r is Ok ==> forall|c: int, k: int| 0 <= c < final(chunk)@.len() && first <= k < last
                ==> #[trigger] final(chunk)@[c]@[k] == filled_rows(decompressed_rows(rows@, decompressor.dict()), end as nat, unknown)[k][start + c],
            r is Ok ==> forall|k: int| first <= k < last && (#[trigger] rows@[k]) is Some
                ==> zstd_decompressed(decompressor.dict(), rows@[k]->0@).len() >= end,
            row_check(rows@, *decompressor, end as nat, first as int) is Ok ==> match row_check(rows@, *decompressor, end as nat, last as int) {
                Ok(()) => r is Ok,
                Err(e) => r == Err::<(), TransformError>(e),
            },
    {
        let ghost dec = decompressed_rows(rows@, decompressor.dict());
        let ghost filled = filled_rows(dec, end as nat, unknown);
        let ghost initial = chunk@;
        let width: usize = end - start;
        let mut k: usize = first;
        while k < last
            invariant
                first <= k <= last <= rows@.len(),
                width == end - start,
                chunk@.len() == width,
                initial == old(chunk)@,
                initial.len() == width,
                forall|c: int| 0 <= c < width ==> (#[trigger] initial[c])@.len() == rows@.len(),
                dec == decompressed_rows(rows@, decompressor.dict()),
                filled == filled_rows(dec, end as nat, unknown),
                forall|c: int| 0 <= c < width ==> (#[trigger] chunk@[c])@.len() == rows@.len(),
                forall|c: int, j: int| 0 <= c < width && 0 <= j < rows@.len() && !(first <= j < k)
                    ==> #[trigger] chunk@[c]@[j] == initial[c]@[j],
                forall|c: int, j: int| 0 <= c < width && first <= j < k
                    ==> #[trigger] chunk@[c]@[j] == filled[j][start + c],
                forall|j: int| first <= j < k && (#[trigger] rows@[j]) is Some
                    ==> zstd_decompressed(decompressor.dict(), rows@[j]->0@).len() >= end,
                row_check(rows@, *decompressor, end as nat, first as int) is Ok ==> row_check(rows@, *decompressor, end as nat, k as int) is Ok,
            decreases last - k,
        {
            match &rows[k] {
                None => {
                    let mut c: usize = 0;
                    while c < width
                        invariant
                            first <= k < last <= rows@.len(),
                            rows@[k as int] is None,
                            width == end - start,
                            chunk@.len() == width,
                            initial == old(chunk)@,
                            initial.len() == width,
                            forall|c: int| 0 <= c < width ==> (#[trigger] initial[c])@.len() == rows@.len(),
                            c <= width,
                            dec == decompressed_rows(rows@, decompressor.dict()),
                            filled == filled_rows(dec, end as nat, unknown),
                            forall|c: int| 0 <= c < width ==> (#[trigger] chunk@[c])@.len() == rows@.len(),
                            forall|c2: int, j: int| 0 <= c2 < width && 0 <= j < rows@.len() && !(first <= j < k) && !(j == k && c2 < c)
                                ==> #[trigger] chunk@[c2]@[j] == initial[c2]@[j],
                            forall|c2: int, j: int| 0 <= c2 < width && ((first <= j < k) || (j == k && c2 < c))
                                ==> #[trigger] chunk@[c2]@[j] == filled[j][start + c2],
                            forall|j: int| first <= j < k && (#[trigger] rows@[j]) is Some
                                ==> zstd_decompressed(decompressor.dict(), rows@[j]->0@).len() >= end,
                        decreases width - c,
                    {
                        chunk[c].set(k, unknown);
                        proof {
                            assert(dec[k as int] is None);
                            assert(filled[k as int] == Seq::new(end as nat, |j: int| unknown));
                        }
                        c = c + 1;
                    }
                },
                Some(compressed) => {
                    let decompressed = match decompressor.decompress(compressed.as_slice()) {
                        Some(d) => d,
                        None => {
                            proof {
                                if row_check(rows@, *decompressor, end as nat, first as int) is Ok {
                                    lemma_row_check_err(rows@, *decompressor, end as nat, k + 1, last as int);
                                }
                            }
                            return Err(TransformError::Decompression);
                        },
                    };
                    if decompressed.len() < end {
                        proof {
                            if row_check(rows@, *decompressor, end as nat, first as int) is Ok {
                                lemma_row_check_err(rows@, *decompressor, end as nat, k + 1, last as int);
                            }
                        }
                        return Err(TransformError::ShortSequence);
                    }
                    proof {
                        assert(dec[k as int] == Some(decompressed@));
                        assert(filled[k as int] == decompressed@);
                    }
                    let mut c: usize = 0;
                    while c < width
                        invariant
                            first <= k < last <= rows@.len(),
                            width == end - start,
                            chunk@.len() == width,
                            initial == old(chunk)@,
                            initial.len() == width,
                            forall|c: int| 0 <= c < width ==> (#[trigger] initial[c])@.len() == rows@.len(),
                            c <= width,
                            decompressed@.len() >= end,
                            filled[k as int] == decompressed@,
                            rows@[k as int] is Some,
                            zstd_decompressed(decompressor.dict(), rows@[k as int]->0@) == decompressed@,
                            dec == decompressed_rows(rows@, decompressor.dict()),
                            filled == filled_rows(dec, end as nat, unknown),
                            forall|c: int| 0 <= c < width ==> (#[trigger] chunk@[c])@.len() == rows@.len(),
                            forall|c2: int, j: int| 0 <= c2 < width && 0 <= j < rows@.len() && !(first <= j < k) && !(j == k && c2 < c)
                                ==> #[trigger] chunk@[c2]@[j] == initial[c2]@[j],
                            forall|c2: int, j: int| 0 <= c2 < width && ((first <= j < k) || (j == k && c2 < c))
                                ==> #[trigger] chunk@[c2]@[j] == filled[j][start + c2],
                            forall|j: int| first <= j < k && (#[trigger] rows@[j]) is Some
                                ==> zstd_decompressed(decompressor.dict(), rows@[j]->0@).len() >= end,
                        decreases width - c,
                    {
                        chunk[c].set(k, decompressed[start + c]);
                        c = c + 1;
                    }
                },
            }
            k = k + 1;
        }
        Ok(())
    }

    /// The columns `start..end` of the sequences, each compressed: column `c`
    /// of the result holds the symbol at `start + c` of every sequence, and
    /// `unknown_code` for every absent sequence. The rows are decompressed in
    /// batches of `batch_size`. The first row, in order, that does not
    /// decompress or ends before `end` decides the error; otherwise the chunk
    /// fails only where a column does not compress.
    pub fn transform_chunk(
        &self,
        compressed_sequences: &Vec<Option<Vec<u8>>>,
        decompressor: &SeqCompressor,
        compressor: &SeqCompressor,
        start: usize,
        end: usize,
        unknown_code: u8,
    ) -> (r: Result<Vec<Vec<u8>>, TransformError>)
        requires
            start <= end,
            self.batch_size > 0,
        ensures
            ({
                let rows = compressed_sequences@;
                let cols = columns_of(decompressed_rows(rows, decompressor.dict()), end as nat, unknown_code);
                match row_check(rows, *decompressor, end as nat, rows.len() as int) {
                    Err(e) => r == Err::<Vec<Vec<u8>>, TransformError>(e),
                    Ok(()) => {
                        &&& r is Ok <==> forall|c: int| 0 <= c < end - start ==> #[trigger] compressor.compresses(cols[start + c])
                        &&& r is Err ==> r == Err::<Vec<Vec<u8>>, TransformError>(TransformError::Compression)
                        &&& r matches Ok(v) ==> v@.len() == end - start
                            && forall|c: int| 0 <= c < v@.len() ==> compressor.is_frame_of((#[trigger] v@[c])@, cols[start + c])
                    },
                }
            }),
    {
        let rows = compressed_sequences;
        let n = rows.len();
        let width = end - start;
        let ghost dec = decompressed_rows(rows@, decompressor.dict());
        let ghost filled = filled_rows(dec, end as nat, unknown_code);
        // A chunk of `width` columns, each with a placeholder for every row.
        let mut chunk: Vec<Vec<u8>> = Vec::with_capacity(width);
        while chunk.len() < width
            invariant
                chunk@.len() <= width,
                forall|c: int| 0 <= c < chunk@.len() ==> (#[trigger] chunk@[c])@.len() == n,
            decreases width - chunk@.len(),
        {
            let mut column: Vec<u8> = Vec::with_capacity(n);
            while column.len() < n
                invariant
                    column@.len() <= n,
                decreases n - column@.len(),
            {
                column.push(0x3F);
            }
            chunk.push(column);
        }
        let mut first: usize = 0;
        while first < n
            invariant
                n == rows@.len(),
                first <= n,
                self.batch_size > 0,
                width == end - start,
                chunk@.len() == width,
                dec == decompressed_rows(rows@, decompressor.dict()),
                filled == filled_rows(dec, end as nat, unknown_code),
                forall|c: int| 0 <= c < width ==> (#[trigger] chunk@[c])@.len() == n,
                forall|c: int, k: int| 0 <= c < width && 0 <= k < first
                    ==> #[trigger] chunk@[c]@[k] == filled[k][start + c],
                forall|k: int| 0 <= k < first && (#[trigger] rows@[k]) is Some
                    ==> zstd_decompressed(decompressor.dict(), rows@[k]->0@).len() >= end,
                row_check(rows@, *decompressor, end as nat, first as int) is Ok,
                rows@ == compressed_sequences@,
            decreases n - first,
        {
            let last: usize = if n - first < self.batch_size { n } else { first + self.batch_size };
            match SequenceRowToColumnTransformer::fill_rows(&mut chunk, rows, decompressor, first, last, start, end, unknown_code) {
                Ok(()) => {},
                Err(e) => {
                    proof {
                        assert(row_check(rows@, *decompressor, end as nat, last as int) == Err::<(), TransformError>(e));
                        lemma_row_check_err(rows@, *decompressor, end as nat, last as int, n as int);
                    }
                    return Err(e);
                },
            }
            first = last;
        }
        let ghost cols = columns_of(dec, end as nat, unknown_code);
        proof {
            assert forall|c: int| 0 <= c < width implies (#[trigger] chunk@[c])@ == cols[start + c] by {
                assert(chunk@[c]@ =~= cols[start + c]);
            }
        }
        let compressed = compress_columns(&chunk, compressor);
        proof {
            if compressed is Ok {
                assert forall|c: int| 0 <= c < end - start implies #[trigger] compressor.compresses(cols[start + c]) by {
                    assert(compressor.compresses(chunk@[c]@));
                }
            } else {
                if forall|c: int| 0 <= c < end - start ==> #[trigger] compressor.compresses(cols[start + c]) {
                    assert forall|c: int| 0 <= c < chunk@.len() implies #[trigger] compressor.compresses(chunk@[c]@) by {
                        assert(compressor.compresses(cols[start + c]));
                    }
                }
            }
        }
        compressed
    }

    /// Transposes row-compressed sequences into column-compressed ones, one
    /// chunk of `position_range_size` positions after the other. Any sequence
    /// may be absent; the length is that of the first present one. Column `j`
    /// holds the `j`-th symbol of every sequence, and `unknown_code` for every
    /// absent one. Every present sequence is first decompressed once to check
    /// it: the first one, in order, that does not decompress or is shorter
    /// decides the error; otherwise the run fails only where a column does not
    /// compress.
    pub fn transform(
        &self,
        compressed_sequences: &Vec<Option<Vec<u8>>>,
        decompressor: &SeqCompressor,
        compressor: &SeqCompressor,
        unknown_code: u8,
    ) -> (r: Result<Vec<Vec<u8>>, TransformError>)
        requires
            self.position_range_size > 0,
            self.batch_size > 0,
        ensures
            ({
                let rows = compressed_sequences@;
                let len = sequence_length(rows, *decompressor);
                let cols = columns_of(decompressed_rows(rows, decompressor.dict()), len, unknown_code);
                if rows.len() == 0 {
                    r matches Ok(v) && v@.len() == 0
                } else if first_present(rows, 0) == rows.len() {
                    r == Err::<Vec<Vec<u8>>, TransformError>(TransformError::NoSequencePresent)
                } else {
                    match row_check(rows, *decompressor, len, rows.len() as int) {
                        Err(e) => r == Err::<Vec<Vec<u8>>, TransformError>(e),
                        Ok(()) => {
                            &&& r is Ok <==> forall|j: int| 0 <= j < len ==> #[trigger] compressor.compresses(cols[j])
                            &&& r is Err ==> r == Err::<Vec<Vec<u8>>, TransformError>(TransformError::Compression)
                            &&& r matches Ok(v) ==> v@.len() == len
                                && forall|j: int| 0 <= j < len ==> compressor.is_frame_of((#[trigger] v@[j])@, cols[j])
                        },
                    }
                }
            }),
    {
        let ghost rows = compressed_sequences@;
        let n = compressed_sequences.len();
        let mut result: Vec<Vec<u8>> = Vec::new();
        if n == 0 {
            return Ok(result);
        }
        // The first present sequence gives the length.
        let mut fp: usize = 0;
        let mut found = false;
        while fp < n && !found
            invariant
                n == rows.len(),
                fp <= n,
                rows == compressed_sequences@,
                first_present(rows, 0) == if found { fp - 1 } else { first_present(rows, fp as int) },
                found ==> fp >= 1 && rows[fp - 1] is Some,
            decreases n - fp + if found { 0int } else { 1int },
        {
            match &compressed_sequences[fp] {
                Some(_) => {
                    found = true;
                },
                None => {},
            }
            fp = fp + 1;
        }
        if !found {
            return Err(TransformError::NoSequencePresent);
        }
        let first = fp - 1;
        proof {
            lemma_first_present(rows, 0);
        }
        let length = match &compressed_sequences[first] {
            None => return Err(TransformError::NoSequencePresent),
            Some(seq) => match decompressor.decompress(seq.as_slice()) {
                Some(d) => d.len(),
                None => {
                    proof {
                        let len = sequence_length(rows, *decompressor);
                        lemma_row_check_absent_prefix(rows, *decompressor, len, first as int);
                        lemma_row_check_err(rows, *decompressor, len, first + 1, n as int);
                    }
                    return Err(TransformError::Decompression);
                },
            },
        };
        let ghost len = length as nat;
        assert(len == sequence_length(rows, *decompressor));
        // Check every present sequence once.
        let mut k: usize = 0;
        while k < n
            invariant
                n == rows.len(),
                rows == compressed_sequences@,
                k <= n,
                len == length,
                first < n,
                first_present(rows, 0) == first as int,
                len == sequence_length(rows, *decompressor),
                row_check(rows, *decompressor, len, k as int) is Ok,
            decreases n - k,
        {
            match &compressed_sequences[k] {
                None => {},
                Some(seq) => match decompressor.decompress(seq.as_slice()) {
                    None => {
                        proof {
                            lemma_row_check_err(rows, *decompressor, len, k + 1, n as int);
                        }
                        return Err(TransformError::Decompression);
                    },
                    Some(d) => {
                        if d.len() < length {
                            proof {
                                lemma_row_check_err(rows, *decompressor, len, k + 1, n as int);
                            }
                            return Err(TransformError::ShortSequence);
                        }
                    },
                },
            }
            k = k + 1;
        }
        let ghost dec = decompressed_rows(rows, decompressor.dict());
        let ghost all_cols = columns_of(dec, len, unknown_code);
        let size = self.position_range_size;
        let mut start_pos: usize = 0;
        while start_pos < length
            invariant
                self.position_range_size == size > 0,
                self.batch_size > 0,
                start_pos <= length,
                len == length,
                rows == compressed_sequences@,
                n == rows.len(),
                first < n,
                first_present(rows, 0) == first as int,
                len == sequence_length(rows, *decompressor),
                row_check(rows, *decompressor, len, n as int) is Ok,
                dec == decompressed_rows(rows, decompressor.dict()),
                all_cols == columns_of(dec, len, unknown_code),
                result@.len() == start_pos,
                forall|j: int| 0 <= j < start_pos ==> compressor.is_frame_of((#[trigger] result@[j])@, all_cols[j]),
                forall|j: int| 0 <= j < start_pos ==> #[trigger] compressor.compresses(all_cols[j]),
            decreases length - start_pos,
        {
            let end_pos: usize = if length - start_pos < size { length } else { start_pos + size };
            proof {
                lemma_row_check_shorter(rows, *decompressor, len, end_pos as nat, n as int);
                lemma_columns_prefix(dec, end_pos as nat, len, unknown_code);
            }
            let columns = match self.transform_chunk(compressed_sequences, decompressor, compressor, start_pos, end_pos, unknown_code) {
                Ok(v) => v,
                Err(e) => {
                    proof {
                        let cols = columns_of(dec, end_pos as nat, unknown_code);
                        let c = choose|c: int| 0 <= c < end_pos - start_pos && !#[trigger] compressor.compresses(cols[start_pos + c]);
                        assert(cols[start_pos + c] == all_cols[start_pos + c]);
                        assert(!compressor.compresses(all_cols[start_pos + c]));
                    }
                    return Err(e);
                },
            };
            let ghost before = result@;
            let mut columns = columns;
            let ghost cs = columns@;
            result.append(&mut columns);
            proof {
                let cols = columns_of(dec, end_pos as nat, unknown_code);
                assert forall|j: int| 0 <= j < end_pos implies #[trigger] compressor.compresses(all_cols[j]) by {
                    if j >= start_pos {
                        assert(compressor.compresses(cols[start_pos + (j - start_pos)]));
                        assert(cols[j] == all_cols[j]);
                    }
                }
                assert forall|j: int| 0 <= j < end_pos implies compressor.is_frame_of((#[trigger] result@[j])@, all_cols[j])
                    && compressor.compresses(all_cols[j]) by {
                    if j >= start_pos {
                        assert(result@[j] == cs[j - start_pos]);
                        assert(compressor.compresses(cols[start_pos + (j - start_pos)]));
                        assert(cols[j] == all_cols[j]);
                        assert(compressor.compresses(cols[j]));
                    } else {
                        assert(result@[j] == before[j]);
                    }
                }
            }
            start_pos = end_pos;
        }
        Ok(result)
    }
}

/// Compresses each column; fails exactly where a column does not compress.
fn compress_columns(chunk: &Vec<Vec<u8>>, compressor: &SeqCompressor) -> (r: Result<Vec<Vec<u8>>, TransformError>)
    ensures
        r is Ok <==> forall|c: int| 0 <= c < chunk@.len() ==> #[trigger] compressor.compresses(chunk@[c]@),
        r matches Ok(v) ==> v@.len() == chunk@.len()
            && forall|c: int| 0 <= c < v@.len() ==> compressor.is_frame_of((#[trigger] v@[c])@, chunk@[c]@),
        r is Err ==> r == Err::<Vec<Vec<u8>>, TransformError>(TransformError::Compression),
{
    let mut result: Vec<Vec<u8>> = Vec::with_capacity(chunk.len());
    let mut c: usize = 0;
    while c < chunk.len()
        invariant
            c <= chunk@.len(),
            result@.len() == c,
            forall|k: int| 0 <= k < c ==> compressor.is_frame_of((#[trigger] result@[k])@, chunk@[k]@),
            forall|k: int| 0 <= k < c ==> #[trigger] compressor.compresses(chunk@[k]@),
        decreases chunk@.len() - c,
    {
        match compressor.compress_bytes(chunk[c].as_slice()) {
            Some(v) => result.push(v),
            None => return Err(TransformError::Compression),
        }
        c = c + 1;
    }
    Ok(result)
}

/// The columns below `end` of rows read up to `end` are those of the rows read in full.
proof fn lemma_columns_prefix(rows: Seq<Option<Seq<u8>>>, end: nat, len: nat, unknown: u8)
    requires
        end <= len,
    ensures
        forall|j: int| 0 <= j < end ==> #[trigger] columns_of(rows, end, unknown)[j] == columns_of(rows, len, unknown)[j],
{
    assert forall|j: int| 0 <= j < end implies #[trigger] columns_of(rows, end, unknown)[j] == columns_of(rows, len, unknown)[j] by {
        assert(columns_of(rows, end, unknown)[j] =~= columns_of(rows, len, unknown)[j]);
    }
}


} // verus!
