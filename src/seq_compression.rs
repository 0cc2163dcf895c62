use vstd::prelude::*;

verus! {

/// The zstd frame (level 3) that compresses `data` with the dictionary `dict`;
/// an empty dictionary is the same as none.
pub uninterp spec fn zstd_compressed(dict: Seq<u8>, data: Seq<u8>) -> Seq<u8>;

/// Whether zstd compresses `data` with the dictionary `dict` without error.
pub uninterp spec fn zstd_compresses(dict: Seq<u8>, data: Seq<u8>) -> bool;

/// The content that zstd reads back from `frame` with the dictionary `dict`.
pub uninterp spec fn zstd_decompressed(dict: Seq<u8>, frame: Seq<u8>) -> Seq<u8>;

/// Whether `frame` is zstd data that decompresses with the dictionary `dict`.
pub uninterp spec fn zstd_decodes(dict: Seq<u8>, frame: Seq<u8>) -> bool;

/// The decompressed size that the headers of `frame` record, where they record one.
pub uninterp spec fn zstd_size_bound(frame: Seq<u8>) -> Option<usize>;

/// Relies on `zstd::bulk::Compressor::with_dictionary(3, ..)` and its
/// `compress`: the frame is a function of the dictionary and the data, it
/// records the data's size in its header, and it decompresses, with the same
/// dictionary, to the data.
#[verifier::external_body]
fn zstd_compress(dict: &Vec<u8>, data: &[u8]) -> (r: Option<Vec<u8>>)
    ensures
        r is Some <==> zstd_compresses(dict@, data@),
        r matches Some(v) ==> v@ == zstd_compressed(dict@, data@) && zstd_decodes(dict@, v@)
            && zstd_decompressed(dict@, v@) == data@ && zstd_size_bound(v@) == Some(data@.len() as usize),
{
    let mut compressor = zstd::bulk::Compressor::with_dictionary(3, dict).ok()?;
    compressor.compress(data).ok()
}

/// Relies on `zstd::bulk::Decompressor::upper_bound`: the size recorded in
/// the frame headers.
#[verifier::external_body]
fn zstd_upper_bound(frame: &[u8]) -> (r: Option<usize>)
    ensures
        r == zstd_size_bound(frame@),
{
    zstd::bulk::Decompressor::upper_bound(frame)
}

/// Relies on `zstd::bulk::Decompressor::with_dictionary` and `decompress`:
/// the content comes back where the frame decodes and fits `capacity`, which
/// bounds the buffer that is allocated.
#[verifier::external_body]
fn zstd_decompress(dict: &Vec<u8>, frame: &[u8], capacity: usize) -> (r: Option<Vec<u8>>)
    requires
        capacity <= isize::MAX,
    ensures
        r is Some <==> (zstd_decodes(dict@, frame@) && zstd_decompressed(dict@, frame@).len() <= capacity),
        r matches Some(v) ==> v@ == zstd_decompressed(dict@, frame@),
{
    let mut decompressor = zstd::bulk::Decompressor::with_dictionary(dict).ok()?;
    decompressor.decompress(frame, capacity).ok()
}

/// A zstd codec for sequences, optionally seeded with a dictionary (usually
/// the reference genome).
pub struct SeqCompressor {
    dict: Vec<u8>,
}

impl SeqCompressor {
    /// The dictionary; empty where there is none.
    pub closed spec fn dict(&self) -> Seq<u8> {
        self.dict@
    }

    /// A codec without a dictionary.
    pub fn new() -> (r: Self)
        ensures
            r.dict() == Seq::<u8>::empty(),
    {
        SeqCompressor { dict: Vec::new() }
    }

    /// A codec seeded with `dict`.
    pub fn with_dict(dict: &[u8]) -> (r: Self)
        ensures
            r.dict() == dict@,
    {
        let mut d: Vec<u8> = Vec::with_capacity(dict.len());
        let mut i: usize = 0;
        while i < dict.len()
            invariant
                i <= dict@.len(),
                d@ == dict@.subrange(0, i as int),
            decreases dict@.len() - i,
        {
            d.push(dict[i]);
            proof {
                assert(dict@.subrange(0, i + 1) == dict@.subrange(0, i as int).push(dict@[i as int]));
            }
            i = i + 1;
        }
        proof {
            assert(dict@.subrange(0, i as int) == dict@);
        }
        SeqCompressor { dict: d }
    }

    /// A codec with the same dictionary.
    pub fn clone(&self) -> (r: Self)
        ensures
            r.dict() == self.dict(),
    {
        SeqCompressor::with_dict(self.dict.as_slice())
    }

    /// Whether `compress_bytes` succeeds on `data`.
    pub open spec fn compresses(&self, data: Seq<u8>) -> bool {
        data.len() <= isize::MAX && zstd_compresses(self.dict(), data)
    }

    /// Whether `decompress` succeeds on `frame`: the frame records a size that
    /// a buffer can have, and it decodes to content of at most that size.
    pub open spec fn decodes(&self, frame: Seq<u8>) -> bool {
        &&& zstd_size_bound(frame) matches Some(s)
        &&& s <= isize::MAX
        &&& zstd_decodes(self.dict(), frame)
        &&& zstd_decompressed(self.dict(), frame).len() <= s
    }

    /// Whether `frame` is the frame that compresses `data`, and decompresses
    /// back to it.
    pub open spec fn is_frame_of(&self, frame: Seq<u8>, data: Seq<u8>) -> bool {
        &&& frame == zstd_compressed(self.dict(), data)
        &&& self.decodes(frame)
        &&& zstd_decompressed(self.dict(), frame) == data
    }

    /// Compresses `bytes`; `None` exactly where zstd fails. What comes back
    /// decompresses, with the same dictionary, to `bytes`.
    pub fn compress_bytes(&self, bytes: &[u8]) -> (r: Option<Vec<u8>>)
        ensures
            r is Some <==> self.compresses(bytes@),
            r matches Some(v) ==> v@ == zstd_compressed(self.dict(), bytes@) && self.decodes(v@)
                && zstd_decompressed(self.dict(), v@) == bytes@,
    {
        if bytes.len() > isize::MAX as usize {
            return None;
        }
        zstd_compress(&self.dict, bytes)
    }

    /// Decompresses `compressed`; `None` exactly where it does not decode.
    pub fn decompress(&self, compressed: &[u8]) -> (r: Option<Vec<u8>>)
        ensures
            r is Some <==> self.decodes(compressed@),
            r matches Some(v) ==> v@ == zstd_decompressed(self.dict(), compressed@),
    {
        let size = match zstd_upper_bound(compressed) {
            Some(s) => s,
            None => return None,
        };
        if size > isize::MAX as usize {
            return None;
        }
        zstd_decompress(&self.dict, compressed, size)
    }
}

} // verus!
