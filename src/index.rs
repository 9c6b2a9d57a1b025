//! Index files: a flat list of 128-bit positions, each stored big-endian.

use crate::encoding::{be_bytes, be_value, lemma_be_bytes_len, lemma_be_round_trip, lemma_pow256_values, read_be, write_be};
use vstd::prelude::*;
use vstd::string::*;

verus! {

/// Size of one entry of an index file.
pub const ENTRY_SIZE: usize = 16;

/// The entries that index data holds: one per 16 bytes, read big-endian.
pub open spec fn index_entries(data: Seq<u8>) -> Seq<nat> {
    Seq::new(data.len() / 16, |i: int| be_value(data.subrange(16 * i, 16 * i + 16)))
}

/// Reads the entries of index data, whose size is a whole number of entries.
pub fn parse_index_raw_data(data: Vec<u8>, collection_name: &str) -> (r: Vec<u128>)
    requires
        data@.len() % 16 == 0,
    ensures
        r@.len() == index_entries(data@).len(),
        forall|i: int| 0 <= i < r@.len() ==> r@[i] as nat == #[trigger] index_entries(data@)[i],
{
    let len = data.len();
    let count = len / ENTRY_SIZE;
    let mut entries: Vec<u128> = Vec::new();
    let mut i: usize = 0;
    while i < count
        invariant
            count == data@.len() / 16,
            len == data@.len(),
            data@.len() % 16 == 0,
            i <= count,
            entries@.len() == i,
            forall|j: int| 0 <= j < i ==> entries@[j] as nat == #[trigger] index_entries(data@)[j],
        decreases count - i,
    {
        proof {
            assert(16 * i + 16 <= data@.len()) by (nonlinear_arith)
                requires
                    i < count,
                    len == data@.len(),
                    count == data@.len() / 16,
                    data@.len() % 16 == 0,
            ;
        }
        let start: usize = 16 * i;
        let chunk = &data.as_slice()[start..start + 16];
        let value = read_be(chunk, 16);
        proof {
            assert(chunk@.take(16) =~= data@.subrange(16 * i, 16 * i + 16));
        }
        entries.push(value);
        i += 1;
    }
    entries
}

/// The positions of a collection, kept in the order they were added.
pub struct Index {
    pub collection_name: String,
    pub data: Vec<u128>,
}

/// The bytes that hold `data`: each entry big-endian on 16 bytes, in order.
pub open spec fn index_bytes(data: Seq<u128>) -> Seq<u8>
    decreases data.len(),
{
    if data.len() == 0 {
        Seq::empty()
    } else {
        index_bytes(data.drop_last()) + be_bytes(data.last() as nat, 16)
    }
}

proof fn lemma_index_bytes_len(data: Seq<u128>)
    ensures
        index_bytes(data).len() == 16 * data.len(),
    decreases data.len(),
{
    if data.len() > 0 {
        lemma_index_bytes_len(data.drop_last());
        lemma_be_bytes_len(data.last() as nat, 16);
    }
}

impl Index {
    /// An empty index of a collection; its entries are read separately.
    pub fn new(collection_name: &str) -> (r: Index)
        ensures
            r.collection_name@ == collection_name@,
            r.data@.len() == 0,
    {
        Index { collection_name: String::from_str(collection_name), data: Vec::new() }
    }

    pub open spec fn entries(&self) -> Seq<u128> {
        self.data@
    }

    pub fn get_data(&self) -> (r: Vec<u128>)
        ensures
            r@ == self.entries(),
    {
        self.data.clone()
    }

    pub fn add(&mut self, value: u128)
        ensures
            final(self).entries() == old(self).entries().push(value),
            final(self).collection_name == old(self).collection_name,
    {
        self.data.push(value);
    }

    /// Reads index data of this collection; see `parse_index_raw_data`.
    pub fn parse_index_raw_data(&self, raw_data: Vec<u8>) -> (r: Vec<u128>)
        requires
            raw_data@.len() % 16 == 0,
        ensures
            r@.len() == index_entries(raw_data@).len(),
            forall|i: int| 0 <= i < r@.len() ==> r@[i] as nat == #[trigger] index_entries(raw_data@)[i],
    {
        parse_index_raw_data(raw_data, self.collection_name.as_str())
    }

    /// The bytes of the index file: every entry big-endian on 16 bytes.
    pub fn encode_data(&self) -> (r: Vec<u8>)
        ensures
            r@ == index_bytes(self.entries()),
    {
        let n = self.data.len();
        let mut out: Vec<u8> = Vec::new();
        let mut i: usize = 0;
        while i < n
            invariant
                n == self.data@.len(),
                i <= n,
                out@ == index_bytes(self.data@.take(i as int)),
            decreases n - i,
        {
            let mut chunk: Vec<u8> = vec![0u8; 16];
            proof {
                lemma_pow256_values();
            }
            write_be(&mut chunk, 0, self.data[i], 16);
            proof {
                lemma_be_bytes_len(self.data@[i as int] as nat, 16);
                assert(chunk@ =~= be_bytes(self.data@[i as int] as nat, 16));
            }
            let mut k: usize = 0;
            let ghost start = out@;
            while k < 16
                invariant
                    k <= 16,
                    chunk@.len() == 16,
                    out@ == start + chunk@.take(k as int),
                decreases 16 - k,
            {
                out.push(chunk[k]);
                proof {
                    assert(chunk@.take(k + 1) =~= chunk@.take(k as int).push(chunk@[k as int]));
                }
                k += 1;
            }
            proof {
                assert(chunk@.take(16) =~= chunk@);
                assert(self.data@.take(i + 1).drop_last() =~= self.data@.take(i as int));
            }
            i += 1;
        }
        proof {
            assert(self.data@.take(n as int) =~= self.data@);
        }
        out
    }
}

/// Index data written by `encode_data` reads back as the same entries.
pub proof fn lemma_index_round_trip(data: Seq<u128>)
    ensures
        index_bytes(data).len() % 16 == 0,
        index_entries(index_bytes(data)).len() == data.len(),
        forall|i: int| 0 <= i < data.len() ==> #[trigger] index_entries(index_bytes(data))[i] == data[i] as nat,
    decreases data.len(),
{
    lemma_index_bytes_len(data);
    if data.len() > 0 {
        let front = data.drop_last();
        lemma_index_round_trip(front);
        lemma_index_bytes_len(front);
        lemma_be_bytes_len(data.last() as nat, 16);
        lemma_pow256_values();
        lemma_be_round_trip(data.last() as nat, 16);
        let bs = index_bytes(data);
        assert forall|i: int| 0 <= i < data.len() implies #[trigger] index_entries(bs)[i] == data[i] as nat by {
            if i < front.len() {
                assert(bs.subrange(16 * i, 16 * i + 16) =~= index_bytes(front).subrange(16 * i, 16 * i + 16));
                assert(index_entries(index_bytes(front))[i] == front[i] as nat);
            } else {
                assert(bs.subrange(16 * i, 16 * i + 16) =~= be_bytes(data.last() as nat, 16));
            }
        }
    }
}

} // verus!
