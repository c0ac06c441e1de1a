//! The reference data: labelled vectors, normalization constants and the risk
//! of merchant categories.

use vstd::prelude::*;
use vstd::utf8::encode_utf8;
use crate::bytes::copy_range;
use crate::float_bits::F32Bits;
use crate::gz::{gunzip, gunzipped};
use crate::index::DIMS;
use crate::text::{ascii, same_bytes, same_text, text};

verus! {

/// What each quantity is divided by.
#[derive(Debug, Clone, Copy, PartialEq, Eq, Structural)]
pub struct NormalizationConstants {
    pub max_amount: F32Bits,
    pub max_installments: F32Bits,
    pub amount_vs_avg_ratio: F32Bits,
    pub max_minutes: F32Bits,
    pub max_km: F32Bits,
    pub max_tx_count_24h: F32Bits,
    pub max_merchant_avg_amount: F32Bits,
}

/// A labelled vector.
#[derive(Debug, Clone)]
pub struct ReferenceVector {
    pub vector: [F32Bits; 14],
    pub label: String,
}

/// The risk of merchant categories.
pub struct MccRiskMap {
    entries: Vec<(String, F32Bits)>,
}

/// The risks that entries give; a later entry replaces an earlier one.
spec fn risks(entries: Seq<(String, F32Bits)>) -> Map<Seq<char>, F32Bits>
    decreases entries.len(),
{
    if entries.len() == 0 {
        Map::empty()
    } else {
        risks(entries.drop_last()).insert(entries.last().0@, entries.last().1)
    }
}

impl View for MccRiskMap {
    type V = Map<Seq<char>, F32Bits>;

    closed spec fn view(&self) -> Map<Seq<char>, F32Bits> {
        risks(self.entries@)
    }
}

impl MccRiskMap {
    /// No category with a known risk.
    pub fn new() -> (r: MccRiskMap)
        ensures
            r@ == Map::<Seq<char>, F32Bits>::empty(),
    {
        MccRiskMap { entries: Vec::new() }
    }

    /// Sets the risk of a category.
    pub fn insert(&mut self, mcc: String, risk: F32Bits)
        ensures
            final(self)@ == old(self)@.insert(mcc@, risk),
    {
        let ghost before = self.entries@;
        self.entries.push((mcc, risk));
        assert(self.entries@.drop_last() =~= before);
    }

    /// Finds the risk of a category.
    pub fn get(&self, mcc: &str) -> (r: Option<F32Bits>)
        ensures
            match r {
                Some(risk) => self@.contains_key(mcc@) && self@[mcc@] == risk,
                None => !self@.contains_key(mcc@),
            },
    {
        let mut i: usize = self.entries.len();
        assert(self.entries@.take(i as int) =~= self.entries@);
        while i > 0
            invariant
                i <= self.entries@.len(),
                self@.contains_key(mcc@) == risks(self.entries@.take(i as int)).contains_key(mcc@),
                self@.contains_key(mcc@) ==> self@[mcc@] == risks(
                    self.entries@.take(i as int),
                )[mcc@],
            decreases i,
        {
            i = i - 1;
            assert(self.entries@.take(i + 1).drop_last() =~= self.entries@.take(i as int));
            if same_text(self.entries[i].0.as_str(), mcc) {
                return Some(self.entries[i].1);
            }
        }
        None
    }
}

/// The code of a label: 1 for a fraud, 0 for anything else.
pub open spec fn label_code(label: Seq<char>) -> u8 {
    if label == "fraud"@ {
        1
    } else {
        0
    }
}

/// Finds the code of a label.
pub fn code_of_label(label: &str) -> (r: u8)
    ensures
        r == label_code(label@),
{
    if same_text(label, "fraud") {
        1
    } else {
        0
    }
}

/// Finds the codes of the labels of all references.
pub fn label_codes(refs: &[ReferenceVector]) -> (r: Vec<u8>)
    ensures
        r@ == refs@.map_values(|e: ReferenceVector| label_code(e.label@)),
{
    let ghost want = refs@.map_values(|e: ReferenceVector| label_code(e.label@));
    let mut r: Vec<u8> = Vec::new();
    let mut i: usize = 0;
    while i < refs.len()
        invariant
            i <= refs@.len(),
            want == refs@.map_values(|e: ReferenceVector| label_code(e.label@)),
            r@ == want.take(i as int),
        decreases refs@.len() - i,
    {
        r.push(code_of_label(refs[i].label.as_str()));
        i = i + 1;
        assert(r@ =~= want.take(i as int));
    }
    assert(r@ =~= want);
    r
}

/// Lays the vectors of all references behind each other, each number through
/// the function that makes a half-precision number of it.
pub fn flatten<F: Fn(F32Bits) -> u16>(refs: &[ReferenceVector], float_to_half: F) -> (r: Vec<u16>)
    requires
        refs@.len() * 14 <= usize::MAX,
        forall|x: F32Bits| call_requires(float_to_half, (x,)),
    ensures
        r@.len() == refs@.len() * 14,
        forall|i: int|
            0 <= i < r@.len() ==> call_ensures(
                float_to_half,
                (refs@[i / 14].vector@[i % 14],),
                #[trigger] r@[i],
            ),
{
    let mut r: Vec<u16> = Vec::new();
    let mut e: usize = 0;
    while e < refs.len()
        invariant
            e <= refs@.len(),
            forall|x: F32Bits| call_requires(float_to_half, (x,)),
            r@.len() == e * 14,
            forall|i: int|
                0 <= i < r@.len() ==> call_ensures(
                    float_to_half,
                    (refs@[i / 14].vector@[i % 14],),
                    #[trigger] r@[i],
                ),
        decreases refs@.len() - e,
    {
        let mut d: usize = 0;
        while d < DIMS
            invariant
                d <= 14,
                e < refs@.len(),
                forall|x: F32Bits| call_requires(float_to_half, (x,)),
                r@.len() == e * 14 + d,
                forall|i: int|
                    0 <= i < r@.len() ==> call_ensures(
                        float_to_half,
                        (refs@[i / 14].vector@[i % 14],),
                        #[trigger] r@[i],
                    ),
            decreases 14 - d,
        {
            assert((e * 14 + d) / 14 == e && (e * 14 + d) % 14 == d);
            r.push(float_to_half(refs[e].vector[d]));
            d = d + 1;
        }
        e = e + 1;
    }
    r
}

/// The path names a gzip file.
pub open spec fn names_gz(path: Seq<char>) -> bool {
    let b = encode_utf8(path);
    b.len() >= 3 && b.skip(b.len() - 3) == ascii(".gz"@)
}

/// Whether the path names a gzip file.
pub fn is_gz_path(path: &str) -> (r: bool)
    ensures
        r == names_gz(path@),
{
    proof {
        reveal_strlit(".gz");
    }
    let b: &[u8] = path.as_bytes();
    if b.len() < 3 {
        return false;
    }
    let end: &[u8] = &b[b.len() - 3..b.len()];
    assert(end@ =~= b@.skip(b@.len() - 3));
    same_bytes(end, text(".gz"))
}

/// The bytes of a gzip file of references, if the file can be read to its end.
pub fn unzipped_references(file: &[u8]) -> (r: Option<Vec<u8>>)
    ensures
        gunzipped(file@).1 ==> (r matches Some(b) && b@ == gunzipped(file@).0),
        !gunzipped(file@).1 ==> r is None,
{
    let (bytes, ended): (Vec<u8>, bool) = gunzip(file);
    if ended {
        Some(bytes)
    } else {
        None
    }
}

/// The bytes that references are parsed from: those of the file, or what it
/// holds if its path names a gzip file.
pub fn reference_bytes(path: &str, file: &[u8]) -> (r: Option<Vec<u8>>)
    ensures
        !names_gz(path@) ==> (r matches Some(b) && b@ == file@),
        names_gz(path@) && gunzipped(file@).1 ==> (r matches Some(b) && b@ == gunzipped(file@).0),
        names_gz(path@) && !gunzipped(file@).1 ==> r is None,
{
    if is_gz_path(path) {
        unzipped_references(file)
    } else {
        let bytes: Vec<u8> = copy_range(file, 0, file.len());
        assert(bytes@ =~= file@);
        Some(bytes)
    }
}

} // verus!
