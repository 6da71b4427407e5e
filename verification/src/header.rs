//! Header codec: the fixed-plus-variable-length header of a dataset file.
//!
//! Layout, little-endian throughout:
//! version (4 bytes: build stage, patch, minor, major), image width (u16),
//! image height (u16), bit depth (u8), image count (u64), label count (u16),
//! then each label as a u16 byte-length prefix followed by its UTF-8 bytes.

use vstd::prelude::*;
use vstd::bytes::*;
use vstd::utf8::*;
use vstd::slice::*;
use crate::version::Version;
use crate::error::Error;

verus! {

/// Byte length of the fixed part of the header, before the labels.
pub const HEADER_FIXED_LEN: usize = 19;

/// Mathematical view of a header.
#[verifier::ext_equal]
pub ghost struct HeaderV {
    pub version: Version,
    pub image_width: u16,
    pub image_height: u16,
    pub bit_depth: u8,
    pub image_count: u64,
    pub labels: Seq<Seq<char>>,
}

impl HeaderV {
    /// Bytes of one image: width * height * bit depth / 8.
    pub open spec fn spec_image_size(self) -> int {
        self.image_width * self.image_height * self.bit_depth / 8
    }

    /// Geometry equality; versions and vocabularies are deliberately
    /// excluded, so datasets with different label sets still merge.
    pub open spec fn compatible(self, other: HeaderV) -> bool {
        &&& self.image_width == other.image_width
        &&& self.image_height == other.image_height
        &&& self.bit_depth == other.bit_depth
    }

    /// A header the format can represent: the label count fits the u16
    /// count field and every label's UTF-8 form fits its u16 length prefix.
    pub open spec fn encodable(self) -> bool {
        &&& self.labels.len() <= 0xFFFF
        &&& forall|i: int|
            0 <= i < self.labels.len() ==> (#[trigger] encode_utf8(self.labels[i])).len() <= 0xFFFF
    }

    /// The exact byte image of this header on disk.
    pub open spec fn spec_bytes(self) -> Seq<u8> {
        spec_fixed_bytes(
            self.version,
            self.image_width,
            self.image_height,
            self.bit_depth,
            self.image_count,
            self.labels.len() as u16,
        ) + spec_labels_bytes(self.labels)
    }
}

/// The fixed-length part of the header image.
pub open spec fn spec_fixed_bytes(
    version: Version,
    width: u16,
    height: u16,
    depth: u8,
    count: u64,
    label_count: u16,
) -> Seq<u8> {
    seq![version.build_type, version.patch, version.minor, version.major]
        + spec_u16_to_le_bytes(width) + spec_u16_to_le_bytes(height) + seq![depth]
        + spec_u64_to_le_bytes(count) + spec_u16_to_le_bytes(label_count)
}

/// One label on disk: u16 byte-length prefix, then the UTF-8 bytes.
pub open spec fn spec_label_block(label: Seq<char>) -> Seq<u8> {
    spec_u16_to_le_bytes(encode_utf8(label).len() as u16) + encode_utf8(label)
}

/// The whole vocabulary on disk, label blocks in order.
pub open spec fn spec_labels_bytes(labels: Seq<Seq<char>>) -> Seq<u8>
    decreases labels.len(),
{
    if labels.len() == 0 {
        Seq::empty()
    } else {
        spec_label_block(labels[0]) + spec_labels_bytes(labels.drop_first())
    }
}

/// Appending a label appends exactly its block.
pub proof fn lemma_labels_bytes_push(labels: Seq<Seq<char>>, label: Seq<char>)
    ensures
        spec_labels_bytes(labels.push(label)) == spec_labels_bytes(labels) + spec_label_block(
            label,
        ),
    decreases labels.len(),
{
    if labels.len() == 0 {
        assert(labels.push(label).drop_first() =~= Seq::<Seq<char>>::empty());
        assert(labels.push(label)[0] == label);
        assert(spec_labels_bytes(Seq::<Seq<char>>::empty()) == Seq::<u8>::empty());
        assert(spec_labels_bytes(labels.push(label)) == spec_label_block(label)
            + Seq::<u8>::empty());
        assert(labels =~= Seq::<Seq<char>>::empty());
        assert(spec_labels_bytes(labels.push(label)) =~= spec_labels_bytes(labels)
            + spec_label_block(label));
    } else {
        lemma_labels_bytes_push(labels.drop_first(), label);
        assert(labels.push(label).drop_first() =~= labels.drop_first().push(label));
        assert(labels.push(label)[0] == labels[0]);
        assert(spec_labels_bytes(labels.push(label)) == spec_label_block(labels[0])
            + (spec_labels_bytes(labels.drop_first()) + spec_label_block(label)));
        assert(spec_labels_bytes(labels.push(label)) =~= spec_labels_bytes(labels)
            + spec_label_block(label));
    }
}

/// The vocabulary image splits at any label boundary.
pub proof fn lemma_labels_bytes_split(labels: Seq<Seq<char>>, i: int)
    requires
        0 <= i <= labels.len(),
    ensures
        spec_labels_bytes(labels) == spec_labels_bytes(labels.take(i)) + spec_labels_bytes(
            labels.skip(i),
        ),
    decreases i,
{
    if i == 0 {
        assert(labels.take(0) =~= Seq::<Seq<char>>::empty());
        assert(labels.skip(0) =~= labels);
        assert(spec_labels_bytes(labels) =~= spec_labels_bytes(labels.take(0)) + spec_labels_bytes(
            labels.skip(0),
        ));
    } else {
        lemma_labels_bytes_split(labels.drop_first(), i - 1);
        assert(labels.take(i)[0] == labels[0]);
        assert(labels.take(i).drop_first() =~= labels.drop_first().take(i - 1));
        assert(labels.skip(i) =~= labels.drop_first().skip(i - 1));
        assert(spec_labels_bytes(labels) == spec_label_block(labels[0]) + (spec_labels_bytes(
            labels.drop_first().take(i - 1),
        ) + spec_labels_bytes(labels.drop_first().skip(i - 1))));
        assert(spec_labels_bytes(labels) =~= spec_labels_bytes(labels.take(i)) + spec_labels_bytes(
            labels.skip(i),
        ));
    }
}

/// Relies on `String::from_utf8`: it succeeds exactly on valid UTF-8
/// input, and the returned string spells the given bytes.
#[verifier::external_body]
fn string_from_utf8(bytes: Vec<u8>) -> (r: Option<String>)
    ensures
        r matches Some(s) ==> encode_utf8(s@) == bytes@,
        valid_utf8(bytes@) ==> r is Some,
{
    match String::from_utf8(bytes) {
        Ok(s) => Some(s),
        Err(_) => None,
    }
}

/// `bytes` begins with the byte image of the header `hv`.
pub open spec fn header_prefix(bytes: Seq<u8>, hv: HeaderV) -> bool {
    &&& hv.encodable()
    &&& hv.spec_bytes().len() <= bytes.len()
    &&& bytes.take(hv.spec_bytes().len() as int) == hv.spec_bytes()
}

/// Where each fixed field lies inside the fixed part of the image.
pub proof fn lemma_fixed_bytes_layout(
    version: Version,
    width: u16,
    height: u16,
    depth: u8,
    count: u64,
    label_count: u16,
)
    ensures
        spec_fixed_bytes(version, width, height, depth, count, label_count).len() == 19,
        spec_fixed_bytes(version, width, height, depth, count, label_count).subrange(0, 4)
            == seq![version.build_type, version.patch, version.minor, version.major],
        spec_fixed_bytes(version, width, height, depth, count, label_count).subrange(4, 6)
            == spec_u16_to_le_bytes(width),
        spec_fixed_bytes(version, width, height, depth, count, label_count).subrange(6, 8)
            == spec_u16_to_le_bytes(height),
        spec_fixed_bytes(version, width, height, depth, count, label_count)[8] == depth,
        spec_fixed_bytes(version, width, height, depth, count, label_count).subrange(9, 17)
            == spec_u64_to_le_bytes(count),
        spec_fixed_bytes(version, width, height, depth, count, label_count).subrange(17, 19)
            == spec_u16_to_le_bytes(label_count),
{
    lemma_auto_spec_u16_to_from_le_bytes();
    lemma_auto_spec_u64_to_from_le_bytes();
    let f = spec_fixed_bytes(version, width, height, depth, count, label_count);
    assert(f.subrange(0, 4) =~= seq![version.build_type, version.patch, version.minor, version.major]);
    assert(f.subrange(4, 6) =~= spec_u16_to_le_bytes(width));
    assert(f.subrange(6, 8) =~= spec_u16_to_le_bytes(height));
    assert(f.subrange(9, 17) =~= spec_u64_to_le_bytes(count));
    assert(f.subrange(17, 19) =~= spec_u16_to_le_bytes(label_count));
}

/// What beginning with the image of `hv` says about the fixed part.
pub proof fn lemma_prefix_fixed(bytes: Seq<u8>, hv: HeaderV)
    requires
        header_prefix(bytes, hv),
    ensures
        hv.spec_bytes().len() == 19 + spec_labels_bytes(hv.labels).len(),
        bytes.len() >= 19,
        bytes.take(19) == spec_fixed_bytes(
            hv.version,
            hv.image_width,
            hv.image_height,
            hv.bit_depth,
            hv.image_count,
            hv.labels.len() as u16,
        ),
        bytes.subrange(19, hv.spec_bytes().len() as int) == spec_labels_bytes(hv.labels),
{
    let f = spec_fixed_bytes(
        hv.version,
        hv.image_width,
        hv.image_height,
        hv.bit_depth,
        hv.image_count,
        hv.labels.len() as u16,
    );
    lemma_fixed_bytes_layout(
        hv.version,
        hv.image_width,
        hv.image_height,
        hv.bit_depth,
        hv.image_count,
        hv.labels.len() as u16,
    );
    let n = hv.spec_bytes().len() as int;
    let lbs = spec_labels_bytes(hv.labels);
    assert(hv.spec_bytes() == f + lbs);
    assert forall|i: int| 0 <= i < 19 implies bytes.take(19)[i] == f[i] by {
        assert(bytes.take(n)[i] == bytes[i]);
        assert((f + lbs)[i] == f[i]);
    }
    assert(bytes.take(19) =~= f);
    assert forall|i: int| 0 <= i < lbs.len() implies bytes.subrange(19, n)[i] == lbs[i] by {
        assert(bytes.subrange(19, n)[i] == bytes[19 + i]);
        assert(bytes.take(n)[19 + i] == bytes[19 + i]);
        assert((f + lbs)[19 + i] == lbs[i]);
    }
    assert(bytes.subrange(19, n) =~= lbs);
}

/// What beginning with the image of `hv` says about label block `j`.
pub proof fn lemma_prefix_label(bytes: Seq<u8>, hv: HeaderV, j: int)
    requires
        header_prefix(bytes, hv),
        0 <= j < hv.labels.len(),
    ensures
        19 + spec_labels_bytes(hv.labels.take(j)).len() + 2 + encode_utf8(hv.labels[j]).len()
            <= bytes.len(),
        bytes.subrange(
            19 + spec_labels_bytes(hv.labels.take(j)).len() as int,
            19 + spec_labels_bytes(hv.labels.take(j)).len() as int + 2,
        ) == spec_u16_to_le_bytes(encode_utf8(hv.labels[j]).len() as u16),
        bytes.subrange(
            19 + spec_labels_bytes(hv.labels.take(j)).len() as int + 2,
            19 + spec_labels_bytes(hv.labels.take(j)).len() as int + 2 + encode_utf8(
                hv.labels[j],
            ).len() as int,
        ) == encode_utf8(hv.labels[j]),
        spec_labels_bytes(hv.labels.take(j + 1)).len() == spec_labels_bytes(
            hv.labels.take(j),
        ).len() + 2 + encode_utf8(hv.labels[j]).len(),
{
    lemma_auto_spec_u16_to_from_le_bytes();
    lemma_prefix_fixed(bytes, hv);
    let l = hv.labels[j];
    let lb = spec_labels_bytes(hv.labels);
    let off = 19 + spec_labels_bytes(hv.labels.take(j)).len() as int;
    let n = hv.spec_bytes().len() as int;
    lemma_labels_bytes_split(hv.labels, j);
    assert(hv.labels.skip(j)[0] == l);
    assert(hv.labels.skip(j).drop_first() =~= hv.labels.skip(j + 1));
    assert(spec_labels_bytes(hv.labels.skip(j)) == spec_label_block(l) + spec_labels_bytes(
        hv.labels.skip(j + 1),
    ));
    lemma_labels_bytes_push(hv.labels.take(j), l);
    assert(hv.labels.take(j).push(l) =~= hv.labels.take(j + 1));
    assert(spec_label_block(l).len() == 2 + encode_utf8(l).len());
    let body = bytes.subrange(19, n);
    let lbt = spec_labels_bytes(hv.labels.take(j));
    let block = spec_label_block(l);
    let after = spec_labels_bytes(hv.labels.skip(j + 1));
    assert(body == lbt + (block + after));
    assert(off + 2 + encode_utf8(l).len() <= n);
    let le = spec_u16_to_le_bytes(encode_utf8(l).len() as u16);
    let enc = encode_utf8(l);
    assert(block == le + enc);
    assert forall|i: int| 0 <= i < 2 implies bytes.subrange(off, off + 2)[i] == le[i] by {
        assert(bytes.subrange(off, off + 2)[i] == bytes[off + i]);
        assert(bytes.take(n)[off + i] == bytes[off + i]);
        assert(body[off - 19 + i] == bytes[off + i]);
        assert((lbt + (block + after))[lbt.len() + i] == (block + after)[i]);
        assert((block + after)[i] == block[i]);
        assert((le + enc)[i] == le[i]);
    }
    assert(bytes.subrange(off, off + 2) =~= le);
    assert forall|i: int| 0 <= i < enc.len() implies bytes.subrange(
        off + 2,
        off + 2 + enc.len() as int,
    )[i] == enc[i] by {
        assert(bytes.subrange(off + 2, off + 2 + enc.len() as int)[i] == bytes[off + 2 + i]);
        assert(bytes.take(n)[off + 2 + i] == bytes[off + 2 + i]);
        assert(body[off - 19 + 2 + i] == bytes[off + 2 + i]);
        assert((lbt + (block + after))[lbt.len() + 2 + i] == (block + after)[2 + i]);
        assert((block + after)[2 + i] == block[2 + i]);
        assert((le + enc)[2 + i] == enc[i]);
    }
    assert(bytes.subrange(off + 2, off + 2 + enc.len() as int) =~= enc);
}

/// A dataset header: version stamp, image geometry, bit depth, image
/// count, and the ordered label vocabulary. A label value is an index
/// into `labels`; the order is insertion order and is never re-sorted.
#[derive(Clone, Debug, PartialEq, Eq)]
pub struct Header {
    pub version: Version,
    pub image_width: u16,
    pub image_height: u16,
    pub bit_depth: u8,
    pub image_count: u64,
    pub labels: Vec<String>,
}

impl View for Header {
    type V = HeaderV;

    open spec fn view(&self) -> HeaderV {
        HeaderV {
            version: self.version,
            image_width: self.image_width,
            image_height: self.image_height,
            bit_depth: self.bit_depth,
            image_count: self.image_count,
            labels: self.labels.deep_view(),
        }
    }
}

impl Header {
    /// Bytes of channel data one image occupies: width * height * bit
    /// depth / 8. Pure; does not validate that the bit depth is
    /// byte-aligned.
    pub fn image_size(&self) -> (r: u64)
        ensures
            r == self@.spec_image_size(),
    {
        let w = self.image_width as u64;
        let h = self.image_height as u64;
        let b = self.bit_depth as u64;
        proof {
            assert(w * h <= 0xFFFF * 0xFFFF) by (nonlinear_arith)
                requires
                    w <= 0xFFFF,
                    h <= 0xFFFF,
            ;
            assert(w * h * b <= 0xFFFF * 0xFFFF * 0xFF) by (nonlinear_arith)
                requires
                    w * h <= 0xFFFF * 0xFFFF,
                    b <= 0xFF,
            ;
        }
        w * h * b / 8
    }

    /// True exactly when the two headers share width, height and bit
    /// depth. Version and vocabulary are excluded on purpose.
    pub fn is_compatible_with(&self, other: &Header) -> (r: bool)
        ensures
            r == self@.compatible(other@),
    {
        self.image_width == other.image_width && self.image_height == other.image_height
            && self.bit_depth == other.bit_depth
    }

    /// Serialize this header. Returns its exact byte image, or
    /// `CorruptFile` when the vocabulary cannot be represented (more
    /// than 65535 labels, or a label longer than 65535 UTF-8 bytes).
    pub fn write_bytes(&self) -> (r: Result<Vec<u8>, Error>)
        ensures
            r matches Ok(b) ==> self@.encodable() && b@ == self@.spec_bytes(),
            r is Err ==> !self@.encodable(),
            r matches Err(e) ==> e matches Error::CorruptFile(_),
    {
        if self.labels.len() > 0xFFFF {
            return Err(Error::CorruptFile(String::new()));
        }
        let mut out: Vec<u8> = Vec::new();
        out.push(self.version.build_type);
        out.push(self.version.patch);
        out.push(self.version.minor);
        out.push(self.version.major);
        let mut field: Vec<u8> = u16_to_le_bytes(self.image_width);
        out.append(&mut field);
        let mut field: Vec<u8> = u16_to_le_bytes(self.image_height);
        out.append(&mut field);
        out.push(self.bit_depth);
        let mut field: Vec<u8> = u64_to_le_bytes(self.image_count);
        out.append(&mut field);
        let mut field: Vec<u8> = u16_to_le_bytes(self.labels.len() as u16);
        out.append(&mut field);
        let ghost fixed: Seq<u8> = spec_fixed_bytes(
            self.version,
            self.image_width,
            self.image_height,
            self.bit_depth,
            self.image_count,
            self.labels.len() as u16,
        );
        proof {
            assert(out@ =~= fixed);
        }
        let mut i: usize = 0;
        while i < self.labels.len()
            invariant
                i <= self.labels.len(),
                self.labels.len() <= 0xFFFF,
                forall|k: int|
                    0 <= k < i ==> (#[trigger] encode_utf8(self.labels.deep_view()[k])).len()
                        <= 0xFFFF,
                out@ == fixed + spec_labels_bytes(self.labels.deep_view().take(i as int)),
            decreases self.labels.len() - i,
        {
            let label: &String = &self.labels[i];
            let bytes: &[u8] = label.as_str().as_bytes();
            proof {
                assert(bytes@ == encode_utf8(self.labels.deep_view()[i as int]));
            }
            if bytes.len() > 0xFFFF {
                return Err(Error::CorruptFile(String::new()));
            }
            let mut field: Vec<u8> = u16_to_le_bytes(bytes.len() as u16);
            out.append(&mut field);
            let mut body: Vec<u8> = slice_to_vec(bytes);
            out.append(&mut body);
            proof {
                let ghost ls = self.labels.deep_view();
                lemma_labels_bytes_push(ls.take(i as int), ls[i as int]);
                assert(ls.take(i as int).push(ls[i as int]) =~= ls.take(i + 1));
                assert(out@ =~= fixed + spec_labels_bytes(ls.take(i + 1)));
            }
            i += 1;
        }
        proof {
            assert(self.labels.deep_view().take(self.labels.len() as int)
                =~= self.labels.deep_view());
        }
        Ok(out)
    }

    /// Deserialize a header from the front of `bytes`; trailing bytes
    /// (the dataset body) are left alone. On success returns the header
    /// and how many bytes it occupied. Exact: whenever `bytes` begins
    /// with the image of a representable header, that header and its
    /// length come back; and whatever comes back, its image is what was
    /// read. Anything else is `CorruptFile`.
    pub fn read_bytes(bytes: &Vec<u8>) -> (r: Result<(Header, usize), Error>)
        ensures
            r matches Ok(p) ==> p.0@.encodable() && p.1 <= bytes@.len() && bytes@.take(
                p.1 as int,
            ) == p.0@.spec_bytes(),
            forall|hv: HeaderV| #[trigger]
                header_prefix(bytes@, hv) ==> (r matches Ok(p) && p.0@ == hv && p.1 as int
                    == hv.spec_bytes().len()),
            r matches Err(e) ==> e matches Error::CorruptFile(_),
    {
        proof {
            lemma_auto_spec_u16_to_from_le_bytes();
            lemma_auto_spec_u64_to_from_le_bytes();
        }
        if bytes.len() < HEADER_FIXED_LEN {
            proof {
                assert forall|hv: HeaderV| !(#[trigger] header_prefix(bytes@, hv)) by {
                    if header_prefix(bytes@, hv) {
                        lemma_prefix_fixed(bytes@, hv);
                    }
                }
            }
            return Err(Error::CorruptFile(String::new()));
        }
        let build_type: u8 = bytes[0];
        let patch: u8 = bytes[1];
        let minor: u8 = bytes[2];
        let major: u8 = bytes[3];
        let width: u16 = u16_from_le_bytes(slice_subrange(bytes.as_slice(), 4, 6));
        let height: u16 = u16_from_le_bytes(slice_subrange(bytes.as_slice(), 6, 8));
        let depth: u8 = bytes[8];
        let count: u64 = u64_from_le_bytes(slice_subrange(bytes.as_slice(), 9, 17));
        let label_count: u16 = u16_from_le_bytes(slice_subrange(bytes.as_slice(), 17, 19));
        let version = Version { build_type, patch, minor, major };
        proof {
            lemma_fixed_bytes_layout(version, width, height, depth, count, label_count);
            assert(bytes@.take(19) =~= spec_fixed_bytes(
                version,
                width,
                height,
                depth,
                count,
                label_count,
            ));
            assert forall|hv: HeaderV| #[trigger]
                header_prefix(bytes@, hv) implies hv.version == version && hv.image_width == width
                && hv.image_height == height && hv.bit_depth == depth && hv.image_count == count
                && hv.labels.len() == label_count as int by {
                lemma_prefix_fixed(bytes@, hv);
                lemma_fixed_bytes_layout(
                    hv.version,
                    hv.image_width,
                    hv.image_height,
                    hv.bit_depth,
                    hv.image_count,
                    hv.labels.len() as u16,
                );
                assert(spec_u16_to_le_bytes(hv.image_width) == bytes@.subrange(4, 6));
                assert(spec_u16_to_le_bytes(hv.image_height) == bytes@.subrange(6, 8));
                assert(spec_u64_to_le_bytes(hv.image_count) == bytes@.subrange(9, 17));
                assert(spec_u16_to_le_bytes((hv.labels.len() as u16)) == bytes@.subrange(17, 19));
                assert(hv.version.build_type == bytes@[0]);
            }
        }
        let mut labels: Vec<String> = Vec::new();
        let mut off: usize = HEADER_FIXED_LEN;
        let mut j: u16 = 0;
        while j < label_count
            invariant
                j <= label_count,
                labels.len() == j as int,
                19 <= off <= bytes@.len(),
                bytes@.subrange(19, off as int) == spec_labels_bytes(labels.deep_view()),
                forall|k: int|
                    0 <= k < labels.deep_view().len() ==> (#[trigger] encode_utf8(
                        labels.deep_view()[k],
                    )).len() <= 0xFFFF,
                bytes@.take(19) == spec_fixed_bytes(
                    version,
                    width,
                    height,
                    depth,
                    count,
                    label_count,
                ),
                forall|hv: HeaderV| #[trigger]
                    header_prefix(bytes@, hv) ==> hv.labels.len() == label_count as int
                        && labels.deep_view() == hv.labels.take(j as int) && off as int == 19
                        + spec_labels_bytes(hv.labels.take(j as int)).len() && hv.version == version
                        && hv.image_width == width && hv.image_height == height && hv.bit_depth
                        == depth && hv.image_count == count,
            decreases label_count - j,
        {
            if bytes.len() - off < 2 {
                proof {
                    assert forall|hv: HeaderV| !(#[trigger] header_prefix(bytes@, hv)) by {
                        if header_prefix(bytes@, hv) {
                            lemma_prefix_label(bytes@, hv, j as int);
                            assert(false);
                        }
                    }
                }
                return Err(Error::CorruptFile(String::new()));
            }
            let block_len: u16 = u16_from_le_bytes(slice_subrange(bytes.as_slice(), off, off + 2));
            if bytes.len() - (off + 2) < block_len as usize {
                proof {
                    assert forall|hv: HeaderV| !(#[trigger] header_prefix(bytes@, hv)) by {
                        if header_prefix(bytes@, hv) {
                            lemma_auto_spec_u16_to_from_le_bytes();
                            lemma_prefix_label(bytes@, hv, j as int);
                            assert(spec_u16_from_le_bytes(bytes@.subrange(off as int, off + 2))
                                == block_len);
                            assert(spec_u16_to_le_bytes(
                                encode_utf8(hv.labels[j as int]).len() as u16,
                            ).len() == 2);
                            assert(encode_utf8(hv.labels[j as int]).len() as u16 == block_len);
                            assert(false);
                        }
                    }
                }
                return Err(Error::CorruptFile(String::new()));
            }
            let body: Vec<u8> = slice_to_vec(
                slice_subrange(bytes.as_slice(), off + 2, off + 2 + block_len as usize),
            );
            let ghost body_view: Seq<u8> = body@;
            let parsed = string_from_utf8(body);
            match parsed {
                None => {
                    proof {
                        assert forall|hv: HeaderV| !(#[trigger] header_prefix(bytes@, hv)) by {
                            if header_prefix(bytes@, hv) {
                                lemma_auto_spec_u16_to_from_le_bytes();
                                lemma_prefix_label(bytes@, hv, j as int);
                                assert(spec_u16_to_le_bytes(
                                    encode_utf8(hv.labels[j as int]).len() as u16,
                                ).len() == 2);
                                assert(encode_utf8(hv.labels[j as int]).len() as u16 == block_len);
                                assert(body_view == encode_utf8(hv.labels[j as int]));
                                encode_utf8_valid_utf8(hv.labels[j as int]);
                                assert(false);
                            }
                        }
                    }
                    return Err(Error::CorruptFile(String::new()));
                },
                Some(s) => {
                    let ghost old_labels = labels.deep_view();
                    let ghost old_off = off as int;
                    labels.push(s);
                    off = off + 2 + block_len as usize;
                    proof {
                        lemma_auto_spec_u16_to_from_le_bytes();
                        assert(labels.deep_view() =~= old_labels.push(s@));
                        lemma_labels_bytes_push(old_labels, s@);
                        assert(spec_u16_from_le_bytes(bytes@.subrange(old_off, old_off + 2))
                            == block_len);
                        assert(spec_u16_to_le_bytes(spec_u16_from_le_bytes(bytes@.subrange(
                            old_off,
                            old_off + 2,
                        ))) == bytes@.subrange(old_off, old_off + 2));
                        assert(bytes@.subrange(old_off, old_off + 2) == spec_u16_to_le_bytes(
                            block_len,
                        ));
                        assert(encode_utf8(s@) == body_view);
                        assert(encode_utf8(s@).len() == block_len as int);
                        assert(spec_label_block(s@) =~= bytes@.subrange(old_off, off as int));
                        assert(bytes@.subrange(19, off as int) =~= bytes@.subrange(19, old_off)
                            + bytes@.subrange(old_off, off as int));
                        assert forall|hv: HeaderV| #[trigger]
                            header_prefix(bytes@, hv) implies hv.labels.len() == label_count as int
                            && labels.deep_view() == hv.labels.take(j + 1) && off as int == 19
                            + spec_labels_bytes(hv.labels.take(j + 1)).len() by {
                            lemma_prefix_label(bytes@, hv, j as int);
                            encode_utf8_decode_utf8(s@);
                            encode_utf8_decode_utf8(hv.labels[j as int]);
                            assert(encode_utf8(hv.labels[j as int]).len() as u16 == block_len);
                            assert(encode_utf8(hv.labels[j as int]) == bytes@.subrange(
                                old_off + 2,
                                off as int,
                            ));
                            assert(s@ == hv.labels[j as int]);
                            assert(old_labels.push(s@) =~= hv.labels.take(j + 1));
                            lemma_labels_bytes_push(hv.labels.take(j as int), hv.labels[j as int]);
                            assert(hv.labels.take(j as int).push(hv.labels[j as int])
                                =~= hv.labels.take(j + 1));
                        }
                    }
                    j += 1;
                },
            }
        }
        let consumed: usize = off;
        let header = Header {
            version,
            image_width: width,
            image_height: height,
            bit_depth: depth,
            image_count: count,
            labels,
        };
        proof {
            assert(header@.labels =~= header.labels.deep_view());
            assert(header@.encodable());
            assert(bytes@.take(consumed as int) =~= bytes@.take(19) + bytes@.subrange(
                19,
                consumed as int,
            ));
            assert(bytes@.take(consumed as int) == header@.spec_bytes());
            assert forall|hv: HeaderV| #[trigger]
                header_prefix(bytes@, hv) implies header@ == hv && consumed as int
                == hv.spec_bytes().len() by {
                lemma_prefix_fixed(bytes@, hv);
                assert(hv.labels.take(label_count as int) =~= hv.labels);
                assert(header@ =~= hv);
            }
        }
        Ok((header, consumed))
    }
}

} // verus!
