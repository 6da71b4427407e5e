//! The in-memory dataset: a header plus an ordered sequence of labeled
//! images, with the merge, push and accessor operations.

use vstd::prelude::*;
use vstd::bytes::*;
use vstd::slice::*;
use crate::error::Error;
use crate::header::Header;
use crate::header::HeaderV;
use crate::merge::MAX_LABELS;
use crate::merge::MergeState;
use crate::merge::first_match;
use crate::merge::lemma_first_match;
use crate::merge::lemma_merge_run_fail;
use crate::merge::lemma_merge_run_wf;
use crate::merge::merge_run;
use crate::merge::merge_step;

verus! {

/// A label value: an index into the owning header's vocabulary.
pub type Label = u16;

/// One dataset entry: the raw image bytes and the label value.
pub type LabeledImage = (Vec<u8>, Label);

/// Mathematical view of a dataset.
#[verifier::ext_equal]
pub ghost struct DatasetV {
    pub header: HeaderV,
    pub images: Seq<(Seq<u8>, u16)>,
}

/// The views of a sequence of entries, in order.
pub open spec fn images_of(s: Seq<(Vec<u8>, u16)>) -> Seq<(Seq<u8>, u16)> {
    s.map_values(|im: (Vec<u8>, u16)| (im.0@, im.1))
}

/// The label values of a dataset's entries, in order.
pub open spec fn image_labels(d: DatasetV) -> Seq<u16> {
    d.images.map_values(|im: (Seq<u8>, u16)| im.1)
}

/// The rewrite of `images` that keeps every entry's bytes and replaces
/// its label with the corresponding entry of `out`.
pub open spec fn relabeled(images: Seq<(Seq<u8>, u16)>, out: Seq<u16>) -> Seq<(Seq<u8>, u16)> {
    Seq::new(images.len(), |i: int| (images[i].0, out[i]))
}

impl DatasetV {
    /// The structural invariant: the header's count matches the entry
    /// sequence, and every entry's bytes fill exactly one image.
    pub open spec fn wf(self) -> bool {
        &&& self.header.image_count == self.images.len()
        &&& forall|k: int|
            0 <= k < self.images.len() ==> (#[trigger] self.images[k]).0.len()
                == self.header.spec_image_size()
    }

    /// Every label value indexes the vocabulary. `push` deliberately does
    /// not check this; decoding and merging maintain it.
    pub open spec fn labels_in_range(self) -> bool {
        forall|k: int|
            0 <= k < self.images.len() ==> (#[trigger] self.images[k]).1 < self.header.labels.len()
    }
}

/// A dataset: one header and the ordered labeled images it counts.
#[derive(Debug, PartialEq, Eq)]
pub struct Dataset {
    header: Header,
    images: Vec<LabeledImage>,
}

impl View for Dataset {
    type V = DatasetV;

    closed spec fn view(&self) -> DatasetV {
        DatasetV { header: self.header@, images: images_of(self.images@) }
    }
}

impl Dataset {
    /// An empty dataset owning `header`. The header is taken as given:
    /// the result satisfies the count invariant exactly when the header
    /// declares zero images.
    pub fn with_header(header: Header) -> (r: Dataset)
        ensures
            r@.header == header@,
            r@.images == Seq::<(Seq<u8>, u16)>::empty(),
            header@.image_count == 0 ==> r@.wf(),
            r@.labels_in_range(),
    {
        let d = Dataset { header, images: Vec::new() };
        proof {
            assert(d@.images =~= Seq::<(Seq<u8>, u16)>::empty());
        }
        d
    }

    /// The dataset's header.
    pub fn header(&self) -> (r: &Header)
        ensures
            r@ == self@.header,
    {
        &self.header
    }

    /// The entry at `index`, if there is one.
    pub fn get(&self, index: usize) -> (r: Option<&LabeledImage>)
        ensures
            index < self@.images.len() ==> (r matches Some(m) && (m.0@, m.1)
                == self@.images[index as int]),
            index >= self@.images.len() ==> r is None,
    {
        if index < self.images.len() {
            Some(&self.images[index])
        } else {
            None
        }
    }

    /// Mutable access to the entry at `index`, if there is one. The
    /// caller may break the size invariant through it; `wf` says so.
    pub fn get_mut<'a>(&'a mut self, index: usize) -> (r: Option<&'a mut LabeledImage>)
        ensures
            index < old(self)@.images.len() ==> (r matches Some(m) && (m.0@, m.1) == old(
                self,
            )@.images[index as int] && final(self)@.images == old(self)@.images.update(
                index as int,
                (final(m).0@, final(m).1),
            ) && final(self)@.header == old(self)@.header),
            index >= old(self)@.images.len() ==> (r is None && *final(self) == *old(self)),
    {
        if index < self.images.len() {
            Some(&mut self.images[index])
        } else {
            None
        }
    }

    /// The entries, in order, as a read view.
    pub fn iter(&self) -> (r: &Vec<LabeledImage>)
        ensures
            images_of(r@) == self@.images,
    {
        &self.images
    }

    /// The entries, in order, open to mutation. The caller may break the
    /// invariants through it; `wf` and `labels_in_range` say so.
    pub fn iter_mut<'a>(&'a mut self) -> (r: &'a mut Vec<LabeledImage>)
        ensures
            images_of(r@) == old(self)@.images,
            final(self)@.images == images_of(final(r)@),
            final(self)@.header == old(self)@.header,
    {
        &mut self.images
    }

    /// Append one image. The buffer must hold exactly one image's bytes,
    /// else `IncompatibleDimensions` and no change. The label value is
    /// deliberately not checked against the vocabulary.
    pub fn push(&mut self, image: LabeledImage) -> (r: Result<(), Error>)
        requires
            old(self)@.wf(),
        ensures
            image.0@.len() != old(self)@.header.spec_image_size() ==> (r == Err::<(), Error>(
                Error::IncompatibleDimensions,
            ) && *final(self) == *old(self)),
            image.0@.len() == old(self)@.header.spec_image_size() ==> (r == Ok::<(), Error>(())
                && final(self)@.images == old(self)@.images.push((image.0@, image.1))
                && final(self)@.header == (HeaderV {
                    image_count: (old(self)@.header.image_count + 1) as u64,
                    ..old(self)@.header
                })
                && final(self)@.wf()),
    {
        if image.0.len() as u64 != self.header.image_size() {
            return Err(Error::IncompatibleDimensions);
        }
        let ghost im: (Seq<u8>, u16) = (image.0@, image.1);
        self.images.push(image);
        self.header.image_count = self.images.len() as u64;
        proof {
            assert(self@.images =~= old(self)@.images.push(im));
            assert(self@.header =~= (HeaderV {
                image_count: (old(self)@.header.image_count + 1) as u64,
                ..old(self)@.header
            }));
        }
        Ok(())
    }

    /// Merge `other` into this dataset, consuming it.
    ///
    /// The geometries must match, else `IncompatibleDimensions`. Each
    /// incoming label value is resolved against this vocabulary as
    /// `merge_run` says: memoised, matched by string at the lowest
    /// position, or appended — and a merge that would grow the vocabulary
    /// past `MAX_LABELS` fails whole with `PastLabelLimit`. The pass runs
    /// on working copies and commits only on success, so a failed merge
    /// leaves both datasets untouched.
    pub fn append(&mut self, other: Dataset) -> (r: Result<(), Error>)
        requires
            old(self)@.wf(),
            other@.wf(),
            other@.labels_in_range(),
        ensures
            !old(self)@.header.compatible(other@.header) ==> (r == Err::<(), Error>(
                Error::IncompatibleDimensions,
            ) && *final(self) == *old(self)),
            old(self)@.header.compatible(other@.header) && !merge_of(old(self)@, other@).ok ==> (r
                == Err::<(), Error>(Error::PastLabelLimit) && *final(self) == *old(self)),
            old(self)@.header.compatible(other@.header) && merge_of(old(self)@, other@).ok ==> ({
                &&& r == Ok::<(), Error>(())
                &&& final(self)@.header.version == old(self)@.header.version
                &&& final(self)@.header.image_width == old(self)@.header.image_width
                &&& final(self)@.header.image_height == old(self)@.header.image_height
                &&& final(self)@.header.bit_depth == old(self)@.header.bit_depth
                &&& final(self)@.header.image_count == old(self)@.header.image_count
                    + other@.header.image_count
                &&& final(self)@.header.labels == merge_of(old(self)@, other@).labels
                &&& final(self)@.images == old(self)@.images + relabeled(
                    other@.images,
                    merge_of(old(self)@, other@).out,
                )
                &&& final(self)@.wf()
                &&& old(self)@.labels_in_range() ==> final(self)@.labels_in_range()
            }),
    {
        let ghost dest0: Seq<Seq<char>> = self@.header.labels;
        let ghost src: Seq<Seq<char>> = other@.header.labels;
        let ghost ls: Seq<u16> = image_labels(other@);
        if !self.header.is_compatible_with(&other.header) {
            return Err(Error::IncompatibleDimensions);
        }
        let mut new_labels: Vec<String> = clone_strings(&self.header.labels);
        let memo_len: usize = if other.header.labels.len() < 0x10000 {
            other.header.labels.len()
        } else {
            0x10000
        };
        let mut memo: Vec<Option<u16>> = Vec::new();
        let mut t: usize = 0;
        while t < memo_len
            invariant
                t <= memo_len,
                memo@.len() == t,
                forall|k: int| 0 <= k < t ==> (#[trigger] memo@[k]) is None,
            decreases memo_len - t,
        {
            memo.push(None);
            t += 1;
        }
        let mut out: Vec<u16> = Vec::new();
        let mut i: usize = 0;
        while i < other.images.len()
            invariant
                old(self)@.wf(),
                other@.wf(),
                other@.labels_in_range(),
                old(self)@.header.compatible(other@.header),
                *self == *old(self),
                dest0 == old(self)@.header.labels,
                src == other@.header.labels,
                ls == image_labels(other@),
                i <= other.images@.len(),
                memo@.len() == (if other.header.labels@.len() < 0x10000 {
                    other.header.labels@.len() as int
                } else {
                    0x10000
                }),
                ({
                    let st = merge_run(dest0, src, ls.take(i as int));
                    &&& st.ok
                    &&& new_labels.deep_view() == st.labels
                    &&& out@ == st.out
                    &&& forall|lv: int|
                        0 <= lv < memo@.len() ==> (((#[trigger] memo@[lv]) matches Some(tv)
                            ==> st.map.contains_key(lv as u16) && st.map[lv as u16] == tv) && (
                        memo@[lv] is None ==> !st.map.contains_key(lv as u16)))
                }),
            decreases other.images@.len() - i,
        {
            let l: u16 = other.images[i].1;
            let ghost st = merge_run(dest0, src, ls.take(i as int));
            let ghost st2 = merge_run(dest0, src, ls.take(i as int + 1));
            proof {
                assert(ls[i as int] == other@.images[i as int].1);
                assert((l as int) < src.len());
                assert(ls.take(i as int + 1).drop_last() =~= ls.take(i as int));
                assert(ls.take(i as int + 1).last() == ls[i as int]);
                assert(st2 == merge_step(st, src, l));
            }
            let cached: Option<u16> = memo[l as usize];
            match cached {
                Some(tv) => {
                    out.push(tv);
                    proof {
                        assert(st2.out =~= st.out.push(tv));
                    }
                },
                None => {
                    let label_str: &String = &other.header.labels[l as usize];
                    proof {
                        assert(label_str@ == src[l as int]);
                    }
                    let n: usize = new_labels.len();
                    let mut p: usize = 0;
                    loop
                        invariant
                            p <= n,
                            n == new_labels@.len(),
                            forall|k: int|
                                0 <= k < p ==> (#[trigger] new_labels.deep_view()[k])
                                    != label_str@,
                        ensures
                            p <= n,
                            p == n || new_labels.deep_view()[p as int] == label_str@,
                            forall|k: int|
                                0 <= k < p ==> (#[trigger] new_labels.deep_view()[k])
                                    != label_str@,
                        decreases n - p,
                    {
                        if p == n {
                            break ;
                        }
                        if new_labels[p] == *label_str {
                            proof {
                                assert(new_labels.deep_view()[p as int] == new_labels@[p as int]@);
                            }
                            break ;
                        }
                        proof {
                            assert(new_labels.deep_view()[p as int] == new_labels@[p as int]@);
                        }
                        p += 1;
                    }
                    proof {
                        lemma_first_match(st.labels, label_str@);
                        if p < n {
                            assert(new_labels.deep_view()[p as int] == label_str@);
                            if first_match(st.labels, label_str@) < p as int {
                                assert(st.labels[first_match(st.labels, label_str@)]
                                    == label_str@);
                                assert(false);
                            }
                            if (p as int) < first_match(st.labels, label_str@) {
                                assert(false);
                            }
                            assert(first_match(st.labels, label_str@) == p as int);
                        } else {
                            if first_match(st.labels, label_str@) < st.labels.len() {
                                assert(st.labels[first_match(st.labels, label_str@)]
                                    == label_str@);
                                assert(false);
                            }
                            assert(first_match(st.labels, label_str@) == st.labels.len());
                        }
                    }
                    if p < n && p <= 0xFFFF {
                        let target: u16 = p as u16;
                        memo[l as usize] = Some(target);
                        out.push(target);
                        proof {
                            assert(st2.map =~= st.map.insert(l, target));
                            assert(st2.out =~= st.out.push(target));
                        }
                    } else {
                        if new_labels.len() >= MAX_LABELS {
                            proof {
                                assert(!st2.ok);
                                lemma_merge_run_fail(dest0, src, ls, i as int + 1);
                            }
                            return Err(Error::PastLabelLimit);
                        }
                        let target: u16 = new_labels.len() as u16;
                        memo[l as usize] = Some(target);
                        out.push(target);
                        let cloned: String = label_str.clone();
                        new_labels.push(cloned);
                        proof {
                            assert(new_labels.deep_view() =~= st.labels.push(label_str@));
                            assert(st2.labels =~= st.labels.push(label_str@));
                            assert(st2.map =~= st.map.insert(l, target));
                            assert(st2.out =~= st.out.push(target));
                        }
                    }
                },
            }
            proof {
                assert(st2.ok);
                assert(new_labels.deep_view() == st2.labels);
                assert(out@ == st2.out);
                assert forall|lv: int| 0 <= lv < memo@.len() implies (((#[trigger] memo@[lv])
                    matches Some(tv2) ==> st2.map.contains_key(lv as u16) && st2.map[lv as u16]
                    == tv2) && (memo@[lv] is None ==> !st2.map.contains_key(lv as u16))) by {
                    if lv != l as int {
                        assert(lv as u16 != l || lv >= 0x10000);
                    }
                }
            }
            i += 1;
        }
        proof {
            assert(ls.take(other.images@.len() as int) =~= ls);
        }
        let ghost m = merge_run(dest0, src, ls);
        proof {
            lemma_merge_run_wf(dest0, src, ls);
        }
        let ghost old_images = self@.images;
        self.header.labels = new_labels;
        proof {
            assert(self.header@ =~= (HeaderV { labels: m.labels, ..old(self)@.header }));
            assert(self@.images =~= old_images + relabeled(other@.images, m.out).take(0));
        }
        let mut fresh: Vec<LabeledImage> = Vec::new();
        let mut k: usize = 0;
        while k < other.images.len()
            invariant
                other@.wf(),
                k <= other.images@.len(),
                m == merge_of(old(self)@, other@),
                m.ok,
                m.out.len() == other.images@.len(),
                out@ == m.out,
                fresh@.len() == k,
                images_of(fresh@) == relabeled(other@.images, m.out).take(k as int),
            decreases other.images@.len() - k,
        {
            let data: Vec<u8> = slice_to_vec(other.images[k].0.as_slice());
            let lab: u16 = out[k];
            let ghost dv: Seq<u8> = data@;
            let ghost prev: Seq<(Vec<u8>, u16)> = fresh@;
            fresh.push((data, lab));
            proof {
                assert(forall|q: int| 0 <= q < prev.len() ==> fresh@[q] == prev[q]);
                assert(fresh@[prev.len() as int].0@ == dv);
                assert(dv == other@.images[k as int].0);
                assert(relabeled(other@.images, m.out)[k as int] == (
                other@.images[k as int].0,
                m.out[k as int],
                ));
                assert(images_of(fresh@) =~= relabeled(other@.images, m.out).take(k as int + 1));
            }
            k += 1;
        }
        proof {
            assert(relabeled(other@.images, m.out).take(other.images@.len() as int) =~= relabeled(
                other@.images,
                m.out,
            ));
        }
        self.images.append(&mut fresh);
        self.header.image_count = self.images.len() as u64;
        proof {
            assert(self@.images =~= old_images + relabeled(other@.images, m.out));
            assert(self@.images == old(self)@.images + relabeled(other@.images, m.out));
            assert(self@.images.len() == old(self)@.images.len() + other@.images.len());
            assert forall|q: int| 0 <= q < self@.images.len() implies (#[trigger] self@.images[q]).0.len()
                == self@.header.spec_image_size() by {
                if q >= old(self)@.images.len() {
                    let w = q - old(self)@.images.len();
                    assert(relabeled(other@.images, m.out)[w] == (other@.images[w].0, m.out[w]));
                }
            }
            assert forall|q: int| 0 <= q < self@.images.len() && old(self)@.labels_in_range()
                implies (#[trigger] self@.images[q]).1 < self@.header.labels.len() by {
                if q >= old(self)@.images.len() {
                    let w = q - old(self)@.images.len();
                    assert(relabeled(other@.images, m.out)[w] == (other@.images[w].0, m.out[w]));
                    assert((m.out[w] as int) < m.labels.len());
                }
            }
        }
        Ok(())
    }

    /// Merge a duplicate of `other` into this dataset, leaving the
    /// argument untouched; otherwise exactly `append`.
    pub fn extend(&mut self, other: &Dataset) -> (r: Result<(), Error>)
        requires
            old(self)@.wf(),
            other@.wf(),
            other@.labels_in_range(),
        ensures
            !old(self)@.header.compatible(other@.header) ==> (r == Err::<(), Error>(
                Error::IncompatibleDimensions,
            ) && *final(self) == *old(self)),
            old(self)@.header.compatible(other@.header) && !merge_of(old(self)@, other@).ok ==> (r
                == Err::<(), Error>(Error::PastLabelLimit) && *final(self) == *old(self)),
            old(self)@.header.compatible(other@.header) && merge_of(old(self)@, other@).ok ==> ({
                &&& r == Ok::<(), Error>(())
                &&& final(self)@.header.version == old(self)@.header.version
                &&& final(self)@.header.image_width == old(self)@.header.image_width
                &&& final(self)@.header.image_height == old(self)@.header.image_height
                &&& final(self)@.header.bit_depth == old(self)@.header.bit_depth
                &&& final(self)@.header.image_count == old(self)@.header.image_count
                    + other@.header.image_count
                &&& final(self)@.header.labels == merge_of(old(self)@, other@).labels
                &&& final(self)@.images == old(self)@.images + relabeled(
                    other@.images,
                    merge_of(old(self)@, other@).out,
                )
                &&& final(self)@.wf()
                &&& old(self)@.labels_in_range() ==> final(self)@.labels_in_range()
            }),
    {
        let copy = duplicate(other);
        self.append(copy)
    }
}

/// The merge pass `append` runs: `other`'s image labels resolved against
/// `dest`'s vocabulary.
pub open spec fn merge_of(dest: DatasetV, other: DatasetV) -> MergeState {
    merge_run(dest.header.labels, other.header.labels, image_labels(other))
}

/// Element-for-element copy of a string vector.
fn clone_strings(v: &Vec<String>) -> (r: Vec<String>)
    ensures
        r.deep_view() == v.deep_view(),
{
    let mut r: Vec<String> = Vec::new();
    let mut i: usize = 0;
    while i < v.len()
        invariant
            i <= v@.len(),
            r@.len() == i,
            r.deep_view() == v.deep_view().take(i as int),
        decreases v@.len() - i,
    {
        let s: String = v[i].clone();
        let ghost prev: Seq<String> = r@;
        r.push(s);
        proof {
            assert(forall|k: int| 0 <= k < prev.len() ==> r@[k] == prev[k]);
            assert(r.deep_view() =~= v.deep_view().take(i as int + 1));
        }
        i += 1;
    }
    proof {
        assert(v.deep_view().take(v@.len() as int) =~= v.deep_view());
    }
    r
}

/// Value copy of a dataset, equal under the view.
fn duplicate(d: &Dataset) -> (r: Dataset)
    ensures
        r@ == d@,
{
    let labels: Vec<String> = clone_strings(&d.header.labels);
    let header = Header {
        version: d.header.version,
        image_width: d.header.image_width,
        image_height: d.header.image_height,
        bit_depth: d.header.bit_depth,
        image_count: d.header.image_count,
        labels,
    };
    let mut images: Vec<LabeledImage> = Vec::new();
    let mut i: usize = 0;
    while i < d.images.len()
        invariant
            i <= d.images@.len(),
            images@.len() == i,
            images_of(images@) == d@.images.take(i as int),
        decreases d.images@.len() - i,
    {
        let data: Vec<u8> = slice_to_vec(d.images[i].0.as_slice());
        let lab: u16 = d.images[i].1;
        let ghost dv: Seq<u8> = data@;
        let ghost prev: Seq<(Vec<u8>, u16)> = images@;
        images.push((data, lab));
        proof {
            assert(forall|q: int| 0 <= q < prev.len() ==> images@[q] == prev[q]);
            assert(images@[prev.len() as int].0@ == dv);
            assert(dv == d@.images[i as int].0);
            assert(images_of(images@) =~= d@.images.take(i as int + 1));
        }
        i += 1;
    }
    let r = Dataset { header, images };
    proof {
        assert(d@.images.take(d.images@.len() as int) =~= d@.images);
        assert(r@ =~= d@);
    }
    r
}

/// One entry on disk: the image bytes, then the label as two
/// little-endian bytes.
pub open spec fn spec_record_bytes(im: (Seq<u8>, u16)) -> Seq<u8> {
    im.0 + spec_u16_to_le_bytes(im.1)
}

/// The uncompressed body: the records of all entries, in order.
pub open spec fn spec_body_bytes(images: Seq<(Seq<u8>, u16)>) -> Seq<u8>
    decreases images.len(),
{
    if images.len() == 0 {
        Seq::empty()
    } else {
        spec_record_bytes(images[0]) + spec_body_bytes(images.drop_first())
    }
}

/// Appending an entry appends exactly its record.
pub proof fn lemma_body_bytes_push(images: Seq<(Seq<u8>, u16)>, im: (Seq<u8>, u16))
    ensures
        spec_body_bytes(images.push(im)) == spec_body_bytes(images) + spec_record_bytes(im),
    decreases images.len(),
{
    if images.len() == 0 {
        assert(images.push(im).drop_first() =~= Seq::<(Seq<u8>, u16)>::empty());
        assert(images.push(im)[0] == im);
        assert(images =~= Seq::<(Seq<u8>, u16)>::empty());
        assert(spec_body_bytes(images.push(im)) =~= spec_body_bytes(images) + spec_record_bytes(
            im,
        ));
    } else {
        lemma_body_bytes_push(images.drop_first(), im);
        assert(images.push(im).drop_first() =~= images.drop_first().push(im));
        assert(images.push(im)[0] == images[0]);
        assert(spec_body_bytes(images.push(im)) == spec_record_bytes(images[0]) + (spec_body_bytes(
            images.drop_first(),
        ) + spec_record_bytes(im)));
        assert(spec_body_bytes(images.push(im)) =~= spec_body_bytes(images) + spec_record_bytes(
            im,
        ));
    }
}

/// The body splits at any record boundary.
pub proof fn lemma_body_bytes_split(images: Seq<(Seq<u8>, u16)>, j: int)
    requires
        0 <= j <= images.len(),
    ensures
        spec_body_bytes(images) == spec_body_bytes(images.take(j)) + spec_body_bytes(
            images.skip(j),
        ),
    decreases j,
{
    if j == 0 {
        assert(images.take(0) =~= Seq::<(Seq<u8>, u16)>::empty());
        assert(images.skip(0) =~= images);
        assert(spec_body_bytes(images) =~= spec_body_bytes(images.take(0)) + spec_body_bytes(
            images.skip(0),
        ));
    } else {
        lemma_body_bytes_split(images.drop_first(), j - 1);
        assert(images.take(j)[0] == images[0]);
        assert(images.take(j).drop_first() =~= images.drop_first().take(j - 1));
        assert(images.skip(j) =~= images.drop_first().skip(j - 1));
        assert(spec_body_bytes(images) == spec_record_bytes(images[0]) + (spec_body_bytes(
            images.drop_first().take(j - 1),
        ) + spec_body_bytes(images.drop_first().skip(j - 1))));
        assert(spec_body_bytes(images) =~= spec_body_bytes(images.take(j)) + spec_body_bytes(
            images.skip(j),
        ));
    }
}

/// With every record the same size, the body's length is the count times
/// the record size.
pub proof fn lemma_body_bytes_len_uniform(images: Seq<(Seq<u8>, u16)>, size: int)
    requires
        forall|k: int| 0 <= k < images.len() ==> (#[trigger] images[k]).0.len() == size,
    ensures
        spec_body_bytes(images).len() == images.len() * (size + 2),
    decreases images.len(),
{
    lemma_auto_spec_u16_to_from_le_bytes();
    if images.len() == 0 {
    } else {
        assert forall|k: int| 0 <= k < images.drop_first().len() implies (#[trigger] images.drop_first()[k]).0.len()
            == size by {
            assert(images.drop_first()[k] == images[k + 1]);
        }
        lemma_body_bytes_len_uniform(images.drop_first(), size);
        assert(spec_record_bytes(images[0]).len() == size + 2);
        assert((images.len() - 1) * (size + 2) + (size + 2) == images.len() * (size + 2))
            by (nonlinear_arith);
    }
}

/// `body` is the concatenation of records of `imgs`, each with `size`
/// bytes of image data.
pub open spec fn body_of(body: Seq<u8>, size: int, imgs: Seq<(Seq<u8>, u16)>) -> bool {
    &&& forall|k: int| 0 <= k < imgs.len() ==> (#[trigger] imgs[k]).0.len() == size
    &&& body == spec_body_bytes(imgs)
}

/// Where record `j` lies inside a uniform body.
pub proof fn lemma_body_record(body: Seq<u8>, size: int, imgs: Seq<(Seq<u8>, u16)>, j: int)
    requires
        body_of(body, size, imgs),
        0 <= j < imgs.len(),
        size >= 0,
    ensures
        body.len() == imgs.len() * (size + 2),
        0 <= j * (size + 2),
        (j + 1) * (size + 2) <= body.len(),
        body.subrange(j * (size + 2), j * (size + 2) + size) == imgs[j].0,
        body.subrange(j * (size + 2) + size, (j + 1) * (size + 2)) == spec_u16_to_le_bytes(
            imgs[j].1,
        ),
{
    lemma_auto_spec_u16_to_from_le_bytes();
    lemma_body_bytes_len_uniform(imgs, size);
    lemma_body_bytes_split(imgs, j);
    assert forall|k: int| 0 <= k < imgs.take(j).len() implies (#[trigger] imgs.take(j)[k]).0.len()
        == size by {
        assert(imgs.take(j)[k] == imgs[k]);
    }
    lemma_body_bytes_len_uniform(imgs.take(j), size);
    let rec = size + 2;
    let off = j * rec;
    assert(imgs.take(j).len() * rec == j * rec) by (nonlinear_arith)
        requires
            imgs.take(j).len() == j,
    ;
    assert(imgs.skip(j)[0] == imgs[j]);
    assert(imgs.skip(j).drop_first() =~= imgs.skip(j + 1));
    assert(spec_body_bytes(imgs.skip(j)) == spec_record_bytes(imgs[j]) + spec_body_bytes(
        imgs.skip(j + 1),
    ));
    let pre = spec_body_bytes(imgs.take(j));
    let rb = spec_record_bytes(imgs[j]);
    let post = spec_body_bytes(imgs.skip(j + 1));
    assert(body == pre + (rb + post));
    assert(rb.len() == size + 2);
    assert(0 <= j * rec && (j + 1) * rec <= imgs.len() * rec) by (nonlinear_arith)
        requires
            0 <= j,
            j + 1 <= imgs.len(),
            rec >= 2,
    ;
    assert((j + 1) * rec == j * rec + rec) by (nonlinear_arith);
    assert forall|x: int| 0 <= x < size implies body.subrange(off, off + size)[x] == imgs[j].0[x] by {
        assert(body[off + x] == (pre + (rb + post))[off + x]);
        assert((rb + post)[x] == rb[x]);
        assert(rb[x] == imgs[j].0[x]);
    }
    assert(body.subrange(off, off + size) =~= imgs[j].0);
    assert forall|x: int| 0 <= x < 2 implies body.subrange(off + size, off + rec)[x]
        == spec_u16_to_le_bytes(imgs[j].1)[x] by {
        assert(body[off + size + x] == (pre + (rb + post))[off + size + x]);
        assert((rb + post)[size + x] == rb[size + x]);
        assert(rb[size + x] == spec_u16_to_le_bytes(imgs[j].1)[x]);
    }
    assert(body.subrange(off + size, off + rec) =~= spec_u16_to_le_bytes(imgs[j].1));
}

/// What the deflate compressor at the fixed maximum level emits for
/// `data`: a function of the input bytes alone.
pub uninterp spec fn deflate_of(data: Seq<u8>) -> Seq<u8>;

/// Relies on flate2's `write::DeflateEncoder` at level 9: compression is
/// deterministic in the input bytes, and writing to a `Vec` sink cannot
/// fail, so the fallback arm is never taken.
#[verifier::external_body]
fn deflate_compress(data: &Vec<u8>) -> (r: Vec<u8>)
    ensures
        r@ == deflate_of(data@),
{
    let mut encoder = flate2::write::DeflateEncoder::new(Vec::new(), flate2::Compression::new(9));
    let _ = std::io::Write::write_all(&mut encoder, data.as_slice());
    match encoder.finish() {
        Ok(v) => v,
        Err(_) => Vec::new(),
    }
}

/// Relies on flate2's `read::DeflateDecoder`: decompressing a stream the
/// compressor produced yields exactly the bytes that were compressed;
/// a malformed stream errors out.
#[verifier::external_body]
fn deflate_decompress(data: &Vec<u8>) -> (r: Option<Vec<u8>>)
    ensures
        r matches Some(v) ==> (forall|d: Seq<u8>| data@ == #[trigger] deflate_of(d) ==> v@ == d),
        r is None ==> (forall|d: Seq<u8>| data@ != #[trigger] deflate_of(d)),
{
    let mut decoder = flate2::read::DeflateDecoder::new(data.as_slice());
    let mut out = Vec::new();
    match std::io::Read::read_to_end(&mut decoder, &mut out) {
        Ok(_) => Some(out),
        Err(_) => None,
    }
}

/// `bytes` is the exact file image of the well-formed dataset `dv`.
pub open spec fn dataset_file(bytes: Seq<u8>, dv: DatasetV) -> bool {
    &&& dv.header.encodable()
    &&& dv.wf()
    &&& dv.labels_in_range()
    &&& spec_body_bytes(dv.images).len() <= u64::MAX
    &&& bytes == dv.spec_file_bytes()
}

impl DatasetV {
    /// The exact byte image of this dataset on disk: header, the
    /// uncompressed body length as a u64, then the compressed body.
    pub open spec fn spec_file_bytes(self) -> Seq<u8> {
        self.header.spec_bytes() + spec_u64_to_le_bytes(
            spec_body_bytes(self.images).len() as u64,
        ) + deflate_of(spec_body_bytes(self.images))
    }
}

impl Dataset {
    /// Serialize this dataset into one file image: the header, the
    /// uncompressed body length, then the body compressed at the fixed
    /// maximum level. Fails only when the header's vocabulary cannot be
    /// represented.
    pub fn write_bytes(&self) -> (r: Result<Vec<u8>, Error>)
        ensures
            r matches Ok(b) ==> self@.header.encodable() && b@ == self@.spec_file_bytes()
                && spec_body_bytes(self@.images).len() <= u64::MAX,
            r is Err ==> !self@.header.encodable(),
            r matches Err(e) ==> e matches Error::CorruptFile(_),
    {
        let header_bytes: Vec<u8> = match self.header.write_bytes() {
            Ok(b) => b,
            Err(e) => {
                return Err(e);
            },
        };
        let mut body: Vec<u8> = Vec::new();
        let mut i: usize = 0;
        while i < self.images.len()
            invariant
                i <= self.images@.len(),
                body@ == spec_body_bytes(self@.images.take(i as int)),
            decreases self.images@.len() - i,
        {
            let mut rec: Vec<u8> = slice_to_vec(self.images[i].0.as_slice());
            body.append(&mut rec);
            let mut lb: Vec<u8> = u16_to_le_bytes(self.images[i].1);
            body.append(&mut lb);
            proof {
                lemma_body_bytes_push(self@.images.take(i as int), self@.images[i as int]);
                assert(self@.images.take(i as int).push(self@.images[i as int])
                    =~= self@.images.take(i as int + 1));
                assert(self@.images[i as int] == (self.images@[i as int].0@, self.images@[i as int].1));
                assert(body@ =~= spec_body_bytes(self@.images.take(i as int + 1)));
            }
            i += 1;
        }
        proof {
            assert(self@.images.take(self.images@.len() as int) =~= self@.images);
        }
        let compressed: Vec<u8> = deflate_compress(&body);
        let mut out: Vec<u8> = header_bytes;
        let mut lenb: Vec<u8> = u64_to_le_bytes(body.len() as u64);
        out.append(&mut lenb);
        let mut comp: Vec<u8> = compressed;
        out.append(&mut comp);
        proof {
            assert(out@ =~= self@.spec_file_bytes());
        }
        Ok(out)
    }

    /// Slice a decompressed body into records for `header`'s geometry.
    ///
    /// Exact: succeeds if and only if the body's length is a whole number
    /// of records, and then the records are the body, in order. A body
    /// that is the record image of some uniform entry sequence yields
    /// exactly that sequence.
    pub fn records_from_body(body: &Vec<u8>, header: &Header) -> (r: Result<
        Vec<LabeledImage>,
        Error,
    >)
        ensures
            r is Ok <==> (body@.len() as int) % (header@.spec_image_size() + 2) == 0,
            r matches Ok(v) ==> body@ == spec_body_bytes(images_of(v@)) && images_of(v@).len() * (
            header@.spec_image_size() + 2) == body@.len() && (forall|k: int|
                0 <= k < v@.len() ==> (#[trigger] images_of(v@)[k]).0.len()
                    == header@.spec_image_size()),
            forall|imgs: Seq<(Seq<u8>, u16)>| #[trigger]
                body_of(body@, header@.spec_image_size(), imgs) ==> (r matches Ok(v) && images_of(
                    v@,
                ) == imgs),
            r matches Err(e) ==> e matches Error::CorruptFile(_),
    {
        let size: u64 = header.image_size();
        proof {
            assert(header@.image_width * header@.image_height * header@.bit_depth
                <= 0xFFFF * 0xFFFF * 0xFF) by (nonlinear_arith)
                requires
                    header@.image_width <= 0xFFFF,
                    header@.image_height <= 0xFFFF,
                    header@.bit_depth <= 0xFF,
            ;
        }
        let rec: u64 = size + 2;
        if (body.len() as u64) % rec != 0 {
            proof {
                assert forall|imgs: Seq<(Seq<u8>, u16)>| !(#[trigger] body_of(
                    body@,
                    header@.spec_image_size(),
                    imgs,
                )) by {
                    if body_of(body@, header@.spec_image_size(), imgs) {
                        lemma_body_bytes_len_uniform(imgs, header@.spec_image_size());
                        assert((imgs.len() * (rec as int)) % (rec as int) == 0)
                            by (nonlinear_arith)
                            requires
                                rec >= 2,
                        ;
                        assert(false);
                    }
                }
            }
            return Err(Error::CorruptFile(String::new()));
        }
        let count: u64 = (body.len() as u64) / rec;
        proof {
            assert(count * rec == body@.len()) by (nonlinear_arith)
                requires
                    rec >= 2,
                    count == (body@.len() as int) / (rec as int),
                    (body@.len() as int) % (rec as int) == 0,
                    body@.len() <= u64::MAX,
            ;
        }
        let mut v: Vec<LabeledImage> = Vec::new();
        let mut off: usize = 0;
        let mut j: u64 = 0;
        proof {
            assert(images_of(v@) =~= Seq::<(Seq<u8>, u16)>::empty());
            assert(body@.take(0) =~= spec_body_bytes(images_of(v@)));
            assert forall|imgs: Seq<(Seq<u8>, u16)>| #[trigger]
                body_of(body@, size as int, imgs) implies imgs.len() == count && images_of(v@)
                == imgs.take(0) by {
                lemma_body_bytes_len_uniform(imgs, size as int);
                assert(imgs.len() == count) by (nonlinear_arith)
                    requires
                        imgs.len() * (rec as int) == count * (rec as int),
                        rec >= 2,
                ;
                assert(images_of(v@) =~= imgs.take(0));
            }
        }
        while j < count
            invariant
                j <= count,
                v@.len() == j,
                rec == size + 2,
                size == header@.spec_image_size(),
                count * rec == body@.len(),
                body@.len() <= usize::MAX,
                off == j * rec,
                off <= body@.len(),
                body@.take(off as int) == spec_body_bytes(images_of(v@)),
                forall|k: int|
                    0 <= k < v@.len() ==> (#[trigger] images_of(v@)[k]).0.len() == size,
                forall|imgs: Seq<(Seq<u8>, u16)>| #[trigger]
                    body_of(body@, size as int, imgs) ==> imgs.len() == count && images_of(v@)
                        == imgs.take(j as int),
            decreases count - j,
        {
            proof {
                assert((j + 1) * rec <= count * rec && j * rec + rec == (j + 1) * rec && rec
                    <= count * rec) by (nonlinear_arith)
                    requires
                        j < count,
                        rec >= 2,
                ;
                assert(off as int + rec as int <= body@.len());
                assert(size < rec);
            }
            let size_u: usize = size as usize;
            let rec_u: usize = rec as usize;
            let data: Vec<u8> = slice_to_vec(slice_subrange(body.as_slice(), off, off + size_u));
            let lab: u16 = u16_from_le_bytes(
                slice_subrange(body.as_slice(), off + size_u, off + rec_u),
            );
            let ghost dv: Seq<u8> = data@;
            let ghost prev: Seq<(Vec<u8>, u16)> = v@;
            let im: LabeledImage = (data, lab);
            v.push(im);
            let ghost old_off = off as int;
            off = off + rec_u;
            proof {
                lemma_auto_spec_u16_to_from_le_bytes();
                assert(forall|q: int| 0 <= q < prev.len() ==> v@[q] == prev[q]);
                assert(v@[prev.len() as int].0@ == dv);
                assert(spec_u16_to_le_bytes(spec_u16_from_le_bytes(bytes_sub(body@, old_off + size, old_off + rec))) == bytes_sub(body@, old_off + size, old_off + rec));
                assert(bytes_sub(body@, old_off + size, old_off + rec) == spec_u16_to_le_bytes(
                    lab,
                ));
                lemma_body_bytes_push(images_of(prev), (dv, lab));
                assert(images_of(v@) =~= images_of(prev).push((dv, lab)));
                assert(spec_record_bytes((dv, lab)) == dv + spec_u16_to_le_bytes(lab));
                assert(body@.take(off as int) =~= body@.take(old_off) + bytes_sub(
                    body@,
                    old_off,
                    old_off + size,
                ) + bytes_sub(body@, old_off + size, old_off + rec));
                assert(body@.take(off as int) == spec_body_bytes(images_of(v@)));
                assert forall|imgs: Seq<(Seq<u8>, u16)>| #[trigger]
                    body_of(body@, size as int, imgs) implies imgs.len() == count && images_of(v@)
                    == imgs.take(j as int + 1) by {
                    lemma_body_record(body@, size as int, imgs, j as int);
                    assert(imgs.len() * (rec as int) == count * (rec as int));
                    assert(imgs.len() == count) by (nonlinear_arith)
                        requires
                            imgs.len() * (rec as int) == count * (rec as int),
                            rec >= 2,
                    ;
                    assert(imgs[j as int].0 == bytes_sub(body@, old_off, old_off + size));
                    assert(spec_u16_to_le_bytes(imgs[j as int].1) == bytes_sub(
                        body@,
                        old_off + size,
                        old_off + rec,
                    ));
                    assert(spec_u16_to_le_bytes(imgs[j as int].1).len() == 2);
                    assert(imgs[j as int].1 == lab);
                    assert(imgs.take(j as int).push(imgs[j as int]) =~= imgs.take(j as int + 1));
                    assert(images_of(v@) =~= imgs.take(j as int + 1));
                }
            }
            j += 1;
        }
        proof {
            assert(body@.take(off as int) =~= body@);
            assert forall|imgs: Seq<(Seq<u8>, u16)>| #[trigger]
                body_of(body@, size as int, imgs) implies images_of(v@) == imgs by {
                assert(imgs.take(imgs.len() as int) =~= imgs);
            }
            lemma_body_bytes_len_uniform(images_of(v@), size as int);
        }
        Ok(v)
    }
}

/// Shorthand for a subrange of a byte sequence.
pub open spec fn bytes_sub(s: Seq<u8>, a: int, b: int) -> Seq<u8> {
    s.subrange(a, b)
}

impl Dataset {
    /// Deserialize a whole dataset file: header, declared uncompressed
    /// body length, compressed body. Exact on valid files: the file image
    /// of any well-formed dataset decodes to exactly that dataset. What
    /// comes back is always well-formed — a body that is not a whole
    /// number of records, a count field that does not match the body, or
    /// a label value outside the vocabulary is `CorruptFile`.
    pub fn read_bytes(bytes: &Vec<u8>) -> (r: Result<Dataset, Error>)
        ensures
            r matches Ok(d) ==> d@.wf() && d@.labels_in_range() && d@.header.encodable()
                && crate::header::header_prefix(bytes@, d@.header),
            forall|dv: DatasetV| #[trigger]
                dataset_file(bytes@, dv) ==> (r matches Ok(d) && d@ == dv),
            r matches Err(e) ==> e matches Error::CorruptFile(_),
    {
        proof {
            assert forall|dv: DatasetV| #[trigger]
                dataset_file(bytes@, dv) implies crate::header::header_prefix(
                bytes@,
                dv.header,
            ) by {
                lemma_auto_spec_u64_to_from_le_bytes();
                assert(bytes@.take(dv.header.spec_bytes().len() as int)
                    =~= dv.header.spec_bytes());
            }
        }
        let parsed = Header::read_bytes(bytes);
        let (header, consumed) = match parsed {
            Ok(p) => p,
            Err(e) => {
                proof {
                    assert forall|dv: DatasetV| !(#[trigger] dataset_file(bytes@, dv)) by {
                        if dataset_file(bytes@, dv) {
                            assert(false);
                        }
                    }
                }
                return Err(e);
            },
        };
        if bytes.len() - consumed < 8 {
            proof {
                assert forall|dv: DatasetV| !(#[trigger] dataset_file(bytes@, dv)) by {
                    if dataset_file(bytes@, dv) {
                        lemma_auto_spec_u64_to_from_le_bytes();
                        assert(bytes@.len() >= consumed + 8);
                        assert(false);
                    }
                }
            }
            return Err(Error::CorruptFile(String::new()));
        }
        // The length field lets a reader pre-size its decompression
        // buffer; the codec validates the actual decompressed length
        // instead, so the value itself goes unused here.
        let _declared: u64 = u64_from_le_bytes(
            slice_subrange(bytes.as_slice(), consumed, consumed + 8),
        );
        let compressed: Vec<u8> = slice_to_vec(
            slice_subrange(bytes.as_slice(), consumed + 8, bytes.len()),
        );
        proof {
            assert forall|dv: DatasetV| #[trigger]
                dataset_file(bytes@, dv) implies compressed@ == deflate_of(
                spec_body_bytes(dv.images),
            ) by {
                lemma_auto_spec_u64_to_from_le_bytes();
                let hsb = dv.header.spec_bytes();
                let le = spec_u64_to_le_bytes(spec_body_bytes(dv.images).len() as u64);
                let comp = deflate_of(spec_body_bytes(dv.images));
                assert(bytes@ == hsb + le + comp);
                assert(consumed == hsb.len());
                assert forall|x: int| 0 <= x < comp.len() implies compressed@[x] == comp[x] by {
                    assert(compressed@[x] == bytes@[consumed + 8 + x]);
                    assert((hsb + le + comp)[consumed + 8 + x] == comp[x]);
                }
                assert(compressed@ =~= comp);
            }
        }
        let decompressed = deflate_decompress(&compressed);
        let body: Vec<u8> = match decompressed {
            Some(b) => b,
            None => {
                proof {
                    assert forall|dv: DatasetV| !(#[trigger] dataset_file(bytes@, dv)) by {
                        if dataset_file(bytes@, dv) {
                            assert(compressed@ != deflate_of(spec_body_bytes(dv.images)));
                            assert(false);
                        }
                    }
                }
                return Err(Error::CorruptFile(String::new()));
            },
        };
        proof {
            assert forall|dv: DatasetV| #[trigger]
                dataset_file(bytes@, dv) implies body_of(
                body@,
                header@.spec_image_size(),
                dv.images,
            ) by {
                assert(body@ == spec_body_bytes(dv.images));
                assert(header@ == dv.header);
            }
        }
        let records = Self::records_from_body(&body, &header);
        let images: Vec<LabeledImage> = match records {
            Ok(v) => v,
            Err(e) => {
                proof {
                    assert forall|dv: DatasetV| !(#[trigger] dataset_file(bytes@, dv)) by {
                        if dataset_file(bytes@, dv) {
                            assert(false);
                        }
                    }
                }
                return Err(e);
            },
        };
        if header.image_count != images.len() as u64 {
            proof {
                assert forall|dv: DatasetV| !(#[trigger] dataset_file(bytes@, dv)) by {
                    if dataset_file(bytes@, dv) {
                        assert(images_of(images@) == dv.images);
                        assert(false);
                    }
                }
            }
            return Err(Error::CorruptFile(String::new()));
        }
        let vocab: usize = header.labels.len();
        let mut k: usize = 0;
        proof {
            assert(bytes@.take(consumed as int).len() == consumed);
        }
        while k < images.len()
            invariant
                k <= images@.len(),
                vocab == header.labels@.len(),
                crate::header::header_prefix(bytes@, header@),
                header@.encodable(),
                header@.image_count == images@.len(),
                forall|q: int|
                    0 <= q < images@.len() ==> (#[trigger] images_of(images@)[q]).0.len()
                        == header@.spec_image_size(),
                forall|q: int| 0 <= q < k ==> (#[trigger] images_of(images@)[q]).1 < vocab,
                forall|dv: DatasetV| #[trigger]
                    dataset_file(bytes@, dv) ==> dv.header == header@ && dv.images == images_of(
                        images@,
                    ),
            decreases images@.len() - k,
        {
            if images[k].1 as usize >= vocab {
                proof {
                    assert forall|dv: DatasetV| !(#[trigger] dataset_file(bytes@, dv)) by {
                        if dataset_file(bytes@, dv) {
                            assert(dv.images[k as int].1 < dv.header.labels.len());
                            assert(images_of(images@)[k as int].1 == images@[k as int].1);
                            assert(false);
                        }
                    }
                }
                return Err(Error::CorruptFile(String::new()));
            }
            proof {
                assert(images_of(images@)[k as int].1 == images@[k as int].1);
            }
            k += 1;
        }
        let d = Dataset { header, images };
        proof {
            assert(d@.wf());
            assert(d@.labels_in_range());
            assert forall|dv: DatasetV| #[trigger]
                dataset_file(bytes@, dv) implies d@ == dv by {
                assert(d@ =~= dv);
            }
        }
        Ok(d)
    }
}

} // verus!
