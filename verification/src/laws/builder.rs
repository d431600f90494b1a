//! What a builder asks for, and how it hands the image out.

use vstd::prelude::*;
use vstd::utf8::encode_utf8;

use super::directory::next_block;
use super::inode::content;
use super::placement::{contents_follow_one_another, emitted, has_room, start};
use super::superblock::{front_end, lemma_front_end, zero_between};
use crate::bytes::{lemma_rounded, padded};
use crate::image::{concat, data_regions, lemma_meta_at_len, lemma_payload_has_len, meta_at, regions,
    ImageOptions};
use crate::meta::Xattr;
use crate::plan::{image_fits, lemma_off_ordered, lemma_pos_of, off_at, pos_of};
use crate::read_back::{lemma_area_len, lemma_concat_push};
use crate::reader::Dirent;
use crate::streaming::all_filled;
use crate::tree::{preorder, tree_wf, NodeView};
use crate::writer::{can_be_finished, drained, is_next_pending, BuilderView};

verus! {

/// Streams are drained in the order in which their entries are emitted: the
/// next one is one that is still to come, and no other such entry is emitted
/// before it.
pub proof fn streams_are_drained_in_order(t: Seq<NodeView>, i: int, j: int)
    requires
        tree_wf(t),
        is_next_pending(t, i),
    ensures
        0 <= i < t.len(),
        t[i].pending,
        0 <= j < t.len() && t[j].pending ==> pos_of(t, i) <= pos_of(t, j),
{
    if 0 <= j < t.len() && t[j].pending && pos_of(t, j) < pos_of(t, i) {
        lemma_pos_of(t, j);
        assert(crate::streaming::is_pending(t, preorder(t, 0)[pos_of(t, j)]));
    }
}

/// The entry that comes first of those whose content is to come is the next.
pub proof fn the_first_stream_is_next(t: Seq<NodeView>, i: int)
    requires
        tree_wf(t),
        0 <= i < t.len(),
        t[i].pending,
        forall|j: int|
            0 <= j < t.len() && (#[trigger] t[j]).pending ==> pos_of(t, i) <= pos_of(t, j),
    ensures
        is_next_pending(t, i),
{
    lemma_pos_of(t, i);
    assert forall|k: int| 0 <= k < pos_of(t, i) implies !crate::streaming::is_pending(
        t,
        #[trigger] preorder(t, 0)[k],
    ) by {
        super::emission::every_entry_is_emitted_once(t, k);
        assert(t[preorder(t, 0)[k]].pending ==> false);
    }
}

/// An image can be finished exactly when no content is still to come and it is
/// within machine limits.
pub proof fn finished_when_nothing_is_to_come(b: BuilderView)
    ensures
        can_be_finished(b) <==> image_fits(b.entries, b.options.geometry) && forall|i: int|
            0 <= i < b.entries.len() ==> !(#[trigger] b.entries[i]).pending,
        all_filled(b.entries) <==> forall|i: int|
            0 <= i < b.entries.len() ==> !(#[trigger] b.entries[i]).pending,
{
    let t = b.entries;
    if all_filled(t) {
        assert forall|i: int| 0 <= i < t.len() implies !(#[trigger] t[i]).pending by {
            assert(!crate::streaming::is_pending(t, i));
        }
    }
}

/// What comes out of a stream is its chunks, one behind another.
pub proof fn chunks_are_joined(chunks: Seq<Seq<u8>>, chunk: Seq<u8>)
    ensures
        drained(Seq::<Seq<u8>>::empty()).len() == 0,
        drained(chunks.push(chunk)) == drained(chunks) + chunk,
{
    assert(chunks.push(chunk).drop_last() =~= chunks);
}

/// Regions are put one behind another.
pub proof fn regions_are_joined(rs: Seq<Seq<u8>>, r: Seq<u8>)
    ensures
        concat(Seq::<Seq<u8>>::empty()).len() == 0,
        concat(rs.push(r)) == concat(rs) + r,
{
    lemma_concat_push(rs, r);
}

/// An image is handed out in regions: first what is in front of the data, last
/// the metadata, each in whole blocks, and in between the data.
pub proof fn regions_of_an_image(t: Seq<NodeView>, o: ImageOptions)
    requires
        o.wf(),
        tree_wf(t),
    ensures
        ({
            let g = o.geometry;
            let bs = g.block_size as int;
            let n = t.len() as int;
            let rs = regions(t, o);
            let ds = data_regions(t, g, n);
            &&& rs.len() == ds.len() + 2
            &&& rs[0].len() == front_end(bs)
            &&& rs.subrange(1, rs.len() - 1) == ds
            &&& rs.last().len() == next_block(off_at(t, g, n), bs)
        }),
{
    let g = o.geometry;
    let n = t.len() as int;
    let rs = regions(t, o);
    lemma_area_len(t, o);
    lemma_front_end(g);
    lemma_meta_at_len(t, g, n);
    lemma_off_ordered(t, g, 0, n);
    lemma_rounded(off_at(t, g, n), g.bs());
    assert(rs.subrange(1, rs.len() - 1) =~= data_regions(t, g, n));
    assert(rs.last() == padded(meta_at(t, g, n), g.bs()));
}

/// The regions of data, in the order of emission: one for each content that
/// does not follow its inode, filled with zeros to whole blocks.
pub proof fn regions_of_data(t: Seq<NodeView>, o: ImageOptions, k: int)
    requires
        o.wf(),
        tree_wf(t),
        0 <= k < t.len(),
    ensures
        ({
            let g = o.geometry;
            let bs = g.block_size as int;
            let i = emitted(t, k);
            let c = content(t, g, i);
            let so_far = data_regions(t, g, k);
            let next = data_regions(t, g, k + 1);
            &&& data_regions(t, g, 0).len() == 0
            &&& if c.len() == 0 || has_room(t, g, i, off_at(t, g, k), start(t, g, i)) {
                next == so_far
            } else {
                &&& next.drop_last() == so_far
                &&& next.len() == so_far.len() + 1
                &&& next.last().len() == next_block(c.len() as int, bs)
                &&& next.last().take(c.len() as int) == c
                &&& zero_between(next.last(), c.len() as int, next.last().len() as int)
            }
        }),
{
    let g = o.geometry;
    let i = emitted(t, k);
    let c = content(t, g, i);
    contents_follow_one_another(t, g, k);
    lemma_payload_has_len(t, g, i);
    lemma_rounded(c.len() as int, g.bs());
    if crate::plan::has_blocks(t, g, k) {
        let r = data_regions(t, g, k + 1);
        assert(r.drop_last() =~= data_regions(t, g, k));
        assert(r.last() == padded(c, g.bs()));
        assert(r.last().take(c.len() as int) =~= c);
    }
}

/// An attribute stands for its fields.
pub proof fn attribute_by_field(x: Xattr)
    ensures
        x@.name == encode_utf8(x.name@),
        x@.value == x.value@,
{
}

/// A listed entry stands for its fields.
pub proof fn listed_entry_by_field(d: Dirent)
    ensures
        d@.name == d.name@,
        d@.nid == d.nid,
        d@.kind == d.kind,
{
}

} // verus!
