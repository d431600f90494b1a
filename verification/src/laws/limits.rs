//! What is refused, and why.

use vstd::prelude::*;
use vstd::utf8::encode_utf8;

use super::directory::next_block;
use super::inode::{content, links, links_are_counted};
use super::xattr::attributes_are_counted;
use crate::error::{Error, ErrorKind};
use crate::image::{lemma_block_bits, lemma_payload_has_len, lemma_valid_block_size,
    valid_block_size};
use crate::layout::FileType;
use crate::meta::xattr_bytes;
use crate::plan::{blk_at, entry_fits, image_fits, off_at, Geometry};
use crate::tree::{tree_wf, NodeView};
use crate::writer::CreateOptions;

verus! {

/// The block sizes that there are.
pub proof fn block_sizes(bs: int)
    ensures
        valid_block_size(bs) <==> bs == 512 || bs == 1024 || bs == 2048 || bs == 4096 || bs == 8192
            || bs == 16384 || bs == 32768 || bs == 65536,
{
    if valid_block_size(bs) {
        lemma_valid_block_size(bs);
    }
    vstd::arithmetic::power2::lemma2_to64();
    lemma_block_bits(9);
    lemma_block_bits(10);
    lemma_block_bits(11);
    lemma_block_bits(12);
    lemma_block_bits(13);
    lemma_block_bits(14);
    lemma_block_bits(15);
    lemma_block_bits(16);
}

/// Options are those of an image exactly if the block size is one that there
/// is and the volume name has at most sixteen bytes.
pub proof fn usable_options(c: CreateOptions)
    ensures
        c@.wf() <==> valid_block_size(c.block_size as int) && encode_utf8(c.volume_name@).len()
            <= 16,
{
    if valid_block_size(c.block_size as int) {
        lemma_valid_block_size(c.block_size as int);
    }
}

/// An image can be made exactly where link counts have room in four bytes,
/// lengths and the number of blocks in a machine word, and the block where the
/// metadata starts in four bytes.
pub proof fn images_that_can_be_made(t: Seq<NodeView>, g: Geometry)
    requires
        g.wf(),
        tree_wf(t),
    ensures
        ({
            let bs = g.block_size as int;
            let n = t.len() as int;
            let meta = next_block(off_at(t, g, n), bs);
            image_fits(t, g) <==> {
                &&& forall|i: int|
                    #![trigger t[i]]
                    0 <= i < n ==> links(t, i) <= 0xFFFF_FFFF && xattr_bytes(
                        t[i].meta.xattrs,
                    ).len() <= usize::MAX && (t[i].kind == FileType::Dir ==> content(
                        t,
                        g,
                        i,
                    ).len() <= usize::MAX)
                &&& meta <= usize::MAX
                &&& blk_at(t, g, n) <= 0xFFFF_FFFF
                &&& blk_at(t, g, n) + (off_at(t, g, n) + bs - 1) / bs <= usize::MAX
            }
        }),
{
    assert forall|i: int| #![trigger t[i]] 0 <= i < t.len() implies entry_fits(t, i, g) == (links(
        t,
        i,
    ) <= 0xFFFF_FFFF && xattr_bytes(t[i].meta.xattrs).len() <= usize::MAX && (t[i].kind
        == FileType::Dir ==> content(t, g, i).len() <= usize::MAX)) by {
        links_are_counted(t, i);
        attributes_are_counted(t[i].meta.xattrs);
        lemma_payload_has_len(t, g, i);
    }
    if forall|i: int|
        #![trigger t[i]]
        0 <= i < t.len() ==> links(t, i) <= 0xFFFF_FFFF && xattr_bytes(t[i].meta.xattrs).len()
            <= usize::MAX && (t[i].kind == FileType::Dir ==> content(t, g, i).len()
            <= usize::MAX) {
        assert forall|i: int| 0 <= i < t.len() implies #[trigger] entry_fits(t, i, g) by {
            assert(t[i] == t[i]);
        }
    }
    if image_fits(t, g) {
        assert forall|i: int| #![trigger t[i]] 0 <= i < t.len() implies links(t, i) <= 0xFFFF_FFFF
            && xattr_bytes(t[i].meta.xattrs).len() <= usize::MAX && (t[i].kind == FileType::Dir
            ==> content(t, g, i).len() <= usize::MAX) by {
            assert(entry_fits(t, i, g));
        }
    }
}

/// The class of an error: something is missing only where a path leads through
/// an entry that is no directory; what was asked for is wrong where options or
/// a path are; a source that ends too early is told apart; everything else is
/// in the bytes that were read.
pub proof fn classes_of_errors(e: Error)
    ensures
        e.spec_kind() == ErrorKind::NotFound <==> e == Error::MissingParent,
        e.spec_kind() == ErrorKind::UnexpectedEof <==> e == Error::UnexpectedEof,
        e.spec_kind() == ErrorKind::InvalidInput <==> e is InvalidBlockSize || e
            == Error::VolumeNameTooLong || e == Error::InvalidPath,
{
}

} // verus!
