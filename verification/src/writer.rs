//! Building an image: entries are collected in a tree, the contents that come
//! as streams are drained, and the image is handed out region by region.

use vstd::prelude::*;
use vstd::slice::{slice_subrange, slice_to_vec};
use vstd::utf8::{encode_utf8, encode_utf8_valid_utf8};

use crate::bytes::push_slice;
use crate::error::Error;
use crate::image::{build_regions, concat, image, is_valid_block_size, lemma_valid_block_size,
    regions, valid_block_size, ImageOptions, ImageParams};
use crate::layout::FileType;
use crate::meta::{InodeMeta, MetaView};
use crate::names::{ints, views};
use crate::path::{clean, cleaned, cleaned_names_are_names};
use crate::plan::{image_fits, lemma_pos_of, plan_layout, pos_of, Geometry, DEFAULT_BLOCK_SIZE};
use crate::source::StreamEvent;
use crate::streaming::{all_filled, filled, is_pending, lemma_adding_keeps_filled};
use crate::tree::{added, adding_an_entry, emission_order_is_complete, implied_dir, lookup, loose,
    preorder, tree_wf, Content, Node, NodeView, Tree};

verus! {

/// Options for image creation.
#[derive(Clone, Debug)]
pub struct CreateOptions {
    pub block_size: usize,
    pub build_time: u64,
    pub build_time_nsec: u32,
    pub uuid: [u8; 16],
    pub volume_name: String,
    /// Emit a crc32c superblock checksum (SB_CHKSUM compat feature).
    pub checksum: bool,
}

impl View for CreateOptions {
    type V = ImageOptions;

    open spec fn view(&self) -> ImageOptions {
        ImageOptions {
            geometry: Geometry {
                block_size: self.block_size,
                build_time: self.build_time,
                build_time_nsec: self.build_time_nsec,
            },
            uuid: self.uuid@,
            volume_name: encode_utf8(self.volume_name@),
            checksum: self.checksum,
        }
    }
}

impl Default for CreateOptions {
    fn default() -> (o: Self)
        ensures
            o.block_size == 4096,
            o.block_size == DEFAULT_BLOCK_SIZE,
            o.build_time == 0,
            o.build_time_nsec == 0,
            o.uuid@ == Seq::new(16, |i: int| 0u8),
            o.volume_name@ == Seq::<char>::empty(),
            !o.checksum,
    {
        let o = CreateOptions {
            block_size: DEFAULT_BLOCK_SIZE,
            build_time: 0,
            build_time_nsec: 0,
            uuid: [0; 16],
            volume_name: String::new(),
            checksum: false,
        };
        assert(o.uuid@ =~= Seq::new(16, |i: int| 0u8));
        o
    }
}

/// The mathematical value of a [`Builder`].
#[verifier::ext_equal]
pub struct BuilderView {
    /// The entries, in the order in which they were added; the root first.
    pub entries: Seq<NodeView>,
    pub options: ImageOptions,
}

/// The builder after an entry has been added at a path that does not name the
/// root, or why it is not added.
pub open spec fn with_entry(b: BuilderView, path: Seq<u8>, node: NodeView) -> Result<
    BuilderView,
    Error,
> {
    if cleaned(path).len() == 0 {
        Err(Error::InvalidPath)
    } else {
        match added(b.entries, 0, cleaned(path), node) {
            Some(t) => Ok(BuilderView { entries: t, ..b }),
            None => Err(Error::MissingParent),
        }
    }
}

/// The builder after a directory has been added, or why it is not added. The
/// root is there already and only gets the metadata.
pub open spec fn with_dir(b: BuilderView, path: Seq<u8>, meta: MetaView) -> Result<
    BuilderView,
    Error,
> {
    if cleaned(path).len() == 0 {
        Ok(
            BuilderView {
                entries: b.entries.update(0, NodeView { meta, ..b.entries[0] }),
                ..b
            },
        )
    } else {
        with_entry(b, path, loose(meta, Seq::empty(), false, Seq::empty()))
    }
}

/// Builder for an EROFS image. Entries are added to an in-memory tree and
/// the full image is serialized on [`Builder::finish`].
///
/// The content of a regular file can be supplied later, as it comes out of a
/// stream: [`Builder::next_stream`] tells which stream to drain next.
pub struct Builder {
    tree: Tree,
    geometry: Geometry,
    uuid: [u8; 16],
    volume_name: Vec<u8>,
    checksum: bool,
}

impl View for Builder {
    type V = BuilderView;

    closed spec fn view(&self) -> BuilderView {
        BuilderView {
            entries: self.tree@,
            options: ImageOptions {
                geometry: self.geometry,
                uuid: self.uuid@,
                volume_name: self.volume_name@,
                checksum: self.checksum,
            },
        }
    }
}

impl Builder {
    /// The entries are a tree, and the options are those of an image.
    pub closed spec fn wf(&self) -> bool {
        &&& self.tree.wf()
        &&& self@.options.wf()
    }

    /// What [`Builder::wf`] says of the value.
    pub proof fn lemma_wf(&self)
        requires
            self.wf(),
        ensures
            tree_wf(self@.entries),
            self@.options.wf(),
    {
        self.tree.lemma_wf();
    }

    pub fn new(opts: CreateOptions) -> (r: Result<Builder, Error>)
        ensures
            match r {
                Ok(b) => {
                    &&& valid_block_size(opts.block_size as int)
                    &&& encode_utf8(opts.volume_name@).len() <= 16
                    &&& b.wf()
                    &&& b@ == (BuilderView { entries: seq![implied_dir()], options: opts@ })
                },
                Err(e) => if !valid_block_size(opts.block_size as int) {
                    e == Error::InvalidBlockSize { block_size: opts.block_size }
                } else {
                    encode_utf8(opts.volume_name@).len() > 16 && e == Error::VolumeNameTooLong
                },
            },
    {
        if !is_valid_block_size(opts.block_size) {
            return Err(Error::InvalidBlockSize { block_size: opts.block_size });
        }
        let volume_name: Vec<u8> = slice_to_vec(opts.volume_name.as_str().as_bytes());
        if volume_name.len() > 16 {
            return Err(Error::VolumeNameTooLong);
        }
        proof {
            lemma_valid_block_size(opts.block_size as int);
        }
        let b = Builder {
            tree: Tree::new(),
            geometry: Geometry {
                block_size: opts.block_size,
                build_time: opts.build_time,
                build_time_nsec: opts.build_time_nsec,
            },
            uuid: opts.uuid,
            volume_name,
            checksum: opts.checksum,
        };
        Ok(b)
    }

    /// Adds an entry. Intermediate directories are created implicitly. An
    /// entry that is there already stays, and the new one is dropped.
    fn insert(&mut self, path: &str, node: Node) -> (r: Result<Option<usize>, Error>)
        requires
            old(self).wf(),
            node.children@.len() == 0,
            node@.kind == FileType::of_mode(node@.meta.mode),
        ensures
            final(self).wf(),
            match with_entry(old(self)@, encode_utf8(path@), node@) {
                Ok(b) => {
                    &&& final(self)@ == b
                    &&& match lookup(old(self)@.entries, 0, cleaned(encode_utf8(path@))) {
                        Some(_) => r == Ok::<Option<usize>, Error>(None),
                        None => r matches Ok(Some(i)) && i == b.entries.len() - 1,
                    }
                },
                Err(e) => final(self)@ == old(self)@ && r == Err::<Option<usize>, Error>(e),
            },
    {
        let names: Vec<Vec<u8>> = clean(path);
        assert(views(names@).len() == names@.len());
        if names.len() == 0 {
            return Err(Error::InvalidPath);
        }
        self.tree.add(&names, node)
    }

    /// Add a directory. Intermediate directories are created implicitly.
    pub fn mkdir(&mut self, path: &str, meta: InodeMeta) -> (r: Result<(), Error>)
        requires
            old(self).wf(),
        ensures
            final(self).wf(),
            match with_dir(old(self)@, encode_utf8(path@), meta@) {
                Ok(b) => r is Ok && final(self)@ == b,
                Err(e) => r == Err::<(), Error>(e) && final(self)@ == old(self)@,
            },
    {
        let names: Vec<Vec<u8>> = clean(path);
        assert(views(names@).len() == names@.len());
        if names.len() == 0 {
            self.tree.set_root_meta(meta);
            return Ok(());
        }
        match self.tree.add(&names, Node::new(meta, Content::Empty, Vec::new())) {
            Ok(_) => Ok(()),
            Err(e) => Err(e),
        }
    }

    /// Add a regular file whose content comes later, out of a stream. Returns
    /// the ticket under which the content is to be supplied, or nothing where
    /// the path is taken and the stream is not wanted.
    pub fn add_file(&mut self, path: &str, meta: InodeMeta) -> (r: Result<Option<usize>, Error>)
        requires
            old(self).wf(),
        ensures
            final(self).wf(),
            match with_entry(
                old(self)@,
                encode_utf8(path@),
                loose(meta@, Seq::empty(), true, Seq::empty()),
            ) {
                Ok(b) => {
                    &&& final(self)@ == b
                    &&& match lookup(old(self)@.entries, 0, cleaned(encode_utf8(path@))) {
                        Some(_) => r == Ok::<Option<usize>, Error>(None),
                        None => r matches Ok(Some(i)) && i == b.entries.len() - 1 && is_pending(
                            b.entries,
                            i as int,
                        ),
                    }
                },
                Err(e) => r == Err::<Option<usize>, Error>(e) && final(self)@ == old(self)@,
            },
    {
        let node: Node = Node::new(meta, Content::Stream, Vec::new());
        let ghost t = self@.entries;
        let ghost names = cleaned(encode_utf8(path@));
        let r: Result<Option<usize>, Error> = self.insert(path, node);
        proof {
            old(self).lemma_wf();
            if names.len() > 0 {
                encode_utf8_valid_utf8(path@);
                cleaned_names_are_names(encode_utf8(path@));
                adding_an_entry(t, 0, names, node@);
            }
        }
        r
    }

    /// Add an in-memory blob as a regular file.
    pub fn add_bytes(&mut self, path: &str, meta: InodeMeta, data: Vec<u8>) -> (r: Result<
        (),
        Error,
    >)
        requires
            old(self).wf(),
        ensures
            final(self).wf(),
            match with_entry(
                old(self)@,
                encode_utf8(path@),
                loose(meta@, data@, false, Seq::empty()),
            ) {
                Ok(b) => r is Ok && final(self)@ == b,
                Err(e) => r == Err::<(), Error>(e) && final(self)@ == old(self)@,
            },
    {
        let content: Content = if data.len() == 0 {
            assert(data@ =~= Seq::<u8>::empty());
            Content::Empty
        } else {
            Content::Inline(data)
        };
        match self.insert(path, Node::new(meta, content, Vec::new())) {
            Ok(_) => Ok(()),
            Err(e) => Err(e),
        }
    }

    /// Add a symlink.
    pub fn symlink(&mut self, path: &str, target: &[u8], meta: InodeMeta) -> (r: Result<(), Error>)
        requires
            old(self).wf(),
        ensures
            final(self).wf(),
            match with_entry(
                old(self)@,
                encode_utf8(path@),
                loose(meta@, Seq::empty(), false, target@),
            ) {
                Ok(b) => r is Ok && final(self)@ == b,
                Err(e) => r == Err::<(), Error>(e) && final(self)@ == old(self)@,
            },
    {
        match self.insert(path, Node::new(meta, Content::Empty, slice_to_vec(target))) {
            Ok(_) => Ok(()),
            Err(e) => Err(e),
        }
    }

    /// Add a device node, FIFO or socket (`meta.mode` carries the type).
    pub fn mknod(&mut self, path: &str, meta: InodeMeta) -> (r: Result<(), Error>)
        requires
            old(self).wf(),
        ensures
            final(self).wf(),
            match with_entry(
                old(self)@,
                encode_utf8(path@),
                loose(meta@, Seq::empty(), false, Seq::empty()),
            ) {
                Ok(b) => r is Ok && final(self)@ == b,
                Err(e) => r == Err::<(), Error>(e) && final(self)@ == old(self)@,
            },
    {
        match self.insert(path, Node::new(meta, Content::Empty, Vec::new())) {
            Ok(_) => Ok(()),
            Err(e) => Err(e),
        }
    }
}

/// The image can be made: all contents are there, and it is within machine
/// limits.
pub open spec fn can_be_finished(b: BuilderView) -> bool {
    &&& all_filled(b.entries)
    &&& image_fits(b.entries, b.options.geometry)
}

/// Entry `i` is the first one, in emission order, whose content is still to
/// come.
pub open spec fn is_next_pending(t: Seq<NodeView>, i: int) -> bool {
    &&& is_pending(t, i)
    &&& forall|j: int| 0 <= j < pos_of(t, i) ==> !is_pending(t, #[trigger] preorder(t, 0)[j])
}

impl Builder {
    /// The ticket of the stream that is to be drained next: streams are drained
    /// in the order in which their entries are emitted.
    pub fn next_stream(&self) -> (r: Option<usize>)
        requires
            self.wf(),
        ensures
            match r {
                Some(i) => is_next_pending(self@.entries, i as int),
                None => all_filled(self@.entries),
            },
    {
        let ghost t = self@.entries;
        let order: Vec<usize> = self.tree.collect_entries();
        proof {
            self.tree.lemma_wf();
            emission_order_is_complete(t);
        }
        let mut k: usize = 0;
        while k < order.len()
            invariant
                self.wf(),
                t == self.tree@,
                tree_wf(t),
                ints(order@) == preorder(t, 0),
                order@.len() == t.len(),
                forall|j: int| 0 <= j < k ==> !is_pending(t, #[trigger] preorder(t, 0)[j]),
                preorder(t, 0).no_duplicates(),
                forall|j: int| #[trigger] preorder(t, 0).contains(j) <==> 0 <= j < t.len(),
            decreases order@.len() - k,
        {
            let i: usize = order[k];
            proof {
                assert(preorder(t, 0)[k as int] == i);
                assert(preorder(t, 0).contains(i as int));
                lemma_pos_of(t, i as int);
            }
            if let Content::Stream = self.tree.node(i).content {
                return Some(i);
            }
            k = k + 1;
        }
        assert forall|i: int| !is_pending(t, i) by {
            if 0 <= i < t.len() {
                assert(preorder(t, 0).contains(i));
            }
        }
        None
    }

    /// Supplies the content that came out of a stream.
    pub fn supply(&mut self, ticket: usize, data: Vec<u8>)
        requires
            old(self).wf(),
            is_pending(old(self)@.entries, ticket as int),
        ensures
            final(self).wf(),
            final(self)@ == (BuilderView {
                entries: filled(old(self)@.entries, ticket as int, data@),
                ..old(self)@
            }),
    {
        self.tree.set_drained(ticket, data);
    }

    /// Whether [`Builder::finish`] may be called.
    pub fn can_finish(&self) -> (r: bool)
        requires
            self.wf(),
        ensures
            r == can_be_finished(self@),
    {
        if self.next_stream().is_some() {
            return false;
        }
        plan_layout(&self.tree, self.geometry).is_some()
    }

    /// Serializes the whole image. Its regions are to be emitted in order.
    pub fn finish(self) -> (out: Vec<Vec<u8>>)
        requires
            self.wf(),
            can_be_finished(self@),
        ensures
            views(out@) == regions(self@.entries, self@.options),
    {
        let params: ImageParams = ImageParams {
            geometry: self.geometry,
            uuid: &self.uuid,
            volume_name: self.volume_name.as_slice(),
            checksum: self.checksum,
        };
        assert(params@ == self@.options);
        match plan_layout(&self.tree, self.geometry) {
            Some(plan) => build_regions(&self.tree, &params, &plan),
            None => Vec::new(),
        }
    }
}

/// What has come out of a stream after one more chunk.
pub open spec fn after_chunk(held: Seq<u8>, chunk: Seq<u8>) -> Seq<u8> {
    held + chunk
}

/// What has come out of a stream after some chunks.
pub open spec fn drained(chunks: Seq<Seq<u8>>) -> Seq<u8>
    decreases chunks.len(),
{
    if chunks.len() == 0 {
        Seq::empty()
    } else {
        after_chunk(drained(chunks.drop_last()), chunks.last())
    }
}

/// However a content is cut into chunks, empty ones among them, it is what
/// comes out of the stream.
pub proof fn chunking_does_not_matter(chunks: Seq<Seq<u8>>)
    ensures
        drained(chunks) == concat(chunks),
    decreases chunks.len(),
{
    if chunks.len() > 0 {
        chunking_does_not_matter(chunks.drop_last());
    }
}

/// What to do next with a stream that is being drained.
pub enum DrainAction<E> {
    /// Poll the stream.
    Poll,
    /// Nothing until the stream can go on.
    Wait,
    /// The content is complete.
    Done,
    /// The image cannot be made.
    Fail(E),
}

/// What has come out of a stream after it has been polled, and what to do next.
pub open spec fn after_drain_poll<E>(held: Seq<u8>, event: StreamEvent<E>) -> (
    Seq<u8>,
    DrainAction<E>,
) {
    match event {
        StreamEvent::Chunk(c) => (after_chunk(held, c@), DrainAction::Poll),
        StreamEvent::End => (held, DrainAction::Done),
        StreamEvent::Pending => (held, DrainAction::Wait),
        StreamEvent::Failed(e) => (held, DrainAction::Fail(e)),
    }
}

/// The content of a file while its stream is being drained. The stream is
/// polled to completion once.
pub struct Drain {
    buf: Vec<u8>,
}

impl Drain {
    /// What has come so far.
    pub closed spec fn bytes(&self) -> Seq<u8> {
        self.buf@
    }

    pub fn new() -> (d: Self)
        ensures
            d.bytes() == Seq::<u8>::empty(),
    {
        Drain { buf: Vec::new() }
    }

    /// Takes in what a poll of the stream gave.
    pub fn polled<E>(&mut self, event: StreamEvent<E>) -> (r: DrainAction<E>)
        ensures
            final(self).bytes() == after_drain_poll(old(self).bytes(), event).0,
            r == after_drain_poll(old(self).bytes(), event).1,
            match event {
                StreamEvent::Chunk(c) => r == DrainAction::<E>::Poll && final(self).bytes()
                    == after_chunk(old(self).bytes(), c@),
                StreamEvent::End => r == DrainAction::<E>::Done && final(self).bytes() == old(
                    self,
                ).bytes(),
                StreamEvent::Pending => r == DrainAction::<E>::Wait && final(self).bytes() == old(
                    self,
                ).bytes(),
                StreamEvent::Failed(e) => r == DrainAction::Fail(e) && final(self).bytes() == old(
                    self,
                ).bytes(),
            },
    {
        match event {
            StreamEvent::Chunk(c) => {
                push_slice(&mut self.buf, c.as_slice());
                DrainAction::Poll
            },
            StreamEvent::End => DrainAction::Done,
            StreamEvent::Pending => DrainAction::Wait,
            StreamEvent::Failed(e) => DrainAction::Fail(e),
        }
    }

    pub fn into_bytes(self) -> (v: Vec<u8>)
        ensures
            v@ == self.bytes(),
    {
        self.buf
    }
}

/// Writer for an image of files whose contents are at hand. The finished
/// image comes as one piece.
pub struct Writer {
    builder: Builder,
}

impl View for Writer {
    type V = BuilderView;

    closed spec fn view(&self) -> BuilderView {
        self.builder@
    }
}

impl Writer {
    /// The entries are a tree with all contents, and the options are those of
    /// an image.
    pub closed spec fn wf(&self) -> bool {
        &&& self.builder.wf()
        &&& all_filled(self@.entries)
    }

    pub fn new(opts: CreateOptions) -> (r: Result<Writer, Error>)
        ensures
            match r {
                Ok(w) => {
                    &&& valid_block_size(opts.block_size as int)
                    &&& encode_utf8(opts.volume_name@).len() <= 16
                    &&& w.wf()
                    &&& w@ == (BuilderView { entries: seq![implied_dir()], options: opts@ })
                },
                Err(e) => if !valid_block_size(opts.block_size as int) {
                    e == Error::InvalidBlockSize { block_size: opts.block_size }
                } else {
                    encode_utf8(opts.volume_name@).len() > 16 && e == Error::VolumeNameTooLong
                },
            },
    {
        match Builder::new(opts) {
            Ok(builder) => Ok(Writer { builder }),
            Err(e) => Err(e),
        }
    }
}

/// Regions one after another.
pub fn joined_regions(regions: &Vec<Vec<u8>>) -> (out: Vec<u8>)
    ensures
        out@ == concat(views(regions@)),
{
    let ghost all = views(regions@);
    let mut out: Vec<u8> = Vec::new();
    let mut k: usize = 0;
    while k < regions.len()
        invariant
            k <= regions@.len(),
            all == views(regions@),
            out@ == concat(all.take(k as int)),
        decreases regions@.len() - k,
    {
        push_slice(&mut out, regions[k].as_slice());
        proof {
            assert(all.take(k + 1).drop_last() =~= all.take(k as int));
            assert(all.take(k + 1).last() == regions@[k as int]@);
        }
        k = k + 1;
    }
    assert(all.take(k as int) =~= all);
    out
}

impl Writer {
    /// What [`Writer::wf`] says of the value.
    pub proof fn lemma_wf(&self)
        requires
            self.wf(),
        ensures
            tree_wf(self@.entries),
            all_filled(self@.entries),
            self@.options.wf(),
    {
        self.builder.lemma_wf();
    }

    /// Add a directory. Intermediate directories are created implicitly.
    pub fn mkdir(&mut self, path: &str, meta: InodeMeta) -> (r: Result<(), Error>)
        requires
            old(self).wf(),
        ensures
            final(self).wf(),
            match with_dir(old(self)@, encode_utf8(path@), meta@) {
                Ok(b) => r is Ok && final(self)@ == b,
                Err(e) => r == Err::<(), Error>(e) && final(self)@ == old(self)@,
            },
    {
        proof {
            lemma_adding_keeps_filled(
                self@.entries,
                0,
                cleaned(encode_utf8(path@)),
                loose(meta@, Seq::empty(), false, Seq::empty()),
            );
            self.lemma_wf();
            let u = self@.entries.update(0, NodeView { meta: meta@, ..self@.entries[0] });
            assert forall|j: int| !is_pending(u, j) by {
                assert(!is_pending(self@.entries, j));
                assert(!is_pending(self@.entries, 0));
            }
        }
        self.builder.mkdir(path, meta)
    }

    /// Add a regular file of `size` bytes, the first ones of `data`, which is
    /// what its source gives. It is an error if the source gives fewer.
    pub fn add_file(&mut self, path: &str, meta: InodeMeta, size: u64, data: &[u8]) -> (r: Result<
        (),
        Error,
    >)
        requires
            old(self).wf(),
        ensures
            final(self).wf(),
            if data@.len() < size {
                r == Err::<(), Error>(Error::UnexpectedEof) && final(self)@ == old(self)@
            } else {
                match with_entry(
                    old(self)@,
                    encode_utf8(path@),
                    loose(meta@, data@.take(size as int), false, Seq::empty()),
                ) {
                    Ok(b) => r is Ok && final(self)@ == b,
                    Err(e) => r == Err::<(), Error>(e) && final(self)@ == old(self)@,
                }
            },
    {
        assert(data@.len() == data.len());
        if (data.len() as u64) < size {
            return Err(Error::UnexpectedEof);
        }
        let content: Vec<u8> = slice_to_vec(slice_subrange(data, 0, size as usize));
        proof {
            assert(content@ =~= data@.take(size as int));
            lemma_adding_keeps_filled(
                self@.entries,
                0,
                cleaned(encode_utf8(path@)),
                loose(meta@, content@, false, Seq::empty()),
            );
        }
        self.builder.add_bytes(path, meta, content)
    }

    /// Add a symlink.
    pub fn symlink(&mut self, path: &str, target: &[u8], meta: InodeMeta) -> (r: Result<(), Error>)
        requires
            old(self).wf(),
        ensures
            final(self).wf(),
            match with_entry(
                old(self)@,
                encode_utf8(path@),
                loose(meta@, Seq::empty(), false, target@),
            ) {
                Ok(b) => r is Ok && final(self)@ == b,
                Err(e) => r == Err::<(), Error>(e) && final(self)@ == old(self)@,
            },
    {
        proof {
            lemma_adding_keeps_filled(
                self@.entries,
                0,
                cleaned(encode_utf8(path@)),
                loose(meta@, Seq::empty(), false, target@),
            );
        }
        self.builder.symlink(path, target, meta)
    }

    /// Whether [`Writer::finish`] may be called.
    pub fn can_finish(&self) -> (r: bool)
        requires
            self.wf(),
        ensures
            r == can_be_finished(self@),
    {
        self.builder.can_finish()
    }

    /// The finished image.
    pub fn finish(self) -> (img: Vec<u8>)
        requires
            self.wf(),
            can_be_finished(self@),
        ensures
            img@ == image(self@.entries, self@.options),
    {
        let regions: Vec<Vec<u8>> = self.builder.finish();
        joined_regions(&regions)
    }
}

} // verus!
