use crate::archive::{
    archive_bytes, archive_is_balanced, build_keyed_archive, keyed_archive_from, list_names,
    member_outcome, object_table, objects_balanced, open_archive, parse_property_list,
    property_list_of, read_member, resolve_graph, resolved_graph, zip_listing, zip_member,
    zip_opens,
};
use crate::error::Error;
use crate::segments::{
    is_segment_name, is_segment_order, keys_parse, lemma_segment_order_unique, order_segments,
    segment_order, views,
};
use std::io::Cursor;
use vstd::prelude::*;
use zip::ZipArchive;

verus! {

/// Name of the member that holds the document's keyed-archive metadata.
pub const METADATA_MEMBER: &'static str = "Document.archive";

/// Name of the member that holds the document's preview image.
pub const THUMBNAIL_MEMBER: &'static str = "QuickLook/Thumbnail.png";

/// What the metadata of a container decodes to: the member's bytes, parsed as
/// a property list with a keyed-archive header, with its object graph
/// resolved; a table holding a dictionary with more keys than values does
/// not resolve.
pub open spec fn metadata_result(container: Seq<u8>) -> Result<plist::Value, Error> {
    match member_outcome(zip_member(container, METADATA_MEMBER@)) {
        Err(e) => Err(e),
        Ok(data) => match property_list_of(data) {
            None => Err(Error::StructuralParse),
            Some(list) => match keyed_archive_from(list) {
                None => Err(Error::StructuralParse),
                Some(c) => if !objects_balanced(object_table(c)) {
                    Err(Error::GraphResolution)
                } else {
                    match resolved_graph(c) {
                        None => Err(Error::GraphResolution),
                        Some(v) => Ok(v),
                    }
                },
            },
        },
    }
}

/// What the preview image of a container reads as.
pub open spec fn thumbnail_result(container: Seq<u8>) -> Result<Seq<u8>, Error> {
    member_outcome(zip_member(container, THUMBNAIL_MEMBER@))
}

/// Reading the members at the given positions of a listing, in that order;
/// the first failure ends the read.
pub open spec fn read_in_order(container: Seq<u8>, names: Seq<Seq<char>>, order: Seq<usize>) -> Result<
    Seq<Seq<u8>>,
    Error,
>
    decreases order.len(),
{
    if order.len() == 0 {
        Ok(Seq::empty())
    } else {
        match read_in_order(container, names, order.drop_last()) {
            Err(e) => Err(e),
            Ok(prefix) => match member_outcome(zip_member(container, names[order.last() as int])) {
                Err(e) => Err(e),
                Ok(d) => Ok(prefix.push(d)),
            },
        }
    }
}

/// Once reading a prefix of the order fails, reading the whole order fails the same way.
proof fn lemma_read_failure_persists(
    container: Seq<u8>,
    names: Seq<Seq<char>>,
    order: Seq<usize>,
    m: int,
    e: Error,
)
    requires
        0 <= m <= order.len(),
        read_in_order(container, names, order.take(m)) == Err::<Seq<Seq<u8>>, Error>(e),
    ensures
        read_in_order(container, names, order) == Err::<Seq<Seq<u8>>, Error>(e),
    decreases order.len() - m,
{
    if m < order.len() {
        assert(order.take(m + 1).drop_last() =~= order.take(m));
        lemma_read_failure_persists(container, names, order, m + 1, e);
    } else {
        assert(order.take(m) =~= order);
    }
}

/// The view of a byte-buffer result.
pub open spec fn bytes_view(r: Result<Vec<u8>, Error>) -> Result<Seq<u8>, Error> {
    match r {
        Ok(d) => Ok(d@),
        Err(e) => Err(e),
    }
}

/// The view of a result that holds a sequence of byte buffers.
pub open spec fn buffers_view(r: Result<Vec<Vec<u8>>, Error>) -> Result<Seq<Seq<u8>>, Error> {
    match r {
        Ok(v) => Ok(v@.map_values(|d: Vec<u8>| d@)),
        Err(e) => Err(e),
    }
}

/// What the timelapse of a container reads as: its segment members, read in
/// timelapse order.
pub open spec fn segments_result(container: Seq<u8>) -> Result<Seq<Seq<u8>>, Error> {
    match zip_listing(container) {
        None => Err(Error::ContainerFormat),
        Some(names) => if !keys_parse(names) {
            Err(Error::SegmentNameFormat)
        } else {
            read_in_order(container, names, segment_order(names))
        },
    }
}

/// An open document: its path and a reader over its container.
pub struct File {
    path: String,
    archive: ZipArchive<Cursor<Vec<u8>>>,
}

impl File {
    /// The bytes of the container that this handle reads.
    pub closed spec fn container(&self) -> Seq<u8> {
        archive_bytes(self.archive)
    }

    /// The path that this handle was opened from.
    pub closed spec fn path_view(&self) -> Seq<char> {
        self.path@
    }

    /// A handle on a container whose bytes were read from `path`.
    /// Fails with `ContainerFormat` when the bytes are not a zip archive.
    pub fn from_container(path: String, bytes: Vec<u8>) -> (r: Result<File, Error>)
        ensures
            match r {
                Ok(f) => zip_opens(bytes@) && f.container() == bytes@ && f.path_view() == path@,
                Err(e) => !zip_opens(bytes@) && e == Error::ContainerFormat,
            },
    {
        match open_archive(bytes) {
            Some(archive) => Ok(File { path, archive }),
            None => Err(Error::ContainerFormat),
        }
    }

    /// The path that this handle was opened from.
    pub fn path(&self) -> (r: &str)
        ensures
            r@ == self.path_view(),
    {
        self.path.as_str()
    }

    /// The document's metadata: the keyed archive in the metadata member,
    /// with its object graph resolved. An archived dictionary with more keys
    /// than values cannot be resolved.
    pub fn metadata(&mut self) -> (r: Result<plist::Value, Error>)
        ensures
            final(self).container() == old(self).container(),
            final(self).path_view() == old(self).path_view(),
            r == metadata_result(old(self).container()),
    {
        let data = read_member(&mut self.archive, METADATA_MEMBER)?;
        let list = match parse_property_list(data.as_slice()) {
            None => {
                return Err(Error::StructuralParse);
            },
            Some(list) => list,
        };
        let balanced = archive_is_balanced(&list);
        let c = match build_keyed_archive(list) {
            None => {
                return Err(Error::StructuralParse);
            },
            Some(c) => c,
        };
        if !balanced {
            return Err(Error::GraphResolution);
        }
        match resolve_graph(c) {
            None => Err(Error::GraphResolution),
            Some(v) => Ok(v),
        }
    }

    /// The raw bytes of the document's preview image.
    pub fn thumbnail(&mut self) -> (r: Result<Vec<u8>, Error>)
        ensures
            final(self).container() == old(self).container(),
            final(self).path_view() == old(self).path_view(),
            bytes_view(r) == thumbnail_result(old(self).container()),
    {
        read_member(&mut self.archive, THUMBNAIL_MEMBER)
    }

    /// The data of the timelapse segments, ordered by the key in their names.
    pub fn timelapse_segments(&mut self) -> (r: Result<Vec<Vec<u8>>, Error>)
        ensures
            final(self).container() == old(self).container(),
            final(self).path_view() == old(self).path_view(),
            buffers_view(r) == segments_result(old(self).container()),
    {
        let ghost container = self.container();
        let names = match list_names(&self.archive) {
            Some(names) => names,
            None => {
                return Err(Error::ContainerFormat);
            },
        };
        let ghost listing = views(names@);
        let order = order_segments(&names)?;
        let mut out: Vec<Vec<u8>> = Vec::new();
        let mut j: usize = 0;
        assert(order@.take(0) =~= Seq::<usize>::empty());
        assert(out@.map_values(|d: Vec<u8>| d@) =~= Seq::<Seq<u8>>::empty());
        while j < order.len()
            invariant
                self.container() == container,
                container == old(self).container(),
                zip_listing(container) == Some(listing),
                keys_parse(listing),
                self.path_view() == old(self).path_view(),
                j <= order.len(),
                order@ == segment_order(listing),
                is_segment_order(listing, order@),
                listing == views(names@),
                read_in_order(container, listing, order@.take(j as int)) == Ok::<
                    Seq<Seq<u8>>,
                    Error,
                >(out@.map_values(|d: Vec<u8>| d@)),
            decreases order.len() - j,
        {
            let k = order[j];
            assert(order@.take(j + 1).drop_last() =~= order@.take(j as int));
            assert(order@.take(j + 1).last() == k);
            assert(k < names.len());
            assert(listing[k as int] == names@[k as int]@);
            let d = match read_member(&mut self.archive, names[k].as_str()) {
                Ok(d) => d,
                Err(e) => {
                    assert(read_in_order(container, listing, order@.take(j + 1)) == Err::<
                        Seq<Seq<u8>>,
                        Error,
                    >(e));
                    proof {
                        lemma_read_failure_persists(container, listing, order@, j + 1, e);
                    }
                    return Err(e);
                },
            };
            let ghost before = out@.map_values(|d: Vec<u8>| d@);
            out.push(d);
            assert(out@.map_values(|d: Vec<u8>| d@) =~= before.push(d@));
            j = j + 1;
        }
        assert(order@.take(order.len() as int) =~= order@);
        Ok(out)
    }
}

/// Reads on one handle leave every other handle's results as they were.
/// `before` is a handle before some reads and `after` the same handle after
/// them (every read keeps the container); `other` is a handle opened on the
/// same container, say a duplicate. Whatever `after` has done, `other` and
/// `after` each get the results that `before` would have got.
pub proof fn lemma_reads_leave_duplicates_unaffected(before: &File, after: &File, other: &File)
    requires
        after.container() == before.container(),
        other.container() == before.container(),
    ensures
        metadata_result(other.container()) == metadata_result(before.container()),
        thumbnail_result(other.container()) == thumbnail_result(before.container()),
        segments_result(other.container()) == segments_result(before.container()),
        metadata_result(after.container()) == metadata_result(before.container()),
        thumbnail_result(after.container()) == thumbnail_result(before.container()),
        segments_result(after.container()) == segments_result(before.container()),
{
}

/// A container without a metadata member fails the metadata read with
/// `MemberNotFound`, one without a thumbnail member fails the thumbnail read
/// so; neither read looks at the other member.
pub proof fn lemma_missing_members(container: Seq<u8>)
    ensures
        zip_member(container, METADATA_MEMBER@) is None ==> metadata_result(container) == Err::<
            plist::Value,
            Error,
        >(Error::MemberNotFound),
        zip_member(container, THUMBNAIL_MEMBER@) is None ==> thumbnail_result(container) == Err::<
            Seq<u8>,
            Error,
        >(Error::MemberNotFound),
{
}

/// When the metadata member is present but its data cannot be decompressed,
/// the metadata read fails with `ContainerFormat`, before any parsing.
pub proof fn lemma_corrupt_metadata_member(container: Seq<u8>)
    requires
        zip_member(container, METADATA_MEMBER@) == Some(None::<Seq<u8>>),
    ensures
        metadata_result(container) == Err::<plist::Value, Error>(Error::ContainerFormat),
{
}

/// A container whose listing holds no segment name has an empty timelapse.
pub proof fn lemma_no_segments_empty_timelapse(container: Seq<u8>, names: Seq<Seq<char>>)
    requires
        zip_listing(container) == Some(names),
        forall|i: int| 0 <= i < names.len() ==> !is_segment_name(#[trigger] names[i]),
    ensures
        segments_result(container) == Ok::<Seq<Seq<u8>>, Error>(Seq::empty()),
{
    let empty = Seq::<usize>::empty();
    assert(keys_parse(names));
    assert(is_segment_order(names, empty));
    lemma_segment_order_unique(names, empty, segment_order(names));
}

} // verus!
