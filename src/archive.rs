use crate::error::Error;
use crate::segments::views;
use nskeyedarchiver_converter::Converter;
use std::io::Cursor;
use vstd::prelude::*;
use zip::ZipArchive;

verus! {

#[verifier::external_type_specification]
#[verifier::external_body]
#[verifier::reject_recursive_types(R)]
pub struct ExZipArchive<R>(zip::ZipArchive<R>);

#[verifier::external_type_specification]
#[verifier::external_body]
#[verifier::reject_recursive_types(T)]
pub struct ExCursor<T>(std::io::Cursor<T>);

#[verifier::external_type_specification]
#[verifier::external_body]
pub struct ExConverter(nskeyedarchiver_converter::Converter);

#[verifier::external_type_specification]
#[verifier::external_body]
pub struct ExValue(plist::Value);

#[verifier::external_type_specification]
#[verifier::external_body]
pub struct ExDictionary(plist::Dictionary);

/// The container bytes that an archive reads its members from.
pub uninterp spec fn archive_bytes(a: ZipArchive<Cursor<Vec<u8>>>) -> Seq<u8>;

/// Whether the bytes hold a zip central directory that the reader accepts.
pub uninterp spec fn zip_opens(b: Seq<u8>) -> bool;

/// The member names of a container in central-directory order, or `None` when
/// a name cannot be decoded.
pub uninterp spec fn zip_listing(b: Seq<u8>) -> Option<Seq<Seq<char>>>;

/// Looking up a member by name: `None` when no member has that name,
/// `Some(None)` when its data cannot be decompressed, else its data.
pub uninterp spec fn zip_member(b: Seq<u8>, name: Seq<char>) -> Option<Option<Seq<u8>>>;

/// The property list that the bytes encode, if they encode one.
pub uninterp spec fn property_list_of(b: Seq<u8>) -> Option<plist::Value>;

/// The dictionary that a property-list value is, if it is one.
pub uninterp spec fn dictionary_of(v: plist::Value) -> Option<plist::Dictionary>;

/// The value that a property-list dictionary holds under a key.
pub uninterp spec fn dictionary_entry(d: plist::Dictionary, key: Seq<char>) -> Option<plist::Value>;

/// The elements of a property-list value that is an array.
pub uninterp spec fn array_of(v: plist::Value) -> Option<Seq<plist::Value>>;

/// The keyed archive that a property list holds, if its header is one.
pub uninterp spec fn keyed_archive_from(v: plist::Value) -> Option<Converter>;

/// The object table of a keyed archive.
pub uninterp spec fn object_table(c: Converter) -> Seq<plist::Value>;

/// The resolved object graph of a keyed archive, if it resolves.
pub uninterp spec fn resolved_graph(c: Converter) -> Option<plist::Value>;

/// The `$objects` array in the header of a property list.
pub open spec fn header_objects(v: plist::Value) -> Option<Seq<plist::Value>> {
    match dictionary_of(v) {
        None => None,
        Some(d) => match dictionary_entry(d, OBJECTS_KEY@) {
            None => None,
            Some(o) => array_of(o),
        },
    }
}

/// The array that a dictionary holds under a key.
pub open spec fn entry_array(d: plist::Dictionary, key: Seq<char>) -> Option<Seq<plist::Value>> {
    match dictionary_entry(d, key) {
        None => None,
        Some(x) => array_of(x),
    }
}

/// An archived dictionary object has no more keys than values; any other
/// object is unconstrained.
pub open spec fn dictionary_balanced(o: plist::Value) -> bool {
    match dictionary_of(o) {
        None => true,
        Some(d) => match (entry_array(d, KEYS_KEY@), entry_array(d, VALUES_KEY@)) {
            (Some(k), Some(vs)) => k.len() <= vs.len(),
            _ => true,
        },
    }
}

/// Every object of a table is balanced.
pub open spec fn objects_balanced(objects: Seq<plist::Value>) -> bool {
    forall|i: int| 0 <= i < objects.len() ==> dictionary_balanced(#[trigger] objects[i])
}

/// The object table in a property list's header, when it has one, is balanced.
pub open spec fn archive_balanced(v: plist::Value) -> bool {
    match header_objects(v) {
        None => true,
        Some(objects) => objects_balanced(objects),
    }
}

/// Header key of a keyed archive's object table.
pub const OBJECTS_KEY: &'static str = "$objects";

/// Key of an archived dictionary's key references.
pub const KEYS_KEY: &'static str = "NS.keys";

/// Key of an archived dictionary's value references.
pub const VALUES_KEY: &'static str = "NS.objects";

/// What reading a member gives, as the library reports it.
pub open spec fn member_outcome(m: Option<Option<Seq<u8>>>) -> Result<Seq<u8>, Error> {
    match m {
        None => Err(Error::MemberNotFound),
        Some(None) => Err(Error::ContainerFormat),
        Some(Some(d)) => Ok(d),
    }
}

/// Relies on zip::ZipArchive::new: reads the central directory of an
/// in-memory container, and keeps the container as its reader.
#[verifier::external_body]
pub(crate) fn open_archive(bytes: Vec<u8>) -> (r: Option<ZipArchive<Cursor<Vec<u8>>>>)
    ensures
        r is Some <==> zip_opens(bytes@),
        r matches Some(a) ==> archive_bytes(a) == bytes@,
{
    ZipArchive::new(Cursor::new(bytes)).ok()
}

/// Relies on zip::ZipArchive::file_names: the decoded name of each member, in
/// central-directory order.
#[verifier::external_body]
pub(crate) fn list_names(a: &ZipArchive<Cursor<Vec<u8>>>) -> (r: Option<Vec<String>>)
    ensures
        match r {
            Some(names) => zip_listing(archive_bytes(*a)) == Some(views(names@)),
            None => zip_listing(archive_bytes(*a)) is None,
        },
{
    a.file_names().map(|n| n.map(|s| s.into_owned())).collect::<Result<Vec<String>, _>>().ok()
}

/// Relies on zip::ZipArchive::by_name and reading the member it returns to the
/// end: `FileNotFound` when no member has the name, an error when the data
/// cannot be decompressed or fails its checksum, else the whole data. The
/// archive reads from its own copy of the container, which reading leaves as
/// it is.
#[verifier::external_body]
pub(crate) fn read_member(a: &mut ZipArchive<Cursor<Vec<u8>>>, name: &str) -> (r: Result<
    Vec<u8>,
    Error,
>)
    ensures
        archive_bytes(*final(a)) == archive_bytes(*old(a)),
        match r {
            Ok(d) => member_outcome(zip_member(archive_bytes(*old(a)), name@)) == Ok::<
                Seq<u8>,
                Error,
            >(d@),
            Err(e) => member_outcome(zip_member(archive_bytes(*old(a)), name@)) == Err::<
                Seq<u8>,
                Error,
            >(e),
        },
{
    let mut data = Vec::new();
    match a.by_name(name) {
        Err(zip::result::ZipError::FileNotFound) => Err(Error::MemberNotFound),
        Err(_) => Err(Error::ContainerFormat),
        Ok(mut member) => match std::io::Read::read_to_end(&mut member, &mut data) {
            Ok(_) => Ok(data),
            Err(_) => Err(Error::ContainerFormat),
        },
    }
}

/// Relies on plist::from_bytes: parses a binary or XML property list.
#[verifier::external_body]
pub(crate) fn parse_property_list(b: &[u8]) -> (r: Option<plist::Value>)
    ensures
        r == property_list_of(b@),
{
    plist::from_bytes::<plist::Value>(b).ok()
}

pub assume_specification<'a>[ plist::Value::as_dictionary ](v: &'a plist::Value) -> (r: Option<
    &'a plist::Dictionary,
>)
    ensures
        match r {
            Some(d) => dictionary_of(*v) == Some(*d),
            None => dictionary_of(*v) is None,
        },
;

pub assume_specification<'a>[ plist::Dictionary::get ](d: &'a plist::Dictionary, key: &str) -> (r:
    Option<&'a plist::Value>)
    ensures
        match r {
            Some(x) => dictionary_entry(*d, key@) == Some(*x),
            None => dictionary_entry(*d, key@) is None,
        },
;

pub assume_specification<'a>[ plist::Value::as_array ](v: &'a plist::Value) -> (r: Option<
    &'a Vec<plist::Value>,
>)
    ensures
        match r {
            Some(a) => array_of(*v) == Some(a@),
            None => array_of(*v) is None,
        },
;

/// Relies on nskeyedarchiver_converter::Converter::new: checks the header of a
/// keyed archive and keeps its `$objects` array as the object table.
#[verifier::external_body]
pub(crate) fn build_keyed_archive(v: plist::Value) -> (r: Option<Converter>)
    ensures
        r == keyed_archive_from(v),
        r matches Some(c) ==> header_objects(v) == Some(object_table(c)),
{
    Converter::new(v).ok()
}

/// Relies on nskeyedarchiver_converter::Converter::decode: resolves the object
/// references of a keyed archive into one property-list value. It pairs the
/// key and value references of each archived dictionary one by one and panics
/// when the keys outnumber the values, so such tables are left out.
#[verifier::external_body]
pub(crate) fn resolve_graph(c: Converter) -> (r: Option<plist::Value>)
    requires
        objects_balanced(object_table(c)),
    ensures
        r == resolved_graph(c),
{
    let mut c = c;
    c.decode().ok()
}

/// Whether an archived dictionary object has no more keys than values.
fn is_balanced(o: &plist::Value) -> (r: bool)
    ensures
        r == dictionary_balanced(*o),
{
    let d = match o.as_dictionary() {
        None => {
            return true;
        },
        Some(d) => d,
    };
    let keys = match d.get(KEYS_KEY) {
        None => {
            return true;
        },
        Some(k) => k.as_array(),
    };
    let values = match d.get(VALUES_KEY) {
        None => {
            return true;
        },
        Some(x) => x.as_array(),
    };
    match (keys, values) {
        (Some(k), Some(vs)) => k.len() <= vs.len(),
        _ => true,
    }
}

/// Whether every object in the header's object table is balanced; `true`
/// when the header has no object table.
pub fn archive_is_balanced(v: &plist::Value) -> (r: bool)
    ensures
        r == archive_balanced(*v),
{
    let d = match v.as_dictionary() {
        None => {
            return true;
        },
        Some(d) => d,
    };
    let objects = match d.get(OBJECTS_KEY) {
        None => {
            return true;
        },
        Some(o) => match o.as_array() {
            None => {
                return true;
            },
            Some(a) => a,
        },
    };
    let mut i: usize = 0;
    while i < objects.len()
        invariant
            i <= objects.len(),
            header_objects(*v) == Some(objects@),
            forall|j: int| 0 <= j < i ==> dictionary_balanced(#[trigger] objects@[j]),
        decreases objects.len() - i,
    {
        if !is_balanced(&objects[i]) {
            return false;
        }
        i = i + 1;
    }
    true
}

} // verus!
