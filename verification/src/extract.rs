//! Extraction of a metainfo record from a decoded bencode value.
//!
//! The record is pulled field by field, each pull a lookup by key and a
//! check of the found value's type and range; the whole extraction either
//! yields a complete record or the first failure, never a partial record.
//! `spec_extract` states the outcome for every value tree, and the
//! executable extractor returns exactly that outcome.
use crate::decode::DecodeError;
use crate::value::dict_get;
use crate::value::dict_lookup;
use crate::value::elems_view;
use crate::value::pairs_view;
use crate::value::BValue;
use crate::value::Value;
use vstd::prelude::*;
use vstd::utf8::decode_utf8;
use vstd::utf8::valid_utf8;

verus! {

broadcast use
    vstd::std_specs::vec::group_vec_axioms,
    vstd::seq::group_seq_axioms,
    vstd::array::group_array_axioms,
    crate::value::lemma_bview_list,
    crate::value::lemma_bview_dict;

/// A field of the metainfo schema, named in extraction errors.
#[derive(Debug, Clone, Copy, PartialEq, Eq, Structural)]
pub enum Field {
    Announce,
    Info,
    Name,
    PieceLength,
    Pieces,
    Length,
    Files,
    FileLength,
    FilePath,
}

/// The kind of value a field requires.
#[derive(Debug, Clone, Copy, PartialEq, Eq, Structural)]
pub enum Kind {
    ByteString,
    Integer,
    List,
    Dictionary,
}

/// Why a present, well-typed field's value is unusable.
#[derive(Debug, Clone, Copy, PartialEq, Eq, Structural)]
pub enum ValueFault {
    /// The integer must be positive and is not.
    NotPositive,
    /// The integer must be nonnegative and is not.
    Negative,
    /// The byte string's length is no multiple of the digest size.
    NotWholeDigests,
}

/// Why no metainfo record could be extracted.
#[derive(Debug, Clone, Copy, PartialEq, Eq, Structural)]
pub enum ExtractError {
    /// The decoded top-level value is not a dictionary.
    NotADictionary,
    /// A required field is absent.
    MissingField(Field),
    /// A field holds a value of the wrong kind; the expected kind is named.
    WrongType(Field, Kind),
    /// A field that must hold text holds bytes that are not valid UTF-8.
    InvalidText(Field),
    /// A field holds a value outside what the schema allows.
    InvalidValue(Field, ValueFault),
    /// Both `length` and `files` are given; the record allows exactly one.
    ConflictingLayout,
    /// Neither `length` nor `files` is given.
    MissingLayout,
}

/// A file of a multi-file torrent: its byte length and its path, broken
/// into segments from root to leaf.
#[derive(Debug, Clone, PartialEq, Eq)]
pub struct FileEntry {
    pub length: u64,
    pub path: Vec<String>,
}

/// How the torrent's content is laid out: one file with its length, or
/// several files in order.
#[derive(Debug, Clone, PartialEq, Eq)]
pub enum Layout {
    SingleFile(u64),
    MultiFile(Vec<FileEntry>),
}

/// The extracted metainfo record. Built whole or not at all, and immutable
/// thereafter.
#[derive(Debug, Clone, PartialEq, Eq)]
pub struct Metainfo {
    /// The tracker URL, not further validated.
    pub announce: String,
    /// The suggested save name.
    pub name: String,
    /// The size in bytes of every piece but possibly the last; positive.
    pub piece_length: u64,
    /// One digest per piece, in piece order.
    pub pieces: Vec<Digest>,
    /// Exactly one of the two layouts.
    pub layout: Layout,
}

/// The model of a file entry: length and path segments.
pub type FileView = (int, Seq<Seq<char>>);

/// The model of the layout.
pub enum LayoutView {
    SingleFile(int),
    MultiFile(Seq<FileView>),
}

/// The model of the metainfo record.
pub struct MetaView {
    pub announce: Seq<char>,
    pub name: Seq<char>,
    pub piece_length: int,
    pub pieces: Seq<Seq<u8>>,
    pub layout: LayoutView,
}

/// The models of path segments.
pub open spec fn path_view(ss: Seq<String>) -> Seq<Seq<char>> {
    Seq::new(ss.len(), |i: int| ss[i]@)
}

impl FileEntry {
    /// The model of this file entry.
    pub open spec fn fview(self) -> FileView {
        (self.length as int, path_view(self.path@))
    }
}

/// The models of the file entries.
pub open spec fn files_view(es: Seq<FileEntry>) -> Seq<FileView> {
    Seq::new(es.len(), |i: int| es[i].fview())
}

impl Layout {
    /// The model of this layout.
    pub open spec fn lview(self) -> LayoutView {
        match self {
            Layout::SingleFile(n) => LayoutView::SingleFile(n as int),
            Layout::MultiFile(es) => LayoutView::MultiFile(files_view(es@)),
        }
    }
}

impl Metainfo {
    /// The model of this record.
    pub open spec fn mview(self) -> MetaView {
        MetaView {
            announce: self.announce@,
            name: self.name@,
            piece_length: self.piece_length as int,
            pieces: Seq::new(self.pieces@.len(), |i: int| self.pieces@[i].bytes@),
            layout: self.layout.lview(),
        }
    }
}

/// The key `announce`.
pub open spec fn key_announce() -> Seq<u8> {
    seq![97u8, 110u8, 110u8, 111u8, 117u8, 110u8, 99u8, 101u8]
}

/// The key `info`.
pub open spec fn key_info() -> Seq<u8> {
    seq![105u8, 110u8, 102u8, 111u8]
}

/// The key `name`.
pub open spec fn key_name() -> Seq<u8> {
    seq![110u8, 97u8, 109u8, 101u8]
}

/// The key `piece length`.
pub open spec fn key_piece_length() -> Seq<u8> {
    seq![112u8, 105u8, 101u8, 99u8, 101u8, 32u8, 108u8, 101u8, 110u8, 103u8, 116u8, 104u8]
}

/// The key `pieces`.
pub open spec fn key_pieces() -> Seq<u8> {
    seq![112u8, 105u8, 101u8, 99u8, 101u8, 115u8]
}

/// The key `length`.
pub open spec fn key_length() -> Seq<u8> {
    seq![108u8, 101u8, 110u8, 103u8, 116u8, 104u8]
}

/// The key `files`.
pub open spec fn key_files() -> Seq<u8> {
    seq![102u8, 105u8, 108u8, 101u8, 115u8]
}

/// The key `path`.
pub open spec fn key_path() -> Seq<u8> {
    seq![112u8, 97u8, 116u8, 104u8]
}

/// How many bytes one piece digest holds.
pub const DIGEST_LEN: usize = 20;

/// The digest of one piece: an opaque, precomputed 20-byte value.
#[derive(Debug, Clone, PartialEq, Eq)]
pub struct Digest {
    pub bytes: Vec<u8>,
}

impl Digest {
    /// A digest holds exactly `DIGEST_LEN` bytes.
    pub open spec fn well_formed(self) -> bool {
        self.bytes@.len() == DIGEST_LEN
    }
}

/// The digests a byte string holds, in order: one per 20-byte chunk.
pub open spec fn spec_chunks(p: Seq<u8>) -> Seq<Seq<u8>> {
    Seq::new((p.len() / (DIGEST_LEN as nat)) as nat, |i: int| p.subrange(i * (DIGEST_LEN as int), i * (DIGEST_LEN as int) + (DIGEST_LEN as int)))
}

/// Splits a concatenation of piece digests into one `Digest` per 20-byte
/// chunk, in input order, overlapping nowhere and skipping nothing.
pub fn split_digests(p: &[u8]) -> (r: Vec<Digest>)
    requires
        p@.len() as int % (DIGEST_LEN as int) == 0,
    ensures
        r@.len() == p@.len() as int / (DIGEST_LEN as int),
        forall|i: int| 0 <= i < r@.len() ==> (#[trigger] r@[i]).bytes@ == spec_chunks(p@)[i],
        forall|i: int| 0 <= i < r@.len() ==> (#[trigger] r@[i]).well_formed(),
{
    let count = p.len() / DIGEST_LEN;
    let mut r: Vec<Digest> = Vec::new();
    let mut i: usize = 0;
    while i < count
        invariant
            count == p@.len() as int / (DIGEST_LEN as int),
            p@.len() as int % (DIGEST_LEN as int) == 0,
            p@.len() <= usize::MAX,
            i <= count,
            r@.len() == i,
            forall|k: int| 0 <= k < i ==> (#[trigger] r@[k]).bytes@ == spec_chunks(p@)[k],
        decreases count - i,
    {
        proof {
            vstd::arithmetic::div_mod::lemma_fundamental_div_mod(
                p@.len() as int,
                DIGEST_LEN as int,
            );
            assert((i + 1) * (DIGEST_LEN as int) <= count * (DIGEST_LEN as int))
                by (nonlinear_arith)
                requires
                    i + 1 <= count,
            ;
        }
        let start = i * DIGEST_LEN;
        let chunk = vstd::slice::slice_to_vec(vstd::slice::slice_subrange(p, start, start + DIGEST_LEN));
        r.push(Digest { bytes: chunk });
        i += 1;
    }
    r
}

/// The outcome of extraction for every decoded value: the record's model,
/// or the first failure in field order.
pub open spec fn spec_extract(b: BValue) -> Result<MetaView, ExtractError> {
    match b {
        BValue::Dict(pairs) => spec_extract_root(pairs),
        _ => Err(ExtractError::NotADictionary),
    }
}

/// Extraction from the pairs of the top-level dictionary: `announce`, then
/// `info`, then the fields within `info`.
pub open spec fn spec_extract_root(pairs: Seq<(Seq<u8>, BValue)>) -> Result<
    MetaView,
    ExtractError,
> {
    match dict_lookup(pairs, key_announce()) {
        None => Err(ExtractError::MissingField(Field::Announce)),
        Some(BValue::Bytes(ab)) => if !valid_utf8(ab) {
            Err(ExtractError::InvalidText(Field::Announce))
        } else {
            match dict_lookup(pairs, key_info()) {
                None => Err(ExtractError::MissingField(Field::Info)),
                Some(BValue::Dict(info)) => spec_extract_info(decode_utf8(ab), info),
                Some(_) => Err(ExtractError::WrongType(Field::Info, Kind::Dictionary)),
            }
        },
        Some(_) => Err(ExtractError::WrongType(Field::Announce, Kind::ByteString)),
    }
}

/// Extraction of the fields within `info`: `name`, `piece length`,
/// `pieces`, then the layout.
pub open spec fn spec_extract_info(announce: Seq<char>, info: Seq<(Seq<u8>, BValue)>) -> Result<
    MetaView,
    ExtractError,
> {
    match dict_lookup(info, key_name()) {
        None => Err(ExtractError::MissingField(Field::Name)),
        Some(BValue::Bytes(nb)) => if !valid_utf8(nb) {
            Err(ExtractError::InvalidText(Field::Name))
        } else {
            match dict_lookup(info, key_piece_length()) {
                None => Err(ExtractError::MissingField(Field::PieceLength)),
                Some(BValue::Int(pl)) => if pl <= 0 {
                    Err(ExtractError::InvalidValue(Field::PieceLength, ValueFault::NotPositive))
                } else {
                    match dict_lookup(info, key_pieces()) {
                        None => Err(ExtractError::MissingField(Field::Pieces)),
                        Some(BValue::Bytes(pb)) => if pb.len() as int % (DIGEST_LEN as int) != 0 {
                            Err(ExtractError::InvalidValue(Field::Pieces, ValueFault::NotWholeDigests))
                        } else {
                            match spec_layout(info) {
                                Ok(layout) => Ok(
                                    MetaView {
                                        announce,
                                        name: decode_utf8(nb),
                                        piece_length: pl,
                                        pieces: spec_chunks(pb),
                                        layout,
                                    },
                                ),
                                Err(e) => Err(e),
                            }
                        },
                        Some(_) => Err(ExtractError::WrongType(Field::Pieces, Kind::ByteString)),
                    }
                },
                Some(_) => Err(ExtractError::WrongType(Field::PieceLength, Kind::Integer)),
            }
        },
        Some(_) => Err(ExtractError::WrongType(Field::Name, Kind::ByteString)),
    }
}

/// The layout the `info` dictionary gives: its `length` and `files` fields
/// are validated in that order, and then exactly one of the two must be
/// present.
pub open spec fn spec_layout(info: Seq<(Seq<u8>, BValue)>) -> Result<LayoutView, ExtractError> {
    match spec_opt_length(info) {
        Err(e) => Err(e),
        Ok(olen) => match spec_opt_files(info) {
            Err(e) => Err(e),
            Ok(ofiles) => match (olen, ofiles) {
                (Some(_), Some(_)) => Err(ExtractError::ConflictingLayout),
                (None, None) => Err(ExtractError::MissingLayout),
                (Some(n), None) => Ok(LayoutView::SingleFile(n)),
                (None, Some(fs)) => Ok(LayoutView::MultiFile(fs)),
            },
        },
    }
}

/// The `length` field if present: a nonnegative integer.
pub open spec fn spec_opt_length(info: Seq<(Seq<u8>, BValue)>) -> Result<
    Option<int>,
    ExtractError,
> {
    match dict_lookup(info, key_length()) {
        None => Ok(None),
        Some(BValue::Int(n)) => if n < 0 {
            Err(ExtractError::InvalidValue(Field::Length, ValueFault::Negative))
        } else {
            Ok(Some(n))
        },
        Some(_) => Err(ExtractError::WrongType(Field::Length, Kind::Integer)),
    }
}

/// The `files` field if present: a list of file entries.
pub open spec fn spec_opt_files(info: Seq<(Seq<u8>, BValue)>) -> Result<
    Option<Seq<FileView>>,
    ExtractError,
> {
    match dict_lookup(info, key_files()) {
        None => Ok(None),
        Some(BValue::List(es)) => match spec_files(es) {
            Ok(fs) => Ok(Some(fs)),
            Err(e) => Err(e),
        },
        Some(_) => Err(ExtractError::WrongType(Field::Files, Kind::List)),
    }
}

/// The file entries of `files`, in list order, or the first entry's
/// failure.
pub open spec fn spec_files(es: Seq<BValue>) -> Result<Seq<FileView>, ExtractError> {
    spec_files_from(es, 0)
}

/// As `spec_files`, for the entries from `i` on.
pub open spec fn spec_files_from(es: Seq<BValue>, i: int) -> Result<Seq<FileView>, ExtractError>
    decreases es.len() - i,
{
    if !(0 <= i < es.len()) {
        Ok(Seq::empty())
    } else {
        match spec_file_entry(es[i]) {
            Ok(entry) => match spec_files_from(es, i + 1) {
                Ok(rest) => Ok(seq![entry] + rest),
                Err(e) => Err(e),
            },
            Err(e) => Err(e),
        }
    }
}

/// One entry of `files`: a dictionary with a nonnegative `length` and a
/// `path` list of text segments.
pub open spec fn spec_file_entry(b: BValue) -> Result<FileView, ExtractError> {
    match b {
        BValue::Dict(d) => match dict_lookup(d, key_length()) {
            None => Err(ExtractError::MissingField(Field::FileLength)),
            Some(BValue::Int(n)) => if n < 0 {
                Err(ExtractError::InvalidValue(Field::FileLength, ValueFault::Negative))
            } else {
                match dict_lookup(d, key_path()) {
                    None => Err(ExtractError::MissingField(Field::FilePath)),
                    Some(BValue::List(segs)) => match spec_path(segs) {
                        Ok(p) => Ok((n, p)),
                        Err(e) => Err(e),
                    },
                    Some(_) => Err(ExtractError::WrongType(Field::FilePath, Kind::List)),
                }
            },
            Some(_) => Err(ExtractError::WrongType(Field::FileLength, Kind::Integer)),
        },
        _ => Err(ExtractError::WrongType(Field::Files, Kind::Dictionary)),
    }
}

/// The text segments of a `path` list, in order, or the first segment's
/// failure.
pub open spec fn spec_path(segs: Seq<BValue>) -> Result<Seq<Seq<char>>, ExtractError> {
    spec_path_from(segs, 0)
}

/// As `spec_path`, for the segments from `i` on.
pub open spec fn spec_path_from(segs: Seq<BValue>, i: int) -> Result<Seq<Seq<char>>, ExtractError>
    decreases segs.len() - i,
{
    if !(0 <= i < segs.len()) {
        Ok(Seq::empty())
    } else {
        match segs[i] {
            BValue::Bytes(sb) => if !valid_utf8(sb) {
                Err(ExtractError::InvalidText(Field::FilePath))
            } else {
                match spec_path_from(segs, i + 1) {
                    Ok(rest) => Ok(seq![decode_utf8(sb)] + rest),
                    Err(e) => Err(e),
                }
            },
            _ => Err(ExtractError::WrongType(Field::FilePath, Kind::ByteString)),
        }
    }
}

/// Whether the pairs of a top-level dictionary pass every pull before the
/// layout step: `announce` is text, `info` is a dictionary whose `name`
/// is text, whose `piece length` is positive, and whose `pieces` is a
/// whole number of digests.
pub open spec fn fields_before_layout_ok(
    pairs: Seq<(Seq<u8>, BValue)>,
    info: Seq<(Seq<u8>, BValue)>,
) -> bool {
    &&& dict_lookup(pairs, key_announce()) matches Some(BValue::Bytes(ab)) && valid_utf8(ab)
    &&& dict_lookup(pairs, key_info()) == Some(BValue::Dict(info))
    &&& dict_lookup(info, key_name()) matches Some(BValue::Bytes(nb)) && valid_utf8(nb)
    &&& dict_lookup(info, key_piece_length()) matches Some(BValue::Int(pl)) && pl > 0
}

/// A dictionary that gives both `length` and `files`, each passing its own
/// validation, fails with `ConflictingLayout` — whatever the two hold.
pub proof fn lemma_conflicting_layout(
    pairs: Seq<(Seq<u8>, BValue)>,
    info: Seq<(Seq<u8>, BValue)>,
)
    requires
        fields_before_layout_ok(pairs, info),
        dict_lookup(info, key_pieces()) matches Some(BValue::Bytes(pb)) && pb.len() as int % (
        DIGEST_LEN as int) == 0,
        spec_opt_length(info) matches Ok(l) && l is Some,
        spec_opt_files(info) matches Ok(f) && f is Some,
    ensures
        spec_extract(BValue::Dict(pairs)) == Err::<MetaView, ExtractError>(
            ExtractError::ConflictingLayout,
        ),
{
}

/// A dictionary that gives neither `length` nor `files` fails with
/// `MissingLayout`.
pub proof fn lemma_missing_layout(pairs: Seq<(Seq<u8>, BValue)>, info: Seq<(Seq<u8>, BValue)>)
    requires
        fields_before_layout_ok(pairs, info),
        dict_lookup(info, key_pieces()) matches Some(BValue::Bytes(pb)) && pb.len() as int % (
        DIGEST_LEN as int) == 0,
        dict_lookup(info, key_length()) is None,
        dict_lookup(info, key_files()) is None,
    ensures
        spec_extract(BValue::Dict(pairs)) == Err::<MetaView, ExtractError>(
            ExtractError::MissingLayout,
        ),
{
}

/// A `pieces` byte string whose length is no multiple of the digest size
/// fails with `InvalidValue`, whatever the rest of the dictionary holds.
pub proof fn lemma_pieces_not_whole(pairs: Seq<(Seq<u8>, BValue)>, info: Seq<(Seq<u8>, BValue)>)
    requires
        fields_before_layout_ok(pairs, info),
        dict_lookup(info, key_pieces()) matches Some(BValue::Bytes(pb)) && pb.len() as int % (
        DIGEST_LEN as int) != 0,
    ensures
        spec_extract(BValue::Dict(pairs)) == Err::<MetaView, ExtractError>(
            ExtractError::InvalidValue(Field::Pieces, ValueFault::NotWholeDigests),
        ),
{
}

/// A 40-byte `pieces` string splits into exactly two digests, each the
/// corresponding 20-byte slice, in order.
pub proof fn lemma_two_digests(p: Seq<u8>)
    requires
        p.len() == 2 * DIGEST_LEN,
    ensures
        spec_chunks(p).len() == 2,
        spec_chunks(p)[0] == p.subrange(0, DIGEST_LEN as int),
        spec_chunks(p)[1] == p.subrange(DIGEST_LEN as int, 2 * (DIGEST_LEN as int)),
{
}

/// A pair under a key the top-level schema does not consume — anything but
/// `announce` and `info` — changes the outcome of extraction nowhere.
pub proof fn lemma_unknown_top_key(pairs: Seq<(Seq<u8>, BValue)>, added: (Seq<u8>, BValue))
    requires
        added.0 != key_announce(),
        added.0 != key_info(),
    ensures
        spec_extract(BValue::Dict(pairs.push(added))) == spec_extract(BValue::Dict(pairs)),
{
    crate::value::lemma_dict_lookup_push_other(pairs, added, key_announce());
    crate::value::lemma_dict_lookup_push_other(pairs, added, key_info());
}

/// A pair under a key the `info` schema does not consume — anything but
/// `name`, `piece length`, `pieces`, `length` and `files` — changes the
/// outcome of extraction nowhere.
pub proof fn lemma_unknown_info_key(
    announce: Seq<char>,
    info: Seq<(Seq<u8>, BValue)>,
    added: (Seq<u8>, BValue),
)
    requires
        added.0 != key_name(),
        added.0 != key_piece_length(),
        added.0 != key_pieces(),
        added.0 != key_length(),
        added.0 != key_files(),
    ensures
        spec_extract_info(announce, info.push(added)) == spec_extract_info(announce, info),
{
    crate::value::lemma_dict_lookup_push_other(info, added, key_name());
    crate::value::lemma_dict_lookup_push_other(info, added, key_piece_length());
    crate::value::lemma_dict_lookup_push_other(info, added, key_pieces());
    crate::value::lemma_dict_lookup_push_other(info, added, key_length());
    crate::value::lemma_dict_lookup_push_other(info, added, key_files());
}

/// Turns owned bytes into text.
///
/// Relies on `String::from_utf8`: it returns `Ok` exactly when the bytes
/// are valid UTF-8, and the string then holds their decoding.
#[verifier::external_body]
fn bytes_to_string(v: Vec<u8>) -> (r: Option<String>)
    ensures
        r is Some <==> valid_utf8(v@),
        r is Some ==> r->Some_0@ == decode_utf8(v@),
{
    match String::from_utf8(v) {
        Ok(s) => Some(s),
        Err(_) => None,
    }
}

/// The key `announce` as bytes.
fn announce_key() -> (k: Vec<u8>)
    ensures
        k@ == key_announce(),
{
    let a: [u8; 8] = [97, 110, 110, 111, 117, 110, 99, 101];
    let v = vstd::slice::slice_to_vec(a.as_slice());
    assert(v@ =~= key_announce());
    v
}

/// The key `info` as bytes.
fn info_key() -> (k: Vec<u8>)
    ensures
        k@ == key_info(),
{
    let a: [u8; 4] = [105, 110, 102, 111];
    let v = vstd::slice::slice_to_vec(a.as_slice());
    assert(v@ =~= key_info());
    v
}

/// The key `name` as bytes.
fn name_key() -> (k: Vec<u8>)
    ensures
        k@ == key_name(),
{
    let a: [u8; 4] = [110, 97, 109, 101];
    let v = vstd::slice::slice_to_vec(a.as_slice());
    assert(v@ =~= key_name());
    v
}

/// The key `piece length` as bytes.
fn piece_length_key() -> (k: Vec<u8>)
    ensures
        k@ == key_piece_length(),
{
    let a: [u8; 12] = [112, 105, 101, 99, 101, 32, 108, 101, 110, 103, 116, 104];
    let v = vstd::slice::slice_to_vec(a.as_slice());
    assert(v@ =~= key_piece_length());
    v
}

/// The key `pieces` as bytes.
fn pieces_key() -> (k: Vec<u8>)
    ensures
        k@ == key_pieces(),
{
    let a: [u8; 6] = [112, 105, 101, 99, 101, 115];
    let v = vstd::slice::slice_to_vec(a.as_slice());
    assert(v@ =~= key_pieces());
    v
}

/// The key `length` as bytes.
fn length_key() -> (k: Vec<u8>)
    ensures
        k@ == key_length(),
{
    let a: [u8; 6] = [108, 101, 110, 103, 116, 104];
    let v = vstd::slice::slice_to_vec(a.as_slice());
    assert(v@ =~= key_length());
    v
}

/// The key `files` as bytes.
fn files_key() -> (k: Vec<u8>)
    ensures
        k@ == key_files(),
{
    let a: [u8; 5] = [102, 105, 108, 101, 115];
    let v = vstd::slice::slice_to_vec(a.as_slice());
    assert(v@ =~= key_files());
    v
}

/// The key `path` as bytes.
fn path_key() -> (k: Vec<u8>)
    ensures
        k@ == key_path(),
{
    let a: [u8; 4] = [112, 97, 116, 104];
    let v = vstd::slice::slice_to_vec(a.as_slice());
    assert(v@ =~= key_path());
    v
}

/// The text segments of a `path` list, in order.
fn extract_path(segs: &Vec<Value>) -> (r: Result<Vec<String>, ExtractError>)
    ensures
        match spec_path(elems_view(segs@)) {
            Ok(p) => r matches Ok(ss) && path_view(ss@) == p,
            Err(e) => r == Err::<Vec<String>, ExtractError>(e),
        },
{
    let ghost full = elems_view(segs@);
    let mut out: Vec<String> = Vec::new();
    let mut i: usize = 0;
    proof {
        match spec_path_from(full, 0) {
            Ok(rest) => {
                assert(path_view(out@) + rest =~= rest);
            },
            Err(_) => {},
        }
    }
    while i < segs.len()
        invariant
            i <= segs@.len(),
            full == elems_view(segs@),
            match spec_path_from(full, i as int) {
                Ok(rest) => spec_path_from(full, 0) == Ok::<Seq<Seq<char>>, ExtractError>(
                    path_view(out@) + rest,
                ),
                Err(e) => spec_path_from(full, 0) == Err::<Seq<Seq<char>>, ExtractError>(e),
            },
        decreases segs@.len() - i,
    {
        let seg = &segs[i];
        let bytes = match seg {
            Value::Bytes(b) => b,
            _ => {
                return Err(ExtractError::WrongType(Field::FilePath, Kind::ByteString));
            },
        };
        let text = match bytes_to_string(vstd::slice::slice_to_vec(bytes.as_slice())) {
            Some(t) => t,
            None => {
                return Err(ExtractError::InvalidText(Field::FilePath));
            },
        };
        proof {
            match spec_path_from(full, i as int + 1) {
                Ok(rest2) => {
                    assert(path_view(out@.push(text)) =~= path_view(out@).push(text@));
                    assert(path_view(out@) + (seq![text@] + rest2) =~= path_view(out@).push(text@)
                        + rest2);
                },
                Err(_) => {},
            }
        }
        out.push(text);
        i += 1;
    }
    proof {
        assert(path_view(out@) + Seq::<Seq<char>>::empty() =~= path_view(out@));
    }
    Ok(out)
}

/// One entry of `files`.
fn extract_file_entry(e: &Value) -> (r: Result<FileEntry, ExtractError>)
    ensures
        match spec_file_entry(e.bview()) {
            Ok(fv) => r matches Ok(fe) && fe.fview() == fv,
            Err(err) => r == Err::<FileEntry, ExtractError>(err),
        },
{
    let d = match e {
        Value::Dict(d) => d,
        _ => {
            return Err(ExtractError::WrongType(Field::Files, Kind::Dictionary));
        },
    };
    let l_key = length_key();
    let length = match dict_get(d, l_key.as_slice()) {
        None => {
            return Err(ExtractError::MissingField(Field::FileLength));
        },
        Some(Value::Int(n)) => {
            if *n < 0 {
                return Err(ExtractError::InvalidValue(Field::FileLength, ValueFault::Negative));
            }
            *n as u64
        },
        Some(_) => {
            return Err(ExtractError::WrongType(Field::FileLength, Kind::Integer));
        },
    };
    let p_key = path_key();
    let segs = match dict_get(d, p_key.as_slice()) {
        None => {
            return Err(ExtractError::MissingField(Field::FilePath));
        },
        Some(Value::List(segs)) => segs,
        Some(_) => {
            return Err(ExtractError::WrongType(Field::FilePath, Kind::List));
        },
    };
    let path = match extract_path(segs) {
        Ok(p) => p,
        Err(err) => {
            return Err(err);
        },
    };
    Ok(FileEntry { length, path })
}

/// The file entries of `files`, in list order.
fn extract_files(es: &Vec<Value>) -> (r: Result<Vec<FileEntry>, ExtractError>)
    ensures
        match spec_files(elems_view(es@)) {
            Ok(fs) => r matches Ok(v) && files_view(v@) == fs,
            Err(e) => r == Err::<Vec<FileEntry>, ExtractError>(e),
        },
{
    let ghost full = elems_view(es@);
    let mut out: Vec<FileEntry> = Vec::new();
    let mut i: usize = 0;
    proof {
        match spec_files_from(full, 0) {
            Ok(rest) => {
                assert(files_view(out@) + rest =~= rest);
            },
            Err(_) => {},
        }
    }
    while i < es.len()
        invariant
            i <= es@.len(),
            full == elems_view(es@),
            match spec_files_from(full, i as int) {
                Ok(rest) => spec_files_from(full, 0) == Ok::<Seq<FileView>, ExtractError>(
                    files_view(out@) + rest,
                ),
                Err(e) => spec_files_from(full, 0) == Err::<Seq<FileView>, ExtractError>(e),
            },
        decreases es@.len() - i,
    {
        let fe = match extract_file_entry(&es[i]) {
            Ok(fe) => fe,
            Err(e) => {
                return Err(e);
            },
        };
        proof {
            match spec_files_from(full, i as int + 1) {
                Ok(rest2) => {
                    assert(files_view(out@.push(fe)) =~= files_view(out@).push(fe.fview()));
                    assert(files_view(out@) + (seq![fe.fview()] + rest2) =~= files_view(
                        out@,
                    ).push(fe.fview()) + rest2);
                },
                Err(_) => {},
            }
        }
        out.push(fe);
        i += 1;
    }
    proof {
        assert(files_view(out@) + Seq::<FileView>::empty() =~= files_view(out@));
    }
    Ok(out)
}

/// The layout the `info` dictionary gives.
fn extract_layout(info: &Vec<(Vec<u8>, Value)>) -> (r: Result<Layout, ExtractError>)
    ensures
        match spec_layout(pairs_view(info@)) {
            Ok(l) => r matches Ok(lo) && lo.lview() == l,
            Err(e) => r == Err::<Layout, ExtractError>(e),
        },
{
    let l_key = length_key();
    let olen: Option<u64> = match dict_get(info, l_key.as_slice()) {
        None => None,
        Some(Value::Int(n)) => {
            if *n < 0 {
                return Err(ExtractError::InvalidValue(Field::Length, ValueFault::Negative));
            }
            Some(*n as u64)
        },
        Some(_) => {
            return Err(ExtractError::WrongType(Field::Length, Kind::Integer));
        },
    };
    let f_key = files_key();
    let ofiles: Option<Vec<FileEntry>> = match dict_get(info, f_key.as_slice()) {
        None => None,
        Some(Value::List(es)) => {
            match extract_files(es) {
                Ok(fs) => Some(fs),
                Err(e) => {
                    return Err(e);
                },
            }
        },
        Some(_) => {
            return Err(ExtractError::WrongType(Field::Files, Kind::List));
        },
    };
    match (olen, ofiles) {
        (Some(_), Some(_)) => Err(ExtractError::ConflictingLayout),
        (None, None) => Err(ExtractError::MissingLayout),
        (Some(n), None) => Ok(Layout::SingleFile(n)),
        (None, Some(fs)) => Ok(Layout::MultiFile(fs)),
    }
}

/// Extracts the metainfo record from one decoded value: the record, or
/// the first failure in field order. The outcome is exactly what
/// `spec_extract` says of the value's model.
pub fn extract(v: &Value) -> (r: Result<Metainfo, ExtractError>)
    ensures
        match spec_extract(v.bview()) {
            Ok(m) => r matches Ok(mi) && mi.mview() == m,
            Err(e) => r == Err::<Metainfo, ExtractError>(e),
        },
{
    let pairs = match v {
        Value::Dict(ps) => ps,
        _ => {
            return Err(ExtractError::NotADictionary);
        },
    };
    let a_key = announce_key();
    let announce_bytes = match dict_get(pairs, a_key.as_slice()) {
        None => {
            return Err(ExtractError::MissingField(Field::Announce));
        },
        Some(Value::Bytes(b)) => b,
        Some(_) => {
            return Err(ExtractError::WrongType(Field::Announce, Kind::ByteString));
        },
    };
    let announce = match bytes_to_string(vstd::slice::slice_to_vec(announce_bytes.as_slice())) {
        Some(t) => t,
        None => {
            return Err(ExtractError::InvalidText(Field::Announce));
        },
    };
    let i_key = info_key();
    let info = match dict_get(pairs, i_key.as_slice()) {
        None => {
            return Err(ExtractError::MissingField(Field::Info));
        },
        Some(Value::Dict(d)) => d,
        Some(_) => {
            return Err(ExtractError::WrongType(Field::Info, Kind::Dictionary));
        },
    };
    let n_key = name_key();
    let name_bytes = match dict_get(info, n_key.as_slice()) {
        None => {
            return Err(ExtractError::MissingField(Field::Name));
        },
        Some(Value::Bytes(b)) => b,
        Some(_) => {
            return Err(ExtractError::WrongType(Field::Name, Kind::ByteString));
        },
    };
    let name = match bytes_to_string(vstd::slice::slice_to_vec(name_bytes.as_slice())) {
        Some(t) => t,
        None => {
            return Err(ExtractError::InvalidText(Field::Name));
        },
    };
    let pl_key = piece_length_key();
    let piece_length = match dict_get(info, pl_key.as_slice()) {
        None => {
            return Err(ExtractError::MissingField(Field::PieceLength));
        },
        Some(Value::Int(n)) => {
            if *n <= 0 {
                return Err(ExtractError::InvalidValue(Field::PieceLength, ValueFault::NotPositive));
            }
            *n as u64
        },
        Some(_) => {
            return Err(ExtractError::WrongType(Field::PieceLength, Kind::Integer));
        },
    };
    let ps_key = pieces_key();
    let pieces_bytes = match dict_get(info, ps_key.as_slice()) {
        None => {
            return Err(ExtractError::MissingField(Field::Pieces));
        },
        Some(Value::Bytes(b)) => b,
        Some(_) => {
            return Err(ExtractError::WrongType(Field::Pieces, Kind::ByteString));
        },
    };
    if pieces_bytes.len() % DIGEST_LEN != 0 {
        return Err(ExtractError::InvalidValue(Field::Pieces, ValueFault::NotWholeDigests));
    }
    let pieces = split_digests(pieces_bytes.as_slice());
    let layout = match extract_layout(info) {
        Ok(l) => l,
        Err(e) => {
            return Err(e);
        },
    };
    let record = Metainfo { announce, name, piece_length, pieces, layout };
    proof {
        assert(record.mview().pieces =~= spec_chunks(pieces_bytes@));
    }
    Ok(record)
}

/// Why no metainfo record came out of raw bytes: the input is no bencode
/// value, or the decoded value fits the schema nowhere.
#[derive(Debug, Clone, Copy, PartialEq, Eq, Structural)]
pub enum MetainfoError {
    Decode(DecodeError),
    Extract(ExtractError),
}

/// The outcome of decoding raw bytes and extracting the record from the
/// decoded value. Bytes after the first value are ignored.
pub open spec fn spec_metainfo(s: Seq<u8>) -> Result<MetaView, MetainfoError> {
    match crate::decode::spec_decode_value(s, 0, crate::decode::MAX_DEPTH as nat) {
        Ok((bv, _end)) => match spec_extract(bv) {
            Ok(m) => Ok(m),
            Err(e) => Err(MetainfoError::Extract(e)),
        },
        Err(e) => Err(MetainfoError::Decode(e)),
    }
}

/// Decodes `i` and extracts the metainfo record it describes. The outcome
/// is exactly what `spec_metainfo` says of the bytes.
pub fn metainfo(i: &[u8]) -> (r: Result<Metainfo, MetainfoError>)
    ensures
        match spec_metainfo(i@) {
            Ok(m) => r matches Ok(mi) && mi.mview() == m,
            Err(e) => r == Err::<Metainfo, MetainfoError>(e),
        },
{
    let v = match crate::decode::decode(i) {
        Ok((v, _consumed)) => v,
        Err(e) => {
            return Err(MetainfoError::Decode(e));
        },
    };
    match extract(&v) {
        Ok(m) => Ok(m),
        Err(e) => Err(MetainfoError::Extract(e)),
    }
}

} // verus!
