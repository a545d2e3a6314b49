//! The metainfo of a torrent: the typed record that a `.torrent` file holds.

use crate::bencode::decode::decode_all;
use crate::bencode::encode::encode;
use crate::bencode::grammar::{parse_all, ser_value, BencodeError};
use crate::bencode::laws::law_decode_of_encode;
use crate::bencode::order::{lemma_lex_irreflexive, lemma_lex_transitive, lex_lt};
use crate::bencode::decimal::dec_digits;
use crate::digest::{hex_chars, hex_encode, sha1_bytes, sha1_of};
use crate::text::{ascii_chars, decimal_string, join_strings, join_with, texts};
use crate::torrent::pieces::piece_len;
use crate::bencode::value::{
    entries_view, items_view, keys_ascending, lemma_dict_view, lemma_list_view, Bencode, Tree,
};
use crate::text::utf8_lossy;
use crate::torrent::fields::{
    bytes_of, count_of, deserialize, dict_get, field, field_bytes, field_count, key_bytes, key_of,
    lemma_lookup_at, lemma_lookup_none, FieldError,
};
use crate::torrent::hashes::{
    all_twenty, chunks20, concat20, lemma_chunks_of_concat, lemma_concat_of_chunks, Hashes,
};
use vstd::prelude::*;
use vstd::slice::slice_to_vec;
use vstd::string::*;

verus! {

/// Why a run of bytes is no metainfo.
#[derive(Debug, Clone, Copy, PartialEq, Eq, Structural)]
pub enum MetainfoError {
    /// The bytes are no bencode value.
    Bencode(BencodeError),
    /// The value is no metainfo record.
    Field(FieldError),
}

/// One file of a multi-file torrent: its length and the components of its
/// path, as raw bytes.
#[derive(Debug)]
pub struct FileInfo {
    pub length: u64,
    pub path: Vec<Vec<u8>>,
}

/// The model of a `FileInfo`.
pub struct FileView {
    pub length: u64,
    pub path: Seq<Seq<u8>>,
}

/// What a torrent holds: one file of a given length, or a list of files.
#[derive(Debug)]
pub enum Keys {
    Single { length: u64 },
    Multiple { files: Vec<FileInfo> },
}

/// The model of `Keys`.
pub enum KeysView {
    Single { length: u64 },
    Multiple { files: Seq<FileView> },
}

/// The info dictionary of a torrent. The name is kept as raw bytes, since the
/// identity of the torrent depends on them.
#[derive(Debug)]
pub struct Info {
    pub name: Vec<u8>,
    pub piece_length: u64,
    pub pieces: Hashes,
    pub keys: Keys,
}

/// The model of an `Info`.
pub struct InfoView {
    pub name: Seq<u8>,
    pub piece_length: u64,
    pub pieces: Seq<Seq<u8>>,
    pub keys: KeysView,
}

/// The metainfo of a torrent.
#[derive(Debug)]
pub struct Torrent {
    pub announce: String,
    pub created_by: String,
    pub info: Info,
}

/// The model of a `Torrent`.
pub struct TorrentView {
    pub announce: Seq<char>,
    pub created_by: Seq<char>,
    pub info: InfoView,
}

/// The byte strings that a vector of vectors holds.
pub open spec fn path_view(path: Seq<Vec<u8>>) -> Seq<Seq<u8>> {
    Seq::new(path.len(), |i: int| path[i]@)
}

/// The models of the files of a vector.
pub open spec fn files_view(files: Seq<FileInfo>) -> Seq<FileView> {
    Seq::new(files.len(), |i: int| files[i]@)
}

impl View for FileInfo {
    type V = FileView;

    open spec fn view(&self) -> FileView {
        FileView { length: self.length, path: path_view(self.path@) }
    }
}

impl View for Keys {
    type V = KeysView;

    open spec fn view(&self) -> KeysView {
        match self {
            Keys::Single { length } => KeysView::Single { length: *length },
            Keys::Multiple { files } => KeysView::Multiple { files: files_view(files@) },
        }
    }
}

impl View for Info {
    type V = InfoView;

    open spec fn view(&self) -> InfoView {
        InfoView {
            name: self.name@,
            piece_length: self.piece_length,
            pieces: self.pieces@,
            keys: self.keys@,
        }
    }
}

impl View for Torrent {
    type V = TorrentView;

    open spec fn view(&self) -> TorrentView {
        TorrentView { announce: self.announce@, created_by: self.created_by@, info: self.info@ }
    }
}

/// The lengths of the files from index `from` on, added up.
pub open spec fn files_total(files: Seq<FileView>, from: int) -> int
    decreases files.len() - from,
{
    if 0 <= from < files.len() {
        files[from].length + files_total(files, from + 1)
    } else {
        0
    }
}

impl KeysView {
    /// The number of bytes of the torrent: the length of its one file, or of all
    /// its files together.
    pub open spec fn total(self) -> int {
        match self {
            KeysView::Single { length } => length as int,
            KeysView::Multiple { files } => files_total(files, 0),
        }
    }

    /// Every length can stand as a bencode integer.
    pub open spec fn lengths_fit(self) -> bool {
        match self {
            KeysView::Single { length } => length <= i64::MAX,
            KeysView::Multiple { files } => forall|i: int|
                0 <= i < files.len() ==> (#[trigger] files[i]).length <= i64::MAX,
        }
    }
}

impl InfoView {
    /// What holds of every info dictionary that was read: the piece length is
    /// positive, every digest has twenty bytes, the pieces are no more than a
    /// machine counts, and the lengths and their sum are in range.
    pub open spec fn valid(self) -> bool {
        &&& 0 < self.piece_length <= i64::MAX
        &&& all_twenty(self.pieces)
        &&& self.pieces.len() <= isize::MAX
        &&& self.keys.lengths_fit()
        &&& self.keys.total() <= u64::MAX
    }
}

// ---------------------------------------------------------------------------
// What a bencode value is as a record
// ---------------------------------------------------------------------------

/// The components of a path from index `from` on: each a byte-string field.
pub open spec fn path_from(items: Seq<Tree>, from: int) -> Option<Seq<Seq<u8>>>
    decreases items.len() - from,
{
    if 0 <= from < items.len() {
        match field_bytes(items[from]) {
            None => None,
            Some(b) => match path_from(items, from + 1) {
                None => None,
                Some(rest) => Some(seq![b] + rest),
            },
        }
    } else {
        Some(Seq::empty())
    }
}

/// A file entry: a dictionary with a `length` and a `path`.
pub open spec fn file_of(v: Tree) -> Result<FileView, FieldError> {
    if !(v is Dict) {
        Err(FieldError::InvalidField)
    } else {
        match field(v, key_of("length"@)) {
            None => Err(FieldError::MissingField),
            Some(l) => match field_count(l) {
                None => Err(FieldError::InvalidField),
                Some(length) => match field(v, key_of("path"@)) {
                    None => Err(FieldError::MissingField),
                    Some(Tree::List(items)) => match path_from(items, 0) {
                        None => Err(FieldError::InvalidField),
                        Some(path) => Ok(FileView { length, path }),
                    },
                    Some(_) => Err(FieldError::InvalidField),
                },
            },
        }
    }
}

/// The file entries from index `from` on; the first one that is none decides
/// the error.
pub open spec fn files_from(items: Seq<Tree>, from: int) -> Result<Seq<FileView>, FieldError>
    decreases items.len() - from,
{
    if 0 <= from < items.len() {
        match file_of(items[from]) {
            Err(e) => Err(e),
            Ok(f) => match files_from(items, from + 1) {
                Err(e) => Err(e),
                Ok(rest) => Ok(seq![f] + rest),
            },
        }
    } else {
        Ok(Seq::empty())
    }
}

/// The single-file or multi-file part of an info dictionary: `length` where it
/// is there, else `files`.
pub open spec fn keys_of(v: Tree) -> Result<KeysView, FieldError> {
    match field(v, key_of("length"@)) {
        Some(l) => match field_count(l) {
            None => Err(FieldError::InvalidField),
            Some(length) => Ok(KeysView::Single { length }),
        },
        None => match field(v, key_of("files"@)) {
            None => Err(FieldError::MissingField),
            Some(Tree::List(items)) => match files_from(items, 0) {
                Err(e) => Err(e),
                Ok(files) => Ok(KeysView::Multiple { files }),
            },
            Some(_) => Err(FieldError::InvalidField),
        },
    }
}

/// The info dictionary that a value is. The fields are read in the order
/// `name`, `piece length`, `pieces`, then `length` or `files`, and the first
/// that fails decides the error.
pub open spec fn info_of(v: Tree) -> Result<InfoView, FieldError> {
    if !(v is Dict) {
        Err(FieldError::InvalidField)
    } else {
        match field(v, key_of("name"@)) {
            None => Err(FieldError::MissingField),
            Some(n) => match field_bytes(n) {
                None => Err(FieldError::InvalidField),
                Some(name) => match field(v, key_of("piece length"@)) {
                    None => Err(FieldError::MissingField),
                    Some(p) => match field_count(p) {
                        None => Err(FieldError::InvalidField),
                        Some(piece_length) => if piece_length == 0 {
                            Err(FieldError::InvalidField)
                        } else {
                            match field(v, key_of("pieces"@)) {
                                None => Err(FieldError::MissingField),
                                Some(h) => match field_bytes(h) {
                                    None => Err(FieldError::InvalidField),
                                    Some(b) => if b.len() % 20 != 0 {
                                        Err(FieldError::MalformedHashes)
                                    } else {
                                        match keys_of(v) {
                                            Err(e) => Err(e),
                                            Ok(keys) => if keys.total() > u64::MAX {
                                                Err(FieldError::InvalidField)
                                            } else {
                                                Ok(
                                                    InfoView {
                                                        name,
                                                        piece_length,
                                                        pieces: chunks20(b),
                                                        keys,
                                                    },
                                                )
                                            },
                                        }
                                    },
                                },
                            }
                        },
                    },
                },
            },
        }
    }
}

/// The text of an optional string field; empty where the field is not there.
pub open spec fn optional_text(f: Option<Tree>) -> Result<Seq<char>, FieldError> {
    match f {
        None => Ok(Seq::empty()),
        Some(x) => match field_bytes(x) {
            None => Err(FieldError::InvalidField),
            Some(b) => Ok(utf8_lossy(b)),
        },
    }
}

/// The metainfo that a value is: `announce`, the optional `created by`, and
/// `info`, read in that order.
pub open spec fn torrent_of(v: Tree) -> Result<TorrentView, FieldError> {
    if !(v is Dict) {
        Err(FieldError::InvalidField)
    } else {
        match field(v, key_of("announce"@)) {
            None => Err(FieldError::MissingField),
            Some(a) => match field_bytes(a) {
                None => Err(FieldError::InvalidField),
                Some(announce) => match optional_text(field(v, key_of("created by"@))) {
                    Err(e) => Err(e),
                    Ok(created_by) => match field(v, key_of("info"@)) {
                        None => Err(FieldError::MissingField),
                        Some(i) => match info_of(i) {
                            Err(e) => Err(e),
                            Ok(info) => Ok(
                                TorrentView { announce: utf8_lossy(announce), created_by, info },
                            ),
                        },
                    },
                },
            },
        }
    }
}

/// The metainfo that a run of bytes holds: one bencode value with nothing
/// behind it, read as `torrent_of` says.
pub open spec fn parse_torrent(bytes: Seq<u8>) -> Result<TorrentView, MetainfoError> {
    match parse_all(bytes, false) {
        Err(e) => Err(MetainfoError::Bencode(e)),
        Ok(v) => match torrent_of(v) {
            Err(e) => Err(MetainfoError::Field(e)),
            Ok(t) => Ok(t),
        },
    }
}

/// The files that were read have lengths that can stand as bencode integers.
pub proof fn lemma_files_from_fit(items: Seq<Tree>, from: int)
    ensures
        files_from(items, from) matches Ok(files) ==> forall|i: int|
            0 <= i < files.len() ==> (#[trigger] files[i]).length <= i64::MAX,
    decreases items.len() - from,
{
    if 0 <= from < items.len() {
        lemma_files_from_fit(items, from + 1);
        if let Ok(f) = file_of(items[from]) {
            if let Ok(rest) = files_from(items, from + 1) {
                let files = seq![f] + rest;
                assert forall|i: int| 0 <= i < files.len() implies (#[trigger] files[i]).length
                    <= i64::MAX by {
                    if i > 0 {
                        assert(files[i] == rest[i - 1]);
                    }
                }
            }
        }
    }
}

/// An info dictionary that was read is valid, where its pieces are no more
/// than a machine counts.
pub proof fn lemma_info_of_valid(v: Tree)
    ensures
        info_of(v) matches Ok(i) ==> (i.pieces.len() <= isize::MAX ==> i.valid()),
{
    if let Ok(i) = info_of(v) {
        let b = field_bytes(field(v, key_of("pieces"@))->0)->0;
        lemma_concat_of_chunks(b);
        if let Some(Tree::List(items)) = field(v, key_of("files"@)) {
            lemma_files_from_fit(items, 0);
        }
    }
}

// ---------------------------------------------------------------------------
// Reading a record
// ---------------------------------------------------------------------------

/// A path result with `prefix` put before its components.
spec fn then_path(prefix: Seq<Seq<u8>>, r: Option<Seq<Seq<u8>>>) -> Option<
    Seq<Seq<u8>>,
> {
    match r {
        None => None,
        Some(rest) => Some(prefix + rest),
    }
}

/// A files result with `prefix` put before its files.
spec fn then_files(prefix: Seq<FileView>, r: Result<Seq<FileView>, FieldError>) -> Result<
    Seq<FileView>,
    FieldError,
> {
    match r {
        Err(e) => Err(e),
        Ok(rest) => Ok(prefix + rest),
    }
}

/// The sum of file lengths is never negative.
pub proof fn lemma_files_total_nonnegative(files: Seq<FileView>, from: int)
    ensures
        files_total(files, from) >= 0,
    decreases files.len() - from,
{
    if 0 <= from < files.len() {
        lemma_files_total_nonnegative(files, from + 1);
    }
}

/// The components of a path.
fn read_path(items: &Vec<Bencode>) -> (r: Option<Vec<Vec<u8>>>)
    ensures
        match r {
            Some(p) => path_from(items_view(items@), 0) == Some(path_view(p@)),
            None => path_from(items_view(items@), 0) is None,
        },
{
    let ghost models = items_view(items@);
    let mut out: Vec<Vec<u8>> = Vec::new();
    let mut i: usize = 0;
    assert(Seq::<Seq<u8>>::empty() + Seq::<Seq<u8>>::empty() =~= Seq::<Seq<u8>>::empty());
    assert(path_view(out@) =~= Seq::<Seq<u8>>::empty());
    while i < items.len()
        invariant
            i <= items@.len(),
            models == items_view(items@),
            path_from(models, 0) == then_path(path_view(out@), path_from(models, i as int)),
        decreases items@.len() - i,
    {
        assert(models[i as int] == items@[i as int]@);
        match bytes_of(&items[i]) {
            Err(_) => {
                return None;
            },
            Ok(b) => {
                let ghost before = path_view(out@);
                proof {
                    if let Some(rest) = path_from(models, i + 1) {
                        assert(before + (seq![b@] + rest) =~= (before + seq![b@]) + rest);
                    }
                }
                out.push(b);
                assert(path_view(out@) =~= before + seq![b@]);
            },
        }
        i += 1;
    }
    assert(path_view(out@) + Seq::<Seq<u8>>::empty() =~= path_view(out@));
    Some(out)
}

impl FileInfo {
    /// The file entry that a bencode value is.
    pub fn from_bencode(value: &Bencode) -> (r: Result<FileInfo, FieldError>)
        ensures
            match r {
                Ok(f) => file_of(value@) == Ok::<FileView, FieldError>(f@),
                Err(e) => file_of(value@) == Err::<FileView, FieldError>(e),
            },
    {
        proof {
            reveal_strlit("length");
            reveal_strlit("path");
        }
        match value {
            Bencode::Dict(_) => {},
            _ => {
                return Err(FieldError::InvalidField);
            },
        }
        let length = match dict_get(value, key_bytes("length")) {
            None => {
                return Err(FieldError::MissingField);
            },
            Some(l) => match count_of(l) {
                Err(e) => {
                    return Err(e);
                },
                Ok(n) => n,
            },
        };
        match dict_get(value, key_bytes("path")) {
            None => Err(FieldError::MissingField),
            Some(Bencode::List(items)) => {
                proof {
                    lemma_list_view(*items);
                }
                match read_path(items) {
                    None => Err(FieldError::InvalidField),
                    Some(path) => Ok(FileInfo { length, path }),
                }
            },
            Some(_) => Err(FieldError::InvalidField),
        }
    }
}

/// The file entries of a list.
fn read_files(items: &Vec<Bencode>) -> (r: Result<Vec<FileInfo>, FieldError>)
    ensures
        match r {
            Ok(fs) => files_from(items_view(items@), 0) == Ok::<Seq<FileView>, FieldError>(
                files_view(fs@),
            ),
            Err(e) => files_from(items_view(items@), 0) == Err::<Seq<FileView>, FieldError>(e),
        },
{
    let ghost models = items_view(items@);
    let mut out: Vec<FileInfo> = Vec::new();
    let mut i: usize = 0;
    assert(files_view(out@) =~= Seq::<FileView>::empty());
    assert(Seq::<FileView>::empty() + Seq::<FileView>::empty() =~= Seq::<FileView>::empty());
    while i < items.len()
        invariant
            i <= items@.len(),
            models == items_view(items@),
            files_from(models, 0) == then_files(files_view(out@), files_from(models, i as int)),
        decreases items@.len() - i,
    {
        assert(models[i as int] == items@[i as int]@);
        match FileInfo::from_bencode(&items[i]) {
            Err(e) => {
                return Err(e);
            },
            Ok(f) => {
                let ghost before = files_view(out@);
                proof {
                    if let Ok(rest) = files_from(models, i + 1) {
                        assert(before + (seq![f@] + rest) =~= (before + seq![f@]) + rest);
                    }
                }
                out.push(f);
                assert(files_view(out@) =~= before + seq![f@]);
            },
        }
        i += 1;
    }
    assert(files_view(out@) + Seq::<FileView>::empty() =~= files_view(out@));
    Ok(out)
}

impl Keys {
    /// The single-file or multi-file part of an info dictionary.
    pub fn from_bencode(value: &Bencode) -> (r: Result<Keys, FieldError>)
        ensures
            match r {
                Ok(k) => keys_of(value@) == Ok::<KeysView, FieldError>(k@),
                Err(e) => keys_of(value@) == Err::<KeysView, FieldError>(e),
            },
    {
        proof {
            reveal_strlit("length");
            reveal_strlit("files");
        }
        match dict_get(value, key_bytes("length")) {
            Some(l) => match count_of(l) {
                Err(e) => Err(e),
                Ok(length) => Ok(Keys::Single { length }),
            },
            None => match dict_get(value, key_bytes("files")) {
                None => Err(FieldError::MissingField),
                Some(Bencode::List(items)) => {
                    proof {
                        lemma_list_view(*items);
                    }
                    match read_files(items) {
                        Err(e) => Err(e),
                        Ok(files) => Ok(Keys::Multiple { files }),
                    }
                },
                Some(_) => Err(FieldError::InvalidField),
            },
        }
    }

    /// The number of bytes of the torrent; `None` where the lengths of the files
    /// add up to more than a `u64` holds.
    pub fn total(&self) -> (r: Option<u64>)
        ensures
            match r {
                Some(n) => n == self@.total(),
                None => self@.total() > u64::MAX,
            },
    {
        match self {
            Keys::Single { length } => Some(*length),
            Keys::Multiple { files } => {
                let ghost models = files_view(files@);
                let mut sum: u64 = 0;
                let mut i: usize = 0;
                while i < files.len()
                    invariant
                        i <= files@.len(),
                        models == files_view(files@),
                        self@ == (KeysView::Multiple { files: models }),
                        sum + files_total(models, i as int) == files_total(models, 0),
                    decreases files@.len() - i,
                {
                    assert(models[i as int] == files@[i as int]@);
                    match sum.checked_add(files[i].length) {
                        None => {
                            proof {
                                lemma_files_total_nonnegative(models, i + 1);
                            }
                            return None;
                        },
                        Some(next) => {
                            sum = next;
                        },
                    }
                    i += 1;
                }
                Some(sum)
            },
        }
    }
}

impl Info {
    /// The info dictionary that a bencode value is.
    pub fn from_bencode(value: &Bencode) -> (r: Result<Info, FieldError>)
        ensures
            match r {
                Ok(i) => info_of(value@) == Ok::<InfoView, FieldError>(i@) && i@.valid(),
                Err(e) => info_of(value@) == Err::<InfoView, FieldError>(e),
            },
    {
        proof {
            lemma_info_of_valid(value@);
            reveal_strlit("name");
            reveal_strlit("piece length");
            reveal_strlit("pieces");
        }
        match value {
            Bencode::Dict(_) => {},
            _ => {
                return Err(FieldError::InvalidField);
            },
        }
        let name = match dict_get(value, key_bytes("name")) {
            None => {
                return Err(FieldError::MissingField);
            },
            Some(n) => match bytes_of(n) {
                Err(e) => {
                    return Err(e);
                },
                Ok(b) => b,
            },
        };
        let piece_length = match dict_get(value, key_bytes("piece length")) {
            None => {
                return Err(FieldError::MissingField);
            },
            Some(p) => match count_of(p) {
                Err(e) => {
                    return Err(e);
                },
                Ok(n) => n,
            },
        };
        if piece_length == 0 {
            return Err(FieldError::InvalidField);
        }
        let pieces = match dict_get(value, key_bytes("pieces")) {
            None => {
                return Err(FieldError::MissingField);
            },
            Some(h) => match Hashes::deserialize(h) {
                Err(e) => {
                    return Err(e);
                },
                Ok(hashes) => hashes,
            },
        };
        let keys = match Keys::from_bencode(value) {
            Err(e) => {
                return Err(e);
            },
            Ok(k) => k,
        };
        if keys.total().is_none() {
            return Err(FieldError::InvalidField);
        }
        Ok(Info { name, piece_length, pieces, keys })
    }
}

impl Torrent {
    /// The metainfo that a bencode value is.
    pub fn from_bencode(value: &Bencode) -> (r: Result<Torrent, FieldError>)
        ensures
            match r {
                Ok(t) => torrent_of(value@) == Ok::<TorrentView, FieldError>(t@) && t@.info.valid(),
                Err(e) => torrent_of(value@) == Err::<TorrentView, FieldError>(e),
            },
    {
        proof {
            reveal_strlit("announce");
            reveal_strlit("created by");
            reveal_strlit("info");
        }
        match value {
            Bencode::Dict(_) => {},
            _ => {
                return Err(FieldError::InvalidField);
            },
        }
        let announce = match dict_get(value, key_bytes("announce")) {
            None => {
                return Err(FieldError::MissingField);
            },
            Some(a) => match deserialize(a) {
                Err(e) => {
                    return Err(e);
                },
                Ok(s) => s,
            },
        };
        let created_by = match dict_get(value, key_bytes("created by")) {
            None => String::new(),
            Some(c) => match deserialize(c) {
                Err(e) => {
                    return Err(e);
                },
                Ok(s) => s,
            },
        };
        let info = match dict_get(value, key_bytes("info")) {
            None => {
                return Err(FieldError::MissingField);
            },
            Some(i) => match Info::from_bencode(i) {
                Err(e) => {
                    return Err(e);
                },
                Ok(info) => info,
            },
        };
        Ok(Torrent { announce, created_by, info })
    }

    /// The metainfo that the bytes of a `.torrent` file hold.
    pub fn parse(bytes: &[u8]) -> (r: Result<Torrent, MetainfoError>)
        ensures
            match r {
                Ok(t) => parse_torrent(bytes@) == Ok::<TorrentView, MetainfoError>(t@)
                    && t@.info.valid(),
                Err(e) => parse_torrent(bytes@) == Err::<TorrentView, MetainfoError>(e),
            },
    {
        match decode_all(bytes, false) {
            Err(e) => Err(MetainfoError::Bencode(e)),
            Ok(v) => match Torrent::from_bencode(&v) {
                Err(e) => Err(MetainfoError::Field(e)),
                Ok(t) => Ok(t),
            },
        }
    }
}

// ---------------------------------------------------------------------------
// Writing a record
// ---------------------------------------------------------------------------

/// The components of a path as bencode byte strings.
pub open spec fn path_value(path: Seq<Seq<u8>>) -> Seq<Tree> {
    Seq::new(path.len(), |i: int| Tree::Bytes(path[i]))
}

/// A file entry as a bencode dictionary.
pub open spec fn file_value(f: FileView) -> Tree {
    Tree::Dict(
        seq![
            (key_of("length"@), Tree::Integer(f.length as i64)),
            (key_of("path"@), Tree::List(path_value(f.path))),
        ],
    )
}

/// The file entries as bencode dictionaries.
pub open spec fn files_value(files: Seq<FileView>) -> Seq<Tree> {
    Seq::new(files.len(), |i: int| file_value(files[i]))
}

/// The first entry of an info dictionary: `length` or `files`.
pub open spec fn keys_entry(keys: KeysView) -> (Seq<u8>, Tree) {
    match keys {
        KeysView::Single { length } => (key_of("length"@), Tree::Integer(length as i64)),
        KeysView::Multiple { files } => (key_of("files"@), Tree::List(files_value(files))),
    }
}

/// An info dictionary as a bencode dictionary, its keys in ascending order.
pub open spec fn info_value(i: InfoView) -> Tree {
    Tree::Dict(
        seq![
            keys_entry(i.keys),
            (key_of("name"@), Tree::Bytes(i.name)),
            (key_of("piece length"@), Tree::Integer(i.piece_length as i64)),
            (key_of("pieces"@), Tree::Bytes(concat20(i.pieces))),
        ],
    )
}

/// The keys of an info dictionary and of a file entry in their order.
pub proof fn lemma_record_keys()
    ensures
        lex_lt(key_of("length"@), key_of("name"@)),
        lex_lt(key_of("files"@), key_of("name"@)),
        lex_lt(key_of("files"@), key_of("length"@)),
        lex_lt(key_of("name"@), key_of("piece length"@)),
        lex_lt(key_of("piece length"@), key_of("pieces"@)),
        lex_lt(key_of("length"@), key_of("path"@)),
{
    reveal_strlit("length");
    reveal_strlit("files");
    reveal_strlit("name");
    reveal_strlit("piece length");
    reveal_strlit("pieces");
    reveal_strlit("path");
    reveal_with_fuel(lex_lt, 8);
}

/// Keys in order are different keys.
pub proof fn lemma_ordered_keys_differ(a: Seq<u8>, b: Seq<u8>)
    requires
        lex_lt(a, b),
    ensures
        a != b,
{
    lemma_lex_irreflexive(a);
}

/// The keys of an info dictionary: `name`, `piece length` and `pieces` come in
/// this order behind `length` and `files`, and no two of the five are the same.
pub proof fn lemma_info_keys_order()
    ensures
        lex_lt(key_of("length"@), key_of("pieces"@)),
        lex_lt(key_of("files"@), key_of("pieces"@)),
        lex_lt(key_of("length"@), key_of("piece length"@)),
        lex_lt(key_of("files"@), key_of("piece length"@)),
        lex_lt(key_of("name"@), key_of("pieces"@)),
        key_of("length"@) != key_of("name"@),
        key_of("length"@) != key_of("piece length"@),
        key_of("length"@) != key_of("pieces"@),
        key_of("length"@) != key_of("files"@),
        key_of("length"@) != key_of("path"@),
        key_of("files"@) != key_of("name"@),
        key_of("files"@) != key_of("piece length"@),
        key_of("files"@) != key_of("pieces"@),
        key_of("name"@) != key_of("piece length"@),
        key_of("name"@) != key_of("pieces"@),
        key_of("piece length"@) != key_of("pieces"@),
{
    lemma_record_keys();
    let length = key_of("length"@);
    let files = key_of("files"@);
    let name = key_of("name"@);
    let piece_length = key_of("piece length"@);
    let pieces = key_of("pieces"@);
    let path = key_of("path"@);
    lemma_lex_transitive(length, name, piece_length);
    lemma_lex_transitive(files, name, piece_length);
    lemma_lex_transitive(name, piece_length, pieces);
    lemma_lex_transitive(length, name, pieces);
    lemma_lex_transitive(files, name, pieces);
    lemma_ordered_keys_differ(length, name);
    lemma_ordered_keys_differ(length, piece_length);
    lemma_ordered_keys_differ(length, pieces);
    lemma_ordered_keys_differ(files, length);
    lemma_ordered_keys_differ(length, path);
    lemma_ordered_keys_differ(files, name);
    lemma_ordered_keys_differ(files, piece_length);
    lemma_ordered_keys_differ(files, pieces);
    lemma_ordered_keys_differ(name, piece_length);
    lemma_ordered_keys_differ(name, pieces);
    lemma_ordered_keys_differ(piece_length, pieces);
}

/// A file entry written as a dictionary is well-formed and reads back as the
/// entry.
pub proof fn lemma_file_round_trip(f: FileView)
    requires
        f.length <= i64::MAX,
    ensures
        file_value(f).wf(),
        file_of(file_value(f)) == Ok::<FileView, FieldError>(f),
{
    lemma_record_keys();
    lemma_info_keys_order();
    let v = file_value(f);
    let entries = v->Dict_0;
    assert(entries[0] == (key_of("length"@), Tree::Integer(f.length as i64)));
    assert(entries[1] == (key_of("path"@), Tree::List(path_value(f.path))));
    lemma_lookup_at(entries, key_of("length"@), 0);
    lemma_lookup_at(entries, key_of("path"@), 1);
    lemma_path_round_trip(f.path, 0);
    assert(f.path.skip(0) =~= f.path);
    assert(keys_ascending(entries));
    let items = path_value(f.path);
    assert(Tree::List(items).wf()) by {
        assert(Tree::List(items)->List_0 == items);
        assert forall|k: int| 0 <= k < items.len() implies (#[trigger] items[k]).wf() by {}
    }
    assert forall|k: int| 0 <= k < entries.len() implies (#[trigger] entries[k]).1.wf() by {
        if k == 0 {
            assert(entries[0].1.wf());
        } else {
            assert(entries[1].1.wf());
        }
    }
    assert(v->Dict_0 == entries);
}

/// Path components written as byte strings read back as the components.
pub proof fn lemma_path_round_trip(path: Seq<Seq<u8>>, from: int)
    requires
        0 <= from <= path.len(),
    ensures
        path_from(path_value(path), from) == Some(path.skip(from)),
    decreases path.len() - from,
{
    if from < path.len() {
        lemma_path_round_trip(path, from + 1);
        assert(seq![path[from]] + path.skip(from + 1) =~= path.skip(from));
    } else {
        assert(path.skip(from) =~= Seq::<Seq<u8>>::empty());
    }
}

/// File entries written as dictionaries read back as the entries.
pub proof fn lemma_files_round_trip(files: Seq<FileView>, from: int)
    requires
        0 <= from <= files.len(),
        forall|i: int| 0 <= i < files.len() ==> (#[trigger] files[i]).length <= i64::MAX,
    ensures
        files_from(files_value(files), from) == Ok::<Seq<FileView>, FieldError>(files.skip(from)),
    decreases files.len() - from,
{
    if from < files.len() {
        lemma_files_round_trip(files, from + 1);
        lemma_file_round_trip(files[from]);
        assert(seq![files[from]] + files.skip(from + 1) =~= files.skip(from));
    } else {
        assert(files.skip(from) =~= Seq::<FileView>::empty());
    }
}

/// An info dictionary survives being written and read: the value that stands
/// for a valid info dictionary is well-formed, and reading it gives the info
/// dictionary back.
pub proof fn lemma_info_round_trip(i: InfoView)
    requires
        i.valid(),
    ensures
        info_value(i).wf(),
        info_of(info_value(i)) == Ok::<InfoView, FieldError>(i),
{
    lemma_record_keys();
    lemma_info_keys_order();
    let v = info_value(i);
    let entries = v->Dict_0;
    assert(entries[0] == keys_entry(i.keys));
    assert(entries[1] == (key_of("name"@), Tree::Bytes(i.name)));
    assert(entries[2] == (key_of("piece length"@), Tree::Integer(i.piece_length as i64)));
    assert(entries[3] == (key_of("pieces"@), Tree::Bytes(concat20(i.pieces))));
    lemma_lookup_at(entries, key_of("name"@), 1);
    lemma_lookup_at(entries, key_of("piece length"@), 2);
    lemma_lookup_at(entries, key_of("pieces"@), 3);
    lemma_chunks_of_concat(i.pieces);
    assert(keys_ascending(entries));
    match i.keys {
        KeysView::Single { length } => {
            lemma_lookup_at(entries, key_of("length"@), 0);
            assert(entries[0].1.wf());
        },
        KeysView::Multiple { files } => {
            lemma_lookup_none(entries, key_of("length"@));
            lemma_lookup_at(entries, key_of("files"@), 0);
            lemma_files_round_trip(files, 0);
            assert(files.skip(0) =~= files);
            let items = files_value(files);
            assert(Tree::List(items).wf()) by {
                assert forall|k: int| 0 <= k < items.len() implies (#[trigger] items[k]).wf() by {
                    lemma_file_round_trip(files[k]);
                }
                assert(Tree::List(items)->List_0 == items);
            }
            assert(entries[0].1.wf());
        },
    }
    assert forall|k: int| 0 <= k < entries.len() implies (#[trigger] entries[k]).1.wf() by {
        if k == 0 {
            assert(entries[0].1.wf());
        } else if k == 1 {
            assert(entries[1].1.wf());
        } else if k == 2 {
            assert(entries[2].1.wf());
        } else {
            assert(entries[3].1.wf());
        }
    }
    assert(v->Dict_0 == entries);
}

/// The identity of a torrent is stable: the encoding of a valid info dictionary
/// decodes, in strict mode too, to a value that reads back as the same info
/// dictionary, so that encoding it again gives the same bytes and the same
/// SHA-1.
pub proof fn law_info_hash_stable(i: InfoView)
    requires
        i.valid(),
    ensures
        parse_all(ser_value(info_value(i)), true) == Ok::<Tree, BencodeError>(info_value(i)),
        parse_all(ser_value(info_value(i)), false) == Ok::<Tree, BencodeError>(info_value(i)),
        info_of(info_value(i)) == Ok::<InfoView, FieldError>(i),
        forall|again: InfoView|
            info_of(info_value(i)) == Ok::<InfoView, FieldError>(again) ==> sha1_of(
                ser_value(info_value(again)),
            ) == sha1_of(ser_value(info_value(i))),
{
    lemma_info_round_trip(i);
    law_decode_of_encode(info_value(i), true);
    law_decode_of_encode(info_value(i), false);
}

/// The bytes of a key as a vector.
fn key_vec(name: &str) -> (r: Vec<u8>)
    requires
        is_ascii(name),
    ensures
        r@ == key_of(name@),
{
    slice_to_vec(key_bytes(name))
}

impl FileInfo {
    /// The file entry as a bencode dictionary.
    pub fn to_bencode(&self) -> (r: Bencode)
        requires
            self.length <= i64::MAX,
        ensures
            r@ == file_value(self@),
    {
        proof {
            reveal_strlit("length");
            reveal_strlit("path");
        }
        let mut components: Vec<Bencode> = Vec::new();
        let mut i: usize = 0;
        while i < self.path.len()
            invariant
                i <= self.path@.len(),
                components@.len() == i,
                forall|k: int|
                    0 <= k < i ==> (#[trigger] components@[k])@ == Tree::Bytes(self.path@[k]@),
            decreases self.path@.len() - i,
        {
            components.push(Bencode::Byte(self.path[i].clone()));
            i += 1;
        }
        proof {
            lemma_list_view(components);
            assert(items_view(components@) =~= path_value(self@.path));
        }
        let mut entries: Vec<(Vec<u8>, Bencode)> = Vec::new();
        entries.push((key_vec("length"), Bencode::Integer(self.length as i64)));
        entries.push((key_vec("path"), Bencode::List(components)));
        proof {
            lemma_dict_view(entries);
            assert(entries_view(entries@) =~= file_value(self@)->Dict_0);
        }
        Bencode::Dict(entries)
    }
}

impl Keys {
    /// Whether every length can stand as a bencode integer.
    pub fn lengths_fit(&self) -> (r: bool)
        ensures
            r == self@.lengths_fit(),
    {
        match self {
            Keys::Single { length } => *length <= i64::MAX as u64,
            Keys::Multiple { files } => {
                let ghost models = files_view(files@);
                let mut i: usize = 0;
                while i < files.len()
                    invariant
                        i <= files@.len(),
                        models == files_view(files@),
                        self@ == (KeysView::Multiple { files: models }),
                        forall|k: int| 0 <= k < i ==> (#[trigger] models[k]).length <= i64::MAX,
                    decreases files@.len() - i,
                {
                    assert(models[i as int] == files@[i as int]@);
                    if files[i].length > i64::MAX as u64 {
                        assert(models[i as int].length > i64::MAX);
                        assert(self@->Multiple_files == models);
                        return false;
                    }
                    i += 1;
                }
                true
            },
        }
    }
}

impl Info {
    /// Whether the info dictionary is valid, as one that was read always is.
    pub fn is_valid(&self) -> (r: bool)
        ensures
            r == self@.valid(),
    {
        assert(all_twenty(self@.pieces)) by {
            let pieces = self@.pieces;
            assert forall|k: int| 0 <= k < pieces.len() implies (#[trigger] pieces[k]).len()
                == 20 by {
                assert(pieces[k] == self.pieces.0@[k]@);
            }
        }
        self.piece_length > 0 && self.piece_length <= i64::MAX as u64 && self.pieces.0.len()
            <= isize::MAX as usize && self.keys.lengths_fit() && self.keys.total().is_some()
    }

    /// The info dictionary as a bencode dictionary, its keys in ascending order.
    pub fn to_bencode(&self) -> (r: Bencode)
        requires
            self@.valid(),
        ensures
            r@ == info_value(self@),
            r@.wf(),
    {
        proof {
            reveal_strlit("length");
            reveal_strlit("files");
            reveal_strlit("name");
            reveal_strlit("piece length");
            reveal_strlit("pieces");
            lemma_info_round_trip(self@);
        }
        let first: (Vec<u8>, Bencode) = match &self.keys {
            Keys::Single { length } => (key_vec("length"), Bencode::Integer(*length as i64)),
            Keys::Multiple { files } => {
                let ghost models = files_view(files@);
                let mut items: Vec<Bencode> = Vec::new();
                let mut i: usize = 0;
                while i < files.len()
                    invariant
                        i <= files@.len(),
                        models == files_view(files@),
                        forall|k: int|
                            0 <= k < models.len() ==> (#[trigger] models[k]).length <= i64::MAX,
                        items@.len() == i,
                        forall|k: int|
                            0 <= k < i ==> (#[trigger] items@[k])@ == file_value(models[k]),
                    decreases files@.len() - i,
                {
                    assert(models[i as int] == files@[i as int]@);
                    items.push(files[i].to_bencode());
                    i += 1;
                }
                proof {
                    lemma_list_view(items);
                    assert(items_view(items@) =~= files_value(models));
                }
                (key_vec("files"), Bencode::List(items))
            },
        };
        assert((first.0@, first.1@) == keys_entry(self@.keys));
        let mut entries: Vec<(Vec<u8>, Bencode)> = Vec::new();
        entries.push(first);
        entries.push((key_vec("name"), Bencode::Byte(self.name.clone())));
        entries.push((key_vec("piece length"), Bencode::Integer(self.piece_length as i64)));
        entries.push((key_vec("pieces"), Bencode::Byte(self.pieces.serialize())));
        proof {
            lemma_dict_view(entries);
            assert(entries_view(entries@) =~= info_value(self@)->Dict_0);
        }
        Bencode::Dict(entries)
    }

    /// The identity of the torrent: the SHA-1 of the canonical encoding of the
    /// info dictionary.
    pub fn hash(&self) -> (r: [u8; 20])
        requires
            self@.valid(),
        ensures
            r@ == sha1_of(ser_value(info_value(self@))),
    {
        let value = self.to_bencode();
        let bytes = encode(&value);
        sha1_bytes(bytes.as_slice())
    }
}

impl Torrent {
    /// The info hash of the torrent.
    pub fn info_hash(&self) -> (r: [u8; 20])
        requires
            self@.info.valid(),
        ensures
            r@ == sha1_of(ser_value(info_value(self@.info))),
    {
        self.info.hash()
    }

    /// The number of bytes of the torrent: the length of its file, or of all
    /// its files together.
    pub fn get_file_length(&self) -> (r: u64)
        requires
            self@.info.valid(),
        ensures
            r == self@.info.keys.total(),
    {
        match self.info.keys.total() {
            Some(n) => n,
            None => 0,
        }
    }

    /// The number of bytes of the torrent.
    pub fn total_length(&self) -> (r: u64)
        requires
            self@.info.valid(),
        ensures
            r == self@.info.keys.total(),
    {
        self.get_file_length()
    }

    /// The number of pieces.
    pub fn piece_count(&self) -> (r: usize)
        ensures
            r == self@.info.pieces.len(),
    {
        self.info.pieces.len()
    }

    /// The number of bytes of piece `index`; `None` where the torrent has no such
    /// piece or the number is more than a `u32` holds.
    pub fn piece_length(&self, index: usize) -> (r: Option<u32>)
        requires
            self@.info.valid(),
        ensures
            ({
                let n = piece_len(
                    self@.info.keys.total(),
                    self@.info.piece_length as int,
                    self@.info.pieces.len() as int,
                    index as int,
                );
                if index < self@.info.pieces.len() && n <= u32::MAX {
                    r == Some(n as u32)
                } else {
                    r is None
                }
            }),
    {
        let count = self.info.pieces.len();
        if index >= count {
            return None;
        }
        let full = self.info.piece_length;
        let mut n = full;
        if index == count - 1 {
            let total = self.total_length();
            let before = (count - 1) as u64;
            assert(full * before == full as int * (count - 1)) by (nonlinear_arith)
                requires
                    before == count - 1,
            ;
            match full.checked_mul(before) {
                Some(taken) => {
                    if total > taken {
                        n = total - taken;
                    }
                },
                None => {},
            }
        }
        if n <= u32::MAX as u64 {
            Some(n as u32)
        } else {
            None
        }
    }
}

/// The digests of the pieces in hexadecimal.
pub open spec fn hex_lines(pieces: Seq<Seq<u8>>) -> Seq<Seq<char>> {
    Seq::new(pieces.len(), |k: int| hex_chars(pieces[k]))
}

impl Torrent {
    /// The summary of the torrent that the `info` command prints: tracker URL,
    /// length, info hash, piece length, and the digest of each piece on a line
    /// of its own.
    pub fn format_info(&self) -> (r: String)
        requires
            self@.info.valid(),
        ensures
            r@ == "Tracker URL: "@ + self@.announce + "\nLength: "@ + ascii_chars(
                dec_digits(self@.info.keys.total() as nat),
            ) + "\nInfo Hash: "@ + hex_chars(sha1_of(ser_value(info_value(self@.info))))
                + "\nPiece Length: "@ + ascii_chars(dec_digits(self@.info.piece_length as nat))
                + "\nPiece Hashes:\n"@ + join_with(hex_lines(self@.info.pieces), "\n"@),
    {
        let mut lines: Vec<String> = Vec::new();
        let mut k: usize = 0;
        while k < self.info.pieces.0.len()
            invariant
                k <= self.info.pieces.0@.len(),
                lines@.len() == k,
                forall|j: int|
                    0 <= j < k ==> (#[trigger] lines@[j])@ == hex_chars(self.info.pieces.0@[j]@),
            decreases self.info.pieces.0@.len() - k,
        {
            lines.push(hex_encode(self.info.pieces.0[k].as_slice()));
            k += 1;
        }
        assert(texts(lines@) =~= hex_lines(self@.info.pieces));
        let hash = self.info_hash();
        let hash_text = hex_encode(hash.as_slice());
        let length_text = decimal_string(self.total_length());
        let piece_text = decimal_string(self.info.piece_length);
        proof {
            reveal_strlit("\n");
        }
        let hashes_text = join_strings(&lines, "\n");
        let mut out = String::new();
        out.append("Tracker URL: ");
        out.append(self.announce.as_str());
        out.append("\nLength: ");
        out.append(length_text.as_str());
        out.append("\nInfo Hash: ");
        out.append(hash_text.as_str());
        out.append("\nPiece Length: ");
        out.append(piece_text.as_str());
        out.append("\nPiece Hashes:\n");
        out.append(hashes_text.as_str());
        assert(out@ =~= "Tracker URL: "@ + self@.announce + "\nLength: "@ + length_text@
            + "\nInfo Hash: "@ + hash_text@ + "\nPiece Length: "@ + piece_text@
            + "\nPiece Hashes:\n"@ + hashes_text@);
        out
    }
}

/// The number of bytes of a torrent: the length of its file, or of all its
/// files together.
pub fn get_file_length(torrent: &Torrent) -> (r: u64)
    requires
        torrent@.info.valid(),
    ensures
        r == torrent@.info.keys.total(),
{
    torrent.get_file_length()
}

} // verus!
