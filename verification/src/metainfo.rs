//! Torrent metadata: the typed reading of a bencoded metadata file.
use crate::bencode::{
    decode_bencoded_vec_start_at, decode_byte_string, dict_get, entries_model, is_digit,
    items_model, lemma_dictionary_view, lemma_list_view, lookup, parse_bytes, parse_value,
    bytes_equal, copy_range, BencodeValue, DictEntry, Entry, Value,
};
use crate::hashing::{sha1_digest, sha1_of, text_of_utf8, utf8_text};
use vstd::prelude::*;

verus! {

/// Why metadata is refused. Each field's error stands for a key that is absent,
/// holds a value of the wrong kind, or holds a value out of range.
#[derive(Debug, Clone, Copy, PartialEq, Eq, Structural)]
pub enum MetadataError {
    /// The bytes are not well-formed bencode.
    Decode { offset: usize },
    /// The top-level value is no dictionary.
    Root,
    /// `announce` is absent, no byte string, or not UTF-8.
    Announce,
    /// `info` is absent or no dictionary.
    Info,
    /// `piece length` is absent, no integer, or not positive.
    PieceLength,
    /// `pieces` is absent, no byte string, or not a whole number of hashes.
    Pieces,
    /// Neither a valid `length` nor a valid `files` list is there.
    Layout,
    /// The number of piece hashes is not what the content's length asks for.
    PieceCount,
}

/// One file of a multi-file torrent.
#[derive(Debug)]
pub struct FileEntry {
    pub path: Vec<Vec<u8>>,
    pub length: usize,
}

/// How the content is laid out in files.
#[derive(Debug)]
pub enum FileLayout {
    Single { length: usize },
    Multiple { files: Vec<FileEntry> },
}

#[derive(Debug)]
pub struct TorrentMetadata {
    pub announce: String,
    pub piece_length: usize,
    pub total_length: usize,
    pub piece_hashes: Vec<[u8; 20]>,
    pub file_layout: FileLayout,
    pub info_hash: [u8; 20],
}

/// The model of a `FileEntry`.
pub struct FileModel {
    pub path: Seq<Seq<u8>>,
    pub length: int,
}

/// The model of a `FileLayout`.
pub enum LayoutModel {
    Single { length: int },
    Multiple { files: Seq<FileModel> },
}

/// The model of a `TorrentMetadata`.
pub struct MetaModel {
    pub announce: Seq<char>,
    pub piece_length: int,
    pub total_length: int,
    pub piece_hashes: Seq<Seq<u8>>,
    pub layout: LayoutModel,
    pub info_hash: Seq<u8>,
}

pub open spec fn key_announce() -> Seq<u8> {
    seq![97u8, 110u8, 110u8, 111u8, 117u8, 110u8, 99u8, 101u8]
}

pub open spec fn key_info() -> Seq<u8> {
    seq![105u8, 110u8, 102u8, 111u8]
}

pub open spec fn key_piece_length() -> Seq<u8> {
    seq![112u8, 105u8, 101u8, 99u8, 101u8, 32u8, 108u8, 101u8, 110u8, 103u8, 116u8, 104u8]
}

pub open spec fn key_pieces() -> Seq<u8> {
    seq![112u8, 105u8, 101u8, 99u8, 101u8, 115u8]
}

pub open spec fn key_length() -> Seq<u8> {
    seq![108u8, 101u8, 110u8, 103u8, 116u8, 104u8]
}

pub open spec fn key_files() -> Seq<u8> {
    seq![102u8, 105u8, 108u8, 101u8, 115u8]
}

pub open spec fn key_path() -> Seq<u8> {
    seq![112u8, 97u8, 116u8, 104u8]
}

pub open spec fn files_model(files: Seq<FileEntry>) -> Seq<FileModel> {
    Seq::new(
        files.len(),
        |i: int| FileModel { path: path_model(files[i].path@), length: files[i].length as int },
    )
}

pub open spec fn path_model(path: Seq<Vec<u8>>) -> Seq<Seq<u8>> {
    Seq::new(path.len(), |i: int| path[i]@)
}

pub open spec fn hashes_model(hashes: Seq<[u8; 20]>) -> Seq<Seq<u8>> {
    Seq::new(hashes.len(), |i: int| hashes[i]@)
}

impl View for FileLayout {
    type V = LayoutModel;

    open spec fn view(&self) -> LayoutModel {
        match self {
            FileLayout::Single { length } => LayoutModel::Single { length: *length as int },
            FileLayout::Multiple { files } => LayoutModel::Multiple { files: files_model(files@) },
        }
    }
}

impl View for TorrentMetadata {
    type V = MetaModel;

    open spec fn view(&self) -> MetaModel {
        MetaModel {
            announce: self.announce@,
            piece_length: self.piece_length as int,
            total_length: self.total_length as int,
            piece_hashes: hashes_model(self.piece_hashes@),
            layout: self.file_layout@,
            info_hash: self.info_hash@,
        }
    }
}

impl MetaModel {
    /// The lengths add up, and there is one hash for each piece.
    pub open spec fn wf(self) -> bool {
        &&& self.piece_length > 0
        &&& self.total_length >= 0
        &&& self.piece_hashes.len() == (self.total_length + self.piece_length - 1)
            / self.piece_length
        &&& match self.layout {
            LayoutModel::Single { length } => length == self.total_length,
            LayoutModel::Multiple { files } => lengths_sum(files, files.len() as int)
                == self.total_length,
        }
    }
}

/// The sum of the lengths of the first `n` files.
pub open spec fn lengths_sum(files: Seq<FileModel>, n: int) -> int
    decreases n,
{
    if n <= 0 || n > files.len() {
        0
    } else {
        lengths_sum(files, n - 1) + files[n - 1].length
    }
}

/// Where the value of `key` stands in the dictionary that starts at position 0
/// of `s`: the span of the value of the last entry at or after `pos` with that
/// key, or `found` if there is none. The walk ends at the first thing that is
/// no entry.
pub open spec fn value_span(s: Seq<u8>, pos: int, key: Seq<u8>, found: Option<(int, int)>)
    -> Option<(int, int)>
    decreases s.len() - pos,
{
    if pos < 0 || pos >= s.len() || !is_digit(s[pos]) {
        found
    } else {
        match parse_bytes(s, pos) {
            Err(_) => found,
            Ok((k, mid)) => if mid <= pos || mid > s.len() {
                found
            } else {
                match parse_value(s, mid) {
                    Err(_) => found,
                    Ok((_, next)) => if next <= mid || next > s.len() {
                        found
                    } else {
                        value_span(
                            s,
                            next,
                            key,
                            if k == key {
                                Some((mid, next))
                            } else {
                                found
                            },
                        )
                    },
                }
            },
        }
    }
}

/// The span of the value that the top-level dictionary of `raw` holds for `key`.
pub fn find_value_span(raw: &[u8], key: &[u8]) -> (r: Option<(usize, usize)>)
    ensures
        match (r, value_span(raw@, 1, key@, None)) {
            (Some((from, to)), Some((a, b))) => from == a && to == b && from < to <= raw@.len(),
            (None, None) => true,
            _ => false,
        },
{
    let mut found: Option<(usize, usize)> = None;
    let mut pos: usize = 1;
    let ghost mut model: Option<(int, int)> = None;
    loop
        invariant
            1 <= pos,
            value_span(raw@, 1, key@, None) == value_span(raw@, pos as int, key@, model),
            match (found, model) {
                (Some((from, to)), Some((a, b))) => from == a && to == b && from < to <= raw@.len(),
                (None, None) => true,
                _ => false,
            },
        decreases raw@.len() - pos,
    {
        if pos >= raw.len() || raw[pos] < 48u8 || raw[pos] > 57u8 {
            return found;
        }
        match decode_byte_string(raw, pos) {
            Err(_) => {
                return found;
            },
            Ok((k, mid)) => {
                match decode_bencoded_vec_start_at(raw, mid) {
                    Err(_) => {
                        return found;
                    },
                    Ok((_, next)) => {
                        if bytes_equal(k.as_slice(), key) {
                            found = Some((mid, next));
                            proof {
                                model = Some((mid as int, next as int));
                            }
                        }
                        pos = next;
                    },
                }
            },
        }
    }
}

/// The piece hashes that a `pieces` string holds: its slices of 20 bytes.
pub open spec fn hashes_of(pieces: Seq<u8>) -> Seq<Seq<u8>> {
    Seq::new((pieces.len() / 20) as nat, |i: int| pieces.subrange(20 * i, 20 * i + 20))
}

/// Cuts a `pieces` string into its hashes.
pub fn split_hashes(pieces: &[u8]) -> (hashes: Vec<[u8; 20]>)
    requires
        pieces@.len() % 20 == 0,
    ensures
        hashes_model(hashes@) == hashes_of(pieces@),
{
    let mut hashes: Vec<[u8; 20]> = Vec::new();
    let total: usize = pieces.len();
    let count: usize = total / 20;
    let mut i: usize = 0;
    while i < count
        invariant
            i <= count,
            20 * count == total,
            total == pieces@.len(),
            hashes@.len() == i,
            forall|j: int| 0 <= j < i ==> (#[trigger] hashes@[j])@ == pieces@.subrange(
                20 * j,
                20 * j + 20,
            ),
        decreases count - i,
    {
        let mut hash = [0u8; 20];
        let mut k: usize = 0;
        while k < 20
            invariant
                k <= 20,
                i < count,
                20 * count == total,
            total == pieces@.len(),
                forall|j: int| 0 <= j < k ==> hash@[j] == pieces@[20 * i + j],
            decreases 20 - k,
        {
            hash[k] = pieces[20 * i + k];
            k = k + 1;
        }
        assert(hash@ =~= pieces@.subrange(20 * i, 20 * i + 20));
        hashes.push(hash);
        i = i + 1;
    }
    assert(hashes_model(hashes@) =~= hashes_of(pieces@));
    hashes
}

/// The path that a list of byte strings spells, read from item `from` on, `done`
/// being the segments read so far; nothing where an item is no byte string.
pub open spec fn path_from(segments: Seq<Value>, from: int, done: Seq<Seq<u8>>) -> Option<
    Seq<Seq<u8>>,
>
    decreases segments.len() - from,
{
    if from < 0 || from >= segments.len() {
        Some(done)
    } else {
        match segments[from] {
            Value::Bytes(b) => path_from(segments, from + 1, done.push(b)),
            _ => None,
        }
    }
}

/// The file that a dictionary with `length` and `path` describes.
pub open spec fn file_of(v: Value) -> Option<FileModel> {
    match v {
        Value::Dict(entries) => match (lookup(entries, key_length()), lookup(entries, key_path())) {
            (Some(Value::Integer(length)), Some(Value::List(segments))) => if 0 <= length
                <= usize::MAX {
                match path_from(segments, 0, Seq::empty()) {
                    Some(path) => Some(FileModel { path, length }),
                    None => None,
                }
            } else {
                None
            },
            _ => None,
        },
        _ => None,
    }
}

/// The files that a `files` list describes, read from item `from` on, with
/// their total length; nothing where an item describes no file or the total
/// does not fit the machine.
pub open spec fn files_from(items: Seq<Value>, from: int, done: Seq<FileModel>, total: int)
    -> Option<(Seq<FileModel>, int)>
    decreases items.len() - from,
{
    if from < 0 || from >= items.len() {
        Some((done, total))
    } else {
        match file_of(items[from]) {
            None => None,
            Some(file) => if total + file.length > usize::MAX {
                None
            } else {
                files_from(items, from + 1, done.push(file), total + file.length)
            },
        }
    }
}

/// The layout that an `info` dictionary describes, with the content's length.
pub open spec fn layout_of(info: Seq<Entry>) -> Option<(LayoutModel, int)> {
    match lookup(info, key_length()) {
        Some(Value::Integer(length)) => if 0 <= length <= usize::MAX {
            Some((LayoutModel::Single { length }, length))
        } else {
            None
        },
        Some(_) => None,
        None => match lookup(info, key_files()) {
            Some(Value::List(items)) => match files_from(items, 0, Seq::empty(), 0) {
                Some((files, total)) => Some((LayoutModel::Multiple { files }, total)),
                None => None,
            },
            _ => None,
        },
    }
}

/// What an `info` dictionary describes, given the announce URL and the info hash.
pub open spec fn info_of(info: Seq<Entry>, announce: Seq<char>, info_hash: Seq<u8>) -> Result<
    MetaModel,
    MetadataError,
> {
    match lookup(info, key_piece_length()) {
        Some(Value::Integer(piece_length)) => if 0 < piece_length <= usize::MAX {
            match lookup(info, key_pieces()) {
                Some(Value::Bytes(pieces)) => if pieces.len() % 20 == 0 {
                    match layout_of(info) {
                        Some((layout, total_length)) => if pieces.len() / 20 == (total_length
                            + piece_length - 1) / piece_length {
                            Ok(
                                MetaModel {
                                    announce,
                                    piece_length,
                                    total_length,
                                    piece_hashes: hashes_of(pieces),
                                    layout,
                                    info_hash,
                                },
                            )
                        } else {
                            Err(MetadataError::PieceCount)
                        },
                        None => Err(MetadataError::Layout),
                    }
                } else {
                    Err(MetadataError::Pieces)
                },
                _ => Err(MetadataError::Pieces),
            }
        } else {
            Err(MetadataError::PieceLength)
        },
        _ => Err(MetadataError::PieceLength),
    }
}

/// What a metadata file describes. The info hash is the SHA-1 digest of the
/// bytes of the `info` dictionary exactly as they stand in the file.
pub open spec fn metadata_of(s: Seq<u8>) -> Result<MetaModel, MetadataError> {
    match parse_value(s, 0) {
        Err(offset) => Err(MetadataError::Decode { offset: offset as usize }),
        Ok((Value::Dict(top), _)) => match lookup(top, key_announce()) {
            Some(Value::Bytes(a)) => match utf8_text(a) {
                Some(announce) => match value_span(s, 1, key_info(), None) {
                    Some((from, to)) => match parse_value(s, from) {
                        Ok((Value::Dict(info), _)) => info_of(
                            info,
                            announce,
                            sha1_digest(s.subrange(from, to)),
                        ),
                        _ => Err(MetadataError::Info),
                    },
                    None => Err(MetadataError::Info),
                },
                None => Err(MetadataError::Announce),
            },
            _ => Err(MetadataError::Announce),
        },
        Ok(_) => Err(MetadataError::Root),
    }
}

/// Reads a path: a list of byte strings.
pub fn read_path(segments: &Vec<BencodeValue>) -> (r: Option<Vec<Vec<u8>>>)
    ensures
        match (r, path_from(items_model(segments@), 0, Seq::empty())) {
            (Some(path), Some(model)) => path_model(path@) == model,
            (None, None) => true,
            _ => false,
        },
{
    let mut path: Vec<Vec<u8>> = Vec::new();
    let mut i: usize = 0;
    assert(path_model(path@) =~= Seq::empty());
    while i < segments.len()
        invariant
            i <= segments@.len(),
            path_from(items_model(segments@), 0, Seq::empty()) == path_from(
                items_model(segments@),
                i as int,
                path_model(path@),
            ),
        decreases segments@.len() - i,
    {
        match &segments[i] {
            BencodeValue::ByteString(b) => {
                let ghost before = path_model(path@);
                path.push(b.clone());
                assert(path_model(path@) =~= before.push(b@));
            },
            _ => {
                return None;
            },
        }
        i = i + 1;
    }
    Some(path)
}

/// A length that an integer value holds, where it is one that fits the machine.
pub fn read_length(v: &BencodeValue) -> (r: Option<usize>)
    ensures
        match r {
            Some(n) => v@ == Value::Integer(n as int),
            None => !(v@ is Integer && 0 <= v@->Integer_0 <= usize::MAX),
        },
{
    match v {
        BencodeValue::Integer(n) => {
            if *n >= 0 && *n as u64 <= usize::MAX as u64 {
                Some(*n as usize)
            } else {
                None
            }
        },
        _ => None,
    }
}

/// Reads one entry of a `files` list.
pub fn read_file(v: &BencodeValue) -> (r: Option<FileEntry>)
    ensures
        match (r, file_of(v@)) {
            (Some(file), Some(model)) => path_model(file.path@) == model.path && file.length
                == model.length,
            (None, None) => true,
            _ => false,
        },
{
    match v {
        BencodeValue::Dictionary(entries) => {
            proof {
                lemma_dictionary_view(*entries);
            }
            let key_l = [108u8, 101u8, 110u8, 103u8, 116u8, 104u8];
            let key_p = [112u8, 97u8, 116u8, 104u8];
            assert(key_l@ =~= key_length());
            assert(key_p@ =~= key_path());
            match (dict_get(entries, key_l.as_slice()), dict_get(entries, key_p.as_slice())) {
                (Some(l), Some(BencodeValue::List(segments))) => {
                    proof {
                        lemma_list_view(*segments);
                    }
                    match read_length(l) {
                        Some(length) => match read_path(segments) {
                            Some(path) => Some(FileEntry { path, length }),
                            None => None,
                        },
                        None => None,
                    }
                },
                _ => None,
            }
        },
        _ => None,
    }
}

/// Reads a `files` list, and adds up the lengths.
pub fn read_files(items: &Vec<BencodeValue>) -> (r: Option<(Vec<FileEntry>, usize)>)
    ensures
        match (r, files_from(items_model(items@), 0, Seq::empty(), 0)) {
            (Some((files, total)), Some((model, sum))) => files_model(files@) == model && total
                == sum && sum == lengths_sum(model, model.len() as int),
            (None, None) => true,
            _ => false,
        },
{
    let mut files: Vec<FileEntry> = Vec::new();
    let mut total: usize = 0;
    let mut i: usize = 0;
    assert(files_model(files@) =~= Seq::empty());
    while i < items.len()
        invariant
            i <= items@.len(),
            files_from(items_model(items@), 0, Seq::empty(), 0) == files_from(
                items_model(items@),
                i as int,
                files_model(files@),
                total as int,
            ),
            total == lengths_sum(files_model(files@), files@.len() as int),
        decreases items@.len() - i,
    {
        match read_file(&items[i]) {
            None => {
                return None;
            },
            Some(file) => {
                if file.length > usize::MAX - total {
                    return None;
                }
                let ghost before = files_model(files@);
                let ghost model = file_of(items@[i as int]@)->Some_0;
                assert(model.path == path_model(file.path@));
                total = total + file.length;
                files.push(file);
                assert(files_model(files@) =~= before.push(model));
                proof {
                    lemma_lengths_sum_prefix(files_model(files@), before, before.len() as int);
                }
            },
        }
        i = i + 1;
    }
    Some((files, total))
}

/// The sum over the first `n` files depends on those files alone.
pub proof fn lemma_lengths_sum_prefix(a: Seq<FileModel>, b: Seq<FileModel>, n: int)
    requires
        0 <= n <= a.len(),
        n <= b.len(),
        forall|i: int| 0 <= i < n ==> a[i] == b[i],
    ensures
        lengths_sum(a, n) == lengths_sum(b, n),
    decreases n,
{
    if n > 0 {
        lemma_lengths_sum_prefix(a, b, n - 1);
    }
}

/// Reads the layout of an `info` dictionary, and the content's length.
pub fn read_layout(info: &Vec<DictEntry>) -> (r: Option<(FileLayout, usize)>)
    ensures
        match (r, layout_of(entries_model(info@))) {
            (Some((layout, total)), Some((model, sum))) => layout@ == model && total == sum && (
            match model {
                LayoutModel::Single { length } => length == sum,
                LayoutModel::Multiple { files } => lengths_sum(files, files.len() as int) == sum,
            }),
            (None, None) => true,
            _ => false,
        },
{
    let key_l = [108u8, 101u8, 110u8, 103u8, 116u8, 104u8];
    let key_f = [102u8, 105u8, 108u8, 101u8, 115u8];
    assert(key_l@ =~= key_length());
    assert(key_f@ =~= key_files());
    match dict_get(info, key_l.as_slice()) {
        Some(l) => match read_length(l) {
            Some(length) => Some((FileLayout::Single { length }, length)),
            None => None,
        },
        None => match dict_get(info, key_f.as_slice()) {
            Some(BencodeValue::List(items)) => {
                proof {
                    lemma_list_view(*items);
                }
                match read_files(items) {
                    Some((files, total)) => Some((FileLayout::Multiple { files }, total)),
                    None => None,
                }
            },
            _ => None,
        },
    }
}

/// Reads an `info` dictionary into metadata with the given announce URL and
/// info hash.
pub fn read_info(info: &Vec<DictEntry>, announce: String, info_hash: [u8; 20]) -> (r: Result<
    TorrentMetadata,
    MetadataError,
>)
    ensures
        match (r, info_of(entries_model(info@), announce@, info_hash@)) {
            (Ok(m), Ok(model)) => m@ == model && model.wf(),
            (Err(e), Err(f)) => e == f,
            _ => false,
        },
{
    let key_pl = [
        112u8, 105u8, 101u8, 99u8, 101u8, 32u8, 108u8, 101u8, 110u8, 103u8, 116u8, 104u8,
    ];
    let key_p = [112u8, 105u8, 101u8, 99u8, 101u8, 115u8];
    assert(key_pl@ =~= key_piece_length());
    assert(key_p@ =~= key_pieces());
    let piece_length: usize = match dict_get(info, key_pl.as_slice()) {
        Some(v) => match read_length(v) {
            Some(n) => n,
            None => {
                return Err(MetadataError::PieceLength);
            },
        },
        None => {
            return Err(MetadataError::PieceLength);
        },
    };
    if piece_length == 0 {
        return Err(MetadataError::PieceLength);
    }
    let pieces: &Vec<u8> = match dict_get(info, key_p.as_slice()) {
        Some(BencodeValue::ByteString(b)) => b,
        _ => {
            return Err(MetadataError::Pieces);
        },
    };
    if pieces.len() % 20 != 0 {
        return Err(MetadataError::Pieces);
    }
    let (file_layout, total_length) = match read_layout(info) {
        Some(found) => found,
        None => {
            return Err(MetadataError::Layout);
        },
    };
    let whole: usize = total_length / piece_length;
    assert(total_length % piece_length != 0 ==> whole < total_length) by (nonlinear_arith)
        requires
            piece_length > 0,
            whole == total_length / piece_length,
    ;
    let needed: usize = if total_length % piece_length == 0 {
        whole
    } else {
        whole + 1
    };
    assert(needed == (total_length + piece_length - 1) / (piece_length as int)) by {
        lemma_ceiling(total_length as int, piece_length as int);
    }
    if pieces.len() / 20 != needed {
        return Err(MetadataError::PieceCount);
    }
    let piece_hashes = split_hashes(pieces.as_slice());
    let m = TorrentMetadata {
        announce,
        piece_length,
        total_length,
        piece_hashes,
        file_layout,
        info_hash,
    };
    assert(hashes_of(pieces@).len() == pieces@.len() / 20);
    Ok(m)
}

/// Rounding a quotient up: one more than the quotient unless the division is exact.
pub proof fn lemma_ceiling(a: int, b: int)
    requires
        a >= 0,
        b > 0,
    ensures
        (a + b - 1) / b == if a % b == 0 {
            a / b
        } else {
            a / b + 1
        },
{
    let q = a / b;
    let r = a % b;
    assert(a == b * q + r && 0 <= r < b) by (nonlinear_arith)
        requires
            b > 0,
            q == a / b,
            r == a % b,
    ;
    if r == 0 {
        assert((b * q + b - 1) / b == q) by (nonlinear_arith)
            requires
                b > 0,
        ;
    } else {
        assert((b * q + r + b - 1) / b == q + 1) by (nonlinear_arith)
            requires
                b > 0,
                0 < r < b,
        ;
    }
}

impl TorrentMetadata {
    /// Reads a metadata file.
    pub fn parse(bytes: &[u8]) -> (r: Result<TorrentMetadata, MetadataError>)
        ensures
            match (r, metadata_of(bytes@)) {
                (Ok(m), Ok(model)) => m@ == model && model.wf(),
                (Err(e), Err(f)) => e == f,
                _ => false,
            },
    {
        let top = match decode_bencoded_vec_start_at(bytes, 0) {
            Err(e) => {
                return Err(MetadataError::Decode { offset: e.offset });
            },
            Ok((BencodeValue::Dictionary(top), _)) => {
                proof {
                    lemma_dictionary_view(top);
                }
                top
            },
            Ok(_) => {
                return Err(MetadataError::Root);
            },
        };
        let key_a = [97u8, 110u8, 110u8, 111u8, 117u8, 110u8, 99u8, 101u8];
        let key_i = [105u8, 110u8, 102u8, 111u8];
        assert(key_a@ =~= key_announce());
        assert(key_i@ =~= key_info());
        let announce: String = match dict_get(&top, key_a.as_slice()) {
            Some(BencodeValue::ByteString(a)) => match text_of_utf8(a.as_slice()) {
                Some(text) => text,
                None => {
                    return Err(MetadataError::Announce);
                },
            },
            _ => {
                return Err(MetadataError::Announce);
            },
        };
        let (from, to) = match find_value_span(bytes, key_i.as_slice()) {
            Some(span) => span,
            None => {
                return Err(MetadataError::Info);
            },
        };
        match decode_bencoded_vec_start_at(bytes, from) {
            Ok((BencodeValue::Dictionary(info), _)) => {
                proof {
                    lemma_dictionary_view(info);
                }
                let span = copy_range(bytes, from, to);
                let info_hash = sha1_of(span.as_slice());
                read_info(&info, announce, info_hash)
            },
            _ => Err(MetadataError::Info),
        }
    }

    /// The info hash: the SHA-1 digest of the `info` dictionary as it stood in
    /// the file.
    pub fn info_hash(&self) -> (hash: [u8; 20])
        ensures
            hash == self.info_hash,
    {
        self.info_hash
    }
}

/// The info hash of a metadata file is the SHA-1 digest of the bytes that stand
/// in it as the value of `info`.
pub proof fn lemma_info_hash(s: Seq<u8>)
    requires
        metadata_of(s) is Ok,
    ensures
        value_span(s, 1, key_info(), None) is Some,
        metadata_of(s)->Ok_0.info_hash == sha1_digest(
            s.subrange(
                value_span(s, 1, key_info(), None)->Some_0.0,
                value_span(s, 1, key_info(), None)->Some_0.1,
            ),
        ),
{
}

/// Two metadata files in which the same bytes stand as the value of `info`
/// have the same info hash, whatever else differs between them.
pub proof fn lemma_info_hash_follows_info(a: Seq<u8>, b: Seq<u8>)
    requires
        metadata_of(a) is Ok,
        metadata_of(b) is Ok,
        a.subrange(
            value_span(a, 1, key_info(), None)->Some_0.0,
            value_span(a, 1, key_info(), None)->Some_0.1,
        ) == b.subrange(
            value_span(b, 1, key_info(), None)->Some_0.0,
            value_span(b, 1, key_info(), None)->Some_0.1,
        ),
    ensures
        metadata_of(a)->Ok_0.info_hash == metadata_of(b)->Ok_0.info_hash,
{
    lemma_info_hash(a);
    lemma_info_hash(b);
}

} // verus!
