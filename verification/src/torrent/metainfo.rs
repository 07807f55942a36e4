//! Torrent metainfo: a `.torrent` file parsed into typed fields.
//!
//! Handles single-file and multi-file torrents. The info hash is the SHA-1
//! digest of the raw bencoded `info` dictionary, found in the file's own bytes.

use crate::bencode::decoder::{
    DecodeError, decode, lemma_dict_starts, law_value_span, parse_value_at, spec_decode,
    spec_value_span, value_span,
};
use crate::bencode::{list_model, Value, ValueModel};
use sha1::Digest;
use vstd::prelude::*;
use vstd::string::StringSliceAdditionalSpecFns;

verus! {

/// Why a `.torrent` file could not be read.
#[derive(Debug)]
pub enum MetainfoError {
    Io(std::io::Error),
    Decode(DecodeError),
    MissingField(&'static str),
    InvalidField(&'static str),
    MalformedPieces(usize),
    InfoDictNotFound,
}

/// One file of a torrent.
#[derive(Debug, Clone)]
pub struct FileInfo {
    /// Length of the file in bytes.
    pub length: u64,
    /// Path components, e.g. `["dir", "subdir", "file.txt"]`.
    pub path: Vec<String>,
}

/// Parsed torrent metainfo.
#[derive(Debug, Clone)]
pub struct Metainfo {
    /// Primary tracker announce URL.
    pub announce: String,
    /// Tiers of backup tracker URLs.
    pub announce_list: Vec<Vec<String>>,
    /// SHA-1 digest of the bencoded `info` dictionary.
    pub info_hash: [u8; 20],
    /// Name of the torrent (top-level directory or file name).
    pub name: String,
    /// Length of each piece in bytes.
    pub piece_length: u64,
    /// SHA-1 digest of each piece.
    pub piece_hashes: Vec<[u8; 20]>,
    /// Total length of all files.
    pub total_length: u64,
    /// Files in this torrent.
    pub files: Vec<FileInfo>,
    /// Whether this is a single-file torrent.
    pub is_single_file: bool,
}

/// The SHA-1 digest of a byte string, as the `sha1` crate computes it.
pub uninterp spec fn sha1_digest(data: Seq<u8>) -> Seq<u8>;

/// `<sha1::Sha1 as digest::Digest>::digest`: the SHA-1 digest of `data`.
/// What is trusted: the result is the function `sha1_digest` of the input
/// bytes (the digest itself is not stated).
#[verifier::external_body]
fn sha1(data: &[u8]) -> (r: [u8; 20])
    ensures
        r@ == sha1_digest(data@),
{
    sha1::Sha1::digest(data).into()
}

pub struct FileModel {
    pub length: u64,
    pub path: Seq<Seq<char>>,
}

/// The meaning of a [`Metainfo`].
pub struct MetainfoModel {
    pub announce: Seq<char>,
    pub announce_list: Seq<Seq<Seq<char>>>,
    pub info_hash: Seq<u8>,
    pub name: Seq<char>,
    pub piece_length: u64,
    pub piece_hashes: Seq<Seq<u8>>,
    pub total_length: u64,
    pub files: Seq<FileModel>,
    pub is_single_file: bool,
}

impl FileInfo {
    pub open spec fn model(self) -> FileModel {
        FileModel { length: self.length, path: strings_model(self.path@) }
    }
}

pub open spec fn strings_model(s: Seq<String>) -> Seq<Seq<char>> {
    s.map_values(|x: String| x@)
}

impl Metainfo {
    pub open spec fn model(self) -> MetainfoModel {
        MetainfoModel {
            announce: self.announce@,
            announce_list: self.announce_list@.map_values(|t: Vec<String>| strings_model(t@)),
            info_hash: self.info_hash@,
            name: self.name@,
            piece_length: self.piece_length,
            piece_hashes: self.piece_hashes@.map_values(|h: [u8; 20]| h@),
            total_length: self.total_length,
            files: self.files@.map_values(|f: FileInfo| f.model()),
            is_single_file: self.is_single_file,
        }
    }
}

/// A dictionary key given as text.
pub open spec fn key(s: &str) -> Seq<u8> {
    s.spec_bytes()
}

pub open spec fn opt_str(v: Option<ValueModel>) -> Option<Seq<char>> {
    match v {
        Some(x) => x.str_of(),
        None => None,
    }
}

pub open spec fn opt_int(v: Option<ValueModel>) -> Option<i64> {
    match v {
        Some(x) => x.int_of(),
        None => None,
    }
}

pub open spec fn opt_bytes(v: Option<ValueModel>) -> Option<Seq<u8>> {
    match v {
        Some(x) => x.bytes_of(),
        None => None,
    }
}

pub open spec fn opt_list(v: Option<ValueModel>) -> Option<Seq<ValueModel>> {
    match v {
        Some(x) => x.list_of(),
        None => None,
    }
}

/// The texts among a list of values, in order; other values are skipped.
pub open spec fn strings_of(list: Seq<ValueModel>) -> Seq<Seq<char>>
    decreases list.len(),
{
    if list.len() == 0 {
        Seq::empty()
    } else {
        let rest = strings_of(list.drop_last());
        match list.last().str_of() {
            Some(s) => rest.push(s),
            None => rest,
        }
    }
}

/// The lists among a list of tiers, each reduced to its texts.
pub open spec fn tiers_of(list: Seq<ValueModel>) -> Seq<Seq<Seq<char>>>
    decreases list.len(),
{
    if list.len() == 0 {
        Seq::empty()
    } else {
        let rest = tiers_of(list.drop_last());
        match list.last().list_of() {
            Some(urls) => rest.push(strings_of(urls)),
            None => rest,
        }
    }
}

/// The optional `announce-list`: empty when it is missing or not a list.
pub open spec fn announce_list_of(root: ValueModel) -> Seq<Seq<Seq<char>>> {
    match opt_list(root.lookup(key("announce-list"))) {
        Some(tiers) => tiers_of(tiers),
        None => Seq::empty(),
    }
}

/// One entry of `info.files`.
pub open spec fn file_entry_of(f: ValueModel) -> Result<FileModel, MetainfoError> {
    if f.dict_of() is None {
        Err(MetainfoError::InvalidField("info.files[].dict"))
    } else {
        match opt_int(f.lookup(key("length"))) {
            None => Err(MetainfoError::MissingField("info.files[].length")),
            Some(n) => match opt_list(f.lookup(key("path"))) {
                None => Err(MetainfoError::MissingField("info.files[].path")),
                Some(p) => Ok(FileModel { length: n as u64, path: strings_of(p) }),
            },
        }
    }
}

/// The entries of `info.files` and the sum of their lengths (modulo 2^64);
/// the first bad entry decides the error.
pub open spec fn files_of(list: Seq<ValueModel>) -> Result<(Seq<FileModel>, u64), MetainfoError>
    decreases list.len(),
{
    if list.len() == 0 {
        Ok((Seq::empty(), 0))
    } else {
        match files_of(list.drop_last()) {
            Err(e) => Err(e),
            Ok((fs, total)) => match file_entry_of(list.last()) {
                Err(e) => Err(e),
                Ok(f) => Ok((fs.push(f), total.wrapping_add(f.length))),
            },
        }
    }
}

/// Files, total length and whether the torrent is a single file.
pub open spec fn layout_of(info: ValueModel, name: Seq<char>) -> Result<
    (Seq<FileModel>, u64, bool),
    MetainfoError,
> {
    match info.lookup(key("length")) {
        Some(lv) => match lv.int_of() {
            None => Err(MetainfoError::InvalidField("info.length")),
            Some(n) => Ok(
                (seq![FileModel { length: n as u64, path: seq![name] }], n as u64, true),
            ),
        },
        None => match info.lookup(key("files")) {
            Some(fv) => match fv.list_of() {
                None => Err(MetainfoError::InvalidField("info.files")),
                Some(list) => match files_of(list) {
                    Err(e) => Err(e),
                    Ok((fs, total)) => Ok((fs, total, false)),
                },
            },
            None => Err(MetainfoError::MissingField("info.length or info.files")),
        },
    }
}

/// The info hash: the digest of the raw bytes of the value of the top-level
/// key `info`, which must be a dictionary.
pub open spec fn spec_info_hash(d: Seq<u8>) -> Result<Seq<u8>, MetainfoError> {
    match spec_value_span(d, key("info")) {
        Err(e) => Err(MetainfoError::Decode(e)),
        Ok(None) => Err(MetainfoError::InfoDictNotFound),
        Ok(Some((s, e))) => if d[s] == 100 {
            Ok(sha1_digest(d.subrange(s, e)))
        } else {
            Err(MetainfoError::InfoDictNotFound)
        },
    }
}

/// The piece hashes: consecutive 20-byte slices.
pub open spec fn piece_hashes_of(raw: Seq<u8>) -> Seq<Seq<u8>> {
    Seq::new((raw.len() / 20) as nat, |i: int| raw.subrange(20 * i, 20 * i + 20))
}

/// What `Metainfo::from_bytes` gives for a byte string.
pub open spec fn spec_from_bytes(d: Seq<u8>) -> Result<MetainfoModel, MetainfoError> {
    match spec_decode(d) {
        Err(e) => Err(MetainfoError::Decode(e)),
        Ok(root) => if root.dict_of() is None {
            Err(MetainfoError::InvalidField("root"))
        } else {
            let announce = match opt_str(root.lookup(key("announce"))) {
                Some(s) => s,
                None => Seq::empty(),
            };
            match root.lookup(key("info")) {
                None => Err(MetainfoError::MissingField("info")),
                Some(info) => if info.dict_of() is None {
                    Err(MetainfoError::InvalidField("info"))
                } else {
                    match spec_info_hash(d) {
                        Err(e) => Err(e),
                        Ok(info_hash) => match opt_str(info.lookup(key("name"))) {
                            None => Err(MetainfoError::MissingField("info.name")),
                            Some(name) => match opt_int(info.lookup(key("piece length"))) {
                                None => Err(MetainfoError::MissingField("info.piece length")),
                                Some(pl) => match opt_bytes(info.lookup(key("pieces"))) {
                                    None => Err(MetainfoError::MissingField("info.pieces")),
                                    Some(pieces) => if pieces.len() % 20 != 0 {
                                        Err(MetainfoError::MalformedPieces(pieces.len() as usize))
                                    } else {
                                        match layout_of(info, name) {
                                            Err(e) => Err(e),
                                            Ok((files, total, single)) => Ok(
                                                MetainfoModel {
                                                    announce,
                                                    announce_list: announce_list_of(root),
                                                    info_hash,
                                                    name,
                                                    piece_length: pl as u64,
                                                    piece_hashes: piece_hashes_of(pieces),
                                                    total_length: total,
                                                    files,
                                                    is_single_file: single,
                                                },
                                            ),
                                        }
                                    },
                                },
                            },
                        },
                    }
                },
            }
        },
    }
}

/// A 20-byte array holding `raw[start..start + 20]`.
fn hash_at(raw: &[u8], start: usize) -> (h: [u8; 20])
    requires
        start + 20 <= raw@.len(),
    ensures
        h@ == raw@.subrange(start as int, start + 20),
{
    let n = raw.len();
    let mut h = [0u8; 20];
    let mut j: usize = 0;
    while j < 20
        invariant
            n == raw@.len(),
            j <= 20,
            start + 20 <= raw@.len(),
            forall|k: int| 0 <= k < j ==> h@[k] == raw@[start + k],
        decreases 20 - j,
    {
        h[j] = raw[start + j];
        j += 1;
    }
    assert(h@ =~= raw@.subrange(start as int, start + 20));
    h
}

/// The texts among a list of values, in order.
fn strings_from(list: &[Value]) -> (r: Vec<String>)
    ensures
        strings_model(r@) == strings_of(list_model(list@)),
{
    let mut r: Vec<String> = Vec::new();
    let mut i: usize = 0;
    while i < list.len()
        invariant
            i <= list@.len(),
            strings_model(r@) == strings_of(list_model(list@.take(i as int))),
        decreases list@.len() - i,
    {
        proof {
            lemma_list_model_take(list@, i as int);
        }
        match list[i].as_str() {
            Some(s) => {
                let t = s.to_owned();
                proof {
                    assert(strings_model(r@.push(t)) =~= strings_model(r@).push(t@));
                }
                r.push(t);
            },
            None => {},
        }
        i += 1;
    }
    assert(list@.take(i as int) =~= list@);
    r
}

proof fn lemma_list_model_take(s: Seq<Value>, i: int)
    requires
        0 <= i < s.len(),
    ensures
        list_model(s.take(i + 1)) == list_model(s.take(i)).push(s[i].model()),
        list_model(s.take(i)).push(s[i].model()).drop_last() == list_model(s.take(i)),
{
    assert(s.take(i + 1).drop_last() =~= s.take(i));
    assert(list_model(s.take(i)).push(s[i].model()).drop_last() =~= list_model(s.take(i)));
}

proof fn lemma_files_of_prefix_err(s: Seq<ValueModel>, k: int)
    requires
        0 <= k <= s.len(),
        files_of(s.take(k)) is Err,
    ensures
        files_of(s) == files_of(s.take(k)),
    decreases s.len() - k,
{
    if k < s.len() {
        assert(s.take(k + 1).drop_last() =~= s.take(k));
        lemma_files_of_prefix_err(s, k + 1);
    } else {
        assert(s.take(k) =~= s);
    }
}

/// One entry of `info.files`.
fn file_entry(file_val: &Value) -> (r: Result<FileInfo, MetainfoError>)
    ensures
        match file_entry_of(file_val.model()) {
            Ok(f) => r matches Ok(x) && x.model() == f,
            Err(e) => r matches Err(x) && x == e,
        },
{
    if file_val.as_dict().is_none() {
        return Err(MetainfoError::InvalidField("info.files[].dict"));
    }
    let length = match file_val.get_str("length") {
        Some(v) => match v.as_integer() {
            Some(n) => n as u64,
            None => {
                return Err(MetainfoError::MissingField("info.files[].length"));
            },
        },
        None => {
            return Err(MetainfoError::MissingField("info.files[].length"));
        },
    };
    let path_list = match file_val.get_str("path") {
        Some(v) => match v.as_list() {
            Some(l) => l,
            None => {
                return Err(MetainfoError::MissingField("info.files[].path"));
            },
        },
        None => {
            return Err(MetainfoError::MissingField("info.files[].path"));
        },
    };
    let path = strings_from(path_list);
    Ok(FileInfo { length, path })
}

/// The entries of `info.files` and their total length.
fn files_from(list: &[Value]) -> (r: Result<(Vec<FileInfo>, u64), MetainfoError>)
    ensures
        match files_of(list_model(list@)) {
            Ok((fs, total)) => r matches Ok((x, t)) && x@.map_values(|f: FileInfo| f.model()) == fs
                && t == total,
            Err(e) => r matches Err(x) && x == e,
        },
{
    let mut files: Vec<FileInfo> = Vec::new();
    let mut total: u64 = 0;
    let mut i: usize = 0;
    assert(list_model(list@.take(0)) =~= Seq::empty());
    assert(files@.map_values(|f: FileInfo| f.model()) =~= Seq::<FileModel>::empty());
    while i < list.len()
        invariant
            i <= list@.len(),
            files_of(list_model(list@.take(i as int))) == Ok::<(Seq<FileModel>, u64), MetainfoError>(
                (files@.map_values(|f: FileInfo| f.model()), total),
            ),
        decreases list@.len() - i,
    {
        proof {
            lemma_list_model_take(list@, i as int);
        }
        let f = match file_entry(&list[i]) {
            Ok(f) => f,
            Err(e) => {
                proof {
                    lemma_list_model_prefix(list@, i + 1);
                    lemma_files_of_prefix_err(list_model(list@), i + 1);
                }
                return Err(e);
            },
        };
        total = total.wrapping_add(f.length);
        proof {
            assert(files@.push(f).map_values(|f: FileInfo| f.model()) =~= files@.map_values(
                |f: FileInfo| f.model(),
            ).push(f.model()));
        }
        files.push(f);
        i += 1;
    }
    assert(list@.take(i as int) =~= list@);
    Ok((files, total))
}

proof fn lemma_list_model_prefix(s: Seq<Value>, k: int)
    requires
        0 <= k <= s.len(),
    ensures
        list_model(s).take(k) == list_model(s.take(k)),
        list_model(s).len() == s.len(),
    decreases s.len(),
{
    if s.len() > 0 {
        lemma_list_model_prefix(s.drop_last(), if k < s.len() { k } else { s.len() - 1 });
        if k < s.len() {
            assert(s.drop_last().take(k) =~= s.take(k));
            assert(list_model(s).take(k) =~= list_model(s.drop_last()).take(k));
        } else {
            assert(s.take(k) =~= s);
            assert(list_model(s).take(k) =~= list_model(s));
        }
    } else {
        assert(s.take(k) =~= s);
        assert(list_model(s).take(k) =~= list_model(s));
    }
}

impl Metainfo {
    /// Parse the optional `announce-list`: the tiers that are lists, each
    /// reduced to the URLs that are text.
    pub fn parse_announce_list(root: &Value) -> (r: Vec<Vec<String>>)
        ensures
            r@.map_values(|t: Vec<String>| strings_model(t@)) == announce_list_of(root.model()),
    {
        let mut r: Vec<Vec<String>> = Vec::new();
        let tiers = match root.get_str("announce-list") {
            Some(v) => match v.as_list() {
                Some(t) => t,
                None => {
                    assert(r@.map_values(|t: Vec<String>| strings_model(t@)) =~= Seq::empty());
                    return r;
                },
            },
            None => {
                assert(r@.map_values(|t: Vec<String>| strings_model(t@)) =~= Seq::empty());
                return r;
            },
        };
        let mut i: usize = 0;
        while i < tiers.len()
            invariant
                i <= tiers@.len(),
                r@.map_values(|t: Vec<String>| strings_model(t@)) == tiers_of(
                    list_model(tiers@.take(i as int)),
                ),
            decreases tiers@.len() - i,
        {
            proof {
                lemma_list_model_take(tiers@, i as int);
            }
            match tiers[i].as_list() {
                Some(urls) => {
                    let t = strings_from(urls);
                    proof {
                        assert(r@.push(t).map_values(|t: Vec<String>| strings_model(t@))
                            =~= r@.map_values(|t: Vec<String>| strings_model(t@)).push(
                            strings_model(t@),
                        ));
                    }
                    r.push(t);
                },
                None => {},
            }
            i += 1;
        }
        assert(tiers@.take(i as int) =~= tiers@);
        r
    }

    /// Parse torrent metainfo from raw bencoded bytes.
    pub fn from_bytes(data: &[u8]) -> (r: Result<Self, MetainfoError>)
        ensures
            match spec_from_bytes(data@) {
                Ok(m) => r matches Ok(x) && x.model() == m,
                Err(e) => r matches Err(x) && x == e,
            },
    {
        let value = match decode(data) {
            Ok(v) => v,
            Err(e) => {
                return Err(MetainfoError::Decode(e));
            },
        };
        if value.as_dict().is_none() {
            return Err(MetainfoError::InvalidField("root"));
        }
        let announce = match value.get_str("announce") {
            Some(v) => match v.as_str() {
                Some(s) => s.to_owned(),
                None => {
                    proof {
                        reveal_strlit("");
                    }
                    "".to_owned()
                },
            },
            None => {
                proof {
                    reveal_strlit("");
                }
                "".to_owned()
            },
        };
        let announce_list = Self::parse_announce_list(&value);
        let info = match value.get_str("info") {
            Some(i) => i,
            None => {
                return Err(MetainfoError::MissingField("info"));
            },
        };
        if info.as_dict().is_none() {
            return Err(MetainfoError::InvalidField("info"));
        }
        let info_hash = match Self::compute_info_hash(data) {
            Ok(h) => h,
            Err(e) => {
                return Err(e);
            },
        };
        let name = match info.get_str("name") {
            Some(v) => match v.as_str() {
                Some(s) => s.to_owned(),
                None => {
                    return Err(MetainfoError::MissingField("info.name"));
                },
            },
            None => {
                return Err(MetainfoError::MissingField("info.name"));
            },
        };
        let piece_length = match info.get_str("piece length") {
            Some(v) => match v.as_integer() {
                Some(n) => n as u64,
                None => {
                    return Err(MetainfoError::MissingField("info.piece length"));
                },
            },
            None => {
                return Err(MetainfoError::MissingField("info.piece length"));
            },
        };
        let pieces_raw = match info.get_str("pieces") {
            Some(v) => match v.as_bytes() {
                Some(b) => b,
                None => {
                    return Err(MetainfoError::MissingField("info.pieces"));
                },
            },
            None => {
                return Err(MetainfoError::MissingField("info.pieces"));
            },
        };
        let piece_hashes = match Self::split_piece_hashes(pieces_raw) {
            Ok(h) => h,
            Err(e) => {
                return Err(e);
            },
        };
        let files;
        let total_length;
        let is_single_file;
        match info.get_str("length") {
            Some(length_val) => {
                let length = match length_val.as_integer() {
                    Some(n) => n as u64,
                    None => {
                        return Err(MetainfoError::InvalidField("info.length"));
                    },
                };
                let path = vec![name.clone()];
                files = vec![FileInfo { length, path }];
                total_length = length;
                is_single_file = true;
                proof {
                    assert(strings_model(path@) =~= seq![name@]);
                    assert(files@.map_values(|f: FileInfo| f.model()) =~= seq![
                        FileModel { length, path: seq![name@] },
                    ]);
                }
            },
            None => {
                match info.get_str("files") {
                    Some(files_val) => {
                        let file_list = match files_val.as_list() {
                            Some(l) => l,
                            None => {
                                return Err(MetainfoError::InvalidField("info.files"));
                            },
                        };
                        let (fs, total) = match files_from(file_list) {
                            Ok(x) => x,
                            Err(e) => {
                                return Err(e);
                            },
                        };
                        files = fs;
                        total_length = total;
                        is_single_file = false;
                    },
                    None => {
                        return Err(MetainfoError::MissingField("info.length or info.files"));
                    },
                }
            },
        }
        let m = Metainfo {
            announce,
            announce_list,
            info_hash,
            name,
            piece_length,
            piece_hashes,
            total_length,
            files,
            is_single_file,
        };
        proof {
            assert(m.model().announce_list =~= announce_list_of(value.model()));
            let sm = spec_from_bytes(data@);
            assert(sm is Ok);
            let mm = sm->Ok_0;
            assert(m.model().announce == mm.announce);
            assert(m.model().info_hash == mm.info_hash);
            assert(m.model().name == mm.name);
            assert(m.model().piece_length == mm.piece_length);
            assert(m.model().piece_hashes == mm.piece_hashes);
            assert(m.model().total_length == mm.total_length);
            assert(m.model().files == mm.files);
            assert(m.model().is_single_file == mm.is_single_file);
        }
        Ok(m)
    }

    /// The expected length of a piece: the piece length, or what is left of
    /// the total for the last piece, or 0 past the end.
    pub fn piece_size(&self, index: usize) -> (r: u64)
        requires
            index * self.piece_length <= u64::MAX,
        ensures
            r == spec_piece_size(self.total_length, self.piece_length, index as int),
    {
        let start = index as u64 * self.piece_length;
        let remaining = self.total_length.saturating_sub(start);
        if self.piece_length < remaining {
            self.piece_length
        } else {
            remaining
        }
    }

    /// Compute the SHA-1 digest of the raw bencoded `info` dictionary: the
    /// bytes of the value of the top-level key `info`.
    pub fn compute_info_hash(data: &[u8]) -> (r: Result<[u8; 20], MetainfoError>)
        ensures
            match spec_info_hash(data@) {
                Ok(h) => r matches Ok(x) && x@ == h,
                Err(e) => r matches Err(x) && x == e,
            },
    {
        proof {
            reveal_strlit("info");
        }
        let (start, end) = match value_span(data, "info".as_bytes()) {
            Ok(Some(span)) => span,
            Ok(None) => {
                return Err(MetainfoError::InfoDictNotFound);
            },
            Err(e) => {
                return Err(MetainfoError::Decode(e));
            },
        };
        if data[start] != 100 {
            return Err(MetainfoError::InfoDictNotFound);
        }
        Ok(sha1(&data[start..end]))
    }

    /// Split the concatenated piece hashes into 20-byte SHA-1 digests.
    pub fn split_piece_hashes(raw: &[u8]) -> (r: Result<Vec<[u8; 20]>, MetainfoError>)
        ensures
            raw@.len() % 20 != 0 ==> (r matches Err(MetainfoError::MalformedPieces(n)) && n
                == raw@.len()),
            raw@.len() % 20 == 0 ==> (r matches Ok(v) && v@.map_values(|h: [u8; 20]| h@)
                == piece_hashes_of(raw@)),
    {
        if raw.len() % 20 != 0 {
            return Err(MetainfoError::MalformedPieces(raw.len()));
        }
        let n = raw.len();
        let count = n / 20;
        let mut hashes: Vec<[u8; 20]> = Vec::with_capacity(count);
        let mut i: usize = 0;
        while i < count
            invariant
                count == raw@.len() / 20,
                n == raw@.len(),
                i <= count,
                hashes@.len() == i,
                forall|k: int| 0 <= k < i ==> (#[trigger] hashes@[k])@ == raw@.subrange(
                    20 * k,
                    20 * k + 20,
                ),
            decreases count - i,
        {
            proof {
                assert(i * 20 + 20 <= raw@.len()) by (nonlinear_arith)
                    requires
                        i < count,
                        count == raw@.len() / 20,
                ;
            }
            hashes.push(hash_at(raw, i * 20));
            i += 1;
        }
        assert(hashes@.map_values(|h: [u8; 20]| h@) =~= piece_hashes_of(raw@));
        Ok(hashes)
    }
}

/// The length of piece `index` of `total` bytes cut into pieces of
/// `piece_length`: a whole piece, what is left for the last one, 0 past the
/// end.
pub open spec fn spec_piece_size(total: u64, piece_length: u64, index: int) -> int {
    let start = index * piece_length;
    if total >= start + piece_length {
        piece_length as int
    } else if total >= start {
        total - start
    } else {
        0
    }
}

/// The lengths of the first `n` pieces, added up.
pub open spec fn pieces_total(total: u64, piece_length: u64, n: nat) -> int
    decreases n,
{
    if n == 0 {
        0
    } else {
        pieces_total(total, piece_length, (n - 1) as nat) + spec_piece_size(
            total,
            piece_length,
            n - 1,
        )
    }
}

/// The pieces cover the torrent without gap or overlap: the first `n` pieces
/// hold `n * piece_length` bytes, or the whole total once that is reached.
pub proof fn law_pieces_cover_total(total: u64, piece_length: u64, n: nat)
    ensures
        pieces_total(total, piece_length, n) == if n * piece_length <= total {
            n * piece_length
        } else {
            total as int
        },
    decreases n,
{
    if n > 0 {
        let k = (n - 1) as nat;
        law_pieces_cover_total(total, piece_length, k);
        let start = k * piece_length;
        assert(start >= 0) by (nonlinear_arith)
            requires
                start == k * piece_length,
        ;
        assert(n * piece_length == start + piece_length) by (nonlinear_arith)
            requires
                k == n - 1,
                start == k * piece_length,
        ;
        assert(pieces_total(total, piece_length, n) == pieces_total(total, piece_length, k)
            + spec_piece_size(total, piece_length, k as int));
    } else {
        assert(n * piece_length == 0) by (nonlinear_arith)
            requires
                n == 0,
        ;
    }
}

/// In a torrent that decodes and whose `info` is a dictionary, the info
/// hash is always found: it is the digest of the bytes of that dictionary.
pub proof fn law_info_hash_of_torrent(d: Seq<u8>)
    requires
        spec_decode(d) matches Ok(root) && root.lookup(key("info")) matches Some(info)
            && info.dict_of() is Some,
    ensures
        spec_value_span(d, key("info")) matches Ok(Some((s, e))) && parse_value_at(d, s) == Ok::<
            (ValueModel, int),
            DecodeError,
        >((spec_decode(d)->Ok_0.lookup(key("info"))->Some_0, e)) && spec_info_hash(d) == Ok::<
            Seq<u8>,
            MetainfoError,
        >(sha1_digest(d.subrange(s, e))),
{
    law_value_span(d, key("info"));
    let (s, e) = spec_value_span(d, key("info"))->Ok_0->Some_0;
    lemma_dict_starts(d, s);
}

/// The lengths of files added up, modulo 2^64.
pub open spec fn lengths_total(fs: Seq<FileModel>) -> u64
    decreases fs.len(),
{
    if fs.len() == 0 {
        0
    } else {
        lengths_total(fs.drop_last()).wrapping_add(fs.last().length)
    }
}

proof fn lemma_files_of(list: Seq<ValueModel>)
    ensures
        files_of(list) matches Ok((fs, total)) ==> {
            &&& fs.len() == list.len()
            &&& total == lengths_total(fs)
            &&& forall|k: int|
                0 <= k < list.len() ==> (#[trigger] fs[k]).length == list[k].lookup(
                    key("length"),
                )->Some_0->Int_0 as u64
        },
    decreases list.len(),
{
    if list.len() > 0 {
        lemma_files_of(list.drop_last());
        if let Ok((fs, total)) = files_of(list) {
            let (fs0, t0) = files_of(list.drop_last())->Ok_0;
            assert(fs.drop_last() =~= fs0);
            assert forall|k: int| 0 <= k < list.len() implies (#[trigger] fs[k]).length
                == list[k].lookup(key("length"))->Some_0->Int_0 as u64 by {
                if k < list.len() - 1 {
                    assert(fs[k] == fs0[k]);
                    assert(list[k] == list.drop_last()[k]);
                }
            }
        }
    }
}

/// The files of a torrent carry the lengths its `info` gives: a
/// single-file torrent has one file of `info.length` bytes; in a multi-file
/// torrent the k-th file has the `length` of the k-th entry of `info.files`.
/// The total length is the sum of the files' lengths.
pub proof fn law_file_lengths(d: Seq<u8>)
    requires
        spec_from_bytes(d) is Ok,
    ensures
        ({
            let m = spec_from_bytes(d)->Ok_0;
            let info = spec_decode(d)->Ok_0.lookup(key("info"))->Some_0;
            &&& m.total_length == lengths_total(m.files)
            &&& m.is_single_file ==> m.files.len() == 1 && m.files[0].length == info.lookup(
                key("length"),
            )->Some_0->Int_0 as u64
            &&& !m.is_single_file ==> {
                let list = info.lookup(key("files"))->Some_0->List_0;
                &&& m.files.len() == list.len()
                &&& forall|k: int|
                    0 <= k < list.len() ==> (#[trigger] m.files[k]).length == list[k].lookup(
                        key("length"),
                    )->Some_0->Int_0 as u64
            }
        }),
{
    let root = spec_decode(d)->Ok_0;
    let info = root.lookup(key("info"))->Some_0;
    let name = opt_str(info.lookup(key("name")))->Some_0;
    match info.lookup(key("length")) {
        Some(lv) => {
            let fs = seq![FileModel { length: lv->Int_0 as u64, path: seq![name] }];
            assert(fs.drop_last() =~= Seq::<FileModel>::empty());
            assert(lengths_total(fs.drop_last()) == 0);
            assert((0u64).wrapping_add(lv->Int_0 as u64) == lv->Int_0 as u64);
        },
        None => {
            let list = info.lookup(key("files"))->Some_0->List_0;
            lemma_files_of(list);
        },
    }
}

} // verus!
