//! Metainfo (.torrent) file generation, per BEP 0003: a stateless encoding
//! utility with no runtime interaction with the tracker. Dictionary keys
//! appear in sorted order; an absent `md5sum` is omitted.
use crate::bencode;
use vstd::prelude::*;
use vstd::string::StringSliceAdditionalSpecFns;

verus! {

/// The UTF-8 bytes a string value is encoded as.
pub open spec fn str_bytes(s: Seq<char>) -> Seq<u8> {
    vstd::utf8::encode_utf8(s)
}

/// One file of a multi-file torrent.
#[derive(Debug)]
pub struct MetaInfoFile {
    /// Length of the file in bytes.
    pub length: u64,
    /// Path to the file: each element a directory but the last, a filename.
    pub path: Vec<String>,
    /// md5sum of the file, if given.
    pub md5sum: Option<Vec<u8>>,
}

/// The `info` dictionary: a single file, or a directory of files.
#[derive(Debug)]
pub enum InfoInner {
    SingleFile {
        /// Filename.
        name: String,
        /// Number of bytes in each piece.
        piece_length: u64,
        /// Concatenation of the 20-byte SHA-1 values, one per piece.
        pieces: String,
        /// Length of the file in bytes.
        length: u64,
        /// md5sum of the file, if given.
        md5sum: Option<Vec<u8>>,
    },
    MultipleFile {
        /// Directory name.
        name: String,
        /// Number of bytes in each piece.
        piece_length: u32,
        /// Concatenation of the 20-byte SHA-1 values, one per piece.
        pieces: String,
        /// The files to distribute.
        files: Vec<MetaInfoFile>,
    },
}

/// A whole metainfo file: the announce URL and the `info` dictionary.
#[derive(Debug)]
pub struct MetaInfo {
    pub announce: String,
    pub info: InfoInner,
}

/// The optional `md5sum` entry: key and byte string, or nothing.
pub open spec fn spec_md5_bencode(m: Option<Vec<u8>>) -> Seq<u8> {
    match m {
        Some(v) => ("6:md5sum").spec_bytes() + bencode::spec_byte_string(v@),
        None => Seq::empty(),
    }
}

/// The members of the `path` list, each a byte string.
pub open spec fn spec_path_bencode(p: Seq<String>) -> Seq<u8>
    decreases p.len(),
{
    if p.len() == 0 {
        Seq::empty()
    } else {
        bencode::spec_byte_string(str_bytes(p[0]@)) + spec_path_bencode(p.skip(1))
    }
}

/// One file's dictionary, keys sorted: length, md5sum (optional), path.
pub open spec fn spec_file_bencode(f: MetaInfoFile) -> Seq<u8> {
    seq![100u8] + ("6:length").spec_bytes() + bencode::spec_integer(f.length as nat)
        + spec_md5_bencode(f.md5sum) + ("4:path").spec_bytes() + seq![108u8] + spec_path_bencode(
        f.path@,
    ) + seq![101u8] + seq![101u8]
}

/// The members of the `files` list.
pub open spec fn spec_files_bencode(fs: Seq<MetaInfoFile>) -> Seq<u8>
    decreases fs.len(),
{
    if fs.len() == 0 {
        Seq::empty()
    } else {
        spec_file_bencode(fs[0]) + spec_files_bencode(fs.skip(1))
    }
}

/// The `info` dictionary, keys sorted in each variant.
pub open spec fn spec_info_bencode(i: InfoInner) -> Seq<u8> {
    match i {
        InfoInner::SingleFile { name, piece_length, pieces, length, md5sum } => seq![100u8] + (
        "6:length").spec_bytes() + bencode::spec_integer(length as nat) + spec_md5_bencode(md5sum)
            + ("4:name").spec_bytes() + bencode::spec_byte_string(str_bytes(name@)) + (
        "12:piece length").spec_bytes() + bencode::spec_integer(piece_length as nat) + (
        "6:pieces").spec_bytes() + bencode::spec_byte_string(str_bytes(pieces@)) + seq![101u8],
        InfoInner::MultipleFile { name, piece_length, pieces, files } => seq![100u8] + (
        "5:files").spec_bytes() + seq![108u8] + spec_files_bencode(files@) + seq![101u8] + (
        "4:name").spec_bytes() + bencode::spec_byte_string(str_bytes(name@)) + (
        "12:piece length").spec_bytes() + bencode::spec_integer(piece_length as nat) + (
        "6:pieces").spec_bytes() + bencode::spec_byte_string(str_bytes(pieces@)) + seq![101u8],
    }
}

/// The whole metainfo dictionary: announce, then info.
pub open spec fn spec_metainfo_bencode(m: MetaInfo) -> Seq<u8> {
    seq![100u8] + ("8:announce").spec_bytes() + bencode::spec_byte_string(str_bytes(m.announce@))
        + ("4:info").spec_bytes() + spec_info_bencode(m.info) + seq![101u8]
}

/// Appending one path element extends the list encoding at its end.
proof fn lemma_path_bencode_push(p: Seq<String>, x: String)
    ensures
        spec_path_bencode(p.push(x)) == spec_path_bencode(p) + bencode::spec_byte_string(
            str_bytes(x@),
        ),
    decreases p.len(),
{
    let p2 = p.push(x);
    let enc = bencode::spec_byte_string(str_bytes(x@));
    if p.len() == 0 {
        assert(p2.skip(1) =~= Seq::<String>::empty());
        assert(spec_path_bencode(Seq::<String>::empty()) =~= Seq::<u8>::empty());
        assert(p2[0] == x);
        assert(spec_path_bencode(p2) =~= enc);
        assert(spec_path_bencode(p) + enc =~= enc);
    } else {
        assert(p2[0] == p[0]);
        assert(p2.skip(1) =~= p.skip(1).push(x));
        lemma_path_bencode_push(p.skip(1), x);
        let h = bencode::spec_byte_string(str_bytes(p[0]@));
        assert(h + (spec_path_bencode(p.skip(1)) + enc) =~= (h + spec_path_bencode(p.skip(1)))
            + enc);
    }
}

/// Appending one file extends the list encoding at its end.
proof fn lemma_files_bencode_push(fs: Seq<MetaInfoFile>, x: MetaInfoFile)
    ensures
        spec_files_bencode(fs.push(x)) == spec_files_bencode(fs) + spec_file_bencode(x),
    decreases fs.len(),
{
    let fs2 = fs.push(x);
    if fs.len() == 0 {
        assert(fs2.skip(1) =~= Seq::<MetaInfoFile>::empty());
        assert(spec_files_bencode(Seq::<MetaInfoFile>::empty()) =~= Seq::<u8>::empty());
        assert(fs2[0] == x);
        assert(spec_files_bencode(fs2) =~= spec_file_bencode(x));
        assert(spec_files_bencode(fs) + spec_file_bencode(x) =~= spec_file_bencode(x));
    } else {
        assert(fs2[0] == fs[0]);
        assert(fs2.skip(1) =~= fs.skip(1).push(x));
        lemma_files_bencode_push(fs.skip(1), x);
        assert(spec_file_bencode(fs[0]) + (spec_files_bencode(fs.skip(1)) + spec_file_bencode(x))
            =~= (spec_file_bencode(fs[0]) + spec_files_bencode(fs.skip(1))) + spec_file_bencode(
            x,
        ));
    }
}

/// Appends the optional `md5sum` entry.
fn push_md5(out: &mut Vec<u8>, m: &Option<Vec<u8>>)
    ensures
        final(out)@ == old(out)@ + spec_md5_bencode(*m),
{
    match m {
        Some(v) => {
            bencode::push_str_bytes(out, "6:md5sum");
            bencode::push_byte_string(out, v.as_slice());
            assert(final(out)@ =~= old(out)@ + spec_md5_bencode(*m));
        },
        None => {
            assert(final(out)@ =~= old(out)@ + spec_md5_bencode(*m));
        },
    }
}

/// Appends one file's dictionary.
fn push_file(out: &mut Vec<u8>, f: &MetaInfoFile)
    ensures
        final(out)@ == old(out)@ + spec_file_bencode(*f),
{
    out.push(100);
    bencode::push_str_bytes(out, "6:length");
    bencode::push_integer(out, f.length);
    push_md5(out, &f.md5sum);
    bencode::push_str_bytes(out, "4:path");
    out.push(108);
    let ghost head = out@;
    let mut i: usize = 0;
    assert(spec_path_bencode(f.path@.take(0)) =~= Seq::<u8>::empty());
    assert(out@ =~= head + spec_path_bencode(f.path@.take(0)));
    while i < f.path.len()
        invariant
            i <= f.path@.len(),
            out@ == head + spec_path_bencode(f.path@.take(i as int)),
        decreases f.path@.len() - i,
    {
        bencode::push_byte_string(out, f.path[i].as_str().as_bytes());
        proof {
            let ps = f.path@;
            assert(ps.take(i + 1) =~= ps.take(i as int).push(ps[i as int]));
            lemma_path_bencode_push(ps.take(i as int), ps[i as int]);
            let enc = bencode::spec_byte_string(str_bytes(ps[i as int]@));
            assert(head + (spec_path_bencode(ps.take(i as int)) + enc) =~= (head
                + spec_path_bencode(ps.take(i as int))) + enc);
        }
        i = i + 1;
    }
    assert(f.path@.take(f.path@.len() as int) =~= f.path@);
    out.push(101);
    out.push(101);
    assert(final(out)@ =~= old(out)@ + spec_file_bencode(*f));
}

impl MetaInfo {
    /// The bencoded content of the .torrent file.
    #[verifier::rlimit(80)]
    pub fn bencode(&self) -> (r: Vec<u8>)
        ensures
            r@ == spec_metainfo_bencode(*self),
    {
        let mut out: Vec<u8> = Vec::new();
        out.push(100);
        bencode::push_str_bytes(&mut out, "8:announce");
        bencode::push_byte_string(&mut out, self.announce.as_str().as_bytes());
        bencode::push_str_bytes(&mut out, "4:info");
        match &self.info {
            InfoInner::SingleFile { name, piece_length, pieces, length, md5sum } => {
                out.push(100);
                bencode::push_str_bytes(&mut out, "6:length");
                bencode::push_integer(&mut out, *length);
                push_md5(&mut out, md5sum);
                bencode::push_str_bytes(&mut out, "4:name");
                bencode::push_byte_string(&mut out, name.as_str().as_bytes());
                bencode::push_str_bytes(&mut out, "12:piece length");
                bencode::push_integer(&mut out, *piece_length);
                bencode::push_str_bytes(&mut out, "6:pieces");
                bencode::push_byte_string(&mut out, pieces.as_str().as_bytes());
                out.push(101);
            },
            InfoInner::MultipleFile { name, piece_length, pieces, files } => {
                out.push(100);
                bencode::push_str_bytes(&mut out, "5:files");
                out.push(108);
                let ghost head = out@;
                let mut i: usize = 0;
                assert(spec_files_bencode(files@.take(0)) =~= Seq::<u8>::empty());
                assert(out@ =~= head + spec_files_bencode(files@.take(0)));
                while i < files.len()
                    invariant
                        i <= files@.len(),
                        out@ == head + spec_files_bencode(files@.take(i as int)),
                    decreases files@.len() - i,
                {
                    push_file(&mut out, &files[i]);
                    proof {
                        let fs = files@;
                        assert(fs.take(i + 1) =~= fs.take(i as int).push(fs[i as int]));
                        lemma_files_bencode_push(fs.take(i as int), fs[i as int]);
                        assert(head + (spec_files_bencode(fs.take(i as int)) + spec_file_bencode(
                            fs[i as int],
                        )) =~= (head + spec_files_bencode(fs.take(i as int))) + spec_file_bencode(
                            fs[i as int],
                        ));
                    }
                    i = i + 1;
                }
                assert(files@.take(files@.len() as int) =~= files@);
                out.push(101);
                bencode::push_str_bytes(&mut out, "4:name");
                bencode::push_byte_string(&mut out, name.as_str().as_bytes());
                bencode::push_str_bytes(&mut out, "12:piece length");
                bencode::push_integer(&mut out, *piece_length as u64);
                bencode::push_str_bytes(&mut out, "6:pieces");
                bencode::push_byte_string(&mut out, pieces.as_str().as_bytes());
                out.push(101);
            },
        }
        out.push(101);
        assert(out@ =~= spec_metainfo_bencode(*self));
        out
    }
}

} // verus!
