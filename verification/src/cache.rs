//! The persistent scan cache: a build-version-gated image of computed
//! search-path fragments and scanned loadable files, serialized to a
//! byte format whose parser provably undoes its encoder.
//!
//! All file I/O stays with the caller: reading hands bytes in, and
//! committing hands an action back (keep, delete, or write these bytes).

use vstd::prelude::*;

use crate::codec::enc_chars;
use crate::codec::enc_u64;
use crate::codec::lemma_concat_parts;
use crate::codec::lemma_parse_enc_chars;
use crate::codec::lemma_parse_enc_u64;
use crate::codec::parse_chars;
use crate::codec::parse_u64;
use crate::codec::take_chars;
use crate::codec::take_u64;
use crate::runtimepath::RuntimePath;

verus! {

/// Distinguishes image layouts, apart from the build-identity token.
pub const SCHEMA_VERSION: u8 = 1;

/// How a discovered file is to be loaded. An open-ended set of kinds;
/// today a file is always executed as a script.
pub enum FileLoader {
    Script(String),
}

impl FileLoader {
    pub open spec fn script_view(&self) -> Seq<char> {
        match self {
            FileLoader::Script(s) => s@,
        }
    }

    /// The script text that performs this load.
    pub fn script(&self) -> (r: &String)
        ensures
            r@ == self.script_view(),
    {
        match self {
            FileLoader::Script(s) => s,
        }
    }
}

impl Default for FileLoader {
    fn default() -> (r: Self)
        ensures
            r.script_view() == Seq::<char>::empty(),
    {
        FileLoader::Script(String::new())
    }
}

/// A discovered loadable file: its load directive, and a symbolic name
/// used only to let a filter disable built-in default files.
pub struct File {
    pub loader: FileLoader,
    pub name: Option<String>,
}

/// The search-path fragment derived from the package directory option,
/// keyed by the option value it was derived from.
pub struct Package {
    pub packpath: String,
    pub runtimepath: RuntimePath,
}

/// The full cache image.
pub struct Inner {
    /// Build-identity token: stamped when the image is written, compared
    /// when it is read back.
    pub id: Vec<u8>,
    pub package: Package,
    /// Derived search-path fragment per package root path.
    pub runtimepaths: Vec<(String, RuntimePath)>,
    /// Discovered loadable files per scanned directory.
    pub plugins: Vec<(String, Vec<File>)>,
}

pub struct Cache {
    /// Cleared the moment any fresh scan occurs; decides the commit.
    pub is_valid: bool,
    pub inner: Inner,
}

/// What committing the cache asks the caller to do to the cache file.
pub enum CacheAction {
    Keep,
    Delete,
    Write(Vec<u8>),
}

// ---------------------------------------------------------------------
// Mathematical views of the image.
pub struct RtpView {
    pub entries: Seq<Seq<char>>,
    pub split: int,
}

pub struct FileView {
    pub script: Seq<char>,
    pub name: Option<Seq<char>>,
}

pub struct InnerView {
    pub id: Seq<u8>,
    pub packpath: Seq<char>,
    pub package_rtp: RtpView,
    pub runtimepaths: Seq<(Seq<char>, RtpView)>,
    pub plugins: Seq<(Seq<char>, Seq<FileView>)>,
}

pub open spec fn rtp_view(r: RuntimePath) -> RtpView {
    RtpView { entries: r.entries_view(), split: r.split_idx() }
}

/// The primary region of a stored fragment.
pub open spec fn rv_primary(v: RtpView) -> Seq<Seq<char>> {
    v.entries.take(v.split)
}

/// The overlay region of a stored fragment.
pub open spec fn rv_overlay(v: RtpView) -> Seq<Seq<char>> {
    v.entries.skip(v.split)
}

pub open spec fn file_view(f: File) -> FileView {
    FileView { script: f.loader.script_view(), name: f.name.deep_view() }
}

pub open spec fn files_view(fs: Seq<File>) -> Seq<FileView> {
    Seq::new(fs.len(), |i: int| file_view(fs[i]))
}

pub open spec fn rtp_map_view(m: Seq<(String, RuntimePath)>) -> Seq<(Seq<char>, RtpView)> {
    Seq::new(m.len(), |i: int| (m[i].0@, rtp_view(m[i].1)))
}

pub open spec fn plugin_map_view(m: Seq<(String, Vec<File>)>) -> Seq<
    (Seq<char>, Seq<FileView>),
> {
    Seq::new(m.len(), |i: int| (m[i].0@, files_view(m[i].1@)))
}

pub open spec fn inner_view(i: Inner) -> InnerView {
    InnerView {
        id: i.id@,
        packpath: i.package.packpath@,
        package_rtp: rtp_view(i.package.runtimepath),
        runtimepaths: rtp_map_view(i.runtimepaths@),
        plugins: plugin_map_view(i.plugins@),
    }
}

pub open spec fn empty_rtp_view() -> RtpView {
    RtpView { entries: Seq::<Seq<char>>::empty(), split: 0 }
}

pub open spec fn empty_inner_view() -> InnerView {
    InnerView {
        id: Seq::<u8>::empty(),
        packpath: Seq::<char>::empty(),
        package_rtp: empty_rtp_view(),
        runtimepaths: Seq::<(Seq<char>, RtpView)>::empty(),
        plugins: Seq::<(Seq<char>, Seq<FileView>)>::empty(),
    }
}

// ---------------------------------------------------------------------
// Encoding.
pub open spec fn enc_bytes(s: Seq<u8>) -> Seq<u8> {
    enc_u64(s.len() as u64) + s
}

pub open spec fn enc_opt_chars(o: Option<Seq<char>>) -> Seq<u8> {
    match o {
        None => seq![0u8],
        Some(s) => seq![1u8] + enc_chars(s),
    }
}

pub open spec fn enc_entries(es: Seq<Seq<char>>) -> Seq<u8>
    decreases es.len(),
{
    if es.len() == 0 {
        Seq::<u8>::empty()
    } else {
        enc_chars(es[0]) + enc_entries(es.drop_first())
    }
}

pub open spec fn enc_rtp(v: RtpView) -> Seq<u8> {
    enc_u64(v.entries.len() as u64) + enc_u64(v.split as u64) + enc_entries(v.entries)
}

pub open spec fn enc_file(f: FileView) -> Seq<u8> {
    seq![0u8] + enc_chars(f.script) + enc_opt_chars(f.name)
}

pub open spec fn enc_files_body(fs: Seq<FileView>) -> Seq<u8>
    decreases fs.len(),
{
    if fs.len() == 0 {
        Seq::<u8>::empty()
    } else {
        enc_file(fs[0]) + enc_files_body(fs.drop_first())
    }
}

pub open spec fn enc_files(fs: Seq<FileView>) -> Seq<u8> {
    enc_u64(fs.len() as u64) + enc_files_body(fs)
}

pub open spec fn enc_rtp_map_body(m: Seq<(Seq<char>, RtpView)>) -> Seq<u8>
    decreases m.len(),
{
    if m.len() == 0 {
        Seq::<u8>::empty()
    } else {
        enc_chars(m[0].0) + enc_rtp(m[0].1) + enc_rtp_map_body(m.drop_first())
    }
}

pub open spec fn enc_rtp_map(m: Seq<(Seq<char>, RtpView)>) -> Seq<u8> {
    enc_u64(m.len() as u64) + enc_rtp_map_body(m)
}

pub open spec fn enc_plugin_map_body(m: Seq<(Seq<char>, Seq<FileView>)>) -> Seq<u8>
    decreases m.len(),
{
    if m.len() == 0 {
        Seq::<u8>::empty()
    } else {
        enc_chars(m[0].0) + enc_files(m[0].1) + enc_plugin_map_body(m.drop_first())
    }
}

pub open spec fn enc_plugin_map(m: Seq<(Seq<char>, Seq<FileView>)>) -> Seq<u8> {
    enc_u64(m.len() as u64) + enc_plugin_map_body(m)
}

pub open spec fn enc_inner(v: InnerView) -> Seq<u8> {
    seq![SCHEMA_VERSION] + enc_bytes(v.id) + enc_chars(v.packpath) + enc_rtp(v.package_rtp)
        + enc_rtp_map(v.runtimepaths) + enc_plugin_map(v.plugins)
}

// ---------------------------------------------------------------------
// Length bounds under which the format is faithful. Every view taken of
// an in-memory value satisfies them; only an adversarial mathematical
// sequence could break them.
pub open spec fn chars_bounded(s: Seq<char>) -> bool {
    s.len() <= u64::MAX
}

pub open spec fn entries_bounded(es: Seq<Seq<char>>) -> bool {
    es.len() <= u64::MAX && forall|i: int| 0 <= i < es.len() ==> chars_bounded(#[trigger] es[i])
}

pub open spec fn rtp_bounded(v: RtpView) -> bool {
    entries_bounded(v.entries) && 0 <= v.split <= v.entries.len()
}

pub open spec fn file_bounded(f: FileView) -> bool {
    chars_bounded(f.script) && (f.name matches Some(n) ==> chars_bounded(n))
}

pub open spec fn files_bounded(fs: Seq<FileView>) -> bool {
    fs.len() <= u64::MAX && forall|i: int| 0 <= i < fs.len() ==> file_bounded(#[trigger] fs[i])
}

pub open spec fn rtp_map_bounded(m: Seq<(Seq<char>, RtpView)>) -> bool {
    m.len() <= u64::MAX && forall|i: int|
        0 <= i < m.len() ==> chars_bounded(#[trigger] m[i].0) && rtp_bounded(m[i].1)
}

pub open spec fn plugin_map_bounded(m: Seq<(Seq<char>, Seq<FileView>)>) -> bool {
    m.len() <= u64::MAX && forall|i: int|
        0 <= i < m.len() ==> chars_bounded(#[trigger] m[i].0) && files_bounded(m[i].1)
}

pub open spec fn inner_bounded(v: InnerView) -> bool {
    v.id.len() <= u64::MAX && chars_bounded(v.packpath) && rtp_bounded(v.package_rtp)
        && rtp_map_bounded(v.runtimepaths) && plugin_map_bounded(v.plugins)
}

// ---------------------------------------------------------------------
// Parsing. Total over arbitrary bytes; every failure is `None`.
pub open spec fn parse_u8(b: Seq<u8>, pos: int) -> Option<(u8, int)> {
    if 0 <= pos && pos + 1 <= b.len() {
        Some((b[pos], pos + 1))
    } else {
        None
    }
}

pub open spec fn parse_bytes(b: Seq<u8>, pos: int) -> Option<(Seq<u8>, int)> {
    match parse_u64(b, pos) {
        None => None,
        Some((n, p1)) => if p1 + n <= b.len() {
            Some((b.subrange(p1, p1 + n), p1 + n))
        } else {
            None
        },
    }
}

pub open spec fn parse_opt_chars(b: Seq<u8>, pos: int) -> Option<(Option<Seq<char>>, int)> {
    match parse_u8(b, pos) {
        None => None,
        Some((tag, p1)) => if tag == 0 {
            Some((None, p1))
        } else if tag == 1 {
            match parse_chars(b, p1) {
                None => None,
                Some((s, p2)) => Some((Some(s), p2)),
            }
        } else {
            None
        },
    }
}

pub open spec fn parse_entries_n(b: Seq<u8>, pos: int, n: nat) -> Option<
    (Seq<Seq<char>>, int),
>
    decreases n,
{
    if n == 0 {
        Some((Seq::<Seq<char>>::empty(), pos))
    } else {
        match parse_chars(b, pos) {
            None => None,
            Some((s, p1)) => match parse_entries_n(b, p1, (n - 1) as nat) {
                None => None,
                Some((es, p2)) => Some((seq![s] + es, p2)),
            },
        }
    }
}

pub open spec fn parse_rtp(b: Seq<u8>, pos: int) -> Option<(RtpView, int)> {
    match parse_u64(b, pos) {
        None => None,
        Some((n, p1)) => match parse_u64(b, p1) {
            None => None,
            Some((split, p2)) => match parse_entries_n(b, p2, n as nat) {
                None => None,
                Some((es, p3)) => if split <= es.len() {
                    Some((RtpView { entries: es, split: split as int }, p3))
                } else {
                    None
                },
            },
        },
    }
}

pub open spec fn parse_file(b: Seq<u8>, pos: int) -> Option<(FileView, int)> {
    match parse_u8(b, pos) {
        None => None,
        Some((tag, p1)) => if tag != 0 {
            None
        } else {
            match parse_chars(b, p1) {
                None => None,
                Some((script, p2)) => match parse_opt_chars(b, p2) {
                    None => None,
                    Some((name, p3)) => Some((FileView { script, name }, p3)),
                },
            }
        },
    }
}

pub open spec fn parse_files_n(b: Seq<u8>, pos: int, n: nat) -> Option<(Seq<FileView>, int)>
    decreases n,
{
    if n == 0 {
        Some((Seq::<FileView>::empty(), pos))
    } else {
        match parse_file(b, pos) {
            None => None,
            Some((f, p1)) => match parse_files_n(b, p1, (n - 1) as nat) {
                None => None,
                Some((fs, p2)) => Some((seq![f] + fs, p2)),
            },
        }
    }
}

pub open spec fn parse_files(b: Seq<u8>, pos: int) -> Option<(Seq<FileView>, int)> {
    match parse_u64(b, pos) {
        None => None,
        Some((n, p1)) => parse_files_n(b, p1, n as nat),
    }
}

pub open spec fn parse_rtp_map_n(b: Seq<u8>, pos: int, n: nat) -> Option<
    (Seq<(Seq<char>, RtpView)>, int),
>
    decreases n,
{
    if n == 0 {
        Some((Seq::<(Seq<char>, RtpView)>::empty(), pos))
    } else {
        match parse_chars(b, pos) {
            None => None,
            Some((k, p1)) => match parse_rtp(b, p1) {
                None => None,
                Some((v, p2)) => match parse_rtp_map_n(b, p2, (n - 1) as nat) {
                    None => None,
                    Some((m, p3)) => Some((seq![(k, v)] + m, p3)),
                },
            },
        }
    }
}

pub open spec fn parse_plugin_map_n(b: Seq<u8>, pos: int, n: nat) -> Option<
    (Seq<(Seq<char>, Seq<FileView>)>, int),
>
    decreases n,
{
    if n == 0 {
        Some((Seq::<(Seq<char>, Seq<FileView>)>::empty(), pos))
    } else {
        match parse_chars(b, pos) {
            None => None,
            Some((k, p1)) => match parse_files(b, p1) {
                None => None,
                Some((fs, p2)) => match parse_plugin_map_n(b, p2, (n - 1) as nat) {
                    None => None,
                    Some((m, p3)) => Some((seq![(k, fs)] + m, p3)),
                },
            },
        }
    }
}

pub open spec fn parse_rtp_map(b: Seq<u8>, pos: int) -> Option<(Seq<(Seq<char>, RtpView)>, int)> {
    match parse_u64(b, pos) {
        None => None,
        Some((n, p1)) => parse_rtp_map_n(b, p1, n as nat),
    }
}

pub open spec fn parse_plugin_map(b: Seq<u8>, pos: int) -> Option<
    (Seq<(Seq<char>, Seq<FileView>)>, int),
> {
    match parse_u64(b, pos) {
        None => None,
        Some((n, p1)) => parse_plugin_map_n(b, p1, n as nat),
    }
}

pub open spec fn parse_inner(b: Seq<u8>, pos: int) -> Option<(InnerView, int)> {
    match parse_u8(b, pos) {
        None => None,
        Some((schema, p0)) => if schema != SCHEMA_VERSION {
            None
        } else {
            match parse_bytes(b, p0) {
                None => None,
                Some((id, p1)) => match parse_chars(b, p1) {
                    None => None,
                    Some((packpath, p2)) => match parse_rtp(b, p2) {
                        None => None,
                        Some((prtp, p3)) => match parse_rtp_map(b, p3) {
                            None => None,
                            Some((rm, p5)) => match parse_plugin_map(b, p5) {
                                None => None,
                                Some((pm, p7)) => Some(
                                    (
                                        InnerView {
                                            id,
                                            packpath,
                                            package_rtp: prtp,
                                            runtimepaths: rm,
                                            plugins: pm,
                                        },
                                        p7,
                                    ),
                                ),
                            },
                        },
                    },
                },
            }
        },
    }
}

/// The whole image, which must use the bytes exactly.
pub open spec fn spec_decode_inner(b: Seq<u8>) -> Option<InnerView> {
    match parse_inner(b, 0) {
        None => None,
        Some((v, p)) => if p == b.len() {
            Some(v)
        } else {
            None
        },
    }
}

// ---------------------------------------------------------------------
// The parser undoes the encoder.
proof fn lemma_parse_u8_at(b: Seq<u8>, pos: int, t: u8)
    requires
        0 <= pos,
        pos + 1 <= b.len(),
        b.subrange(pos, pos + 1) == seq![t],
    ensures
        parse_u8(b, pos) == Some((t, pos + 1)),
{
    assert(b.subrange(pos, pos + 1)[0] == b[pos]);
}

proof fn lemma_parse_enc_bytes(s: Seq<u8>, b: Seq<u8>, pos: int)
    requires
        0 <= pos,
        s.len() <= u64::MAX,
        pos + enc_bytes(s).len() <= b.len(),
        b.subrange(pos, pos + enc_bytes(s).len()) == enc_bytes(s),
    ensures
        parse_bytes(b, pos) == Some((s, pos + enc_bytes(s).len())),
{
    lemma_concat_parts(b, pos, enc_u64(s.len() as u64), s);
    lemma_parse_enc_u64(s.len() as u64, b, pos);
}

proof fn lemma_parse_enc_opt_chars(o: Option<Seq<char>>, b: Seq<u8>, pos: int)
    requires
        0 <= pos,
        o matches Some(s) ==> chars_bounded(s),
        pos + enc_opt_chars(o).len() <= b.len(),
        b.subrange(pos, pos + enc_opt_chars(o).len()) == enc_opt_chars(o),
    ensures
        parse_opt_chars(b, pos) == Some((o, pos + enc_opt_chars(o).len())),
{
    match o {
        None => {
            lemma_parse_u8_at(b, pos, 0u8);
        },
        Some(s) => {
            assert(enc_opt_chars(o) == seq![1u8] + enc_chars(s));
            lemma_concat_parts(b, pos, seq![1u8], enc_chars(s));
            lemma_parse_u8_at(b, pos, 1u8);
            lemma_parse_enc_chars(s, b, pos + 1);
        },
    }
}

proof fn lemma_parse_enc_entries_n(es: Seq<Seq<char>>, b: Seq<u8>, pos: int)
    requires
        0 <= pos,
        entries_bounded(es),
        pos + enc_entries(es).len() <= b.len(),
        b.subrange(pos, pos + enc_entries(es).len()) == enc_entries(es),
    ensures
        parse_entries_n(b, pos, es.len() as nat) == Some((es, pos + enc_entries(es).len())),
    decreases es.len(),
{
    if es.len() == 0 {
        assert(es =~= Seq::<Seq<char>>::empty());
    } else {
        let h = es[0];
        let t = es.drop_first();
        assert(enc_entries(es) == enc_chars(h) + enc_entries(t));
        lemma_concat_parts(b, pos, enc_chars(h), enc_entries(t));
        lemma_parse_enc_chars(h, b, pos);
        assert forall|i: int| 0 <= i < t.len() implies chars_bounded(#[trigger] t[i]) by {
            assert(t[i] == es[i + 1]);
        }
        lemma_parse_enc_entries_n(t, b, pos + enc_chars(h).len());
        assert(seq![h] + t =~= es);
    }
}

proof fn lemma_parse_enc_rtp(v: RtpView, b: Seq<u8>, pos: int)
    requires
        0 <= pos,
        rtp_bounded(v),
        pos + enc_rtp(v).len() <= b.len(),
        b.subrange(pos, pos + enc_rtp(v).len()) == enc_rtp(v),
    ensures
        parse_rtp(b, pos) == Some((v, pos + enc_rtp(v).len())),
{
    let n = v.entries.len() as u64;
    let s = v.split as u64;
    assert(enc_rtp(v) =~= enc_u64(n) + (enc_u64(s) + enc_entries(v.entries)));
    lemma_concat_parts(b, pos, enc_u64(n), enc_u64(s) + enc_entries(v.entries));
    lemma_parse_enc_u64(n, b, pos);
    lemma_concat_parts(b, pos + 8, enc_u64(s), enc_entries(v.entries));
    lemma_parse_enc_u64(s, b, pos + 8);
    lemma_parse_enc_entries_n(v.entries, b, pos + 16);
}

proof fn lemma_parse_enc_file(f: FileView, b: Seq<u8>, pos: int)
    requires
        0 <= pos,
        file_bounded(f),
        pos + enc_file(f).len() <= b.len(),
        b.subrange(pos, pos + enc_file(f).len()) == enc_file(f),
    ensures
        parse_file(b, pos) == Some((f, pos + enc_file(f).len())),
{
    assert(enc_file(f) =~= seq![0u8] + (enc_chars(f.script) + enc_opt_chars(f.name)));
    lemma_concat_parts(b, pos, seq![0u8], enc_chars(f.script) + enc_opt_chars(f.name));
    lemma_parse_u8_at(b, pos, 0u8);
    lemma_concat_parts(b, pos + 1, enc_chars(f.script), enc_opt_chars(f.name));
    lemma_parse_enc_chars(f.script, b, pos + 1);
    lemma_parse_enc_opt_chars(f.name, b, pos + 1 + enc_chars(f.script).len());
}

proof fn lemma_parse_enc_files_n(fs: Seq<FileView>, b: Seq<u8>, pos: int)
    requires
        0 <= pos,
        files_bounded(fs),
        pos + enc_files_body(fs).len() <= b.len(),
        b.subrange(pos, pos + enc_files_body(fs).len()) == enc_files_body(fs),
    ensures
        parse_files_n(b, pos, fs.len() as nat) == Some(
            (fs, pos + enc_files_body(fs).len()),
        ),
    decreases fs.len(),
{
    if fs.len() == 0 {
        assert(fs =~= Seq::<FileView>::empty());
    } else {
        let h = fs[0];
        let t = fs.drop_first();
        assert(enc_files_body(fs) == enc_file(h) + enc_files_body(t));
        lemma_concat_parts(b, pos, enc_file(h), enc_files_body(t));
        lemma_parse_enc_file(h, b, pos);
        assert forall|i: int| 0 <= i < t.len() implies file_bounded(#[trigger] t[i]) by {
            assert(t[i] == fs[i + 1]);
        }
        lemma_parse_enc_files_n(t, b, pos + enc_file(h).len());
        assert(seq![h] + t =~= fs);
    }
}

proof fn lemma_parse_enc_files(fs: Seq<FileView>, b: Seq<u8>, pos: int)
    requires
        0 <= pos,
        files_bounded(fs),
        pos + enc_files(fs).len() <= b.len(),
        b.subrange(pos, pos + enc_files(fs).len()) == enc_files(fs),
    ensures
        parse_files(b, pos) == Some((fs, pos + enc_files(fs).len())),
{
    lemma_concat_parts(b, pos, enc_u64(fs.len() as u64), enc_files_body(fs));
    lemma_parse_enc_u64(fs.len() as u64, b, pos);
    lemma_parse_enc_files_n(fs, b, pos + 8);
}

proof fn lemma_parse_enc_rtp_map_n(m: Seq<(Seq<char>, RtpView)>, b: Seq<u8>, pos: int)
    requires
        0 <= pos,
        rtp_map_bounded(m),
        pos + enc_rtp_map_body(m).len() <= b.len(),
        b.subrange(pos, pos + enc_rtp_map_body(m).len()) == enc_rtp_map_body(m),
    ensures
        parse_rtp_map_n(b, pos, m.len() as nat) == Some(
            (m, pos + enc_rtp_map_body(m).len()),
        ),
    decreases m.len(),
{
    if m.len() == 0 {
        assert(m =~= Seq::<(Seq<char>, RtpView)>::empty());
    } else {
        let h = m[0];
        let t = m.drop_first();
        assert(enc_rtp_map_body(m) =~= enc_chars(h.0) + (enc_rtp(h.1) + enc_rtp_map_body(
            t,
        )));
        lemma_concat_parts(b, pos, enc_chars(h.0), enc_rtp(h.1) + enc_rtp_map_body(t));
        lemma_parse_enc_chars(h.0, b, pos);
        let p1 = pos + enc_chars(h.0).len();
        lemma_concat_parts(b, p1, enc_rtp(h.1), enc_rtp_map_body(t));
        lemma_parse_enc_rtp(h.1, b, p1);
        assert forall|i: int| 0 <= i < t.len() implies chars_bounded(#[trigger] t[i].0)
            && rtp_bounded(t[i].1) by {
            assert(t[i] == m[i + 1]);
        }
        lemma_parse_enc_rtp_map_n(t, b, p1 + enc_rtp(h.1).len());
        assert(seq![h] + t =~= m);
    }
}

proof fn lemma_parse_enc_plugin_map_n(
    m: Seq<(Seq<char>, Seq<FileView>)>,
    b: Seq<u8>,
    pos: int,
)
    requires
        0 <= pos,
        plugin_map_bounded(m),
        pos + enc_plugin_map_body(m).len() <= b.len(),
        b.subrange(pos, pos + enc_plugin_map_body(m).len()) == enc_plugin_map_body(m),
    ensures
        parse_plugin_map_n(b, pos, m.len() as nat) == Some(
            (m, pos + enc_plugin_map_body(m).len()),
        ),
    decreases m.len(),
{
    if m.len() == 0 {
        assert(m =~= Seq::<(Seq<char>, Seq<FileView>)>::empty());
    } else {
        let h = m[0];
        let t = m.drop_first();
        assert(enc_plugin_map_body(m) =~= enc_chars(h.0) + (enc_files(h.1)
            + enc_plugin_map_body(t)));
        lemma_concat_parts(b, pos, enc_chars(h.0), enc_files(h.1) + enc_plugin_map_body(t));
        lemma_parse_enc_chars(h.0, b, pos);
        let p1 = pos + enc_chars(h.0).len();
        lemma_concat_parts(b, p1, enc_files(h.1), enc_plugin_map_body(t));
        lemma_parse_enc_files(h.1, b, p1);
        assert forall|i: int| 0 <= i < t.len() implies chars_bounded(#[trigger] t[i].0)
            && files_bounded(t[i].1) by {
            assert(t[i] == m[i + 1]);
        }
        lemma_parse_enc_plugin_map_n(t, b, p1 + enc_files(h.1).len());
        assert(seq![h] + t =~= m);
    }
}

#[verifier::rlimit(100)]
proof fn lemma_parse_enc_inner_pre(v: InnerView, b: Seq<u8>, pos: int)
    requires
        0 <= pos,
        inner_bounded(v),
        pos + enc_inner(v).len() <= b.len(),
        b.subrange(pos, pos + enc_inner(v).len()) == enc_inner(v),
    ensures
        parse_u8(b, pos) == Some((SCHEMA_VERSION, pos + 1)),
        parse_bytes(b, pos + 1) == Some((v.id, pos + 1 + enc_bytes(v.id).len())),
        parse_chars(b, pos + 1 + enc_bytes(v.id).len()) == Some(
            (v.packpath, pos + 1 + enc_bytes(v.id).len() + enc_chars(v.packpath).len()),
        ),
        parse_rtp(b, pos + 1 + enc_bytes(v.id).len() + enc_chars(v.packpath).len())
            == Some(
            (
                v.package_rtp,
                pos + 1 + enc_bytes(v.id).len() + enc_chars(v.packpath).len() + enc_rtp(
                    v.package_rtp,
                ).len(),
            ),
        ),
        b.subrange(
            pos + 1 + enc_bytes(v.id).len() + enc_chars(v.packpath).len() + enc_rtp(
                v.package_rtp,
            ).len(),
            pos + 1 + enc_bytes(v.id).len() + enc_chars(v.packpath).len() + enc_rtp(
                v.package_rtp,
            ).len() + enc_rtp_map(v.runtimepaths).len(),
        ) == enc_rtp_map(v.runtimepaths),
        b.subrange(
            pos + 1 + enc_bytes(v.id).len() + enc_chars(v.packpath).len() + enc_rtp(
                v.package_rtp,
            ).len() + enc_rtp_map(v.runtimepaths).len(),
            pos + 1 + enc_bytes(v.id).len() + enc_chars(v.packpath).len() + enc_rtp(
                v.package_rtp,
            ).len() + enc_rtp_map(v.runtimepaths).len() + enc_plugin_map(v.plugins).len(),
        ) == enc_plugin_map(v.plugins),
{
    let a1 = enc_bytes(v.id);
    let a2 = enc_chars(v.packpath);
    let a3 = enc_rtp(v.package_rtp);
    let a4 = enc_rtp_map(v.runtimepaths);
    let a5 = enc_plugin_map(v.plugins);
    assert(enc_inner(v) =~= seq![SCHEMA_VERSION] + (a1 + (a2 + (a3 + (a4 + a5)))));
    lemma_concat_parts(b, pos, seq![SCHEMA_VERSION], a1 + (a2 + (a3 + (a4 + a5))));
    lemma_parse_u8_at(b, pos, SCHEMA_VERSION);
    let p0 = pos + 1;
    lemma_concat_parts(b, p0, a1, a2 + (a3 + (a4 + a5)));
    lemma_parse_enc_bytes(v.id, b, p0);
    let p1 = p0 + a1.len();
    lemma_concat_parts(b, p1, a2, a3 + (a4 + a5));
    lemma_parse_enc_chars(v.packpath, b, p1);
    let p2 = p1 + a2.len();
    lemma_concat_parts(b, p2, a3, a4 + a5);
    lemma_parse_enc_rtp(v.package_rtp, b, p2);
    let p3 = p2 + a3.len();
    lemma_concat_parts(b, p3, a4, a5);
}

#[verifier::rlimit(100)]
proof fn lemma_parse_enc_inner(v: InnerView, b: Seq<u8>, pos: int)
    requires
        0 <= pos,
        inner_bounded(v),
        pos + enc_inner(v).len() <= b.len(),
        b.subrange(pos, pos + enc_inner(v).len()) == enc_inner(v),
    ensures
        parse_inner(b, pos) == Some((v, pos + enc_inner(v).len())),
{
    lemma_parse_enc_inner_pre(v, b, pos);
    let a1 = enc_bytes(v.id);
    let a2 = enc_chars(v.packpath);
    let a3 = enc_rtp(v.package_rtp);
    let a4 = enc_rtp_map(v.runtimepaths);
    let a5 = enc_plugin_map(v.plugins);
    let p3 = pos + 1 + a1.len() + a2.len() + a3.len();
    let p4 = p3 + a4.len();
    assert(a4 =~= enc_u64(v.runtimepaths.len() as u64) + enc_rtp_map_body(v.runtimepaths));
    lemma_concat_parts(b, p3, enc_u64(v.runtimepaths.len() as u64), enc_rtp_map_body(
        v.runtimepaths,
    ));
    lemma_parse_enc_u64(v.runtimepaths.len() as u64, b, p3);
    lemma_parse_enc_rtp_map_n(v.runtimepaths, b, p3 + 8);
    assert(a5 =~= enc_u64(v.plugins.len() as u64) + enc_plugin_map_body(v.plugins));
    lemma_concat_parts(b, p4, enc_u64(v.plugins.len() as u64), enc_plugin_map_body(
        v.plugins,
    ));
    lemma_parse_enc_u64(v.plugins.len() as u64, b, p4);
    lemma_parse_enc_plugin_map_n(v.plugins, b, p4 + 8);
    assert(enc_inner(v).len() == 1 + a1.len() + a2.len() + a3.len() + a4.len() + a5.len());
}

// ---------------------------------------------------------------------
// Executable encoding.
proof fn lemma_enc_entries_snoc(es: Seq<Seq<char>>, e: Seq<char>)
    ensures
        enc_entries(es.push(e)) == enc_entries(es) + enc_chars(e),
    decreases es.len(),
{
    if es.len() == 0 {
        assert(es.push(e)[0] == e);
        assert(es.push(e).drop_first() =~= Seq::<Seq<char>>::empty());
        assert(enc_entries(Seq::<Seq<char>>::empty()) == Seq::<u8>::empty());
        assert(enc_entries(es.push(e)) =~= enc_entries(es) + enc_chars(e));
    } else {
        assert(es.push(e).drop_first() =~= es.drop_first().push(e));
        assert(es.push(e)[0] == es[0]);
        lemma_enc_entries_snoc(es.drop_first(), e);
        assert(enc_entries(es.push(e)) == enc_chars(es[0]) + enc_entries(
            es.drop_first().push(e),
        ));
        assert(enc_entries(es) == enc_chars(es[0]) + enc_entries(es.drop_first()));
        assert(enc_entries(es.push(e)) =~= enc_entries(es) + enc_chars(e));
    }
}

proof fn lemma_enc_files_body_snoc(fs: Seq<FileView>, f: FileView)
    ensures
        enc_files_body(fs.push(f)) == enc_files_body(fs) + enc_file(f),
    decreases fs.len(),
{
    if fs.len() == 0 {
        assert(fs.push(f)[0] == f);
        assert(fs.push(f).drop_first() =~= Seq::<FileView>::empty());
        assert(enc_files_body(Seq::<FileView>::empty()) == Seq::<u8>::empty());
        assert(enc_files_body(fs.push(f)) =~= enc_files_body(fs) + enc_file(f));
    } else {
        assert(fs.push(f).drop_first() =~= fs.drop_first().push(f));
        assert(fs.push(f)[0] == fs[0]);
        lemma_enc_files_body_snoc(fs.drop_first(), f);
        assert(enc_files_body(fs.push(f)) == enc_file(fs[0]) + enc_files_body(
            fs.drop_first().push(f),
        ));
        assert(enc_files_body(fs) == enc_file(fs[0]) + enc_files_body(fs.drop_first()));
        assert(enc_files_body(fs.push(f)) =~= enc_files_body(fs) + enc_file(f));
    }
}

proof fn lemma_enc_rtp_map_body_snoc(m: Seq<(Seq<char>, RtpView)>, kv: (Seq<char>, RtpView))
    ensures
        enc_rtp_map_body(m.push(kv)) == enc_rtp_map_body(m) + enc_chars(kv.0) + enc_rtp(
            kv.1,
        ),
    decreases m.len(),
{
    if m.len() == 0 {
        assert(m.push(kv)[0] == kv);
        assert(m.push(kv).drop_first() =~= Seq::<(Seq<char>, RtpView)>::empty());
        assert(enc_rtp_map_body(Seq::<(Seq<char>, RtpView)>::empty()) == Seq::<u8>::empty());
        assert(enc_rtp_map_body(m.push(kv)) =~= enc_rtp_map_body(m) + enc_chars(kv.0)
            + enc_rtp(kv.1));
    } else {
        assert(m.push(kv).drop_first() =~= m.drop_first().push(kv));
        assert(m.push(kv)[0] == m[0]);
        lemma_enc_rtp_map_body_snoc(m.drop_first(), kv);
        assert(enc_rtp_map_body(m.push(kv)) == enc_chars(m[0].0) + enc_rtp(m[0].1)
            + enc_rtp_map_body(m.drop_first().push(kv)));
        assert(enc_rtp_map_body(m) == enc_chars(m[0].0) + enc_rtp(m[0].1)
            + enc_rtp_map_body(m.drop_first()));
        assert(enc_rtp_map_body(m.push(kv)) =~= enc_rtp_map_body(m) + enc_chars(kv.0)
            + enc_rtp(kv.1));
    }
}

proof fn lemma_enc_plugin_map_body_snoc(
    m: Seq<(Seq<char>, Seq<FileView>)>,
    kv: (Seq<char>, Seq<FileView>),
)
    ensures
        enc_plugin_map_body(m.push(kv)) == enc_plugin_map_body(m) + enc_chars(kv.0)
            + enc_files(kv.1),
    decreases m.len(),
{
    if m.len() == 0 {
        assert(m.push(kv)[0] == kv);
        assert(m.push(kv).drop_first() =~= Seq::<(Seq<char>, Seq<FileView>)>::empty());
        assert(enc_plugin_map_body(Seq::<(Seq<char>, Seq<FileView>)>::empty())
            == Seq::<u8>::empty());
        assert(enc_plugin_map_body(m.push(kv)) =~= enc_plugin_map_body(m) + enc_chars(kv.0)
            + enc_files(kv.1));
    } else {
        assert(m.push(kv).drop_first() =~= m.drop_first().push(kv));
        assert(m.push(kv)[0] == m[0]);
        lemma_enc_plugin_map_body_snoc(m.drop_first(), kv);
        assert(enc_plugin_map_body(m.push(kv)) == enc_chars(m[0].0) + enc_files(m[0].1)
            + enc_plugin_map_body(m.drop_first().push(kv)));
        assert(enc_plugin_map_body(m) == enc_chars(m[0].0) + enc_files(m[0].1)
            + enc_plugin_map_body(m.drop_first()));
        assert(enc_plugin_map_body(m.push(kv)) =~= enc_plugin_map_body(m) + enc_chars(kv.0)
            + enc_files(kv.1));
    }
}

fn emit_bytes(out: &mut Vec<u8>, s: &Vec<u8>)
    ensures
        final(out)@ == old(out)@ + enc_bytes(s@),
        s@.len() <= u64::MAX,
{
    let n = s.len();
    crate::codec::emit_u64(out, n as u64);
    let ghost mid = out@;
    let mut i: usize = 0;
    proof {
        assert(out@ =~= mid + s@.take(0));
    }
    while i < n
        invariant
            0 <= i <= n,
            n == s@.len(),
            out@ == mid + s@.take(i as int),
        decreases n - i,
    {
        out.push(s[i]);
        proof {
            assert(s@.take(i + 1) =~= s@.take(i as int).push(s@[i as int]));
            assert(out@ =~= mid + s@.take(i + 1));
        }
        i = i + 1;
    }
    proof {
        assert(s@.take(n as int) =~= s@);
        assert(out@ =~= old(out)@ + enc_bytes(s@));
    }
}

fn emit_opt_chars(out: &mut Vec<u8>, name: &Option<String>)
    ensures
        final(out)@ == old(out)@ + enc_opt_chars(name.deep_view()),
        name.deep_view() matches Some(s) ==> chars_bounded(s),
{
    match name {
        None => {
            out.push(0u8);
            proof {
                assert(out@ =~= old(out)@ + enc_opt_chars(None));
            }
        },
        Some(s) => {
            out.push(1u8);
            let ghost mid = out@;
            crate::codec::emit_chars(out, s.as_str());
            proof {
                assert(out@ =~= old(out)@ + enc_opt_chars(Some(s@)));
            }
        },
    }
}

fn emit_rtp(out: &mut Vec<u8>, r: &RuntimePath)
    requires
        r.wf(),
    ensures
        final(out)@ == old(out)@ + enc_rtp(rtp_view(*r)),
        rtp_bounded(rtp_view(*r)),
{
    let es = r.entries();
    let n = es.len();
    proof {
        assert(es.deep_view().len() == n);
        r.lemma_regions();
    }
    crate::codec::emit_u64(out, n as u64);
    crate::codec::emit_u64(out, r.split_len() as u64);
    let ghost mid = out@;
    let ghost dv = es.deep_view();
    let mut i: usize = 0;
    proof {
        assert(enc_entries(dv.take(0)) == Seq::<u8>::empty());
        assert(out@ =~= mid + enc_entries(dv.take(0)));
    }
    while i < n
        invariant
            0 <= i <= n,
            n == dv.len(),
            dv == es.deep_view(),
            es@.len() == n,
            out@ == mid + enc_entries(dv.take(i as int)),
            forall|j: int| 0 <= j < i ==> chars_bounded(#[trigger] dv[j]),
        decreases n - i,
    {
        crate::codec::emit_chars(out, es[i].as_str());
        proof {
            lemma_enc_entries_snoc(dv.take(i as int), dv[i as int]);
            assert(dv.take(i + 1) =~= dv.take(i as int).push(dv[i as int]));
            assert(out@ =~= mid + enc_entries(dv.take(i + 1)));
        }
        i = i + 1;
    }
    proof {
        assert(dv.take(n as int) =~= dv);
        assert(out@ =~= old(out)@ + enc_rtp(rtp_view(*r)));
    }
}

fn emit_file(out: &mut Vec<u8>, f: &File)
    ensures
        final(out)@ == old(out)@ + enc_file(file_view(*f)),
        file_bounded(file_view(*f)),
{
    out.push(0u8);
    crate::codec::emit_chars(out, f.loader.script().as_str());
    emit_opt_chars(out, &f.name);
    proof {
        assert(out@ =~= old(out)@ + enc_file(file_view(*f)));
    }
}

fn emit_files(out: &mut Vec<u8>, fs: &Vec<File>)
    ensures
        final(out)@ == old(out)@ + enc_files(files_view(fs@)),
        files_bounded(files_view(fs@)),
{
    let n = fs.len();
    let ghost fv = files_view(fs@);
    proof {
        assert(fv.len() == n);
    }
    crate::codec::emit_u64(out, n as u64);
    let ghost mid = out@;
    let mut i: usize = 0;
    proof {
        assert(enc_files_body(fv.take(0)) == Seq::<u8>::empty());
        assert(out@ =~= mid + enc_files_body(fv.take(0)));
    }
    while i < n
        invariant
            0 <= i <= n,
            n == fs@.len(),
            fv == files_view(fs@),
            out@ == mid + enc_files_body(fv.take(i as int)),
            forall|j: int| 0 <= j < i ==> file_bounded(#[trigger] fv[j]),
        decreases n - i,
    {
        emit_file(out, &fs[i]);
        proof {
            assert(fv[i as int] == file_view(fs@[i as int]));
            lemma_enc_files_body_snoc(fv.take(i as int), fv[i as int]);
            assert(fv.take(i + 1) =~= fv.take(i as int).push(fv[i as int]));
            assert(out@ =~= mid + enc_files_body(fv.take(i + 1)));
        }
        i = i + 1;
    }
    proof {
        assert(fv.take(n as int) =~= fv);
        assert(out@ =~= old(out)@ + enc_files(fv));
    }
}

fn emit_rtp_map(out: &mut Vec<u8>, m: &Vec<(String, RuntimePath)>)
    requires
        forall|i: int| 0 <= i < m@.len() ==> (#[trigger] m@[i]).1.wf(),
    ensures
        final(out)@ == old(out)@ + enc_rtp_map(rtp_map_view(m@)),
        rtp_map_bounded(rtp_map_view(m@)),
{
    let n = m.len();
    let ghost mv = rtp_map_view(m@);
    proof {
        assert(mv.len() == n);
    }
    crate::codec::emit_u64(out, n as u64);
    let ghost mid = out@;
    let mut i: usize = 0;
    proof {
        assert(enc_rtp_map_body(mv.take(0)) == Seq::<u8>::empty());
        assert(out@ =~= mid + enc_rtp_map_body(mv.take(0)));
    }
    while i < n
        invariant
            0 <= i <= n,
            n == m@.len(),
            mv == rtp_map_view(m@),
            forall|j: int| 0 <= j < m@.len() ==> (#[trigger] m@[j]).1.wf(),
            out@ == mid + enc_rtp_map_body(mv.take(i as int)),
            forall|j: int| 0 <= j < i ==> chars_bounded(#[trigger] mv[j].0),
            forall|j: int| 0 <= j < i ==> rtp_bounded(#[trigger] mv[j].1),
        decreases n - i,
    {
        crate::codec::emit_chars(out, m[i].0.as_str());
        emit_rtp(out, &m[i].1);
        proof {
            assert(mv[i as int] == (m@[i as int].0@, rtp_view(m@[i as int].1)));
            assert(chars_bounded(mv[i as int].0));
            assert(rtp_bounded(mv[i as int].1));
            assert forall|j: int| 0 <= j < i + 1 implies chars_bounded(#[trigger] mv[j].0)
                && rtp_bounded(mv[j].1) by {
                if j == i as int {
                    assert(chars_bounded(mv[j].0) && rtp_bounded(mv[j].1));
                }
            }
            lemma_enc_rtp_map_body_snoc(mv.take(i as int), mv[i as int]);
            assert(mv.take(i + 1) =~= mv.take(i as int).push(mv[i as int]));
            assert(out@ =~= mid + enc_rtp_map_body(mv.take(i + 1)));
        }
        i = i + 1;
    }
    proof {
        assert(mv.take(n as int) =~= mv);
        assert(out@ =~= old(out)@ + enc_rtp_map(mv));
    }
}

fn emit_plugin_map(out: &mut Vec<u8>, m: &Vec<(String, Vec<File>)>)
    ensures
        final(out)@ == old(out)@ + enc_plugin_map(plugin_map_view(m@)),
        plugin_map_bounded(plugin_map_view(m@)),
{
    let n = m.len();
    let ghost mv = plugin_map_view(m@);
    proof {
        assert(mv.len() == n);
    }
    crate::codec::emit_u64(out, n as u64);
    let ghost mid = out@;
    let mut i: usize = 0;
    proof {
        assert(enc_plugin_map_body(mv.take(0)) == Seq::<u8>::empty());
        assert(out@ =~= mid + enc_plugin_map_body(mv.take(0)));
    }
    while i < n
        invariant
            0 <= i <= n,
            n == m@.len(),
            mv == plugin_map_view(m@),
            out@ == mid + enc_plugin_map_body(mv.take(i as int)),
            forall|j: int| 0 <= j < i ==> chars_bounded(#[trigger] mv[j].0),
            forall|j: int| 0 <= j < i ==> files_bounded(#[trigger] mv[j].1),
        decreases n - i,
    {
        crate::codec::emit_chars(out, m[i].0.as_str());
        emit_files(out, &m[i].1);
        proof {
            assert(mv[i as int] == (m@[i as int].0@, files_view(m@[i as int].1@)));
            assert(chars_bounded(mv[i as int].0));
            assert(files_bounded(mv[i as int].1));
            assert forall|j: int| 0 <= j < i + 1 implies chars_bounded(#[trigger] mv[j].0)
                && files_bounded(mv[j].1) by {
                if j == i as int {
                    assert(chars_bounded(mv[j].0) && files_bounded(mv[j].1));
                }
            }
            lemma_enc_plugin_map_body_snoc(mv.take(i as int), mv[i as int]);
            assert(mv.take(i + 1) =~= mv.take(i as int).push(mv[i as int]));
            assert(out@ =~= mid + enc_plugin_map_body(mv.take(i + 1)));
        }
        i = i + 1;
    }
    proof {
        assert(mv.take(n as int) =~= mv);
        assert(out@ =~= old(out)@ + enc_plugin_map(mv));
    }
}

impl Inner {
    /// Every search-path fragment held by the image is well formed.
    pub open spec fn wf(&self) -> bool {
        self.package.runtimepath.wf() && forall|i: int|
            0 <= i < self.runtimepaths@.len() ==> (#[trigger] self.runtimepaths@[i]).1.wf()
    }

    pub fn new_empty() -> (r: Inner)
        ensures
            r.wf(),
            inner_view(r) == empty_inner_view(),
    {
        let r = Inner {
            id: Vec::new(),
            package: Package {
                packpath: String::new(),
                runtimepath: RuntimePath::new_empty(),
            },
            runtimepaths: Vec::new(),
            plugins: Vec::new(),
        };
        proof {
            r.package.runtimepath.lemma_regions();
            assert(r.package.runtimepath.entries_view() =~= Seq::<Seq<char>>::empty());
            assert(rtp_map_view(r.runtimepaths@) =~= Seq::<(Seq<char>, RtpView)>::empty());
            assert(plugin_map_view(r.plugins@) =~= Seq::<
                (Seq<char>, Seq<FileView>),
            >::empty());
        }
        r
    }
}

/// Serializes the image. The result decodes back to the very same image.
pub fn encode_inner(i: &Inner) -> (r: Vec<u8>)
    requires
        i.wf(),
    ensures
        r@ == enc_inner(inner_view(*i)),
        inner_bounded(inner_view(*i)),
        spec_decode_inner(r@) == Some(inner_view(*i)),
{
    let mut out: Vec<u8> = Vec::new();
    out.push(SCHEMA_VERSION);
    emit_bytes(&mut out, &i.id);
    crate::codec::emit_chars(&mut out, i.package.packpath.as_str());
    emit_rtp(&mut out, &i.package.runtimepath);
    emit_rtp_map(&mut out, &i.runtimepaths);
    emit_plugin_map(&mut out, &i.plugins);
    proof {
        assert(out@ =~= enc_inner(inner_view(*i)));
        lemma_decode_enc_inner(inner_view(*i));
    }
    out
}

/// Decoding an encoded image yields that image back.
pub proof fn lemma_decode_enc_inner(v: InnerView)
    requires
        inner_bounded(v),
    ensures
        spec_decode_inner(enc_inner(v)) == Some(v),
{
    let b = enc_inner(v);
    assert(b.subrange(0, b.len() as int) =~= b);
    lemma_parse_enc_inner(v, b, 0);
}

// ---------------------------------------------------------------------
// Executable decoding.
fn take_u8(b: &Vec<u8>, pos: usize) -> (r: Option<(u8, usize)>)
    ensures
        r is Some <==> parse_u8(b@, pos as int) is Some,
        r matches Some((t, p)) ==> parse_u8(b@, pos as int) == Some((t, p as int)),
{
    if pos < b.len() {
        Some((b[pos], pos + 1))
    } else {
        None
    }
}

/// Whether two byte strings hold the same bytes.
pub fn bytes_eq(a: &Vec<u8>, b: &Vec<u8>) -> (r: bool)
    ensures
        r == (a@ == b@),
{
    if a.len() != b.len() {
        return false;
    }
    let mut i: usize = 0;
    while i < a.len()
        invariant
            0 <= i <= a@.len(),
            a@.len() == b@.len(),
            forall|j: int| 0 <= j < i ==> a@[j] == b@[j],
        decreases a.len() - i,
    {
        if a[i] != b[i] {
            return false;
        }
        i = i + 1;
    }
    proof {
        assert(a@ =~= b@);
    }
    true
}

fn clone_bytes(v: &Vec<u8>) -> (r: Vec<u8>)
    ensures
        r@ == v@,
{
    let mut r: Vec<u8> = Vec::new();
    let mut i: usize = 0;
    while i < v.len()
        invariant
            0 <= i <= v@.len(),
            r@ =~= v@.take(i as int),
        decreases v.len() - i,
    {
        r.push(v[i]);
        proof {
            assert(r@ =~= v@.take(i + 1));
        }
        i = i + 1;
    }
    proof {
        assert(v@.take(v@.len() as int) =~= v@);
    }
    r
}

fn take_bytes(b: &Vec<u8>, pos: usize) -> (r: Option<(Vec<u8>, usize)>)
    ensures
        r is Some <==> parse_bytes(b@, pos as int) is Some,
        r matches Some((s, p)) ==> parse_bytes(b@, pos as int) == Some((s@, p as int)),
{
    let (n, p1) = match take_u64(b, pos) {
        None => {
            return None;
        },
        Some(x) => x,
    };
    if n > (b.len() - p1) as u64 {
        return None;
    }
    let end = p1 + n as usize;
    let mut s: Vec<u8> = Vec::new();
    let mut i: usize = p1;
    while i < end
        invariant
            p1 <= i <= end <= b@.len(),
            s@ =~= b@.subrange(p1 as int, i as int),
        decreases end - i,
    {
        s.push(b[i]);
        proof {
            assert(s@ =~= b@.subrange(p1 as int, i + 1));
        }
        i = i + 1;
    }
    Some((s, end))
}

fn take_opt_chars(b: &Vec<u8>, pos: usize) -> (r: Option<(Option<String>, usize)>)
    ensures
        r is Some <==> parse_opt_chars(b@, pos as int) is Some,
        r matches Some((o, p)) ==> parse_opt_chars(b@, pos as int) == Some(
            (o.deep_view(), p as int),
        ),
{
    let (tag, p1) = match take_u8(b, pos) {
        None => {
            return None;
        },
        Some(x) => x,
    };
    if tag == 0 {
        Some((None, p1))
    } else if tag == 1 {
        match take_chars(b, p1) {
            None => None,
            Some((s, p2)) => Some((Some(s), p2)),
        }
    } else {
        None
    }
}

/// Reads back a search-path fragment; the region boundary is checked, so
/// whatever comes out is well formed.
fn take_rtp(b: &Vec<u8>, pos: usize) -> (r: Option<(RuntimePath, usize)>)
    ensures
        r is Some <==> parse_rtp(b@, pos as int) is Some,
        r matches Some((v, p)) ==> parse_rtp(b@, pos as int) == Some((rtp_view(v), p as int))
            && v.wf(),
{
    let (n, p1) = match take_u64(b, pos) {
        None => {
            return None;
        },
        Some(x) => x,
    };
    let (split, p2) = match take_u64(b, p1) {
        None => {
            return None;
        },
        Some(x) => x,
    };
    let mut es: Vec<String> = Vec::new();
    let mut cur = p2;
    let mut i: u64 = 0;
    while i < n
        invariant
            0 <= i <= n,
            es@.len() == i,
            parse_u64(b@, pos as int) == Some((n, p1 as int)),
            parse_u64(b@, p1 as int) == Some((split, p2 as int)),
            parse_entries_n(b@, p2 as int, n as nat) == (match parse_entries_n(
                b@,
                cur as int,
                (n - i) as nat,
            ) {
                None => None::<(Seq<Seq<char>>, int)>,
                Some((t, p)) => Some((es.deep_view() + t, p)),
            }),
        decreases n - i,
    {
        let (e, p3) = match take_chars(b, cur) {
            None => {
                return None;
            },
            Some(x) => x,
        };
        let ghost pre = es;
        es.push(e);
        proof {
            crate::text::lemma_vec_string_push_deep_view(pre, es, e);
            let tail = parse_entries_n(b@, p3 as int, (n - i - 1) as nat);
            if tail is Some {
                assert(pre.deep_view() + (seq![e@] + (tail->0).0) =~= es.deep_view() + (
                tail->0).0);
            }
        }
        cur = p3;
        i = i + 1;
    }
    proof {
        assert(parse_entries_n(b@, cur as int, 0) == Some(
            (Seq::<Seq<char>>::empty(), cur as int),
        ));
        assert(es.deep_view() + Seq::<Seq<char>>::empty() =~= es.deep_view());
    }
    if split > es.len() as u64 {
        return None;
    }
    let sp = split as usize;
    match RuntimePath::from_parts(es, sp) {
        Some(v) => Some((v, cur)),
        None => None,
    }
}

fn take_file(b: &Vec<u8>, pos: usize) -> (r: Option<(File, usize)>)
    ensures
        r is Some <==> parse_file(b@, pos as int) is Some,
        r matches Some((f, p)) ==> parse_file(b@, pos as int) == Some(
            (file_view(f), p as int),
        ),
{
    let (tag, p1) = match take_u8(b, pos) {
        None => {
            return None;
        },
        Some(x) => x,
    };
    if tag != 0 {
        return None;
    }
    let (script, p2) = match take_chars(b, p1) {
        None => {
            return None;
        },
        Some(x) => x,
    };
    let (name, p3) = match take_opt_chars(b, p2) {
        None => {
            return None;
        },
        Some(x) => x,
    };
    Some((File { loader: FileLoader::Script(script), name }, p3))
}

fn take_files(b: &Vec<u8>, pos: usize) -> (r: Option<(Vec<File>, usize)>)
    ensures
        r is Some <==> parse_files(b@, pos as int) is Some,
        r matches Some((fs, p)) ==> parse_files(b@, pos as int) == Some(
            (files_view(fs@), p as int),
        ),
{
    let (n, p1) = match take_u64(b, pos) {
        None => {
            return None;
        },
        Some(x) => x,
    };
    let mut fs: Vec<File> = Vec::new();
    let mut cur = p1;
    let mut i: u64 = 0;
    while i < n
        invariant
            0 <= i <= n,
            fs@.len() == i,
            parse_u64(b@, pos as int) == Some((n, p1 as int)),
            parse_files_n(b@, p1 as int, n as nat) == (match parse_files_n(
                b@,
                cur as int,
                (n - i) as nat,
            ) {
                None => None::<(Seq<FileView>, int)>,
                Some((t, p)) => Some((files_view(fs@) + t, p)),
            }),
        decreases n - i,
    {
        let (f, p2) = match take_file(b, cur) {
            None => {
                return None;
            },
            Some(x) => x,
        };
        let ghost pre = fs@;
        fs.push(f);
        proof {
            assert(files_view(fs@) =~= files_view(pre).push(file_view(f)));
            let tail = parse_files_n(b@, p2 as int, (n - i - 1) as nat);
            if tail is Some {
                assert(files_view(pre) + (seq![file_view(f)] + (tail->0).0) =~= files_view(
                    fs@,
                ) + (tail->0).0);
            }
        }
        cur = p2;
        i = i + 1;
    }
    proof {
        assert(parse_files_n(b@, cur as int, 0) == Some((Seq::<FileView>::empty(), cur as int)));
        assert(files_view(fs@) + Seq::<FileView>::empty() =~= files_view(fs@));
    }
    Some((fs, cur))
}

/// Reads back what the search-path fragment table wrote.
fn take_rtp_map(b: &Vec<u8>, pos: usize) -> (r: Option<(Vec<(String, RuntimePath)>, usize)>)
    ensures
        r is Some <==> parse_rtp_map(b@, pos as int) is Some,
        r matches Some((m, p)) ==> parse_rtp_map(b@, pos as int) == Some(
            (rtp_map_view(m@), p as int),
        ) && forall|j: int| 0 <= j < m@.len() ==> (#[trigger] m@[j]).1.wf(),
{
    let (k, p1) = match take_u64(b, pos) {
        None => {
            return None;
        },
        Some(x) => x,
    };
    let mut rm: Vec<(String, RuntimePath)> = Vec::new();
    let mut cur = p1;
    let mut i: u64 = 0;
    while i < k
        invariant
            0 <= i <= k,
            rm@.len() == i,
            forall|j: int| 0 <= j < rm@.len() ==> (#[trigger] rm@[j]).1.wf(),
            parse_u64(b@, pos as int) == Some((k, p1 as int)),
            parse_rtp_map_n(b@, p1 as int, k as nat) == (match parse_rtp_map_n(
                b@,
                cur as int,
                (k - i) as nat,
            ) {
                None => None::<(Seq<(Seq<char>, RtpView)>, int)>,
                Some((t, p)) => Some((rtp_map_view(rm@) + t, p)),
            }),
        decreases k - i,
    {
        let (key, q1) = match take_chars(b, cur) {
            None => {
                return None;
            },
            Some(x) => x,
        };
        let (v, q2) = match take_rtp(b, q1) {
            None => {
                return None;
            },
            Some(x) => x,
        };
        let ghost pre = rm@;
        let ghost kv = (key@, rtp_view(v));
        rm.push((key, v));
        proof {
            assert(rtp_map_view(rm@) =~= rtp_map_view(pre).push(kv));
            let tail = parse_rtp_map_n(b@, q2 as int, (k - i - 1) as nat);
            if tail is Some {
                assert(rtp_map_view(pre) + (seq![kv] + (tail->0).0) =~= rtp_map_view(rm@) + (
                tail->0).0);
            }
        }
        cur = q2;
        i = i + 1;
    }
    proof {
        assert(parse_rtp_map_n(b@, cur as int, 0) == Some(
            (Seq::<(Seq<char>, RtpView)>::empty(), cur as int),
        ));
        assert(rtp_map_view(rm@) + Seq::<(Seq<char>, RtpView)>::empty() =~= rtp_map_view(
            rm@,
        ));
    }
    Some((rm, cur))
}

/// Reads back what the scanned-file table wrote.
fn take_plugin_map(b: &Vec<u8>, pos: usize) -> (r: Option<(Vec<(String, Vec<File>)>, usize)>)
    ensures
        r is Some <==> parse_plugin_map(b@, pos as int) is Some,
        r matches Some((m, p)) ==> parse_plugin_map(b@, pos as int) == Some(
            (plugin_map_view(m@), p as int),
        ),
{
    let (q, p1) = match take_u64(b, pos) {
        None => {
            return None;
        },
        Some(x) => x,
    };
    let mut pm: Vec<(String, Vec<File>)> = Vec::new();
    let mut cur = p1;
    let mut w: u64 = 0;
    while w < q
        invariant
            0 <= w <= q,
            pm@.len() == w,
            parse_u64(b@, pos as int) == Some((q, p1 as int)),
            parse_plugin_map_n(b@, p1 as int, q as nat) == (match parse_plugin_map_n(
                b@,
                cur as int,
                (q - w) as nat,
            ) {
                None => None::<(Seq<(Seq<char>, Seq<FileView>)>, int)>,
                Some((t, p)) => Some((plugin_map_view(pm@) + t, p)),
            }),
        decreases q - w,
    {
        let (key, q1) = match take_chars(b, cur) {
            None => {
                return None;
            },
            Some(x) => x,
        };
        let (fsv, q2) = match take_files(b, q1) {
            None => {
                return None;
            },
            Some(x) => x,
        };
        let ghost pre = pm@;
        let ghost kv = (key@, files_view(fsv@));
        pm.push((key, fsv));
        proof {
            assert(plugin_map_view(pm@) =~= plugin_map_view(pre).push(kv));
            let tail = parse_plugin_map_n(b@, q2 as int, (q - w - 1) as nat);
            if tail is Some {
                assert(plugin_map_view(pre) + (seq![kv] + (tail->0).0) =~= plugin_map_view(
                    pm@,
                ) + (tail->0).0);
            }
        }
        cur = q2;
        w = w + 1;
    }
    proof {
        assert(parse_plugin_map_n(b@, cur as int, 0) == Some(
            (Seq::<(Seq<char>, Seq<FileView>)>::empty(), cur as int),
        ));
        assert(plugin_map_view(pm@) + Seq::<(Seq<char>, Seq<FileView>)>::empty()
            =~= plugin_map_view(pm@));
    }
    Some((pm, cur))
}

/// Deserializes a whole image; `None` on any malformation, a surplus
/// byte included.
pub fn decode_inner(b: &Vec<u8>) -> (r: Option<Inner>)
    ensures
        r is Some <==> spec_decode_inner(b@) is Some,
        r matches Some(i) ==> spec_decode_inner(b@) == Some(inner_view(i)) && i.wf(),
{
    let (schema, p0) = match take_u8(b, 0) {
        None => {
            return None;
        },
        Some(x) => x,
    };
    if schema != SCHEMA_VERSION {
        return None;
    }
    let (id, p1) = match take_bytes(b, p0) {
        None => {
            return None;
        },
        Some(x) => x,
    };
    let (packpath, p2) = match take_chars(b, p1) {
        None => {
            return None;
        },
        Some(x) => x,
    };
    let (prtp, p3) = match take_rtp(b, p2) {
        None => {
            return None;
        },
        Some(x) => x,
    };
    let (rm, p5) = match take_rtp_map(b, p3) {
        None => {
            return None;
        },
        Some(x) => x,
    };
    let (pm, p7) = match take_plugin_map(b, p5) {
        None => {
            return None;
        },
        Some(x) => x,
    };
    if p7 != b.len() {
        return None;
    }
    Some(
        Inner {
            id,
            package: Package { packpath, runtimepath: prtp },
            runtimepaths: rm,
            plugins: pm,
        },
    )
}

// ---------------------------------------------------------------------
// The cache itself.
/// The stored fragment for a key: the first entry that bears it.
pub open spec fn find_rtp(m: Seq<(Seq<char>, RtpView)>, k: Seq<char>) -> Option<RtpView>
    decreases m.len(),
{
    if m.len() == 0 {
        None
    } else if m[0].0 == k {
        Some(m[0].1)
    } else {
        find_rtp(m.drop_first(), k)
    }
}

/// The stored file list for a key: the first entry that bears it.
pub open spec fn find_files(m: Seq<(Seq<char>, Seq<FileView>)>, k: Seq<char>) -> Option<
    Seq<FileView>,
>
    decreases m.len(),
{
    if m.len() == 0 {
        None
    } else if m[0].0 == k {
        Some(m[0].1)
    } else {
        find_files(m.drop_first(), k)
    }
}

/// The fragment table without the first entry bearing `k`; storing a
/// key replaces that entry rather than shadow it.
pub open spec fn drop_key_rtp(m: Seq<(Seq<char>, RtpView)>, k: Seq<char>) -> Seq<
    (Seq<char>, RtpView),
>
    decreases m.len(),
{
    if m.len() == 0 {
        m
    } else if m[0].0 == k {
        m.drop_first()
    } else {
        seq![m[0]] + drop_key_rtp(m.drop_first(), k)
    }
}

/// The file table without the first entry bearing `k`.
pub open spec fn drop_key_files(m: Seq<(Seq<char>, Seq<FileView>)>, k: Seq<char>) -> Seq<
    (Seq<char>, Seq<FileView>),
>
    decreases m.len(),
{
    if m.len() == 0 {
        m
    } else if m[0].0 == k {
        m.drop_first()
    } else {
        seq![m[0]] + drop_key_files(m.drop_first(), k)
    }
}

proof fn lemma_drop_key_rtp_at(m: Seq<(Seq<char>, RtpView)>, k: Seq<char>, i: int)
    requires
        0 <= i < m.len(),
        m[i].0 == k,
        forall|j: int| 0 <= j < i ==> (#[trigger] m[j]).0 != k,
    ensures
        drop_key_rtp(m, k) == m.remove(i),
    decreases i,
{
    if i == 0 {
        assert(drop_key_rtp(m, k) =~= m.remove(0));
    } else {
        assert(m[0].0 != k);
        let t = m.drop_first();
        assert forall|j: int| 0 <= j < i - 1 implies (#[trigger] t[j]).0 != k by {
            assert(t[j] == m[j + 1]);
        }
        assert(t[i - 1] == m[i]);
        lemma_drop_key_rtp_at(t, k, i - 1);
        assert(drop_key_rtp(m, k) =~= m.remove(i));
    }
}

proof fn lemma_drop_key_rtp_absent(m: Seq<(Seq<char>, RtpView)>, k: Seq<char>)
    requires
        forall|j: int| 0 <= j < m.len() ==> (#[trigger] m[j]).0 != k,
    ensures
        drop_key_rtp(m, k) == m,
    decreases m.len(),
{
    if m.len() != 0 {
        let t = m.drop_first();
        assert forall|j: int| 0 <= j < t.len() implies (#[trigger] t[j]).0 != k by {
            assert(t[j] == m[j + 1]);
        }
        lemma_drop_key_rtp_absent(t, k);
        assert(drop_key_rtp(m, k) =~= m);
    }
}

proof fn lemma_drop_key_files_at(m: Seq<(Seq<char>, Seq<FileView>)>, k: Seq<char>, i: int)
    requires
        0 <= i < m.len(),
        m[i].0 == k,
        forall|j: int| 0 <= j < i ==> (#[trigger] m[j]).0 != k,
    ensures
        drop_key_files(m, k) == m.remove(i),
    decreases i,
{
    if i == 0 {
        assert(drop_key_files(m, k) =~= m.remove(0));
    } else {
        assert(m[0].0 != k);
        let t = m.drop_first();
        assert forall|j: int| 0 <= j < i - 1 implies (#[trigger] t[j]).0 != k by {
            assert(t[j] == m[j + 1]);
        }
        assert(t[i - 1] == m[i]);
        lemma_drop_key_files_at(t, k, i - 1);
        assert(drop_key_files(m, k) =~= m.remove(i));
    }
}

proof fn lemma_drop_key_files_absent(m: Seq<(Seq<char>, Seq<FileView>)>, k: Seq<char>)
    requires
        forall|j: int| 0 <= j < m.len() ==> (#[trigger] m[j]).0 != k,
    ensures
        drop_key_files(m, k) == m,
    decreases m.len(),
{
    if m.len() != 0 {
        let t = m.drop_first();
        assert forall|j: int| 0 <= j < t.len() implies (#[trigger] t[j]).0 != k by {
            assert(t[j] == m[j + 1]);
        }
        lemma_drop_key_files_absent(t, k);
        assert(drop_key_files(m, k) =~= m);
    }
}

/// The image with its build-identity token replaced.
pub open spec fn stamped(v: InnerView, id: Seq<u8>) -> InnerView {
    InnerView {
        id,
        packpath: v.packpath,
        package_rtp: v.package_rtp,
        runtimepaths: v.runtimepaths,
        plugins: v.plugins,
    }
}

/// Whether restoring from these bytes yields a valid cache: they decode
/// and carry the current build-identity token.
pub open spec fn read_valid(bytes: Option<&Vec<u8>>, id: Seq<u8>) -> bool {
    match bytes {
        None => false,
        Some(b) => match spec_decode_inner(b@) {
            None => false,
            Some(v) => v.id == id,
        },
    }
}

/// The image that restoring from these bytes yields: the decoded one,
/// or the empty image on any failure.
pub open spec fn read_view(bytes: Option<&Vec<u8>>) -> InnerView {
    match bytes {
        None => empty_inner_view(),
        Some(b) => match spec_decode_inner(b@) {
            None => empty_inner_view(),
            Some(v) => v,
        },
    }
}

impl Cache {
    pub open spec fn wf(&self) -> bool {
        self.inner.wf()
    }

    /// Restores a cache from the bytes of the cache file, or from nothing.
    /// Any failure - a missing file, malformed bytes, or a build-identity
    /// token other than `current_id` - yields an empty, invalid cache;
    /// an error never surfaces.
    pub fn read(bytes: Option<&Vec<u8>>, current_id: &Vec<u8>) -> (r: Cache)
        ensures
            r.wf(),
            r.is_valid == read_valid(bytes, current_id@),
            inner_view(r.inner) == read_view(bytes),
            bytes is None ==> !r.is_valid && inner_view(r.inner) == empty_inner_view(),
            bytes matches Some(b) ==> match spec_decode_inner(b@) {
                None => !r.is_valid && inner_view(r.inner) == empty_inner_view(),
                Some(v) => inner_view(r.inner) == v && r.is_valid == (v.id == current_id@),
            },
    {
        match bytes {
            None => Cache { is_valid: false, inner: Inner::new_empty() },
            Some(b) => match decode_inner(b) {
                None => Cache { is_valid: false, inner: Inner::new_empty() },
                Some(inner) => {
                    let valid = bytes_eq(&inner.id, current_id);
                    Cache { is_valid: valid, inner }
                },
            },
        }
    }

    /// Commits the cache. A valid cache asks for nothing. An invalid one
    /// first asks for the stale file's deletion and keeps the image
    /// unwritten; only when no file exists is the image stamped with the
    /// current build identity and handed over as bytes that decode back
    /// to exactly the stamped image. One invalidating change therefore
    /// takes two runs to yield a fresh file on disk.
    pub fn update(&mut self, file_exists: bool, current_id: &Vec<u8>) -> (r: CacheAction)
        requires
            old(self).wf(),
        ensures
            final(self).wf(),
            old(self).is_valid ==> r is Keep && *final(self) == *old(self),
            !old(self).is_valid && file_exists ==> r is Delete && *final(self) == *old(
                self,
            ),
            !old(self).is_valid && !file_exists ==> {
                &&& final(self).is_valid == old(self).is_valid
                &&& inner_view(final(self).inner) == stamped(
                    inner_view(old(self).inner),
                    current_id@,
                )
                &&& match r {
                    CacheAction::Write(bytes) => bytes@ == enc_inner(
                        inner_view(final(self).inner),
                    ) && spec_decode_inner(bytes@) == Some(inner_view(final(self).inner)),
                    _ => false,
                }
            },
    {
        if self.is_valid {
            return CacheAction::Keep;
        }
        if file_exists {
            return CacheAction::Delete;
        }
        self.inner.id = clone_bytes(current_id);
        let bytes = encode_inner(&self.inner);
        CacheAction::Write(bytes)
    }

    /// Clears the validity flag: some fresh scan has occurred, so the
    /// whole image is stale for the next commit cycle.
    pub fn invalidate(&mut self)
        ensures
            !final(self).is_valid,
            final(self).inner == old(self).inner,
    {
        self.is_valid = false;
    }

    /// The stored search-path fragment for a package root, if any.
    pub fn get_runtimepath(&self, key: &String) -> (r: Option<&RuntimePath>)
        requires
            self.wf(),
        ensures
            r is Some <==> find_rtp(rtp_map_view(self.inner.runtimepaths@), key@) is Some,
            r matches Some(v) ==> Some(rtp_view(*v)) == find_rtp(
                rtp_map_view(self.inner.runtimepaths@),
                key@,
            ) && v.wf(),
    {
        let ghost mv = rtp_map_view(self.inner.runtimepaths@);
        let n = self.inner.runtimepaths.len();
        let mut i: usize = 0;
        proof {
            assert(mv.skip(0) =~= mv);
        }
        while i < n
            invariant
                0 <= i <= n,
                n == self.inner.runtimepaths@.len(),
                self.wf(),
                mv == rtp_map_view(self.inner.runtimepaths@),
                find_rtp(mv, key@) == find_rtp(mv.skip(i as int), key@),
            decreases n - i,
        {
            proof {
                assert(mv.skip(i as int)[0] == mv[i as int]);
                assert(mv.skip(i as int).drop_first() =~= mv.skip(i + 1));
            }
            if self.inner.runtimepaths[i].0 == *key {
                proof {
                    assert(mv[i as int] == (self.inner.runtimepaths@[i as int].0@, rtp_view(
                        self.inner.runtimepaths@[i as int].1,
                    )));
                    assert(find_rtp(mv.skip(i as int), key@) == Some(mv[i as int].1));
                }
                return Some(&self.inner.runtimepaths[i].1);
            }
            proof {
                assert(mv[i as int] == (self.inner.runtimepaths@[i as int].0@, rtp_view(
                    self.inner.runtimepaths@[i as int].1,
                )));
            }
            i = i + 1;
        }
        proof {
            assert(mv.skip(n as int) =~= Seq::<(Seq<char>, RtpView)>::empty());
        }
        None
    }

    /// Stores a freshly computed fragment for a package root: the new
    /// entry replaces any older one bearing the same key.
    pub fn insert_runtimepath(&mut self, key: String, value: RuntimePath)
        requires
            old(self).wf(),
            value.wf(),
        ensures
            final(self).wf(),
            rtp_map_view(final(self).inner.runtimepaths@) == seq![(key@, rtp_view(value))]
                + drop_key_rtp(rtp_map_view(old(self).inner.runtimepaths@), key@),
            final(self).is_valid == old(self).is_valid,
            final(self).inner.id == old(self).inner.id,
            final(self).inner.package == old(self).inner.package,
            final(self).inner.plugins == old(self).inner.plugins,
    {
        let ghost pre = self.inner.runtimepaths@;
        let ghost mv = rtp_map_view(pre);
        let n = self.inner.runtimepaths.len();
        let mut pos: usize = 0;
        let mut found = false;
        while !found && pos < n
            invariant
                0 <= pos <= n,
                n == pre.len(),
                self.inner.runtimepaths@ == pre,
                mv == rtp_map_view(pre),
                forall|j: int| 0 <= j < pos ==> (#[trigger] mv[j]).0 != key@,
                found ==> pos < n && mv[pos as int].0 == key@,
            decreases n - pos + (if found {
                0int
            } else {
                1int
            }),
        {
            proof {
                assert(mv[pos as int] == (pre[pos as int].0@, rtp_view(pre[pos as int].1)));
            }
            if self.inner.runtimepaths[pos].0 == key {
                found = true;
            } else {
                pos = pos + 1;
            }
        }
        if found {
            proof {
                lemma_drop_key_rtp_at(mv, key@, pos as int);
            }
            self.inner.runtimepaths.remove(pos);
            proof {
                assert forall|j: int|
                    0 <= j < self.inner.runtimepaths@.len() implies (
                #[trigger] self.inner.runtimepaths@[j]).1.wf() by {
                    if j < pos as int {
                        assert(self.inner.runtimepaths@[j] == pre[j]);
                    } else {
                        assert(self.inner.runtimepaths@[j] == pre[j + 1]);
                    }
                }
                assert(rtp_map_view(self.inner.runtimepaths@) =~= mv.remove(pos as int));
            }
        } else {
            proof {
                assert forall|j: int| 0 <= j < mv.len() implies (#[trigger] mv[j]).0
                    != key@ by {}
                lemma_drop_key_rtp_absent(mv, key@);
            }
        }
        let ghost mid = self.inner.runtimepaths@;
        self.inner.runtimepaths.insert(0, (key, value));
        proof {
            assert(self.inner.runtimepaths@ == mid.insert(0, (key, value)));
            assert forall|j: int| 0 <= j < self.inner.runtimepaths@.len() implies (
            #[trigger] self.inner.runtimepaths@[j]).1.wf() by {
                if j > 0 {
                    assert(self.inner.runtimepaths@[j] == mid[j - 1]);
                }
            }
            assert(rtp_map_view(self.inner.runtimepaths@) =~= seq![(key@, rtp_view(value))]
                + rtp_map_view(mid));
            assert(rtp_map_view(mid) =~= drop_key_rtp(mv, key@));
        }
    }

    /// The stored loadable files for a scanned directory, if any.
    pub fn get_files(&self, key: &String) -> (r: Option<&Vec<File>>)
        ensures
            r is Some <==> find_files(plugin_map_view(self.inner.plugins@), key@) is Some,
            r matches Some(v) ==> Some(files_view(v@)) == find_files(
                plugin_map_view(self.inner.plugins@),
                key@,
            ),
    {
        let ghost mv = plugin_map_view(self.inner.plugins@);
        let n = self.inner.plugins.len();
        let mut i: usize = 0;
        proof {
            assert(mv.skip(0) =~= mv);
        }
        while i < n
            invariant
                0 <= i <= n,
                n == self.inner.plugins@.len(),
                mv == plugin_map_view(self.inner.plugins@),
                find_files(mv, key@) == find_files(mv.skip(i as int), key@),
            decreases n - i,
        {
            proof {
                assert(mv.skip(i as int)[0] == mv[i as int]);
                assert(mv.skip(i as int).drop_first() =~= mv.skip(i + 1));
            }
            if self.inner.plugins[i].0 == *key {
                proof {
                    assert(mv[i as int] == (self.inner.plugins@[i as int].0@, files_view(
                        self.inner.plugins@[i as int].1@,
                    )));
                    assert(find_files(mv.skip(i as int), key@) == Some(mv[i as int].1));
                }
                return Some(&self.inner.plugins[i].1);
            }
            proof {
                assert(mv[i as int] == (self.inner.plugins@[i as int].0@, files_view(
                    self.inner.plugins@[i as int].1@,
                )));
            }
            i = i + 1;
        }
        proof {
            assert(mv.skip(n as int) =~= Seq::<(Seq<char>, Seq<FileView>)>::empty());
        }
        None
    }

    /// Stores freshly scanned files for a directory: the new entry
    /// replaces any older one bearing the same key.
    pub fn insert_files(&mut self, key: String, files: Vec<File>)
        requires
            old(self).wf(),
        ensures
            final(self).wf(),
            plugin_map_view(final(self).inner.plugins@) == seq![(key@, files_view(files@))]
                + drop_key_files(plugin_map_view(old(self).inner.plugins@), key@),
            final(self).is_valid == old(self).is_valid,
            final(self).inner.id == old(self).inner.id,
            final(self).inner.package == old(self).inner.package,
            final(self).inner.runtimepaths == old(self).inner.runtimepaths,
    {
        let ghost pre = self.inner.plugins@;
        let ghost mv = plugin_map_view(pre);
        let ghost fv = files_view(files@);
        let n = self.inner.plugins.len();
        let mut pos: usize = 0;
        let mut found = false;
        while !found && pos < n
            invariant
                0 <= pos <= n,
                n == pre.len(),
                self.inner.plugins@ == pre,
                mv == plugin_map_view(pre),
                forall|j: int| 0 <= j < pos ==> (#[trigger] mv[j]).0 != key@,
                found ==> pos < n && mv[pos as int].0 == key@,
            decreases n - pos + (if found {
                0int
            } else {
                1int
            }),
        {
            proof {
                assert(mv[pos as int] == (pre[pos as int].0@, files_view(
                    pre[pos as int].1@,
                )));
            }
            if self.inner.plugins[pos].0 == key {
                found = true;
            } else {
                pos = pos + 1;
            }
        }
        if found {
            proof {
                lemma_drop_key_files_at(mv, key@, pos as int);
            }
            self.inner.plugins.remove(pos);
            proof {
                assert(plugin_map_view(self.inner.plugins@) =~= mv.remove(pos as int));
            }
        } else {
            proof {
                lemma_drop_key_files_absent(mv, key@);
            }
        }
        let ghost mid = self.inner.plugins@;
        self.inner.plugins.insert(0, (key, files));
        proof {
            assert(self.inner.plugins@ == mid.insert(0, (key, files)));
            assert(plugin_map_view(self.inner.plugins@) =~= seq![(key@, fv)]
                + plugin_map_view(mid));
            assert(plugin_map_view(mid) =~= drop_key_files(mv, key@));
        }
    }
}

} // verus!
