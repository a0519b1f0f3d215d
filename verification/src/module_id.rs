//! Module identities: formats chosen by file extension, canonical URIs of
//! resolved modules, dependency URIs and lexical path normalization.

use vstd::prelude::*;
use vstd::string::StringSliceAdditionalSpecFns;
use vstd::utf8::encode_utf8;
use crate::text::{ascii_string, eq_bytes, lemma_after_ascii, starts_char, str_slice};

verus! {

/// The data formats a module can be written in.
#[derive(Clone, Copy, Debug, PartialEq, Eq, Structural, Hash, PartialOrd, Ord)]
pub enum ModuleFormat {
    Xl,
    Json,
    Toml,
    Yaml,
}

/// Why a module could not be resolved.
#[derive(Clone, Debug)]
pub enum ResolveModuleError {
    EmptyPath,
    MissingExtension,
    NonUtf8Path,
    UnknownExtension(String),
    UnknownFormat(String),
    UnknownDependency(String),
    InvalidDependencyUri(String),
    DependencyEscape(String),
    Manifest(String),
    FormatConflict { configured: ModuleFormat, extension: ModuleFormat },
    Io(String),
}

/// The `Debug` rendering of a text: quoted, its special characters escaped.
pub uninterp spec fn debug_text(s: Seq<char>) -> Seq<char>;

/// The `Debug` rendering of `s`, as `format!("{s:?}")` writes it.
#[verifier::external_body]
pub(crate) fn debug_quoted(s: &str) -> (r: String)
    ensures
        r@ == debug_text(s@),
{
    format!("{s:?}")
}

impl ResolveModuleError {
    /// The message that describes the error.
    pub open spec fn spec_message(self) -> Seq<char> {
        match self {
            ResolveModuleError::EmptyPath => "module path is empty"@,
            ResolveModuleError::MissingExtension => "module path has no extension"@,
            ResolveModuleError::NonUtf8Path => "module path is not valid UTF-8"@,
            ResolveModuleError::UnknownExtension(e) => "unknown module extension ."@ + e@,
            ResolveModuleError::UnknownFormat(f) => "unknown module format "@ + debug_text(f@),
            ResolveModuleError::UnknownDependency(n) => "unknown dependency "@ + debug_text(n@),
            ResolveModuleError::InvalidDependencyUri(u) => "invalid dependency URI "@ + debug_text(u@),
            ResolveModuleError::DependencyEscape(u) => "dependency module escapes its declared root: "@ + u@,
            ResolveModuleError::Manifest(m) => m@,
            ResolveModuleError::Io(m) => m@,
            ResolveModuleError::FormatConflict { configured, extension } => "configured format "@
                + configured.spec_name() + " conflicts with extension format "@ + extension.spec_name(),
        }
    }

    /// The message that describes the error, as [`Self::spec_message`] says.
    pub fn to_display_string(&self) -> (s: String)
        ensures
            s@ == self.spec_message(),
    {
        match self {
            ResolveModuleError::EmptyPath => String::from_str("module path is empty"),
            ResolveModuleError::MissingExtension => String::from_str("module path has no extension"),
            ResolveModuleError::NonUtf8Path => String::from_str("module path is not valid UTF-8"),
            ResolveModuleError::UnknownExtension(e) => {
                let mut s = String::from_str("unknown module extension .");
                s.append(e.as_str());
                s
            },
            ResolveModuleError::UnknownFormat(f) => {
                let mut s = String::from_str("unknown module format ");
                let q = debug_quoted(f.as_str());
                s.append(q.as_str());
                s
            },
            ResolveModuleError::UnknownDependency(n) => {
                let mut s = String::from_str("unknown dependency ");
                let q = debug_quoted(n.as_str());
                s.append(q.as_str());
                s
            },
            ResolveModuleError::InvalidDependencyUri(u) => {
                let mut s = String::from_str("invalid dependency URI ");
                let q = debug_quoted(u.as_str());
                s.append(q.as_str());
                s
            },
            ResolveModuleError::DependencyEscape(u) => {
                let mut s = String::from_str("dependency module escapes its declared root: ");
                s.append(u.as_str());
                s
            },
            ResolveModuleError::Manifest(m) => m.clone(),
            ResolveModuleError::Io(m) => m.clone(),
            ResolveModuleError::FormatConflict { configured, extension } => {
                let mut s = String::from_str("configured format ");
                s.append(configured.name());
                s.append(" conflicts with extension format ");
                s.append(extension.name());
                s
            },
        }
    }
}

// ---------------------------------------------------------------------------
// Path components.

/// Start of the `/`-separated segment that ends at `e`.
pub open spec fn seg_start(b: Seq<u8>, e: int) -> int
    decreases e,
{
    if e <= 0 {
        0
    } else if b[e - 1] == 47u8 {
        e
    } else {
        seg_start(b, e - 1)
    }
}

/// End of the last component of `b[..e]`: trailing separators and `.`
/// segments do not count.
pub open spec fn comp_end(b: Seq<u8>, e: int) -> int
    decreases e,
{
    if e <= 0 {
        0
    } else if b[e - 1] == 47u8 {
        comp_end(b, e - 1)
    } else {
        let s = seg_start(b, e);
        if e - s == 1 && b[s] == 46u8 && s < e {
            comp_end(b, s)
        } else {
            e
        }
    }
}

/// The span of the file name of a path: its last component, unless the path
/// has none or ends in `..`.
pub open spec fn file_name_span(b: Seq<u8>) -> Option<(int, int)> {
    let e = comp_end(b, b.len() as int);
    let s = seg_start(b, e);
    if e == 0 || (e - s == 2 && b[s] == 46u8 && b[s + 1] == 46u8) {
        None
    } else {
        Some((s, e))
    }
}

/// Position of the last `.` in `b[s..e]`.
pub open spec fn last_dot(b: Seq<u8>, s: int, e: int) -> Option<int>
    decreases e - s,
{
    if e <= s {
        None
    } else if b[e - 1] == 46u8 {
        Some(e - 1)
    } else {
        last_dot(b, s, e - 1)
    }
}

/// The span of the extension of a path: what follows the last `.` of its
/// file name, unless that dot begins the file name.
pub open spec fn extension_span(b: Seq<u8>) -> Option<(int, int)> {
    match file_name_span(b) {
        None => None,
        Some((s, e)) => match last_dot(b, s, e) {
            None => None,
            Some(d) => if d == s {
                None
            } else {
                Some((d + 1, e))
            },
        },
    }
}

proof fn lemma_seg_start(b: Seq<u8>, e: int)
    requires
        0 <= e <= b.len(),
    ensures
        0 <= seg_start(b, e) <= e,
        seg_start(b, e) > 0 ==> b[seg_start(b, e) - 1] == 47u8,
        forall|k: int| seg_start(b, e) <= k < e ==> b[k] != 47u8,
    decreases e,
{
    if e > 0 && b[e - 1] != 47u8 {
        lemma_seg_start(b, e - 1);
    }
}

proof fn lemma_comp_end(b: Seq<u8>, e: int)
    requires
        0 <= e <= b.len(),
    ensures
        0 <= comp_end(b, e) <= e,
        comp_end(b, e) > 0 ==> b[comp_end(b, e) - 1] != 47u8,
    decreases e,
{
    if e > 0 {
        if b[e - 1] == 47u8 {
            lemma_comp_end(b, e - 1);
        } else {
            lemma_seg_start(b, e);
            let s = seg_start(b, e);
            if e - s == 1 && b[s] == 46u8 && s < e {
                lemma_comp_end(b, s);
            }
        }
    }
}

proof fn lemma_last_dot(b: Seq<u8>, s: int, e: int)
    ensures
        last_dot(b, s, e) matches Some(d) ==> s <= d < e && b[d] == 46u8,
    decreases e - s,
{
    if e > s && b[e - 1] != 46u8 {
        lemma_last_dot(b, s, e - 1);
    }
}

fn seg_start_exec(b: &[u8], e: usize) -> (s: usize)
    requires
        e <= b@.len(),
    ensures
        s == seg_start(b@, e as int),
{
    let mut s = e;
    while s > 0 && b[s - 1] != 47
        invariant
            s <= e <= b@.len(),
            seg_start(b@, e as int) == seg_start(b@, s as int),
        decreases s,
    {
        s = s - 1;
    }
    s
}

fn comp_end_exec(b: &[u8], e: usize) -> (r: usize)
    requires
        e <= b@.len(),
    ensures
        r == comp_end(b@, e as int),
{
    let mut e2 = e;
    while e2 > 0
        invariant
            e2 <= e <= b@.len(),
            comp_end(b@, e as int) == comp_end(b@, e2 as int),
        decreases e2,
    {
        if b[e2 - 1] == 47 {
            e2 = e2 - 1;
        } else {
            let s = seg_start_exec(b, e2);
            proof {
                lemma_seg_start(b@, e2 as int);
            }
            if e2 - s == 1 && b[s] == 46 {
                e2 = s;
            } else {
                return e2;
            }
        }
    }
    0
}

/// The span of the extension of `path`, if it has one.
fn extension_span_exec(b: &[u8]) -> (r: Option<(usize, usize)>)
    ensures
        r matches Some(x) ==> extension_span(b@) == Some((x.0 as int, x.1 as int)),
        r is None ==> extension_span(b@) is None,
        r matches Some(x) ==> x.0 <= x.1 <= b@.len() && x.0 > 0 && b@[x.0 - 1] == 46u8,
{
    let e = comp_end_exec(b, b.len());
    proof {
        lemma_comp_end(b@, b@.len() as int);
    }
    let s = seg_start_exec(b, e);
    proof {
        lemma_seg_start(b@, e as int);
    }
    if e == 0 || (e - s == 2 && b[s] == 46 && b[s + 1] == 46) {
        return None;
    }
    let mut d = e;
    while d > s && b[d - 1] != 46
        invariant
            s <= d <= e <= b@.len(),
            last_dot(b@, s as int, e as int) == last_dot(b@, s as int, d as int),
        decreases d,
    {
        d = d - 1;
    }
    if d == s {
        return None;
    }
    if d - 1 == s {
        return None;
    }
    Some((d, e))
}

impl ModuleFormat {
    /// The format named by an extension, if any; `yml` is an alias of `yaml`.
    pub open spec fn spec_from_extension(ext: Seq<u8>) -> Option<ModuleFormat> {
        if ext == seq![120u8, 108] {
            Some(ModuleFormat::Xl)
        } else if ext == seq![106u8, 115, 111, 110] {
            Some(ModuleFormat::Json)
        } else if ext == seq![116u8, 111, 109, 108] {
            Some(ModuleFormat::Toml)
        } else if ext == seq![121u8, 97, 109, 108] || ext == seq![121u8, 109, 108] {
            Some(ModuleFormat::Yaml)
        } else {
            None
        }
    }

    /// The format named exactly (without aliases).
    pub open spec fn spec_parse(name: Seq<u8>) -> Option<ModuleFormat> {
        if name == seq![121u8, 109, 108] {
            None
        } else {
            Self::spec_from_extension(name)
        }
    }

    fn from_extension_bytes(ext: &[u8]) -> (f: Option<ModuleFormat>)
        ensures
            f == Self::spec_from_extension(ext@),
    {
        if eq_bytes(ext, &[120u8, 108u8]) {
            assert([120u8, 108u8]@ =~= seq![120u8, 108]);
            Some(ModuleFormat::Xl)
        } else if eq_bytes(ext, &[106u8, 115u8, 111u8, 110u8]) {
            assert([106u8, 115u8, 111u8, 110u8]@ =~= seq![106u8, 115, 111, 110]);
            Some(ModuleFormat::Json)
        } else if eq_bytes(ext, &[116u8, 111u8, 109u8, 108u8]) {
            assert([116u8, 111u8, 109u8, 108u8]@ =~= seq![116u8, 111, 109, 108]);
            Some(ModuleFormat::Toml)
        } else if eq_bytes(ext, &[121u8, 97u8, 109u8, 108u8]) {
            assert([121u8, 97u8, 109u8, 108u8]@ =~= seq![121u8, 97, 109, 108]);
            Some(ModuleFormat::Yaml)
        } else if eq_bytes(ext, &[121u8, 109u8, 108u8]) {
            assert([121u8, 109u8, 108u8]@ =~= seq![121u8, 109, 108]);
            Some(ModuleFormat::Yaml)
        } else {
            assert([120u8, 108u8]@ =~= seq![120u8, 108]);
            assert([106u8, 115u8, 111u8, 110u8]@ =~= seq![106u8, 115, 111, 110]);
            assert([116u8, 111u8, 109u8, 108u8]@ =~= seq![116u8, 111, 109, 108]);
            assert([121u8, 97u8, 109u8, 108u8]@ =~= seq![121u8, 97, 109, 108]);
            assert([121u8, 109u8, 108u8]@ =~= seq![121u8, 109, 108]);
            None
        }
    }

    /// The format of a module file, chosen by its extension (case-sensitive).
    pub fn from_path(path: &str) -> (r: Result<ModuleFormat, ResolveModuleError>)
        ensures
            extension_span(path.spec_bytes()) is None ==> r matches Err(
                ResolveModuleError::MissingExtension,
            ),
            extension_span(path.spec_bytes()) matches Some((s, e)) ==> {
                let ext = path.spec_bytes().subrange(s, e);
                &&& Self::spec_from_extension(ext) matches Some(f) ==> (r matches Ok(g) && g == f)
                &&& Self::spec_from_extension(ext) is None ==> (r matches Err(
                    ResolveModuleError::UnknownExtension(x),
                ) && encode_utf8(x@) == ext)
            },
    {
        let b = path.as_bytes();
        match extension_span_exec(b) {
            None => Err(ResolveModuleError::MissingExtension),
            Some((s, e)) => {
                let ext = str_slice_after_dot(path, s, e);
                match Self::from_extension_bytes(ext.as_bytes()) {
                    Some(f) => Ok(f),
                    None => {
                        let owned = ext.to_owned();
                        Err(ResolveModuleError::UnknownExtension(owned))
                    },
                }
            },
        }
    }

    /// Each format's name parses back to it, and no other text parses to
    /// it: the names are the only texts accepted, one for each format.
    pub proof fn law_names_parse_back(f: ModuleFormat)
        ensures
            Self::spec_parse(vstd::utf8::encode_utf8(f.spec_name())) == Some(f),
            forall|b: Seq<u8>| #[trigger] Self::spec_parse(b) == Some(f) ==> b == vstd::utf8::encode_utf8(f.spec_name()),
    {
        reveal_strlit("xl");
        reveal_strlit("json");
        reveal_strlit("toml");
        reveal_strlit("yaml");
        let n = f.spec_name();
        assert(vstd::utf8::is_ascii_chars(n));
        vstd::utf8::is_ascii_chars_encode_utf8(n);
        let bytes = match f {
            ModuleFormat::Xl => seq![120u8, 108],
            ModuleFormat::Json => seq![106u8, 115, 111, 110],
            ModuleFormat::Toml => seq![116u8, 111, 109, 108],
            ModuleFormat::Yaml => seq![121u8, 97, 109, 108],
        };
        assert(vstd::utf8::encode_utf8(n) =~= bytes);
    }

    /// The format with exactly this name.
    pub fn parse(name: &str) -> (r: Result<ModuleFormat, ResolveModuleError>)
        ensures
            Self::spec_parse(name.spec_bytes()) matches Some(f) ==> (r matches Ok(g) && g == f),
            Self::spec_parse(name.spec_bytes()) is None ==> (r matches Err(
                ResolveModuleError::UnknownFormat(x),
            ) && x@ == name@),
    {
        let b = name.as_bytes();
        if eq_bytes(b, &[121u8, 109u8, 108u8]) {
            assert([121u8, 109u8, 108u8]@ =~= seq![121u8, 109, 108]);
            return Err(ResolveModuleError::UnknownFormat(name.to_owned()));
        }
        assert([121u8, 109u8, 108u8]@ =~= seq![121u8, 109, 108]);
        match Self::from_extension_bytes(b) {
            Some(f) => Ok(f),
            None => Err(ResolveModuleError::UnknownFormat(name.to_owned())),
        }
    }

    pub open spec fn spec_name(self) -> Seq<char> {
        match self {
            ModuleFormat::Xl => "xl"@,
            ModuleFormat::Json => "json"@,
            ModuleFormat::Toml => "toml"@,
            ModuleFormat::Yaml => "yaml"@,
        }
    }

    /// The canonical name of the format.
    pub fn name(self) -> (s: &'static str)
        ensures
            s@ == self.spec_name(),
    {
        match self {
            ModuleFormat::Xl => "xl",
            ModuleFormat::Json => "json",
            ModuleFormat::Toml => "toml",
            ModuleFormat::Yaml => "yaml",
        }
    }

    /// Every format takes part in the module graph as a first-class source
    /// module: XL, JSON, TOML and YAML.
    pub fn is_supported(self) -> (b: bool)
        ensures
            b,
    {
        match self {
            ModuleFormat::Xl | ModuleFormat::Json | ModuleFormat::Toml | ModuleFormat::Yaml => true,
        }
    }
}

/// The extension `path[s..e]`, which follows a dot.
fn str_slice_after_dot(path: &str, s: usize, e: usize) -> (r: &str)
    requires
        extension_span(path.spec_bytes()) == Some((s as int, e as int)),
        s <= e <= path.spec_bytes().len(),
        s > 0,
        path.spec_bytes()[s - 1] == 46u8,
    ensures
        r.spec_bytes() == path.spec_bytes().subrange(s as int, e as int),
{
    let ghost b = path.spec_bytes();
    proof {
        vstd::utf8::encode_utf8_valid_utf8(path@);
        lemma_after_ascii(b, s - 1);
        lemma_comp_end(b, b.len() as int);
        let ce = comp_end(b, b.len() as int);
        assert(e == ce);
        if e < b.len() {
            assert(b[e - 1] != 47u8);
            lemma_comp_end_next(b, b.len() as int);
        }
    }
    str_slice(path, s, e)
}

/// The byte after the last component is a separator or the end.
proof fn lemma_comp_end_next(b: Seq<u8>, e: int)
    requires
        0 <= e <= b.len(),
    ensures
        comp_end(b, e) < e ==> b[comp_end(b, e)] == 47u8 || b[comp_end(b, e)] == 46u8,
    decreases e,
{
    if e > 0 {
        if b[e - 1] == 47u8 {
            lemma_comp_end_next(b, e - 1);
        } else {
            lemma_seg_start(b, e);
            let s = seg_start(b, e);
            if e - s == 1 && b[s] == 46u8 && s < e {
                lemma_comp_end_next(b, s);
            }
        }
    }
}

} // verus!

verus! {

/// The identity of a resolved module.
#[derive(Clone, Debug)]
pub enum ResolvedModuleId {
    Core(String),
    Local(String),
    Dependency { name: String, resolution_root: String, path: String, physical_path: String },
}

/// A resolved module and its format.
#[derive(Clone, Debug)]
pub struct ResolvedModule {
    pub id: ResolvedModuleId,
    pub format: ModuleFormat,
}

/// Bytes written unescaped in a module URI: ASCII letters and digits and
/// `/ - . _ ~ :`.
pub open spec fn uri_safe(b: u8) -> bool {
    (48 <= b <= 57) || (65 <= b <= 90) || (97 <= b <= 122) || b == 47u8 || b == 45u8 || b == 46u8
        || b == 95u8 || b == 126u8 || b == 58u8
}

/// Upper-case hexadecimal digit of `d < 16`, as a byte.
pub open spec fn hex_digit(d: u8) -> u8 {
    if d < 10 {
        (48 + d) as u8
    } else {
        (55 + d) as u8
    }
}

/// The URI form of a path: unsafe bytes become `%XX` with upper-case hex.
pub open spec fn uri_encode(b: Seq<u8>) -> Seq<u8>
    decreases b.len(),
{
    if b.len() == 0 {
        Seq::empty()
    } else {
        let c = b.last();
        uri_encode(b.drop_last()) + if uri_safe(c) {
            seq![c]
        } else {
            seq![37u8, hex_digit(c / 16), hex_digit(c % 16)]
        }
    }
}

/// ASCII bytes seen as characters.
pub open spec fn ascii_chars(b: Seq<u8>) -> Seq<char> {
    b.map_values(|c: u8| c as char)
}

/// `local://` and `deps://` as bytes.
pub open spec fn local_scheme() -> Seq<u8> {
    seq![108u8, 111, 99, 97, 108, 58, 47, 47]
}

pub open spec fn deps_scheme() -> Seq<u8> {
    seq![100u8, 101, 112, 115, 58, 47, 47]
}

fn push_uri_encoded(out: &mut Vec<u8>, path: &[u8])
    ensures
        final(out)@ == old(out)@ + uri_encode(path@),
        forall|i: int| 0 <= i < final(out)@.len() - old(out)@.len() ==> (#[trigger] final(out)@[old(out)@.len() + i]) < 0x80,
{
    let ghost start = out@;
    let mut i: usize = 0;
    while i < path.len()
        invariant
            i <= path@.len(),
            out@ == start + uri_encode(path@.take(i as int)),
            forall|k: int| 0 <= k < out@.len() - start.len() ==> (#[trigger] out@[start.len() + k]) < 0x80,
        decreases path@.len() - i,
    {
        let c = path[i];
        assert(path@.take(i + 1).drop_last() == path@.take(i as int));
        let safe = (48 <= c && c <= 57) || (65 <= c && c <= 90) || (97 <= c && c <= 122) || c == 47
            || c == 45 || c == 46 || c == 95 || c == 126 || c == 58;
        if safe {
            out.push(c);
        } else {
            let hi = c / 16;
            let lo = c % 16;
            out.push(37u8);
            out.push(if hi < 10 { 48 + hi } else { 55 + hi });
            out.push(if lo < 10 { 48 + lo } else { 55 + lo });
        }
        i = i + 1;
        assert(out@ =~= start + uri_encode(path@.take(i as int)));
    }
    assert(path@.take(path@.len() as int) == path@);
}

impl ResolvedModuleId {
    /// A core module such as `core:array`.
    pub fn core_module(name: &str) -> (id: ResolvedModuleId)
        ensures
            id matches ResolvedModuleId::Core(n) && n@ == name@,
    {
        ResolvedModuleId::Core(name.to_owned())
    }

    /// A module file of the workspace.
    pub fn local(path: &str) -> (id: ResolvedModuleId)
        ensures
            id matches ResolvedModuleId::Local(p) && p@ == path@,
    {
        ResolvedModuleId::Local(path.to_owned())
    }

    /// The file the module is read from; core modules have none.
    pub fn path(&self) -> (p: Option<&String>)
        ensures
            match *self {
                ResolvedModuleId::Core(_) => p is None,
                ResolvedModuleId::Local(q) => p == Some(&q),
                ResolvedModuleId::Dependency { physical_path, .. } => p == Some(&physical_path),
            },
    {
        match self {
            ResolvedModuleId::Core(_) => None,
            ResolvedModuleId::Local(path) => Some(path),
            ResolvedModuleId::Dependency { physical_path, .. } => Some(physical_path),
        }
    }

    /// The canonical text of the identity: the core name, `local://` and the
    /// encoded path, or `deps://`, the dependency name, `/` and the encoded
    /// logical path.
    pub open spec fn spec_uri(self) -> Seq<char> {
        match self {
            ResolvedModuleId::Core(name) => name@,
            ResolvedModuleId::Local(path) => ascii_chars(
                local_scheme() + uri_encode(encode_utf8(path@)),
            ),
            ResolvedModuleId::Dependency { name, path, .. } => ascii_chars(deps_scheme()) + name@
                + seq!['/'] + ascii_chars(uri_encode(encode_utf8(path@))),
        }
    }

    /// The canonical text of the identity (its `Display` form).
    pub fn to_uri_string(&self) -> (s: String)
        ensures
            s@ == self.spec_uri(),
    {
        match self {
            ResolvedModuleId::Core(name) => name.clone(),
            ResolvedModuleId::Local(path) => {
                let mut out: Vec<u8> = Vec::new();
                out.push(108u8);
                out.push(111u8);
                out.push(99u8);
                out.push(97u8);
                out.push(108u8);
                out.push(58u8);
                out.push(47u8);
                out.push(47u8);
                assert(out@ =~= local_scheme());
                push_uri_encoded(&mut out, path.as_str().as_bytes());
                assert forall|i: int| 0 <= i < out@.len() implies out@[i] < 0x80 by {
                    if i >= 8 {
                        assert(out@[8 + (i - 8)] < 0x80);
                    }
                }
                ascii_string(out)
            },
            ResolvedModuleId::Dependency { name, path, .. } => {
                let mut head: Vec<u8> = Vec::new();
                head.push(100u8);
                head.push(101u8);
                head.push(112u8);
                head.push(115u8);
                head.push(58u8);
                head.push(47u8);
                head.push(47u8);
                assert(head@ =~= deps_scheme());
                let mut s = ascii_string(head);
                s.append(name.as_str());
                proof {
                    reveal_strlit("/");
                }
                s.append("/");
                let mut tail: Vec<u8> = Vec::new();
                push_uri_encoded(&mut tail, path.as_str().as_bytes());
                assert(tail@ =~= uri_encode(encode_utf8(path@)));
                assert forall|i: int| 0 <= i < tail@.len() implies tail@[i] < 0x80 by {
                    assert(tail@[0 + i] < 0x80);
                }
                let t = ascii_string(tail);
                s.append(t.as_str());
                s
            },
        }
    }
}

impl ResolvedModule {
    /// The file the module is read from, if any.
    pub fn path(&self) -> (p: Option<&String>)
        ensures
            match self.id {
                ResolvedModuleId::Core(_) => p is None,
                ResolvedModuleId::Local(q) => p == Some(&q),
                ResolvedModuleId::Dependency { physical_path, .. } => p == Some(&physical_path),
            },
    {
        self.id.path()
    }
}

} // verus!

verus! {

// ---------------------------------------------------------------------------
// Lexical normalization of relative paths.

/// Position of the first `/` in `b[i..]`, or the end.
pub open spec fn next_sep(b: Seq<u8>, i: int) -> int
    decreases b.len() - i,
{
    if i < 0 || i >= b.len() {
        b.len() as int
    } else if b[i] == 47u8 {
        i
    } else {
        next_sep(b, i + 1)
    }
}

/// The `/`-separated segments of `b[i..]`, as spans.
pub open spec fn segments_from(b: Seq<u8>, i: int) -> Seq<(int, int)>
    decreases b.len() - i,
{
    if i < 0 || i > b.len() {
        Seq::empty()
    } else {
        let e = next_sep(b, i);
        if e >= b.len() || e < i {
            seq![(i, b.len() as int)]
        } else {
            seq![(i, e)] + segments_from(b, e + 1)
        }
    }
}

/// Normalizes the segment spans `segs` of a relative path: empty and `.`
/// segments vanish, `..` removes the segment before it and fails when there
/// is none.
pub open spec fn normalize_segments(b: Seq<u8>, segs: Seq<(int, int)>) -> Option<Seq<(int, int)>>
    decreases segs.len(),
{
    if segs.len() == 0 {
        Some(Seq::empty())
    } else {
        match normalize_segments(b, segs.drop_last()) {
            None => None,
            Some(st) => {
                let (s, e) = segs.last();
                if e == s || (e - s == 1 && b[s] == 46u8) {
                    Some(st)
                } else if e - s == 2 && b[s] == 46u8 && b[s + 1] == 46u8 {
                    if st.len() == 0 {
                        None
                    } else {
                        Some(st.drop_last())
                    }
                } else {
                    Some(st.push((s, e)))
                }
            },
        }
    }
}

/// The bytes of the segments joined by `/`.
pub open spec fn join_segments(b: Seq<u8>, segs: Seq<(int, int)>) -> Seq<u8>
    decreases segs.len(),
{
    if segs.len() == 0 {
        Seq::empty()
    } else if segs.len() == 1 {
        b.subrange(segs[0].0, segs[0].1)
    } else {
        join_segments(b, segs.drop_last()) + seq![47u8] + b.subrange(segs.last().0, segs.last().1)
    }
}

/// Normalizes the segment spans `segs` of a path lexically, as a path
/// resolved against a directory: empty and `.` segments vanish, and `..`
/// removes the segment before it, or vanishes where there is none.
pub open spec fn lexical_segments(b: Seq<u8>, segs: Seq<(int, int)>) -> Seq<(int, int)>
    decreases segs.len(),
{
    if segs.len() == 0 {
        Seq::empty()
    } else {
        let st = lexical_segments(b, segs.drop_last());
        let (s, e) = segs.last();
        if e == s || (e - s == 1 && b[s] == 46u8) {
            st
        } else if e - s == 2 && b[s] == 46u8 && b[s + 1] == 46u8 {
            if st.len() == 0 {
                st
            } else {
                st.drop_last()
            }
        } else {
            st.push((s, e))
        }
    }
}

/// The lexical normal form of a path: `/` first where it is absolute, then
/// its kept segments joined with `/`.
pub open spec fn spec_lexical_normalize(b: Seq<u8>) -> Seq<u8> {
    (if b.len() > 0 && b[0] == 47u8 {
        seq![47u8]
    } else {
        Seq::empty()
    }) + join_segments(b, lexical_segments(b, segments_from(b, 0)))
}

/// The normal form of a relative path, or `None` when it is absolute or
/// climbs above its start with `..`.
pub open spec fn spec_normalize_relative(b: Seq<u8>) -> Option<Seq<u8>> {
    if b.len() > 0 && b[0] == 47u8 {
        None
    } else {
        match normalize_segments(b, segments_from(b, 0)) {
            None => None,
            Some(st) => Some(join_segments(b, st)),
        }
    }
}

} // verus!

verus! {

/// `(s, e)` is a segment: it starts at the beginning or after a `/` and ends
/// at the end or at a `/`.
pub open spec fn seg_ok(b: Seq<u8>, s: int, e: int) -> bool {
    &&& 0 <= s <= e <= b.len()
    &&& (s == 0 || b[s - 1] == 47u8)
    &&& (e == b.len() || b[e] == 47u8)
}

pub open spec fn spans_int(v: Seq<(usize, usize)>) -> Seq<(int, int)> {
    v.map_values(|p: (usize, usize)| (p.0 as int, p.1 as int))
}

proof fn lemma_next_sep(b: Seq<u8>, i: int)
    requires
        0 <= i <= b.len(),
    ensures
        i <= next_sep(b, i) <= b.len(),
        next_sep(b, i) < b.len() ==> b[next_sep(b, i)] == 47u8,
    decreases b.len() - i,
{
    if i < b.len() && b[i] != 47u8 {
        lemma_next_sep(b, i + 1);
    }
}

proof fn lemma_normalize_prefix_none(b: Seq<u8>, p: Seq<(int, int)>, q: Seq<(int, int)>)
    requires
        normalize_segments(b, p) is None,
    ensures
        normalize_segments(b, p + q) is None,
    decreases q.len(),
{
    if q.len() == 0 {
        assert(p + q =~= p);
    } else {
        lemma_normalize_prefix_none(b, p, q.drop_last());
        assert((p + q).drop_last() =~= p + q.drop_last());
    }
}

fn next_sep_exec(b: &[u8], i: usize) -> (e: usize)
    requires
        i <= b@.len(),
    ensures
        e == next_sep(b@, i as int),
        i <= e <= b@.len(),
{
    proof {
        lemma_next_sep(b@, i as int);
    }
    let mut j = i;
    while j < b.len() && b[j] != 47
        invariant
            i <= j <= b@.len(),
            next_sep(b@, i as int) == next_sep(b@, j as int),
        decreases b@.len() - j,
    {
        j = j + 1;
    }
    j
}

/// The kept segments `st` of `path`, joined with `/`.
fn join_spans(path: &str, st: &Vec<(usize, usize)>) -> (out: String)
    requires
        forall|j: int| 0 <= j < st@.len() ==> seg_ok(path.spec_bytes(), (#[trigger] st@[j]).0 as int, st@[j].1 as int),
    ensures
        encode_utf8(out@) == join_segments(path.spec_bytes(), spans_int(st@)),
{
    let b = path.as_bytes();
    let ghost bv = b@;
    let mut out = String::new();
    let mut k: usize = 0;
    proof {
        vstd::utf8::encode_utf8_valid_utf8(path@);
    }
    while k < st.len()
        invariant
            bv == b@,
            bv == path.spec_bytes(),
            vstd::utf8::valid_utf8(bv),
            k <= st@.len(),
            forall|j: int| 0 <= j < st@.len() ==> seg_ok(bv, (#[trigger] st@[j]).0 as int, st@[j].1 as int),
            encode_utf8(out@) == join_segments(bv, spans_int(st@).take(k as int)),
        decreases st@.len() - k,
    {
        let (s, e) = st[k];
        proof {
            assert(seg_ok(bv, s as int, e as int));
            if s > 0 {
                lemma_after_ascii(bv, s - 1);
            } else {
                crate::text::lemma_str_boundary_start(path);
            }
            if e < bv.len() {
                assert(!crate::text::is_continuation(bv[e as int]));
            }
        }
        let piece = str_slice(path, s, e);
        let ghost before = out@;
        if k > 0 {
            proof {
                reveal_strlit("/");
                crate::text::lemma_encode_slash();
                crate::text::lemma_encode_concat(before, "/"@);
            }
            out.append("/");
            proof {
                assert("/"@ == seq!['/']);
                assert(out@ == before + "/"@);
                assert(encode_utf8(out@) == encode_utf8(before) + encode_utf8("/"@));
            }
        }
        let ghost mid = out@;
        out.append(piece);
        proof {
            crate::text::lemma_encode_concat(mid, piece@);
            assert(piece.spec_bytes() == encode_utf8(piece@));
            let t = spans_int(st@).take(k + 1);
            assert(t.drop_last() == spans_int(st@).take(k as int));
            assert(t.last() == (s as int, e as int));
            assert(t.len() == k + 1);
            if k == 0 {
                assert(before == Seq::<char>::empty());
                assert(encode_utf8(before) == Seq::<u8>::empty());
                assert(encode_utf8(out@) == encode_utf8(mid) + bv.subrange(s as int, e as int));
                assert(join_segments(bv, t) == bv.subrange(t[0].0, t[0].1));
                assert(encode_utf8(out@) =~= join_segments(bv, t));
            } else {
                assert(encode_utf8(mid) == encode_utf8(before) + seq![47u8]);
                assert(encode_utf8(out@) =~= join_segments(bv, t));
            }
        }
        k = k + 1;
    }
    assert(spans_int(st@).take(st@.len() as int) == spans_int(st@));
    out
}

/// Normalizes a path lexically, as the file system would resolve it from
/// its start: `.` segments and empty segments vanish, `..` removes the
/// segment before it (and vanishes at the start), and an absolute path
/// stays absolute.
pub fn lexical_normalize(path: &str) -> (r: String)
    ensures
        encode_utf8(r@) == spec_lexical_normalize(path.spec_bytes()),
{
    let b = path.as_bytes();
    let ghost bv = b@;
    let ghost all = segments_from(bv, 0);
    let mut st: Vec<(usize, usize)> = Vec::new();
    let mut i: usize = 0;
    let mut finished = false;
    let ghost mut done: Seq<(int, int)> = Seq::empty();
    while !finished
        invariant
            bv == b@,
            bv == path.spec_bytes(),
            all == segments_from(bv, 0),
            i <= b@.len(),
            i == 0 || b@[i - 1] == 47u8,
            !finished ==> done + segments_from(bv, i as int) == all,
            finished ==> done == all,
            lexical_segments(bv, done) == spans_int(st@),
            forall|k: int| 0 <= k < st@.len() ==> seg_ok(bv, (#[trigger] st@[k]).0 as int, st@[k].1 as int),
        decreases b@.len() - i + if finished { 0int } else { 1int },
    {
        let e = next_sep_exec(b, i);
        proof {
            lemma_next_sep(bv, i as int);
            if e >= b.len() {
                assert(segments_from(bv, i as int) == seq![(i as int, bv.len() as int)]);
            } else {
                assert(segments_from(bv, i as int) == seq![(i as int, e as int)] + segments_from(bv, e + 1));
            }
        }
        let ghost old_done = done;
        let ghost old_st = spans_int(st@);
        proof {
            done = done.push((i as int, e as int));
            assert(done.drop_last() == old_done);
        }
        if e == i || (e - i == 1 && b[i] == 46) {
        } else if e - i == 2 && b[i] == 46 && b[i + 1] == 46 {
            if st.len() > 0 {
                st.pop();
                assert(spans_int(st@) =~= old_st.drop_last());
            }
        } else {
            st.push((i, e));
            assert(spans_int(st@) =~= old_st.push((i as int, e as int)));
        }
        if e >= b.len() {
            finished = true;
            proof {
                assert(old_done + seq![(i as int, e as int)] == done);
            }
        } else {
            proof {
                let rest = segments_from(bv, e + 1);
                assert(old_done + (seq![(i as int, e as int)] + rest) == (old_done + seq![(i as int, e as int)]) + rest);
            }
            i = e + 1;
        }
    }
    let joined = join_spans(path, &st);
    if b.len() > 0 && b[0] == 47 {
        let mut out = String::from_str("/");
        proof {
            reveal_strlit("/");
            crate::text::lemma_encode_slash();
        }
        let ghost slash = out@;
        out.append(joined.as_str());
        proof {
            assert("/"@ == seq!['/']);
            assert(encode_utf8(slash) == seq![47u8]);
            crate::text::lemma_encode_concat(slash, joined@);
            assert(out@ == slash + joined@);
            assert(encode_utf8(out@) =~= spec_lexical_normalize(bv));
        }
        out
    } else {
        proof {
            assert(encode_utf8(joined@) =~= spec_lexical_normalize(bv));
        }
        joined
    }
}

/// Normalizes a relative path lexically: `.` segments and empty segments
/// vanish and `..` removes the segment before it. Absolute paths and paths
/// that climb above their start give `None`.
pub fn lexical_normalize_relative(path: &str) -> (r: Option<String>)
    ensures
        spec_normalize_relative(path.spec_bytes()) is None ==> r is None,
        spec_normalize_relative(path.spec_bytes()) matches Some(n) ==> (r matches Some(s)
            && encode_utf8(s@) == n),
{
    let b = path.as_bytes();
    let ghost bv = b@;
    let ghost all = segments_from(bv, 0);
    if b.len() > 0 && b[0] == 47 {
        return None;
    }
    proof {
        vstd::utf8::encode_utf8_valid_utf8(path@);
    }
    let mut st: Vec<(usize, usize)> = Vec::new();
    let mut i: usize = 0;
    let mut finished = false;
    let ghost mut done: Seq<(int, int)> = Seq::empty();
    while !finished
        invariant
            bv == b@,
            bv == path.spec_bytes(),
            !(bv.len() > 0 && bv[0] == 47u8),
            all == segments_from(bv, 0),
            i <= b@.len(),
            i == 0 || b@[i - 1] == 47u8,
            !finished ==> done + segments_from(bv, i as int) == all,
            finished ==> done == all,
            normalize_segments(bv, done) == Some(spans_int(st@)),
            forall|k: int| 0 <= k < st@.len() ==> seg_ok(bv, (#[trigger] st@[k]).0 as int, st@[k].1 as int),
        decreases b@.len() - i + if finished { 0int } else { 1int },
    {
        let e = next_sep_exec(b, i);
        proof {
            lemma_next_sep(bv, i as int);
            if e >= b.len() {
                assert(segments_from(bv, i as int) == seq![(i as int, bv.len() as int)]);
            } else {
                assert(segments_from(bv, i as int) == seq![(i as int, e as int)] + segments_from(bv, e + 1));
            }
        }
        let ghost old_done = done;
        let ghost old_st = spans_int(st@);
        proof {
            done = done.push((i as int, e as int));
            assert(done.drop_last() == old_done);
        }
        if e == i || (e - i == 1 && b[i] == 46) {
        } else if e - i == 2 && b[i] == 46 && b[i + 1] == 46 {
            if st.len() == 0 {
                proof {
                    assert(normalize_segments(bv, done) is None);
                    if e >= b.len() {
                        assert(done == all) by {
                            assert(old_done + seq![(i as int, e as int)] == done);
                        }
                    } else {
                        let rest = segments_from(bv, e + 1);
                        assert(all == done + rest) by {
                            assert(old_done + (seq![(i as int, e as int)] + rest) == (old_done + seq![(i as int, e as int)]) + rest);
                        }
                        lemma_normalize_prefix_none(bv, done, rest);
                    }
                    assert(normalize_segments(bv, all) is None);
                    assert(spec_normalize_relative(path.spec_bytes()) is None);
                }
                return None;
            }
            st.pop();
            assert(spans_int(st@) =~= old_st.drop_last());
        } else {
            st.push((i, e));
            assert(spans_int(st@) =~= old_st.push((i as int, e as int)));
        }
        if e >= b.len() {
            finished = true;
            proof {
                assert(old_done + seq![(i as int, e as int)] == done);
            }
        } else {
            proof {
                let rest = segments_from(bv, e + 1);
                assert(old_done + (seq![(i as int, e as int)] + rest) == (old_done + seq![(i as int, e as int)]) + rest);
            }
            i = e + 1;
        }
    }
    let out = join_spans(path, &st);
    Some(out)
}

} // verus!

verus! {

// ---------------------------------------------------------------------------
// The resolver's decisions.

/// The value of the last entry for `key`, as a later insertion replaces an
/// earlier one.
pub open spec fn spec_lookup<V>(entries: Seq<(String, V)>, key: Seq<char>) -> Option<V>
    decreases entries.len(),
{
    if entries.len() == 0 {
        None
    } else if entries.last().0@ == key {
        Some(entries.last().1)
    } else {
        spec_lookup(entries.drop_last(), key)
    }
}

fn lookup<V: Copy>(entries: &Vec<(String, V)>, key: &String) -> (r: Option<V>)
    ensures
        r == spec_lookup(entries@, key@),
{
    let mut i = entries.len();
    assert(entries@.take(i as int) == entries@);
    while i > 0
        invariant
            i <= entries@.len(),
            spec_lookup(entries@, key@) == spec_lookup(entries@.take(i as int), key@),
        decreases i,
    {
        let ghost t = entries@.take(i as int);
        assert(t.drop_last() == entries@.take(i - 1));
        if entries[i - 1].0 == *key {
            return Some(entries[i - 1].1);
        }
        i = i - 1;
    }
    None
}

fn lookup_string<'a>(entries: &'a Vec<(String, String)>, key: &str) -> (r: Option<&'a String>)
    ensures
        r matches Some(v) ==> spec_lookup(entries@, key@) == Some(*v),
        r is None ==> spec_lookup(entries@, key@) is None,
{
    let k = key.to_owned();
    let mut i = entries.len();
    assert(entries@.take(i as int) == entries@);
    while i > 0
        invariant
            i <= entries@.len(),
            k@ == key@,
            spec_lookup(entries@, key@) == spec_lookup(entries@.take(i as int), key@),
        decreases i,
    {
        let ghost t = entries@.take(i as int);
        assert(t.drop_last() == entries@.take(i - 1));
        if entries[i - 1].0 == k {
            return Some(&entries[i - 1].1);
        }
        i = i - 1;
    }
    None
}

/// The format that the extension of a path selects, if any.
pub open spec fn spec_extension_format(b: Seq<u8>) -> Option<ModuleFormat> {
    match extension_span(b) {
        None => None,
        Some((s, e)) => ModuleFormat::spec_from_extension(b.subrange(s, e)),
    }
}

/// Resolves module paths: the workspace root, the roots of declared
/// dependencies, and per-module format overrides keyed by module URI.
#[derive(Clone, Debug)]
pub struct ModuleResolver {
    workspace_root: String,
    dependencies: Vec<(String, String)>,
    formats: Vec<(String, ModuleFormat)>,
}

/// What an import needs before it can be resolved: nothing more (a core
/// module), the physical resolution of a path relative to a local importer,
/// or the physical resolution of a logical path inside a dependency.
#[derive(Clone, Debug)]
pub enum ImportRequest {
    Resolved(ResolvedModule),
    Local { importer: String, target: String },
    Dependency { name: String, root: String, path: String },
}

/// `p` lies under `base`, component-wise, for paths without `.` segments.
pub open spec fn path_starts_with(p: Seq<u8>, base: Seq<u8>) -> bool {
    ||| p == base
    ||| (base.len() < p.len() && p.take(base.len() as int) == base && (p[base.len() as int]
        == 47u8 || (base.len() > 0 && base.last() == 47u8)))
}

/// The directory part of a logical path joined with an import target.
pub open spec fn spec_join_parent(path: Seq<u8>, target: Seq<u8>) -> Seq<u8> {
    let d = seg_start(path, path.len() as int);
    if target.len() > 0 && target[0] == 47u8 {
        target
    } else if d == 0 {
        target
    } else {
        path.take(d - 1) + seq![47u8] + target
    }
}

/// A relative import target replaces the file name of the importing
/// path: the result is the importer's directory (its path up to and with
/// its last `/`, or nothing when it has none) followed by the target. An
/// absolute target stands for itself.
pub proof fn law_join_parent_replaces_file_name(path: Seq<u8>, target: Seq<u8>)
    ensures
        ({
            let r = spec_join_parent(path, target);
            let d = r.len() - target.len();
            if target.len() > 0 && target[0] == 47u8 {
                r == target
            } else {
                &&& 0 <= d <= path.len()
                &&& r.subrange(d, r.len() as int) == target
                &&& r.take(d) == path.take(d)
                &&& (d == 0 || path[d - 1] == 47u8)
                &&& forall|i: int| d <= i < path.len() ==> path[i] != 47u8
            }
        }),
{
    lemma_seg_start(path, path.len() as int);
    let dd = seg_start(path, path.len() as int);
    let r = spec_join_parent(path, target);
    if !(target.len() > 0 && target[0] == 47u8) && dd > 0 {
        assert(r.len() == dd + target.len());
        assert(r.subrange(dd, r.len() as int) =~= target);
        assert(r.take(dd) =~= path.take(dd));
    } else if !(target.len() > 0 && target[0] == 47u8) {
        assert(r.subrange(0, r.len() as int) =~= target);
        assert(r.take(0) =~= path.take(0));
    }
}

/// `b` starts with `prefix`.
pub open spec fn has_prefix(b: Seq<u8>, prefix: Seq<u8>) -> bool {
    prefix.len() <= b.len() && b.take(prefix.len() as int) == prefix
}

pub open spec fn core_prefix() -> Seq<u8> {
    seq![99u8, 111, 114, 101, 58]
}

/// Position of the first `/` in `b[i..]`, if any.
pub open spec fn find_slash(b: Seq<u8>, i: int) -> Option<int> {
    if next_sep(b, i) < b.len() {
        Some(next_sep(b, i))
    } else {
        None
    }
}

impl ModuleResolver {
    pub closed spec fn spec_workspace_root(self) -> Seq<char> {
        self.workspace_root@
    }

    pub closed spec fn spec_dependencies(self) -> Seq<(String, String)> {
        self.dependencies@
    }

    pub closed spec fn spec_formats(self) -> Seq<(String, ModuleFormat)> {
        self.formats@
    }

    /// A resolver for a workspace without dependencies or overrides.
    pub fn new(workspace_root: String) -> (r: ModuleResolver)
        ensures
            r.spec_workspace_root() == workspace_root@,
            r.spec_dependencies().len() == 0,
            r.spec_formats().len() == 0,
    {
        ModuleResolver { workspace_root, dependencies: Vec::new(), formats: Vec::new() }
    }

    /// Declares (or redeclares) a dependency and its root directory.
    pub fn add_dependency(&mut self, name: String, root: String)
        ensures
            final(self).spec_dependencies() == old(self).spec_dependencies().push((name, root)),
            final(self).spec_formats() == old(self).spec_formats(),
            final(self).spec_workspace_root() == old(self).spec_workspace_root(),
    {
        self.dependencies.push((name, root));
    }

    /// Overrides (or re-overrides) the format of the module with this URI.
    pub fn add_format(&mut self, module: String, format: ModuleFormat)
        ensures
            final(self).spec_formats() == old(self).spec_formats().push((module, format)),
            final(self).spec_dependencies() == old(self).spec_dependencies(),
            final(self).spec_workspace_root() == old(self).spec_workspace_root(),
    {
        self.formats.push((module, format));
    }

    /// The directory that holds the dependency manifest, or the root module's
    /// directory when there is none.
    pub fn workspace_root(&self) -> (r: &String)
        ensures
            r@ == self.spec_workspace_root(),
    {
        &self.workspace_root
    }

    /// The format a module with identity `uri` and physical path bytes
    /// `physical` gets when it resolves: its override if any, else the
    /// format of its extension.
    pub open spec fn resolved_format(self, uri: Seq<char>, physical: Seq<u8>) -> Option<ModuleFormat> {
        match spec_lookup(self.spec_formats(), uri) {
            Some(c) => Some(c),
            None => spec_extension_format(physical),
        }
    }

    /// The format of a module: its configured override if any (which must
    /// agree with a recognized extension), else the format of its extension.
    pub fn format_for(&self, id: &ResolvedModuleId, physical: &str) -> (r: Result<ModuleFormat, ResolveModuleError>)
        ensures
            ({
                let configured = spec_lookup(self.spec_formats(), id.spec_uri());
                let ext = spec_extension_format(physical.spec_bytes());
                &&& configured matches Some(c) ==> (match ext {
                    Some(e) => if c != e {
                        r matches Err(ResolveModuleError::FormatConflict { configured: cc, extension: ee })
                            && cc == c && ee == e
                    } else {
                        r matches Ok(f) && f == c
                    },
                    None => r matches Ok(f) && f == c,
                })
                &&& configured is None ==> (match ext {
                    Some(e) => r matches Ok(f) && f == e,
                    None => {
                        &&& extension_span(physical.spec_bytes()) is None ==> (r matches Err(
                            ResolveModuleError::MissingExtension,
                        ))
                        &&& extension_span(physical.spec_bytes()) is Some ==> (r matches Err(
                            ResolveModuleError::UnknownExtension(_),
                        ))
                    },
                })
            }),
    {
        let key = id.to_uri_string();
        let configured = lookup(&self.formats, &key);
        let extension = ModuleFormat::from_path(physical);
        match configured {
            Some(c) => match extension {
                Ok(e) => {
                    if c != e {
                        Err(ResolveModuleError::FormatConflict { configured: c, extension: e })
                    } else {
                        Ok(c)
                    }
                },
                Err(_) => Ok(c),
            },
            None => extension,
        }
    }

    /// Aliases of one file share one identity and one format: resolving
    /// the same physical path gives the same module id and the same format,
    /// whatever text named the file before the file system resolved it.
    pub proof fn law_aliases_share_identity(self, p: String, q: String)
        requires
            p@ == q@,
        ensures
            ResolvedModuleId::Local(p).spec_uri() == ResolvedModuleId::Local(q).spec_uri(),
            self.resolved_format(ResolvedModuleId::Local(p).spec_uri(), encode_utf8(p@)) == self.resolved_format(
                ResolvedModuleId::Local(q).spec_uri(),
                encode_utf8(q@),
            ),
    {
    }

    /// Resolves a root or local module from its physical path, as the file
    /// system resolved it: its format comes from the overrides or its extension.
    pub fn resolve_root(&self, physical: String) -> (r: Result<ResolvedModule, ResolveModuleError>)
        ensures
            r matches Ok(m) ==> (m.id matches ResolvedModuleId::Local(p) && p@ == physical@),
            r matches Ok(m) ==> Some(m.format) == self.resolved_format(
                ResolvedModuleId::Local(physical).spec_uri(),
                encode_utf8(physical@),
            ),
            r is Ok <==> (spec_lookup(self.spec_formats(), ResolvedModuleId::Local(physical).spec_uri()) is Some
                || spec_extension_format(encode_utf8(physical@)) is Some) && !(spec_lookup(
                self.spec_formats(),
                ResolvedModuleId::Local(physical).spec_uri(),
            ) matches Some(c) && spec_extension_format(encode_utf8(physical@)) matches Some(e) && c != e),
    {
        let id = ResolvedModuleId::Local(physical);
        let format = match &id {
            ResolvedModuleId::Local(p) => self.format_for(&id, p.as_str()),
            _ => Err(ResolveModuleError::EmptyPath),
        };
        match format {
            Ok(format) => Ok(ResolvedModule { id, format }),
            Err(e) => Err(e),
        }
    }

    /// Completes the resolution of a dependency module whose physical path is
    /// known: it must stay under the dependency's root.
    pub fn finish_dependency(
        &self,
        name: String,
        root: String,
        path: String,
        physical: String,
        original: &str,
    ) -> (r: Result<ResolvedModule, ResolveModuleError>)
        ensures
            !path_starts_with(encode_utf8(physical@), encode_utf8(root@)) ==> (r matches Err(
                ResolveModuleError::DependencyEscape(o),
            ) && o@ == original@),
            r matches Ok(m) ==> path_starts_with(encode_utf8(physical@), encode_utf8(root@)),
            r matches Ok(m) ==> (m.id matches ResolvedModuleId::Dependency {
                name: n,
                resolution_root: rr,
                path: pp,
                physical_path: ph,
            } && n@ == name@ && rr@ == root@ && pp@ == path@ && ph@ == physical@),
            r matches Ok(m) ==> Some(m.format) == self.resolved_format(m.id.spec_uri(), encode_utf8(physical@)),
    {
        if !starts_with_path(physical.as_str().as_bytes(), root.as_str().as_bytes()) {
            return Err(ResolveModuleError::DependencyEscape(original.to_owned()));
        }
        let id = ResolvedModuleId::Dependency {
            name,
            resolution_root: root,
            path,
            physical_path: physical,
        };
        let format = match &id {
            ResolvedModuleId::Dependency { physical_path, .. } => self.format_for(
                &id,
                physical_path.as_str(),
            ),
            _ => Err(ResolveModuleError::EmptyPath),
        };
        match format {
            Ok(format) => Ok(ResolvedModule { id, format }),
            Err(e) => Err(e),
        }
    }
}

fn starts_with_path(p: &[u8], base: &[u8]) -> (r: bool)
    ensures
        r == path_starts_with(p@, base@),
{
    if eq_bytes(p, base) {
        return true;
    }
    if base.len() >= p.len() {
        return false;
    }
    let mut i: usize = 0;
    while i < base.len()
        invariant
            base@.len() < p@.len(),
            i <= base@.len(),
            forall|k: int| 0 <= k < i ==> p@[k] == base@[k],
        decreases base@.len() - i,
    {
        if p[i] != base[i] {
            assert(p@.take(base@.len() as int)[i as int] != base@[i as int]);
            return false;
        }
        i = i + 1;
    }
    assert(p@.take(base@.len() as int) =~= base@);
    p[base.len()] == 47 || (base.len() > 0 && base[base.len() - 1] == 47)
}

} // verus!

verus! {

pub open spec fn deps_prefix() -> Seq<u8> {
    deps_scheme()
}

fn has_prefix_exec(b: &[u8], prefix: &[u8]) -> (r: bool)
    ensures
        r == has_prefix(b@, prefix@),
{
    if prefix.len() > b.len() {
        return false;
    }
    let mut i: usize = 0;
    while i < prefix.len()
        invariant
            prefix@.len() <= b@.len(),
            i <= prefix@.len(),
            forall|k: int| 0 <= k < i ==> b@[k] == prefix@[k],
        decreases prefix@.len() - i,
    {
        if b[i] != prefix[i] {
            assert(b@.take(prefix@.len() as int)[i as int] != prefix@[i as int]);
            return false;
        }
        i = i + 1;
    }
    assert(b@.take(prefix@.len() as int) =~= prefix@);
    true
}

/// The logical path of `target` imported from the dependency module at
/// `path`: joined to the directory of `path`.
fn join_parent(path: &str, target: &str) -> (r: String)
    ensures
        encode_utf8(r@) == spec_join_parent(path.spec_bytes(), target.spec_bytes()),
{
    let b = path.as_bytes();
    let t = target.as_bytes();
    let d = seg_start_exec(b, b.len());
    proof {
        lemma_seg_start(b@, b@.len() as int);
    }
    if (t.len() > 0 && t[0] == 47) || d == 0 {
        let r = target.to_owned();
        return r;
    }
    proof {
        vstd::utf8::encode_utf8_valid_utf8(path@);
        crate::text::lemma_str_boundary_start(path);
        lemma_after_ascii(b@, d - 2 + 1);
        assert(!crate::text::is_continuation(b@[d - 1]));
    }
    let head = str_slice(path, 0, d - 1);
    let mut r = head.to_owned();
    assert(encode_utf8(r@) == head.spec_bytes());
    assert(head.spec_bytes() =~= b@.take(d - 1));
    let ghost r0 = r@;
    proof {
        reveal_strlit("/");
        crate::text::lemma_encode_slash();
        crate::text::lemma_encode_concat(r@, "/"@);
    }
    r.append("/");
    let ghost mid = r@;
    r.append(target);
    proof {
        assert(mid == r0 + "/"@);
        assert("/"@ == seq!['/']);
        assert(encode_utf8("/"@) == seq![47u8]);
        assert(encode_utf8(r0 + "/"@) == encode_utf8(r0) + encode_utf8("/"@));
        assert(encode_utf8(mid) == b@.take(d - 1) + seq![47u8]);
        crate::text::lemma_encode_concat(mid, target@);
        assert(t@ == encode_utf8(target@));
        assert(encode_utf8(r@) =~= b@.take(d - 1) + seq![47u8] + t@);
    }
    r
}

/// The message of the error for a relative import from a core module.
pub open spec fn core_relative_message() -> Seq<char> {
    "core modules cannot use relative imports"@
}

impl ModuleResolver {
    /// Decides an import before any file is consulted: `core:` modules are
    /// resolved at once; `deps://name/path` must name a declared dependency
    /// and a path that stays inside it; other targets are relative to the
    /// importer.
    pub fn classify_import(&self, importer: &ResolvedModuleId, target: &str) -> (r: Result<ImportRequest, ResolveModuleError>)
        ensures
            ({
                let t = target.spec_bytes();
                let rest = t.skip(7);
                &&& has_prefix(t, core_prefix()) ==> (r matches Ok(ImportRequest::Resolved(m))
                    && m.format == ModuleFormat::Xl && (m.id matches ResolvedModuleId::Core(n)
                    && n@ == target@))
                &&& !has_prefix(t, core_prefix()) && has_prefix(t, deps_prefix()) ==> (match find_slash(rest, 0) {
                    None => r matches Err(ResolveModuleError::InvalidDependencyUri(o)) && o@ == target@,
                    Some(k) => if k == 0 || k + 1 == rest.len() {
                        r matches Err(ResolveModuleError::InvalidDependencyUri(o)) && o@ == target@
                    } else {
                        match spec_lookup(self.spec_dependencies(), vstd::utf8::decode_utf8(rest.take(k))) {
                            None => r matches Err(ResolveModuleError::UnknownDependency(n))
                                && encode_utf8(n@) == rest.take(k),
                            Some(root) => match spec_normalize_relative(rest.skip(k + 1)) {
                                None => r matches Err(ResolveModuleError::DependencyEscape(o)) && o@ == target@,
                                Some(l) => r matches Ok(ImportRequest::Dependency { name, root: rt, path })
                                    && encode_utf8(name@) == rest.take(k) && rt == root
                                    && encode_utf8(path@) == l,
                            },
                        }
                    },
                })
                &&& !has_prefix(t, core_prefix()) && !has_prefix(t, deps_prefix()) && t.len() == 0 ==> (r matches Err(
                    ResolveModuleError::EmptyPath,
                ))
                &&& !has_prefix(t, core_prefix()) && !has_prefix(t, deps_prefix()) && t.len() > 0 ==> (match *importer {
                    ResolvedModuleId::Local(p) => r matches Ok(ImportRequest::Local { importer: i, target: tt })
                        && i@ == p@ && tt@ == target@,
                    ResolvedModuleId::Dependency { name, resolution_root, path, .. } => match spec_normalize_relative(
                        spec_join_parent(encode_utf8(path@), t),
                    ) {
                        None => r matches Err(ResolveModuleError::DependencyEscape(o)) && o@ == target@,
                        Some(l) => r matches Ok(ImportRequest::Dependency { name: n, root, path: pp })
                            && n@ == name@ && root@ == resolution_root@ && encode_utf8(pp@) == l,
                    },
                    ResolvedModuleId::Core(_) => r matches Err(ResolveModuleError::Io(m))
                        && m@ == core_relative_message(),
                })
            }),
    {
        let t = target.as_bytes();
        if has_prefix_exec(t, &[99u8, 111u8, 114u8, 101u8, 58u8]) {
            assert([99u8, 111u8, 114u8, 101u8, 58u8]@ =~= core_prefix());
            return Ok(ImportRequest::Resolved(ResolvedModule {
                id: ResolvedModuleId::Core(target.to_owned()),
                format: ModuleFormat::Xl,
            }));
        }
        assert([99u8, 111u8, 114u8, 101u8, 58u8]@ =~= core_prefix());
        let is_deps = has_prefix_exec(t, &[100u8, 101u8, 112u8, 115u8, 58u8, 47u8, 47u8]);
        assert([100u8, 101u8, 112u8, 115u8, 58u8, 47u8, 47u8]@ =~= deps_prefix());
        if is_deps {
            return self.classify_dependency_uri(target);
        }
        if t.len() == 0 {
            return Err(ResolveModuleError::EmptyPath);
        }
        match importer {
            ResolvedModuleId::Local(p) => Ok(ImportRequest::Local { importer: p.clone(), target: target.to_owned() }),
            ResolvedModuleId::Dependency { name, resolution_root, path, .. } => {
                let joined = join_parent(path.as_str(), target);
                match lexical_normalize_relative(joined.as_str()) {
                    None => Err(ResolveModuleError::DependencyEscape(target.to_owned())),
                    Some(logical) => Ok(ImportRequest::Dependency {
                        name: name.clone(),
                        root: resolution_root.clone(),
                        path: logical,
                    }),
                }
            },
            ResolvedModuleId::Core(_) => {
                proof {
                    reveal_strlit("core modules cannot use relative imports");
                }
                Err(ResolveModuleError::Io(String::from_str("core modules cannot use relative imports")))
            },
        }
    }

    fn classify_dependency_uri(&self, target: &str) -> (r: Result<ImportRequest, ResolveModuleError>)
        requires
            has_prefix(target.spec_bytes(), deps_prefix()),
        ensures
            ({
                let t = target.spec_bytes();
                let rest = t.skip(7);
                match find_slash(rest, 0) {
                    None => r matches Err(ResolveModuleError::InvalidDependencyUri(o)) && o@ == target@,
                    Some(k) => if k == 0 || k + 1 == rest.len() {
                        r matches Err(ResolveModuleError::InvalidDependencyUri(o)) && o@ == target@
                    } else {
                        match spec_lookup(self.spec_dependencies(), vstd::utf8::decode_utf8(rest.take(k))) {
                            None => r matches Err(ResolveModuleError::UnknownDependency(n))
                                && encode_utf8(n@) == rest.take(k),
                            Some(root) => match spec_normalize_relative(rest.skip(k + 1)) {
                                None => r matches Err(ResolveModuleError::DependencyEscape(o)) && o@ == target@,
                                Some(l) => r matches Ok(ImportRequest::Dependency { name, root: rt, path })
                                    && encode_utf8(name@) == rest.take(k) && rt == root
                                    && encode_utf8(path@) == l,
                            },
                        }
                    },
                }
            }),
    {
        let t = target.as_bytes();
        let ghost tv = t@;
        proof {
            vstd::utf8::encode_utf8_valid_utf8(target@);
            lemma_after_ascii(tv, 6);
        }
        let rest = str_slice(target, 7, t.len());
        let rb = rest.as_bytes();
        assert(rb@ =~= tv.skip(7));
        let k = next_sep_exec(rb, 0);
        proof {
            lemma_next_sep(rb@, 0);
        }
        if k >= rb.len() || k == 0 || k + 1 == rb.len() {
            return Err(ResolveModuleError::InvalidDependencyUri(target.to_owned()));
        }
        proof {
            vstd::utf8::encode_utf8_valid_utf8(rest@);
            crate::text::lemma_str_boundary_start(rest);
            lemma_after_ascii(rb@, k as int);
        }
        let name = str_slice(rest, 0, k);
        let path = str_slice(rest, k + 1, rb.len());
        assert(path.spec_bytes() =~= rb@.skip(k + 1));
        proof {
            assert(name.spec_bytes() =~= rb@.take(k as int));
            vstd::utf8::encode_utf8_decode_utf8(name@);
        }
        match lookup_string(&self.dependencies, name) {
            None => Err(ResolveModuleError::UnknownDependency(name.to_owned())),
            Some(root) => match lexical_normalize_relative(path) {
                None => Err(ResolveModuleError::DependencyEscape(target.to_owned())),
                Some(logical) => Ok(ImportRequest::Dependency {
                    name: name.to_owned(),
                    root: root.clone(),
                    path: logical,
                }),
            },
        }
    }
}

} // verus!
