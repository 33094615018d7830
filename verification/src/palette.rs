//! What gives each file its colour in the treemap: the kind of file its
//! extension names, and a hash of the extension.
use vstd::prelude::*;
use vstd::string::StringSliceAdditionalSpecFns;

verus! {

/// ASCII letters in lower case; other bytes unchanged.
pub open spec fn ascii_lower(b: u8) -> u8 {
    if 0x41 <= b <= 0x5a {
        (b + 32) as u8
    } else {
        b
    }
}

/// The 32-bit FNV-1a hash of `bytes`, with ASCII letters taken in lower case.
pub open spec fn fnv_lower(bytes: Seq<u8>) -> u32
    decreases bytes.len(),
{
    if bytes.len() == 0 {
        2166136261
    } else {
        vstd::wrapping::u32_specs::wrapping_mul(
            fnv_lower(bytes.drop_last()) ^ (ascii_lower(bytes.last()) as u32),
            16777619,
        )
    }
}

/// The colour hash of an extension: FNV-1a over its bytes, ignoring ASCII case.
pub fn hash(text: &str) -> (r: u32)
    ensures
        r == fnv_lower(text.spec_bytes()),
{
    hash_bytes(text.as_bytes())
}

/// The colour hash of the bytes of an extension.
pub fn hash_bytes(bytes: &[u8]) -> (r: u32)
    ensures
        r == fnv_lower(bytes@),
{
    let mut h: u32 = 2166136261;
    let mut k: usize = 0;
    while k < bytes.len()
        invariant
            k <= bytes@.len(),
            h == fnv_lower(bytes@.take(k as int)),
        decreases bytes@.len() - k,
    {
        let b = bytes[k];
        let lower: u8 = if 0x41 <= b && b <= 0x5a {
            b + 32
        } else {
            b
        };
        h = (h ^ (lower as u32)).wrapping_mul(16777619);
        proof {
            assert(bytes@.take(k + 1).drop_last() =~= bytes@.take(k as int));
        }
        k = k + 1;
    }
    proof {
        assert(bytes@.take(bytes@.len() as int) =~= bytes@);
    }
    h
}


/// The byte that separates a name from its extension.
pub const DOT: u8 = 0x2e;

/// The position of the last dot among the first `k` bytes, or -1.
pub open spec fn last_dot(b: Seq<u8>, k: int) -> int
    decreases k,
{
    if k <= 0 {
        -1
    } else if b[k - 1] == DOT {
        k - 1
    } else {
        last_dot(b, k - 1)
    }
}

/// The extension of a name: the bytes after its last dot, or none without a dot.
pub open spec fn ext_of(b: Seq<u8>) -> Seq<u8> {
    let d = last_dot(b, b.len() as int);
    if d < 0 {
        Seq::empty()
    } else {
        b.subrange(d + 1, b.len() as int)
    }
}

/// The extension as the kinds of file are looked up: in lower case, and
/// only when it is short ASCII; else empty.
pub open spec fn normal_of(e: Seq<u8>) -> Seq<u8> {
    if e.len() <= 24 && forall|i: int| 0 <= i < e.len() ==> e[i] < 128 {
        e.map_values(|b: u8| ascii_lower(b))
    } else {
        Seq::empty()
    }
}

/// The extensions of each kind of file, in the order of the treemap's legend:
/// video, audio, images, archives, code, data, documents, apps, disk
/// images and 3D.
pub open spec fn kind_names(k: int) -> Seq<&'static str> {
    if k == 0 {
        seq!["mp4", "mov", "mkv", "avi", "webm", "mxf", "crm", "braw", "r3d", "m4v", "mts"]
    } else if k == 1 {
        seq!["wav", "mp3", "flac", "ogg", "aac", "aiff", "m4a"]
    } else if k == 2 {
        seq!["jpg", "jpeg", "png", "webp", "raw", "psd", "heic", "exr", "tif", "tiff", "bmp", "gif", "svg"]
    } else if k == 3 {
        seq!["zip", "7z", "rar", "tar", "gz", "pak", "bz2", "xz", "zst", "whl"]
    } else if k == 4 {
        seq!["rs", "js", "ts", "tsx", "jsx", "py", "pyc", "cpp", "c", "h", "cs", "html", "css", "java", "go", "nix", "sh"]
    } else if k == 5 {
        seq!["json", "csv", "db", "sqlite", "parquet", "xml", "yaml", "toml", "bin", "safetensors", "pt", "onnx"]
    } else if k == 6 {
        seq!["pdf", "doc", "docx", "xls", "xlsx", "pptx", "txt", "md", "rtf", "epub"]
    } else if k == 7 {
        seq!["exe", "dll", "msi", "sys", "so", "pyd", "lib", "pdb"]
    } else if k == 8 {
        seq!["iso", "vhd", "vhdx", "vmdk", "qcow2", "img"]
    } else {
        seq!["blend", "fbx", "obj", "abc", "usd", "usdc", "uasset", "stl"]
    }
}

/// How many kinds of file the treemap tells apart.
pub const KINDS: usize = 10;

/// Whether `n` is one of `names`.
pub open spec fn named(n: Seq<u8>, names: Seq<&'static str>) -> bool {
    exists|i: int| 0 <= i < names.len() && (#[trigger] names[i]).spec_bytes() == n
}

/// The first kind from `k` on whose names hold `n`, if any.
pub open spec fn kind_from(n: Seq<u8>, k: int) -> Option<usize>
    decreases KINDS - k,
{
    if k >= KINDS {
        None
    } else if named(n, kind_names(k)) {
        Some(k as usize)
    } else {
        kind_from(n, k + 1)
    }
}

/// The bytes after the last dot of `name`, or none when it has no dot.
pub fn extension(name: &str) -> (r: &[u8])
    ensures
        r@ == ext_of(name.spec_bytes()),
{
    let b = name.as_bytes();
    let mut k: usize = b.len();
    while k > 0
        invariant
            b@ == name.spec_bytes(),
            k <= b@.len(),
            last_dot(b@, b@.len() as int) == last_dot(b@, k as int),
        decreases k,
    {
        if b[k - 1] == DOT {
            return vstd::slice::slice_subrange(b, k, b.len());
        }
        k = k - 1;
    }
    vstd::slice::slice_subrange(b, 0, 0)
}

/// Whether the bytes `n` spell `name`.
fn spells(n: &[u8], name: &str) -> (r: bool)
    ensures
        r == (n@ == name.spec_bytes()),
{
    let m = name.as_bytes();
    if n.len() != m.len() {
        return false;
    }
    let mut i: usize = 0;
    while i < n.len()
        invariant
            m@ == name.spec_bytes(),
            n@.len() == m@.len(),
            i <= n@.len(),
            forall|j: int| 0 <= j < i ==> n@[j] == m@[j],
        decreases n@.len() - i,
    {
        if n[i] != m[i] {
            proof {
                assert(n@[i as int] != m@[i as int]);
            }
            return false;
        }
        i = i + 1;
    }
    proof {
        assert(n@ =~= m@);
    }
    true
}

/// Whether `n` is one of `names`.
fn is_named(n: &[u8], names: &Vec<&'static str>) -> (r: bool)
    ensures
        r == named(n@, names@),
{
    let mut i: usize = 0;
    while i < names.len()
        invariant
            i <= names@.len(),
            forall|j: int| 0 <= j < i ==> (#[trigger] names@[j]).spec_bytes() != n@,
        decreases names@.len() - i,
    {
        if spells(n, names[i]) {
            return true;
        }
        i = i + 1;
    }
    false
}

/// The extensions of kind `k`.
fn names_of(k: usize) -> (r: Vec<&'static str>)
    requires
        k < KINDS,
    ensures
        r@ == kind_names(k as int),
{
    if k == 0 {
        vec!["mp4", "mov", "mkv", "avi", "webm", "mxf", "crm", "braw", "r3d", "m4v", "mts"]
    } else if k == 1 {
        vec!["wav", "mp3", "flac", "ogg", "aac", "aiff", "m4a"]
    } else if k == 2 {
        vec!["jpg", "jpeg", "png", "webp", "raw", "psd", "heic", "exr", "tif", "tiff", "bmp", "gif", "svg"]
    } else if k == 3 {
        vec!["zip", "7z", "rar", "tar", "gz", "pak", "bz2", "xz", "zst", "whl"]
    } else if k == 4 {
        vec!["rs", "js", "ts", "tsx", "jsx", "py", "pyc", "cpp", "c", "h", "cs", "html", "css", "java", "go", "nix", "sh"]
    } else if k == 5 {
        vec!["json", "csv", "db", "sqlite", "parquet", "xml", "yaml", "toml", "bin", "safetensors", "pt", "onnx"]
    } else if k == 6 {
        vec!["pdf", "doc", "docx", "xls", "xlsx", "pptx", "txt", "md", "rtf", "epub"]
    } else if k == 7 {
        vec!["exe", "dll", "msi", "sys", "so", "pyd", "lib", "pdb"]
    } else if k == 8 {
        vec!["iso", "vhd", "vhdx", "vmdk", "qcow2", "img"]
    } else {
        vec!["blend", "fbx", "obj", "abc", "usd", "usdc", "uasset", "stl"]
    }
}

/// The extension as the kinds are looked up: short ASCII in lower case, else empty.
fn normal(ext: &[u8]) -> (r: Vec<u8>)
    ensures
        r@ == normal_of(ext@),
{
    let mut out: Vec<u8> = Vec::new();
    if ext.len() > 24 {
        return out;
    }
    let mut i: usize = 0;
    while i < ext.len()
        invariant
            i <= ext@.len() <= 24,
            forall|j: int| 0 <= j < i ==> ext@[j] < 128,
            out@ =~= ext@.take(i as int).map_values(|b: u8| ascii_lower(b)),
        decreases ext@.len() - i,
    {
        let b = ext[i];
        if b >= 128 {
            return Vec::new();
        }
        out.push(if 0x41 <= b && b <= 0x5a {
            b + 32
        } else {
            b
        });
        i = i + 1;
    }
    proof {
        assert(ext@.take(ext@.len() as int) =~= ext@);
    }
    out
}

/// The kind of file that an extension names, as an index into the legend.
pub fn kind(ext: &[u8]) -> (r: Option<usize>)
    ensures
        r == kind_from(normal_of(ext@), 0),
{
    let n = normal(ext);
    let mut k: usize = 0;
    while k < KINDS
        invariant
            n@ == normal_of(ext@),
            k <= KINDS,
            kind_from(n@, 0) == kind_from(n@, k as int),
        decreases KINDS - k,
    {
        let names = names_of(k);
        if is_named(n.as_slice(), &names) {
            return Some(k);
        }
        k = k + 1;
    }
    None
}

} // verus!
