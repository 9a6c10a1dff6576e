//! What discovery decides about a file: whether its extension marks it as
//! text, and, for files without an extension, whether a sample of its
//! leading bytes looks like text. Walking the tree and reading the files is
//! the caller's part.
use vstd::prelude::*;
use crate::text::{chars_of, lowercase_of, to_lowercase};

verus! {

/// A file found on disk, with its modification time (seconds since the
/// epoch, 0 when unknown) and size in bytes.
#[derive(Clone, Debug)]
pub struct FoundFile {
    pub path: String,
    pub mtime: u64,
    pub size: u64,
}

/// The extensions treated as text without sniffing the file.
pub open spec fn texty_extensions() -> Seq<Seq<char>> {
    seq![
        "txt"@, "md"@, "markdown"@, "rs"@, "py"@, "js"@, "jsx"@, "ts"@, "tsx"@, "go"@, "c"@, "h"@,
        "cpp"@, "hpp"@, "cc"@, "java"@, "rb"@, "php"@, "html"@, "htm"@, "css"@, "scss"@, "json"@,
        "yaml"@, "yml"@, "toml"@, "csv"@, "tsv"@, "log"@, "sh"@, "bash"@, "sql"@, "xml"@, "ini"@,
        "cfg"@, "conf"@, "rst"@, "tex"@, "el"@, "lua"@, "kt"@, "swift"@, "scala"@, "clj"@, "hs"@,
        "wiki"@, "wikitext"@,
    ]
}

fn texty_extension_list() -> (v: Vec<&'static str>)
    ensures
        v@.map_values(|s: &str| s@) == texty_extensions(),
{
    let v = vec![
        "txt", "md", "markdown", "rs", "py", "js", "jsx", "ts", "tsx", "go", "c", "h",
        "cpp", "hpp", "cc", "java", "rb", "php", "html", "htm", "css", "scss", "json",
        "yaml", "yml", "toml", "csv", "tsv", "log", "sh", "bash", "sql", "xml", "ini",
        "cfg", "conf", "rst", "tex", "el", "lua", "kt", "swift", "scala", "clj", "hs",
        "wiki", "wikitext",
    ];
    assert(v@.map_values(|s: &str| s@) =~= texty_extensions());
    v
}

/// Whether two character sequences are equal.
fn same_chars(a: &Vec<char>, b: &Vec<char>) -> (r: bool)
    ensures
        r == (a@ == b@),
{
    if a.len() != b.len() {
        return false;
    }
    let mut i: usize = 0;
    while i < a.len()
        invariant
            a@.len() == b@.len(),
            i <= a@.len(),
            a@.take(i as int) == b@.take(i as int),
        decreases a@.len() - i,
    {
        if a[i] != b[i] {
            return false;
        }
        assert(a@.take(i + 1) =~= a@.take(i as int).push(a@[i as int]));
        assert(b@.take(i + 1) =~= b@.take(i as int).push(b@[i as int]));
        i = i + 1;
    }
    assert(a@ =~= a@.take(i as int));
    assert(b@ =~= b@.take(i as int));
    true
}

/// Whether a file extension marks a text file: its lowercase form is one
/// of `texty_extensions`.
pub fn is_texty_extension(ext: &str) -> (r: bool)
    ensures
        r == texty_extensions().contains(lowercase_of(ext@)),
{
    let lower = to_lowercase(ext);
    let lc = chars_of(lower.as_str());
    let list = texty_extension_list();
    let ghost names = list@.map_values(|s: &str| s@);
    let mut i: usize = 0;
    while i < list.len()
        invariant
            names == list@.map_values(|s: &str| s@),
            names == texty_extensions(),
            lc@ == lowercase_of(ext@),
            i <= list@.len(),
            forall|j: int| 0 <= j < i ==> names[j] != lc@,
        decreases list@.len() - i,
    {
        let e = chars_of(list[i]);
        assert(e@ == names[i as int]);
        if same_chars(&e, &lc) {
            return true;
        }
        i = i + 1;
    }
    false
}

/// The number of bytes of `s` that are control characters other than tab,
/// line feed, vertical tab, form feed and carriage return (bytes below 9,
/// or from 14 to 31).
pub open spec fn non_printable_count(s: Seq<u8>) -> nat
    decreases s.len(),
{
    if s.len() == 0 {
        0
    } else {
        non_printable_count(s.drop_last()) + if s.last() < 9 || (13 < s.last() < 32) {
            1nat
        } else {
            0nat
        }
    }
}

/// Whether a sample of a file's leading bytes looks like text: it is
/// empty, or it holds no NUL byte and under 5% of its bytes are
/// non-printable.
pub open spec fn looks_textual(s: Seq<u8>) -> bool {
    s.len() == 0 || (!s.contains(0u8) && 20 * non_printable_count(s) < s.len())
}

/// Which bytes count against a sample: bytes of 32 and above (the bytes of
/// UTF-8 encoded non-Latin text among them), tab, line feed, vertical tab,
/// form feed and carriage return never count, so a sample with no NUL and
/// no other byte below 32 looks like text; a sample holding a NUL never
/// does; and at most every byte counts.
pub proof fn lemma_text_bytes_look_textual(s: Seq<u8>)
    ensures
        (forall|i: int| 0 <= i < s.len() ==> #[trigger] s[i] >= 32 || 9 <= s[i] <= 13) ==> (
        non_printable_count(s) == 0 && looks_textual(s)),
        s.contains(0u8) ==> !looks_textual(s),
        non_printable_count(s) <= s.len(),
        forall|b: u8| b >= 32 || 9 <= b <= 13 ==> #[trigger] non_printable_count(s.push(b))
            == non_printable_count(s),
    decreases s.len(),
{
    assert forall|b: u8| b >= 32 || 9 <= b <= 13 implies #[trigger] non_printable_count(s.push(b))
        == non_printable_count(s) by {
        assert(s.push(b).drop_last() =~= s);
    }
    if s.len() > 0 {
        let t = s.drop_last();
        lemma_text_bytes_look_textual(t);
        if forall|i: int| 0 <= i < s.len() ==> #[trigger] s[i] >= 32 || 9 <= s[i] <= 13 {
            assert forall|i: int| 0 <= i < t.len() implies #[trigger] t[i] >= 32 || 9 <= t[i] <= 13 by {
                assert(t[i] == s[i]);
            }
            assert(s[s.len() - 1] == s.last());
        }
    }
}

/// The sniffing test for a file without an extension, on the first (at
/// most 8 KiB of) bytes read from it. The 5% threshold is decided with the
/// integer comparison `20 * non_printable < len`: for samples of at most
/// 8192 bytes this is exactly the single-precision test
/// `non_printable as f32 / len as f32 < 0.05`, since no such ratio other
/// than 1/20 lies within one unit of f32 rounding of 0.05.
pub fn sample_looks_textual(sample: &[u8]) -> (r: bool)
    requires
        sample@.len() <= 8192,
    ensures
        r == looks_textual(sample@),
{
    let n = sample.len();
    if n == 0 {
        return true;
    }
    let mut count: usize = 0;
    let mut i: usize = 0;
    while i < n
        invariant
            n == sample@.len(),
            n <= 8192,
            i <= n,
            count == non_printable_count(sample@.take(i as int)),
            count <= i,
            !sample@.take(i as int).contains(0u8),
        decreases n - i,
    {
        let b = sample[i];
        proof {
            assert(sample@.take(i + 1).drop_last() =~= sample@.take(i as int));
        }
        if b == 0 {
            proof {
                assert(sample@[i as int] == 0u8);
            }
            return false;
        }
        if b < 9 || (b > 13 && b < 32) {
            count = count + 1;
        }
        proof {
            let t = sample@.take(i + 1);
            assert forall|k: int| 0 <= k < t.len() implies t[k] != 0u8 by {
                if k < i {
                    assert(t[k] == sample@.take(i as int)[k]);
                }
            }
        }
        i = i + 1;
    }
    proof {
        assert(sample@.take(i as int) =~= sample@);
    }
    20 * count < n
}

} // verus!
