//! Decisions of the command-line front end: which compression a transfer
//! uses, and the address text an endpoint argument carries.
use vstd::prelude::*;
use vstd::string::StrSliceExecFns;
use crate::daemon::{has_prefix, starts_with_at, ascii_lower, lower_ascii};
use crate::sizes::{trim, trim_start, trim_end, is_white_space, white_space};
use crate::proto::CompressionType;

verus! {

/// Compression requested on the command line.
#[derive(Debug, Clone, Copy, PartialEq, Eq, Structural)]
pub enum CompressionArg {
    /// Send chunks as they are.
    Uncompressed,
    /// Zstandard at level 3.
    Zstd,
    /// Zstandard at level 1 for files over 8 MiB, none otherwise.
    Auto,
}

/// Files larger than this are compressed when the choice is automatic.
pub const AUTO_COMPRESSION_MIN_BYTES: u64 = 8388608;

/// The compression a transfer of a file of `file_size` bytes uses.
pub fn select_compression(mode: CompressionArg, file_size: u64) -> (r: CompressionType)
    ensures
        mode == CompressionArg::Uncompressed ==> r == CompressionType::Uncompressed,
        mode == CompressionArg::Zstd ==> r == (CompressionType::Zstd { level: 3 }),
        mode == CompressionArg::Auto ==> r == if file_size > AUTO_COMPRESSION_MIN_BYTES {
            CompressionType::Zstd { level: 1 }
        } else {
            CompressionType::Uncompressed
        },
{
    match mode {
        CompressionArg::Uncompressed => CompressionType::Uncompressed,
        CompressionArg::Zstd => CompressionType::Zstd { level: 3 },
        CompressionArg::Auto => {
            if file_size > AUTO_COMPRESSION_MIN_BYTES {
                CompressionType::Zstd { level: 1 }
            } else {
                CompressionType::Uncompressed
            }
        },
    }
}

/// The address text of an endpoint argument: the argument without one
/// leading `sct://`.
pub fn endpoint_address_text(value: &str) -> (r: String)
    ensures
        has_prefix(value@, "sct://"@) ==> r@ == value@.skip(6),
        !has_prefix(value@, "sct://"@) ==> r@ == value@,
{
    let prefix = "sct://";
    proof {
        reveal_strlit("sct://");
        assert(value@.skip(0) =~= value@);
    }
    if starts_with_at(value, 0, prefix) {
        let n = value.unicode_len();
        value.substring_char(6, n).to_string()
    } else {
        value.to_string()
    }
}

/// The text before the first `/` of `s` (all of it when there is none).
pub open spec fn before_slash(s: Seq<char>) -> Seq<char>
    decreases s.len(),
{
    if s.len() == 0 {
        s
    } else if s[0] == '/' {
        Seq::empty()
    } else {
        seq![s[0]] + before_slash(s.drop_first())
    }
}

proof fn lemma_before_slash(s: Seq<char>, k: int)
    requires
        0 <= k <= s.len(),
        forall|j: int| 0 <= j < k ==> s[j] != '/',
        k == s.len() || s[k] == '/',
    ensures
        before_slash(s) == s.take(k),
    decreases k,
{
    if k > 0 {
        assert forall|j: int| 0 <= j < k - 1 implies s.drop_first()[j] != '/' by {
            assert(s.drop_first()[j] == s[j + 1]);
        }
        if k < s.len() {
            assert(s.drop_first()[k - 1] == s[k]);
        }
        lemma_before_slash(s.drop_first(), k - 1);
        assert(seq![s[0]] + s.drop_first().take(k - 1) =~= s.take(k));
    } else {
        assert(s.take(0) =~= Seq::<char>::empty());
    }
}

/// The `host:port` of a daemon destination: the text after one leading
/// `sct://` and before the first `/` of what follows.
pub fn endpoint_host_port(value: &str) -> (r: String)
    ensures
        has_prefix(value@, "sct://"@) ==> r@ == before_slash(value@.skip(6)),
        !has_prefix(value@, "sct://"@) ==> r@ == before_slash(value@),
{
    let rest = endpoint_address_text(value);
    let t = rest.as_str();
    let n = t.unicode_len();
    let mut k: usize = 0;
    while k < n && t.get_char(k) != '/'
        invariant
            k <= n,
            n == t@.len(),
            forall|j: int| 0 <= j < k ==> t@[j] != '/',
        decreases n - k,
    {
        k = k + 1;
    }
    proof {
        lemma_before_slash(t@, k as int);
        assert(t@.subrange(0, k as int) =~= t@.take(k as int));
    }
    t.substring_char(0, k).to_string()
}

/// `s` in ASCII lower case.
pub open spec fn ascii_lowercase(s: Seq<char>) -> Seq<char> {
    s.map_values(|c: char| ascii_lower(c))
}

/// Whether a switch given as text is on: `1`, `true` or `yes` in any ASCII
/// letter case, with surrounding white space ignored.
pub open spec fn spec_flag_on(value: Seq<char>) -> bool {
    let v = ascii_lowercase(trim(value));
    v == "1"@ || v == "true"@ || v == "yes"@
}

fn lowered_trimmed(value: &str) -> (r: Vec<char>)
    ensures
        r@ == ascii_lowercase(trim(value@)),
{
    let n = value.unicode_len();
    let mut lo: usize = 0;
    proof {
        assert(value@.skip(0) =~= value@);
    }
    while lo < n && white_space(value.get_char(lo))
        invariant
            lo <= n,
            n == value@.len(),
            trim_start(value@) == trim_start(value@.skip(lo as int)),
        decreases n - lo,
    {
        proof {
            assert(value@.skip(lo as int)[0] == value@[lo as int]);
            assert(value@.skip(lo as int).drop_first() =~= value@.skip(lo + 1));
        }
        lo = lo + 1;
    }
    let ghost t = value@.skip(lo as int);
    proof {
        if lo < n {
            assert(t[0] == value@[lo as int]);
        }
        assert(trim_start(t) == t);
    }
    let mut hi = n;
    proof {
        assert(value@.subrange(lo as int, n as int) =~= t);
    }
    while hi > lo && white_space(value.get_char(hi - 1))
        invariant
            lo <= hi <= n,
            n == value@.len(),
            t == value@.skip(lo as int),
            trim_end(t) == trim_end(value@.subrange(lo as int, hi as int)),
        decreases hi - lo,
    {
        proof {
            let u = value@.subrange(lo as int, hi as int);
            assert(u.last() == value@[hi - 1]);
            assert(u.drop_last() =~= value@.subrange(lo as int, hi - 1));
        }
        hi = hi - 1;
    }
    proof {
        let u = value@.subrange(lo as int, hi as int);
        if hi > lo {
            assert(u.last() == value@[hi - 1]);
        }
        assert(trim_end(u) == u);
        assert(trim(value@) == u);
    }
    let mut out: Vec<char> = Vec::new();
    let mut i = lo;
    while i < hi
        invariant
            lo <= i <= hi <= n,
            n == value@.len(),
            out@ == ascii_lowercase(value@.subrange(lo as int, i as int)),
        decreases hi - i,
    {
        out.push(lower_ascii(value.get_char(i)));
        i = i + 1;
        proof {
            assert(out@ =~= ascii_lowercase(value@.subrange(lo as int, i as int)));
        }
    }
    out
}

fn chars_equal(a: &Vec<char>, b: &str) -> (r: bool)
    ensures
        r == (a@ == b@),
{
    let n = b.unicode_len();
    if a.len() != n {
        return false;
    }
    let mut i: usize = 0;
    while i < n
        invariant
            i <= n,
            n == b@.len(),
            n == a@.len(),
            forall|j: int| 0 <= j < i ==> a@[j] == b@[j],
        decreases n - i,
    {
        if a[i] != b.get_char(i) {
            return false;
        }
        i = i + 1;
    }
    proof {
        assert(a@ =~= b@);
    }
    true
}

/// Reads a switch given as text (see [`spec_flag_on`]).
pub fn flag_on(value: &str) -> (r: bool)
    ensures
        r == spec_flag_on(value@),
{
    let v = lowered_trimmed(value);
    chars_equal(&v, "1") || chars_equal(&v, "true") || chars_equal(&v, "yes")
}

} // verus!
