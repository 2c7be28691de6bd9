//! The computations of the scaffolding commands: problem file names, the
//! dependency line of a contest manifest, which files a crate copy skips, and
//! the entries of a vendored crate's checksum file.

use vstd::prelude::*;
use sha2::Digest;

verus! {

/// `s` with every trailing `.rs` removed.
pub open spec fn strip_rs(s: Seq<char>) -> Seq<char>
    decreases s.len(),
{
    if s.len() >= 3 && s.subrange(s.len() - 3, s.len() as int) == seq!['.', 'r', 's'] {
        strip_rs(s.subrange(0, s.len() - 3))
    } else {
        s
    }
}

/// The problem ID without any trailing `.rs`: `a.rs` and `a` name the same
/// problem.
pub fn problem_stem(id: &str) -> (r: String)
    ensures
        r@ == strip_rs(id@),
{
    let mut n = id.unicode_len();
    assert(id@.subrange(0, n as int) =~= id@);
    while n >= 3 && id.get_char(n - 3) == '.' && id.get_char(n - 2) == 'r' && id.get_char(n - 1) == 's'
        invariant
            n <= id@.len(),
            strip_rs(id@.subrange(0, n as int)) == strip_rs(id@),
        decreases n,
    {
        proof {
            let s = id@.subrange(0, n as int);
            assert(s.subrange(s.len() - 3, s.len() as int) =~= seq!['.', 'r', 's']);
            assert(s.subrange(0, s.len() - 3) =~= id@.subrange(0, n - 3));
        }
        n -= 3;
    }
    proof {
        let s = id@.subrange(0, n as int);
        if s.len() >= 3 {
            assert(s.subrange(s.len() - 3, s.len() as int) != seq!['.', 'r', 's']) by {
                if s.subrange(s.len() - 3, s.len() as int) == seq!['.', 'r', 's'] {
                    assert(s.subrange(s.len() - 3, s.len() as int)[0] == id@[n - 3]);
                    assert(s.subrange(s.len() - 3, s.len() as int)[1] == id@[n - 2]);
                    assert(s.subrange(s.len() - 3, s.len() as int)[2] == id@[n - 1]);
                }
            }
        }
    }
    String::from_str(id.substring_char(0, n))
}

/// The dependency line that a contest manifest gets: the external crate,
/// vendored under `crates/`, or else the published `algorist` crate.
pub open spec fn crate_line(crate_name: Option<Seq<char>>) -> Seq<char> {
    match crate_name {
        Some(n) => n + " = { path = \"crates/"@ + n + "\" }"@,
        None => "algorist = \"0.10\""@,
    }
}

/// The dependency line that a contest manifest gets for its algorithms
/// crate.
pub fn external_crate_line(crate_name: Option<&str>) -> (r: String)
    ensures
        r@ == crate_line(
            match crate_name {
                Some(n) => Some(n@),
                None => None,
            },
        ),
{
    match crate_name {
        Some(n) => {
            let mut s = String::from_str(n);
            s.append(" = { path = \"crates/");
            s.append(n);
            s.append("\" }");
            s
        },
        None => String::from_str("algorist = \"0.10\""),
    }
}

/// Whether copying a crate skips a directory entry of this name.
pub fn is_ignored_entry(name: &str) -> (r: bool)
    ensures
        r == (name@ == ".git"@ || name@ == "target"@ || name@ == "Cargo.lock"@),
{
    let n = String::from_str(name);
    n == String::from_str(".git") || n == String::from_str("target") || n == String::from_str(
        "Cargo.lock",
    )
}

/// The lowercase hexadecimal SHA-256 digest of the bytes.
pub uninterp spec fn sha256_hex(bytes: Seq<u8>) -> Seq<char>;

/// Relies on sha2's `Sha256::digest` and the `LowerHex` formatting of its
/// output: 32 bytes as 64 lowercase hexadecimal digits.
#[verifier::external_body]
fn sha256_hex_of(bytes: &[u8]) -> (r: String)
    ensures
        r@ == sha256_hex(bytes@),
        r@.len() == 64,
{
    format!("{:x}", sha2::Sha256::digest(bytes))
}

/// `s` with each `\` replaced by `/`.
pub open spec fn forward_slashes(s: Seq<char>) -> Seq<char> {
    Seq::new(s.len(), |i: int| if s[i] == '\\' { '/' } else { s[i] })
}

/// The checksum-file entry of a vendored crate's file at `rel_path`: the path
/// with forward slashes and the digest of the contents. The checksum file
/// itself has none.
pub fn checksum_entry(rel_path: &str, contents: &[u8]) -> (r: Option<(String, String)>)
    ensures
        rel_path@ == ".cargo-checksum.json"@ ==> r is None,
        rel_path@ != ".cargo-checksum.json"@ ==> {
            &&& r matches Some((p, h))
            &&& p@ == forward_slashes(rel_path@)
            &&& h@ == sha256_hex(contents@)
        },
{
    if String::from_str(rel_path) == String::from_str(".cargo-checksum.json") {
        return None;
    }
    let n = rel_path.unicode_len();
    let mut out = String::new();
    let mut i: usize = 0;
    while i < n
        invariant
            i <= n,
            n == rel_path@.len(),
            out@ == forward_slashes(rel_path@).subrange(0, i as int),
        decreases n - i,
    {
        let ghost before = out@;
        let c = rel_path.get_char(i);
        if c == '\\' {
            out.append("/");
            proof {
                reveal_strlit("/");
            }
            assert(out@ =~= before + seq!['/']);
        } else {
            let piece = rel_path.substring_char(i, i + 1);
            assert(piece@ =~= seq![c]);
            out.append(piece);
            assert(out@ =~= before + seq![c]);
        }
        assert(out@ =~= forward_slashes(rel_path@).subrange(0, i + 1));
        i += 1;
    }
    assert(forward_slashes(rel_path@).subrange(0, n as int) =~= forward_slashes(rel_path@));
    Some((out, sha256_hex_of(contents)))
}

} // verus!
