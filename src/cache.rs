//! Naming of the on-disk dictionary cache: one file per word list, named by its digest.
use vstd::prelude::*;
use vstd::string::StringExecFns;

verus! {

/// The lowercase hexadecimal MD5 digest of a text's UTF-8 bytes.
pub uninterp spec fn md5_hex_of(s: Seq<char>) -> Seq<char>;

/// Relies on `md5::compute` and its `LowerHex` form: the digest of the text's bytes.
#[verifier::external_body]
fn md5_hex(content: &str) -> (r: String)
    ensures
        r@ == md5_hex_of(content@),
{
    format!("{:x}", md5::compute(content))
}

/// The cache file in `cache_dir` for a word list whose digest is `digest`.
pub fn cache_path(cache_dir: &str, digest: &str) -> (r: String)
    ensures
        r@ == cache_dir@ + "/"@ + digest@ + ".bin"@,
{
    let mut r = String::from_str(cache_dir);
    r.append("/");
    r.append(digest);
    r.append(".bin");
    r
}

/// The cache file in `cache_dir` for the word list `content`.
pub fn get_filename(cache_dir: &str, content: &str) -> (r: String)
    ensures
        r@ == cache_dir@ + "/"@ + md5_hex_of(content@) + ".bin"@,
{
    let digest = md5_hex(content);
    cache_path(cache_dir, digest.as_str())
}

} // verus!
