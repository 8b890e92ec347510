//! What `self.install` decides: the name of each platform's binary, which
//! of them to download and from where, how curl is asked for one, and what a
//! failed download is reported as.
use vstd::prelude::*;
use vstd::utf8::{decode_utf8, valid_utf8};

use crate::error::{JuteError, JuteResult};
use crate::text::{decimal, push_decimal, push_str, same_text, string_from};

verus! {

/// The platforms jute ships a binary for, as `(os, arch)` in the words of
/// `std::env::consts::OS` and `std::env::consts::ARCH`.
pub open spec fn platforms() -> Seq<(Seq<char>, Seq<char>)> {
    seq![("macos"@, "aarch64"@), ("linux"@, "x86_64"@), ("linux"@, "aarch64"@)]
}

/// The name of the binary for a platform: `jute-<os>-<arch>`.
pub open spec fn binary_name(os: Seq<char>, arch: Seq<char>) -> Seq<char> {
    "jute-"@ + os + "-"@ + arch
}

/// The binary names of `ps`, in order, leaving out `current`.
pub open spec fn other_binaries(ps: Seq<(Seq<char>, Seq<char>)>, current: Seq<char>) -> Seq<
    Seq<char>,
>
    decreases ps.len(),
{
    if ps.len() == 0 {
        Seq::empty()
    } else {
        let name = binary_name(ps.last().0, ps.last().1);
        let rest = other_binaries(ps.drop_last(), current);
        if name == current {
            rest
        } else {
            rest.push(name)
        }
    }
}

/// The address a release binary is downloaded from.
pub open spec fn release_address(version: Seq<char>, file_name: Seq<char>) -> Seq<char> {
    "https://github.com/sgrowe/jute/releases/download/v"@ + version + "/"@ + file_name
}

/// The arguments curl is run with to download `url` into `tmp_path`:
/// failing on an HTTP error, following redirects, quiet but for errors,
/// retrying five times and giving up after five minutes.
pub open spec fn curl_arguments(tmp_path: Seq<char>, url: Seq<char>) -> Seq<Seq<char>> {
    seq![
        "--fail"@,
        "--location"@,
        "--no-progress-meter"@,
        "--retry"@,
        "5"@,
        "--max-time"@,
        "300"@,
        "--output"@,
        tmp_path,
        url,
    ]
}

/// The program that downloads the binaries.
pub const CURL: &'static str = "curl";

/// The platforms jute ships a binary for, as `(os, arch)`.
pub fn supported_platforms() -> (r: Vec<(&'static str, &'static str)>)
    ensures
        r@.map_values(|p: (&'static str, &'static str)| (p.0@, p.1@)) == platforms(),
{
    let r = vec![("macos", "aarch64"), ("linux", "x86_64"), ("linux", "aarch64")];
    proof {
        reveal_strlit("macos");
        reveal_strlit("linux");
        reveal_strlit("aarch64");
        reveal_strlit("x86_64");
        assert(r@.map_values(|p: (&'static str, &'static str)| (p.0@, p.1@)) =~= platforms());
    }
    r
}

/// The name of the binary for the platform `os` and `arch`, e.g.
/// `jute-linux-x86_64`.
pub fn binary_file_name(os: &str, arch: &str) -> (r: String)
    ensures
        r@ == binary_name(os@, arch@),
{
    let mut s = string_from("jute-");
    push_str(&mut s, os);
    push_str(&mut s, "-");
    push_str(&mut s, arch);
    s
}

/// The binaries to download: those of every supported platform but the one
/// jute is running on, `current_binary`, in the order of the platform list.
pub fn binaries_to_download(current_binary: &str) -> (r: Vec<String>)
    ensures
        r@.map_values(|n: String| n@) == other_binaries(platforms(), current_binary@),
        r@.map_values(|n: String| n@) == binary_names(platforms()).filter(
            other_than(current_binary@),
        ),
        forall|k: int| 0 <= k < r@.len() ==> (#[trigger] r@[k])@ != current_binary@,
{
    let ps = supported_platforms();
    let ghost views = ps@.map_values(|p: (&'static str, &'static str)| (p.0@, p.1@));
    let mut r: Vec<String> = Vec::new();
    let mut i: usize = 0;
    while i < ps.len()
        invariant
            i <= ps@.len(),
            views == ps@.map_values(|p: (&'static str, &'static str)| (p.0@, p.1@)),
            r@.map_values(|n: String| n@) == other_binaries(views.take(i as int), current_binary@),
        decreases ps@.len() - i,
    {
        let (os, arch) = ps[i];
        let name = binary_file_name(os, arch);
        proof {
            let t = views.take(i + 1);
            assert(t.drop_last() =~= views.take(i as int));
            assert(t.last() == (os@, arch@));
        }
        if !same_text(name.as_str(), current_binary) {
            let ghost before = r@;
            r.push(name);
            proof {
                assert(r@.map_values(|n: String| n@) =~= before.map_values(|n: String| n@).push(
                    binary_name(os@, arch@),
                ));
            }
        }
        i = i + 1;
    }
    proof {
        assert(views.take(i as int) =~= views);
        lemma_downloads_are_the_others(platforms(), current_binary@);
        lemma_downloads_skip_only_the_current(platforms(), current_binary@);
        assert forall|k: int| 0 <= k < r@.len() implies (#[trigger] r@[k])@ != current_binary@ by {
            assert(r@.map_values(|n: String| n@)[k] == r@[k]@);
        }
    }
    r
}

/// The address of the release binary `file_name` of jute `version`.
pub fn release_url(version: &str, file_name: &str) -> (r: String)
    ensures
        r@ == release_address(version@, file_name@),
{
    let mut s = string_from("https://github.com/sgrowe/jute/releases/download/v");
    push_str(&mut s, version);
    push_str(&mut s, "/");
    push_str(&mut s, file_name);
    s
}

/// The name of the file a binary is written to before it is moved into
/// place: hidden, and unique to the process `pid` that writes it.
pub fn temp_file_name(file_name: &str, pid: u32) -> (r: String)
    ensures
        r@ == "."@ + file_name@ + ".tmp."@ + decimal(pid as int),
{
    let mut s = string_from(".");
    push_str(&mut s, file_name);
    push_str(&mut s, ".tmp.");
    push_decimal(&mut s, pid as i64);
    s
}

/// The arguments curl is run with to download `url` into `tmp_path`.
pub fn curl_args(tmp_path: &str, url: &str) -> (r: Vec<String>)
    ensures
        r@.map_values(|a: String| a@) == curl_arguments(tmp_path@, url@),
{
    let mut r: Vec<String> = Vec::new();
    r.push(string_from("--fail"));
    r.push(string_from("--location"));
    r.push(string_from("--no-progress-meter"));
    r.push(string_from("--retry"));
    r.push(string_from("5"));
    r.push(string_from("--max-time"));
    r.push(string_from("300"));
    r.push(string_from("--output"));
    r.push(string_from(tmp_path));
    r.push(string_from(url));
    proof {
        assert(r@.map_values(|a: String| a@) =~= curl_arguments(tmp_path@, url@));
    }
    r
}

/// What `String::from_utf8_lossy` makes of some bytes.
pub uninterp spec fn lossy_text(bytes: Seq<u8>) -> Seq<char>;

/// Bytes as text, each invalid sequence replaced by `U+FFFD`
/// (`String::from_utf8_lossy`); valid UTF-8 comes out as the text it
/// encodes.
#[verifier::external_body]
fn text_of_bytes(bytes: &[u8]) -> (r: String)
    ensures
        r@ == lossy_text(bytes@),
        valid_utf8(bytes@) ==> r@ == decode_utf8(bytes@),
{
    String::from_utf8_lossy(bytes).into_owned()
}

/// What curl's exit decides: the download succeeded, or it failed with
/// curl's exit code (`None` when a signal killed it) and what curl wrote
/// to its stdout and stderr, replayed as text.
pub fn download_result(url: &str, success: bool, code: Option<i32>, stdout: &[u8], stderr: &[u8]) -> (r:
    JuteResult<()>)
    ensures
        success <==> r is Ok,
        !success ==> (r matches Err(JuteError::DownloadFailed { url: u, code: c, stdout: o, stderr: e })
            && u@ == url@ && c == code && o@ == lossy_text(stdout@) && e@ == lossy_text(stderr@)),
{
    if success {
        Ok(())
    } else {
        Err(
            JuteError::DownloadFailed {
                url: string_from(url),
                code,
                stdout: text_of_bytes(stdout),
                stderr: text_of_bytes(stderr),
            },
        )
    }
}

/// Whether a name is other than `current`.
pub open spec fn other_than(current: Seq<char>) -> spec_fn(Seq<char>) -> bool {
    |n: Seq<char>| n != current
}

/// The binary names of `ps`, in order.
pub open spec fn binary_names(ps: Seq<(Seq<char>, Seq<char>)>) -> Seq<Seq<char>> {
    ps.map_values(|p: (Seq<char>, Seq<char>)| binary_name(p.0, p.1))
}

/// The binaries to download are the platforms' binary names, in the order of
/// the platforms, with exactly the current binary's name left out.
pub proof fn lemma_downloads_are_the_others(ps: Seq<(Seq<char>, Seq<char>)>, current: Seq<char>)
    ensures
        other_binaries(ps, current) == binary_names(ps).filter(other_than(current)),
    decreases ps.len(),
{
    reveal(Seq::filter);
    if ps.len() > 0 {
        lemma_downloads_are_the_others(ps.drop_last(), current);
        assert(binary_names(ps).drop_last() =~= binary_names(ps.drop_last()));
        assert(binary_names(ps).last() == binary_name(ps.last().0, ps.last().1));
    } else {
        assert(binary_names(ps) =~= Seq::<Seq<char>>::empty());
    }
}

/// The current binary is never among those downloaded, and every other
/// platform's binary is.
pub proof fn lemma_downloads_skip_only_the_current(
    ps: Seq<(Seq<char>, Seq<char>)>,
    current: Seq<char>,
)
    ensures
        forall|k: int|
            0 <= k < other_binaries(ps, current).len() ==> #[trigger] other_binaries(ps, current)[k]
                != current,
        forall|i: int|
            0 <= i < ps.len() && binary_name(ps[i].0, ps[i].1) != current ==> other_binaries(
                ps,
                current,
            ).contains(#[trigger] binary_name(ps[i].0, ps[i].1)),
    decreases ps.len(),
{
    if ps.len() > 0 {
        let rest = ps.drop_last();
        lemma_downloads_skip_only_the_current(rest, current);
        let r = other_binaries(rest, current);
        assert forall|i: int|
            0 <= i < ps.len() && binary_name(ps[i].0, ps[i].1) != current implies other_binaries(
            ps,
            current,
        ).contains(#[trigger] binary_name(ps[i].0, ps[i].1)) by {
            let n = binary_name(ps[i].0, ps[i].1);
            if i < ps.len() - 1 {
                assert(rest[i] == ps[i]);
                assert(r.contains(binary_name(rest[i].0, rest[i].1)));
                let j = choose|j: int| 0 <= j < r.len() && r[j] == n;
                if binary_name(ps.last().0, ps.last().1) != current {
                    assert(r.push(binary_name(ps.last().0, ps.last().1))[j] == n);
                }
            } else {
                assert(other_binaries(ps, current) == r.push(n));
                assert(r.push(n)[r.len() as int] == n);
            }
        }
    }
}

} // verus!
