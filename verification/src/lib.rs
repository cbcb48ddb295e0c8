//! The decisions of a chunked video encoding pipeline: where a video is cut, which commands run
//! for the pieces, what their output says, and how far everything has come.
use std::collections::hash_map::DefaultHasher;
use std::hash::{Hash, Hasher};
use vstd::prelude::*;
use vstd::std_specs::hash::DefaultHasherAdditionalSpecFns;
use vstd::string::*;

pub mod chunk;
pub mod cli;
pub mod command;
pub mod encoder;
pub mod ffmpeg;
pub mod path;
pub mod progress;
pub mod rounding;
pub mod scenedetect;
pub mod session;
pub mod sorting;
pub mod split;
pub mod sums;
pub mod text;
pub mod vapoursynth;

use crate::path::normal_path;
use crate::text::{decimal, push_decimal, same_text};

verus! {

/// A name that stands for none of the choices.
#[derive(Debug, Clone, Copy, PartialEq, Eq, Structural)]
pub enum ParseError {
    VariantNotFound,
}

#[allow(non_camel_case_types)]
#[derive(Debug, Clone, Copy, PartialEq, Eq, Structural)]
pub enum Encoder {
    aom,
    rav1e,
    libvpx,
    svt_av1,
    svt_vp9,
    x264,
    x265,
}

#[derive(Debug, Clone, Copy, PartialEq, Eq, Structural)]
pub enum ConcatMethod {
    /// MKVToolNix
    MKVMerge,
    /// FFmpeg
    FFmpeg,
    /// Concatenate to ivf
    Ivf,
}

#[derive(Debug, Clone, Copy, PartialEq, Eq, Structural)]
pub enum SplitMethod {
    PySceneDetect,
    AOMKeyframes,
    FFmpeg,
}

#[derive(Debug, Clone, Copy, PartialEq, Eq, Structural)]
pub enum ChunkMethod {
    Select,
    FFMS2,
    LSMASH,
    Hybrid,
}

/// The encoder of the given name.
pub open spec fn encoder_named(s: Seq<char>) -> Result<Encoder, ParseError> {
    if s == "aom"@ {
        Ok(Encoder::aom)
    } else if s == "rav1e"@ {
        Ok(Encoder::rav1e)
    } else if s == "libvpx"@ {
        Ok(Encoder::libvpx)
    } else if s == "svt-av1"@ {
        Ok(Encoder::svt_av1)
    } else if s == "svt-vp9"@ {
        Ok(Encoder::svt_vp9)
    } else if s == "x264"@ {
        Ok(Encoder::x264)
    } else if s == "x265"@ {
        Ok(Encoder::x265)
    } else {
        Err(ParseError::VariantNotFound)
    }
}

/// The way of putting the encoded chunks together of the given name.
pub open spec fn concat_method_named(s: Seq<char>) -> Result<ConcatMethod, ParseError> {
    if s == "mkvmerge"@ {
        Ok(ConcatMethod::MKVMerge)
    } else if s == "ffmpeg"@ {
        Ok(ConcatMethod::FFmpeg)
    } else if s == "ivf"@ {
        Ok(ConcatMethod::Ivf)
    } else {
        Err(ParseError::VariantNotFound)
    }
}

/// The way of finding splits of the given name.
pub open spec fn split_method_named(s: Seq<char>) -> Result<SplitMethod, ParseError> {
    if s == "PySceneDetect"@ {
        Ok(SplitMethod::PySceneDetect)
    } else if s == "AOMKeyframes"@ {
        Ok(SplitMethod::AOMKeyframes)
    } else if s == "FFmpeg"@ {
        Ok(SplitMethod::FFmpeg)
    } else {
        Err(ParseError::VariantNotFound)
    }
}

/// The way of getting at the frames of a chunk of the given name.
pub open spec fn chunk_method_named(s: Seq<char>) -> Result<ChunkMethod, ParseError> {
    if s == "select"@ {
        Ok(ChunkMethod::Select)
    } else if s == "ffms2"@ {
        Ok(ChunkMethod::FFMS2)
    } else if s == "lsmash"@ {
        Ok(ChunkMethod::LSMASH)
    } else if s == "hybrid"@ {
        Ok(ChunkMethod::Hybrid)
    } else {
        Err(ParseError::VariantNotFound)
    }
}

impl Encoder {
    /// The encoder of the given name.
    pub fn from_str(s: &str) -> (r: Result<Self, ParseError>)
        ensures
            r == encoder_named(s@),
    {
        if same_text(s, "aom") {
            Ok(Encoder::aom)
        } else if same_text(s, "rav1e") {
            Ok(Encoder::rav1e)
        } else if same_text(s, "libvpx") {
            Ok(Encoder::libvpx)
        } else if same_text(s, "svt-av1") {
            Ok(Encoder::svt_av1)
        } else if same_text(s, "svt-vp9") {
            Ok(Encoder::svt_vp9)
        } else if same_text(s, "x264") {
            Ok(Encoder::x264)
        } else if same_text(s, "x265") {
            Ok(Encoder::x265)
        } else {
            Err(ParseError::VariantNotFound)
        }
    }
}

impl ConcatMethod {
    /// The method of the given name.
    pub fn from_str(s: &str) -> (r: Result<Self, ParseError>)
        ensures
            r == concat_method_named(s@),
    {
        if same_text(s, "mkvmerge") {
            Ok(ConcatMethod::MKVMerge)
        } else if same_text(s, "ffmpeg") {
            Ok(ConcatMethod::FFmpeg)
        } else if same_text(s, "ivf") {
            Ok(ConcatMethod::Ivf)
        } else {
            Err(ParseError::VariantNotFound)
        }
    }
}

impl SplitMethod {
    /// The method of the given name.
    pub fn from_str(s: &str) -> (r: Result<Self, ParseError>)
        ensures
            r == split_method_named(s@),
    {
        if same_text(s, "PySceneDetect") {
            Ok(SplitMethod::PySceneDetect)
        } else if same_text(s, "AOMKeyframes") {
            Ok(SplitMethod::AOMKeyframes)
        } else if same_text(s, "FFmpeg") {
            Ok(SplitMethod::FFmpeg)
        } else {
            Err(ParseError::VariantNotFound)
        }
    }
}

impl ChunkMethod {
    /// The method of the given name.
    pub fn from_str(s: &str) -> (r: Result<Self, ParseError>)
        ensures
            r == chunk_method_named(s@),
    {
        if same_text(s, "select") {
            Ok(ChunkMethod::Select)
        } else if same_text(s, "ffms2") {
            Ok(ChunkMethod::FFMS2)
        } else if same_text(s, "lsmash") {
            Ok(ChunkMethod::LSMASH)
        } else if same_text(s, "hybrid") {
            Ok(ChunkMethod::Hybrid)
        } else {
            Err(ParseError::VariantNotFound)
        }
    }
}

// ---------------------------------------------------------------------------
// Temporary directories
// ---------------------------------------------------------------------------

/// How many digits of a hash a directory is named after.
pub const HASH_DIGITS: usize = 7;

/// The name that a hash gives to a directory: a dot and the first digits of the hash. A hash with
/// fewer digits gives none.
pub open spec fn hash_dir_name(hash: u64) -> Option<Seq<char>> {
    if decimal(hash as nat).len() >= HASH_DIGITS {
        Some("."@ + decimal(hash as nat).take(HASH_DIGITS as int))
    } else {
        None
    }
}

/// Tells whether `dir` is the name that a hash gives to a directory.
pub open spec fn is_dir_of(dir: Option<String>, hash: u64) -> bool {
    match hash_dir_name(hash) {
        Some(name) => dir matches Some(s) && s@ == name,
        None => dir is None,
    }
}

/// The name that a hash gives to a directory.
pub fn hash_dir(hash: u64) -> (r: Option<String>)
    ensures
        is_dir_of(r, hash),
{
    let mut text = ".".to_owned();
    push_decimal(&mut text, hash);
    proof {
        reveal_strlit(".");
    }
    if text.as_str().unicode_len() <= HASH_DIGITS {
        return None;
    }
    let name = text.as_str().substring_char(0, HASH_DIGITS + 1);
    assert(name@ =~= "."@ + decimal(hash as nat).take(HASH_DIGITS as int));
    Some(name.to_owned())
}

/// What a path feeds to a hasher, write by write, on the platform that the program is built for.
pub uninterp spec fn path_feed(path: Seq<char>) -> Seq<Seq<u8>>;

/// Feeds a path to a hasher, as the `Hash` implementation of `std::path::Path` does: `path_feed` is
/// the name of what it feeds. Paths that are equal, which `Path` decides by their components, feed
/// the same, so it is named by the normal form of the path. What the bytes are is left unsaid: it
/// depends on the platform, and is settled when the program is built.
#[verifier::external_body]
fn feed_path(hasher: &mut DefaultHasher, path: &str)
    ensures
        final(hasher)@ == old(hasher)@ + path_feed(normal_path(path@)),
{
    std::path::Path::new(path).hash(hasher)
}

/// The hash of a path.
pub open spec fn path_hash(path: Seq<char>) -> u64 {
    DefaultHasher::spec_finish(path_feed(normal_path(path)))
}

/// A name for a directory that belongs to `path`: made from a hash of the path, so that it is the
/// same whenever the same program asks. `None` if the hash is too short to make one.
pub fn hash_path(path: &str) -> (r: Option<String>)
    ensures
        is_dir_of(r, path_hash(path@)),
{
    let mut s = DefaultHasher::new();
    feed_path(&mut s, path);
    assert(s@ =~= path_feed(normal_path(path@)));
    hash_dir(s.finish())
}

/// The same path, written in another way, belongs to the same directory.
pub proof fn law_equal_paths_share_a_directory(a: Seq<char>, b: Seq<char>)
    requires
        normal_path(a) == normal_path(b),
    ensures
        hash_dir_name(path_hash(a)) == hash_dir_name(path_hash(b)),
{
}

// ---------------------------------------------------------------------------
// Rates and workers
// ---------------------------------------------------------------------------

/// The probing rate to use: one to four, and four for everything else.
pub fn adapt_probing_rate(rate: usize) -> (r: usize)
    ensures
        r == if 1 <= rate <= 4 {
            rate
        } else {
            4
        },
{
    if 1 <= rate && rate <= 4 {
        rate
    } else {
        4
    }
}

/// `num / den`, rounded to the nearest integer; halves go up.
pub open spec fn rounded_quotient(num: nat, den: nat) -> nat {
    (2 * num + den) / (2 * den)
}

/// How many workers suit an encoder on a machine with `cpus` processors and `ram_gb` gigabytes of
/// memory: one for every three processors, but no more than one for every gigabyte and a half;
/// for the encoders that use many threads themselves, one for every eight of both. At least one.
pub open spec fn suitable_workers(encoder: Encoder, cpus: nat, ram_gb: nat) -> nat {
    let count = match encoder {
        Encoder::aom | Encoder::rav1e | Encoder::libvpx => {
            let by_cpu = rounded_quotient(cpus, 3);
            let by_ram = rounded_quotient(2 * ram_gb, 3);
            if by_cpu < by_ram {
                by_cpu
            } else {
                by_ram
            }
        },
        Encoder::svt_av1 | Encoder::svt_vp9 | Encoder::x264 | Encoder::x265 => {
            if cpus < ram_gb {
                cpus / 8
            } else {
                ram_gb / 8
            }
        },
    };
    if count < 1 {
        1
    } else {
        count
    }
}

/// Bytes in a gigabyte.
pub const GIGABYTE: u64 = 1_000_000_000;

/// How many workers suit an encoder on a machine with `cpus` processors and `ram_bytes` bytes of
/// memory.
pub fn workers_for(encoder: Encoder, cpus: u64, ram_bytes: u64) -> (r: u64)
    ensures
        r == suitable_workers(encoder, cpus as nat, ram_bytes as nat / GIGABYTE as nat),
        r <= cpus || r == 1,
{
    let ram_gb: u64 = ram_bytes / GIGABYTE;
    let count: u64 = match encoder {
        Encoder::aom | Encoder::rav1e | Encoder::libvpx => {
            let by_cpu: u64 = ((2 * cpus as u128 + 3) / 6) as u64;
            let by_ram: u64 = (4 * ram_gb + 3) / 6;
            if by_cpu < by_ram {
                by_cpu
            } else {
                by_ram
            }
        },
        Encoder::svt_av1 | Encoder::svt_vp9 | Encoder::x264 | Encoder::x265 => {
            if cpus < ram_gb {
                cpus / 8
            } else {
                ram_gb / 8
            }
        },
    };
    if count < 1 {
        1
    } else {
        count
    }
}

/// The number of processors. `num_cpus::get` promises at least one.
#[verifier::external_body]
fn cpu_count() -> (r: usize)
    ensures
        r >= 1,
{
    num_cpus::get()
}

/// Determine the optimal number of workers for an encoder on this machine, which has `ram_bytes`
/// bytes of memory.
pub fn determine_workers(encoder: Encoder, ram_bytes: u64) -> (r: u64)
    ensures
        1 <= r <= usize::MAX,
        exists|cpus: usize|
            cpus >= 1 && r == #[trigger] suitable_workers(
                encoder,
                cpus as nat,
                ram_bytes as nat / GIGABYTE as nat,
            ),
{
    let cpus = cpu_count();
    workers_for(encoder, cpus as u64, ram_bytes)
}

/// Every encoder has one name, and nothing else is a name of it.
pub proof fn law_names_of_encoders(s: Seq<char>)
    ensures
        encoder_named(s) == Ok::<Encoder, ParseError>(Encoder::aom) <==> s == "aom"@,
        encoder_named(s) == Ok::<Encoder, ParseError>(Encoder::rav1e) <==> s == "rav1e"@,
        encoder_named(s) == Ok::<Encoder, ParseError>(Encoder::libvpx) <==> s == "libvpx"@,
        encoder_named(s) == Ok::<Encoder, ParseError>(Encoder::svt_av1) <==> s == "svt-av1"@,
        encoder_named(s) == Ok::<Encoder, ParseError>(Encoder::svt_vp9) <==> s == "svt-vp9"@,
        encoder_named(s) == Ok::<Encoder, ParseError>(Encoder::x264) <==> s == "x264"@,
        encoder_named(s) == Ok::<Encoder, ParseError>(Encoder::x265) <==> s == "x265"@,
{
    reveal_strlit("aom");
    reveal_strlit("rav1e");
    reveal_strlit("libvpx");
    reveal_strlit("svt-av1");
    reveal_strlit("svt-vp9");
    reveal_strlit("x264");
    reveal_strlit("x265");
    assert("aom"@.len() == 3 && "rav1e"@.len() == 5 && "libvpx"@.len() == 6 && "svt-av1"@.len() == 7
        && "svt-vp9"@.len() == 7 && "x264"@.len() == 4 && "x265"@.len() == 4);
    assert("svt-av1"@[4] == 'a' && "svt-vp9"@[4] == 'v');
    assert("x264"@[3] == '4' && "x265"@[3] == '5');
}

/// Every method has one name, and nothing else is a name of it.
pub proof fn law_names_of_methods(s: Seq<char>)
    ensures
        concat_method_named(s) == Ok::<ConcatMethod, ParseError>(ConcatMethod::MKVMerge) <==> s
            == "mkvmerge"@,
        concat_method_named(s) == Ok::<ConcatMethod, ParseError>(ConcatMethod::FFmpeg) <==> s
            == "ffmpeg"@,
        concat_method_named(s) == Ok::<ConcatMethod, ParseError>(ConcatMethod::Ivf) <==> s == "ivf"@,
        split_method_named(s) == Ok::<SplitMethod, ParseError>(SplitMethod::PySceneDetect) <==> s
            == "PySceneDetect"@,
        split_method_named(s) == Ok::<SplitMethod, ParseError>(SplitMethod::AOMKeyframes) <==> s
            == "AOMKeyframes"@,
        split_method_named(s) == Ok::<SplitMethod, ParseError>(SplitMethod::FFmpeg) <==> s
            == "FFmpeg"@,
        chunk_method_named(s) == Ok::<ChunkMethod, ParseError>(ChunkMethod::Select) <==> s
            == "select"@,
        chunk_method_named(s) == Ok::<ChunkMethod, ParseError>(ChunkMethod::FFMS2) <==> s
            == "ffms2"@,
        chunk_method_named(s) == Ok::<ChunkMethod, ParseError>(ChunkMethod::LSMASH) <==> s
            == "lsmash"@,
        chunk_method_named(s) == Ok::<ChunkMethod, ParseError>(ChunkMethod::Hybrid) <==> s
            == "hybrid"@,
{
    reveal_strlit("mkvmerge");
    reveal_strlit("ffmpeg");
    reveal_strlit("ivf");
    reveal_strlit("PySceneDetect");
    reveal_strlit("AOMKeyframes");
    reveal_strlit("FFmpeg");
    reveal_strlit("select");
    reveal_strlit("ffms2");
    reveal_strlit("lsmash");
    reveal_strlit("hybrid");
    assert("mkvmerge"@.len() == 8 && "ffmpeg"@.len() == 6 && "ivf"@.len() == 3);
    assert("PySceneDetect"@.len() == 13 && "AOMKeyframes"@.len() == 12 && "FFmpeg"@.len() == 6);
    assert("select"@.len() == 6 && "ffms2"@.len() == 5 && "lsmash"@.len() == 6 && "hybrid"@.len()
        == 6);
    assert("select"@[0] == 's' && "lsmash"@[0] == 'l' && "hybrid"@[0] == 'h');
}

/// A directory is named by a dot and the seven leading digits of a hash, which any hash of a million
/// or more has.
pub proof fn law_names_of_directories(hash: u64)
    ensures
        hash_dir_name(hash) is Some <==> hash >= 1_000_000,
        hash_dir_name(hash) matches Some(name) ==> {
            &&& name.len() == 8
            &&& name[0] == '.'
            &&& name.skip(1) == decimal(hash as nat).take(7)
        },
{
    reveal_strlit(".");
    reveal_with_fuel(decimal, 7);
    if let Some(name) = hash_dir_name(hash) {
        assert(name.skip(1) =~= decimal(hash as nat).take(7));
    }
}

/// Rounding to the nearest: no integer is nearer, and of two that are equally near it is the larger.
pub proof fn law_quotients_are_rounded(num: nat, den: nat)
    requires
        den > 0,
    ensures
        2 * (rounded_quotient(num, den) * den) <= 2 * num + den,
        2 * num + den < 2 * (rounded_quotient(num, den) * den) + 2 * den,
{
    let q = rounded_quotient(num, den);
    vstd::arithmetic::div_mod::lemma_fundamental_div_mod((2 * num + den) as int, (2 * den) as int);
    assert(2 * den * q == 2 * (q * den)) by (nonlinear_arith);
}

/// How many workers there are: at least one; beyond that, for the encoders that use few threads
/// themselves, no more than a third of the processors or two thirds of the gigabytes, each rounded,
/// and as many as one of them; for the others, no more than an eighth of either, and as many as one
/// of them. It makes no difference which encoder of a group it is.
pub proof fn law_number_of_workers(encoder: Encoder, cpus: nat, ram_gb: nat)
    ensures
        ({
            let workers = suitable_workers(encoder, cpus, ram_gb);
            let few_threads = encoder == Encoder::aom || encoder == Encoder::rav1e || encoder
                == Encoder::libvpx;
            let by_cpu = if few_threads {
                (2 * cpus + 3) / 6
            } else {
                cpus / 8
            };
            let by_ram = if few_threads {
                (4 * ram_gb + 3) / 6
            } else {
                ram_gb / 8
            };
            &&& workers >= 1
            &&& workers == 1 || workers <= by_cpu && workers <= by_ram
            &&& workers == 1 || workers == by_cpu || workers == by_ram
            &&& workers >= by_cpu || workers >= by_ram
        }),
        suitable_workers(Encoder::aom, cpus, ram_gb) == suitable_workers(
            Encoder::rav1e,
            cpus,
            ram_gb,
        ),
        suitable_workers(Encoder::aom, cpus, ram_gb) == suitable_workers(
            Encoder::libvpx,
            cpus,
            ram_gb,
        ),
        suitable_workers(Encoder::svt_av1, cpus, ram_gb) == suitable_workers(
            Encoder::svt_vp9,
            cpus,
            ram_gb,
        ),
        suitable_workers(Encoder::svt_av1, cpus, ram_gb) == suitable_workers(
            Encoder::x264,
            cpus,
            ram_gb,
        ),
        suitable_workers(Encoder::svt_av1, cpus, ram_gb) == suitable_workers(
            Encoder::x265,
            cpus,
            ram_gb,
        ),
{
    assert(rounded_quotient(cpus, 3) == (2 * cpus + 3) / 6);
    assert(rounded_quotient(2 * ram_gb, 3) == (4 * ram_gb + 3) / 6);
}

/// A directory has the name that its hash gives, and none if the hash gives none.
pub proof fn law_directories_of_hashes(dir: Option<String>, hash: u64)
    ensures
        is_dir_of(dir, hash) <==> match dir {
            Some(s) => hash_dir_name(hash) == Some(s@),
            None => hash_dir_name(hash) is None,
        },
{
}

/// The directory of a path follows from all of the path, up to slashes and dots that stand for
/// nothing: what is hashed is all that the path feeds to a hasher, and nothing else.
pub proof fn law_directories_of_paths(dir: Option<String>, path: Seq<char>)
    requires
        is_dir_of(dir, path_hash(path)),
    ensures
        dir matches Some(s) ==> {
            &&& s@.len() == 8
            &&& s@[0] == '.'
            &&& s@.skip(1) == decimal(
                DefaultHasher::spec_finish(path_feed(normal_path(path))) as nat,
            ).take(7)
        },
        dir is None ==> DefaultHasher::spec_finish(path_feed(normal_path(path))) < 1_000_000,
{
    law_names_of_directories(path_hash(path));
}

} // verus!
