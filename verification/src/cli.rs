//! What the user asks for.
use crate::path::{
    ends_in_a_name, extension, is_portable, last_part, name_extension, option_view, path_extension,
    std_extension,
};
use crate::text::{parse_number, parse_usize, same_text, strings_view};
use crate::{
    chunk_method_named, determine_workers, encoder_named, hash_dir_name, hash_path, path_hash,
    suitable_workers, ChunkMethod, ConcatMethod, Encoder, ParseError,
};
use vstd::prelude::*;
use vstd::string::*;
use vstd::utf8::encode_utf8;

verus! {

// ---------------------------------------------------------------------------
// Inputs
// ---------------------------------------------------------------------------

#[derive(Debug, Clone, Copy, PartialEq, Eq, Structural)]
pub enum InputType {
    /// Vapoursynth (.vpy, .py) input source
    Vapoursynth,
    /// Video input in file in a container (ex: .mkv, .mp4)
    Video,
}

#[derive(Debug)]
pub struct Input {
    pub path: String,
    pub input_type: InputType,
}

/// What a file with the given extension is.
pub open spec fn type_of_extension(extension: Option<Seq<char>>) -> InputType {
    if extension == Some("vpy"@) || extension == Some("py"@) {
        InputType::Vapoursynth
    } else {
        InputType::Video
    }
}

impl InputType {
    /// What a file with the given extension is.
    pub fn from_extension(extension: &Option<String>) -> (r: InputType)
        ensures
            r == type_of_extension(option_view(*extension)),
    {
        match extension {
            Some(ext) => {
                if same_text(ext.as_str(), "vpy") || same_text(ext.as_str(), "py") {
                    InputType::Vapoursynth
                } else {
                    InputType::Video
                }
            },
            None => InputType::Video,
        }
    }
}

/// The input at a path: what it is follows from the extension of the path. For a portable path, and
/// for one that ends in a name, that can be told from the path alone.
pub open spec fn is_input_at(input: Input, path: Seq<char>) -> bool {
    &&& input.path@ == path
    &&& input.input_type == type_of_extension(std_extension(path))
    &&& is_portable(path) ==> input.input_type == type_of_extension(extension(path))
    &&& ends_in_a_name(path) ==> input.input_type == type_of_extension(
        name_extension(last_part(path)),
    )
}

impl Input {
    /// The input at a path: a script if the extension says so, a video otherwise.
    pub fn from(path: &str) -> (r: Input)
        ensures
            is_input_at(r, path@),
    {
        let word = path_extension(path);
        proof {
            reveal_strlit("vpy");
            reveal_strlit("py");
        }
        Input { path: path.to_owned(), input_type: InputType::from_extension(&word) }
    }
}

// ---------------------------------------------------------------------------
// Errors
// ---------------------------------------------------------------------------

#[derive(Debug)]
pub enum CliError<'a> {
    InvalidConcatMethod,
    ParseError { arg: &'a str, msg: String },
}

impl<'a> CliError<'a> {
    /// What is said about the error.
    pub open spec fn text(self) -> Seq<char> {
        match self {
            CliError::InvalidConcatMethod =>
                "ivf concatenation can only be used with VP9 and AV1"@,
            CliError::ParseError { arg, msg } => "Failed to parse parameter `"@ + arg@ + "`: "@
                + msg@,
        }
    }

    /// What is said about the error.
    pub fn message(&self) -> (r: String)
        ensures
            r@ == self.text(),
    {
        match self {
            CliError::InvalidConcatMethod =>
                "ivf concatenation can only be used with VP9 and AV1".to_owned(),
            CliError::ParseError { arg, msg } => {
                let mut text = "Failed to parse parameter `".to_owned();
                text.append(arg);
                text.append("`: ");
                text.append(msg.as_str());
                text
            },
        }
    }
}

/// Why the options cannot be put together.
#[derive(Debug)]
pub enum SetupError<'a> {
    /// What the user gave is not usable.
    Cli(CliError<'a>),
    /// No temporary directory was given, and the input gives no name for one.
    NoTempDir,
    /// No number of workers was given, and the amount of memory is not known.
    NoMemoryInfo,
}

// ---------------------------------------------------------------------------
// Options
// ---------------------------------------------------------------------------

/// What was given on the command line.
#[derive(Debug)]
pub struct CliMatches {
    pub input: String,
    pub output: String,
    pub keep: bool,
    pub encoder: Option<String>,
    pub temp_dir: Option<String>,
    pub workers: Option<String>,
    pub chunk_method: Option<String>,
    pub video_params: Option<Vec<String>>,
    pub audio_params: Option<Vec<String>>,
}

#[derive(Debug)]
pub struct CliOptions {
    pub input: Input,
    pub output: String,
    pub keep: bool,
    pub temp_dir: String,
    pub encoder: Encoder,
    pub video_params: Vec<String>,
    pub audio_params: Vec<String>,
    pub workers: usize,
    pub concat_method: ConcatMethod,
    pub chunk_method: ChunkMethod,
}

/// The names that an encoder can be chosen by.
pub open spec fn encoder_choices_view() -> Seq<&'static str> {
    seq!["aom", "rav1e", "libvpx", "svt-av1", "svt-vp9", "x264", "x265"]
}

/// The names that an encoder can be chosen by.
pub fn encoder_choices() -> (r: [&'static str; 7])
    ensures
        r@ == encoder_choices_view(),
{
    ["aom", "rav1e", "libvpx", "svt-av1", "svt-vp9", "x264", "x265"]
}

/// The names that a chunk method can be chosen by.
pub open spec fn chunk_method_choices_view() -> Seq<&'static str> {
    seq!["hybrid", "select", "ffms2", "l-smash"]
}

/// The names that a chunk method can be chosen by.
pub fn chunk_method_choices() -> (r: [&'static str; 4])
    ensures
        r@ == chunk_method_choices_view(),
{
    ["hybrid", "select", "ffms2", "l-smash"]
}

/// Whatever encoder can be chosen exists.
pub proof fn law_encoder_choices_exist(i: int)
    requires
        0 <= i < encoder_choices_view().len(),
    ensures
        encoder_named(encoder_choices_view()[i]@) is Ok,
{
}

/// The encoder that is asked for, if it exists: libaom if none is.
pub open spec fn chosen_encoder(matches: CliMatches) -> Option<Encoder> {
    match matches.encoder {
        Some(name) => match encoder_named(name@) {
            Ok(encoder) => Some(encoder),
            Err(_) => None,
        },
        None => Some(Encoder::aom),
    }
}

/// The chunk method that a choice stands for: L-SMASH is written with a hyphen here.
pub open spec fn chunk_method_choice(name: Seq<char>) -> Result<ChunkMethod, ParseError> {
    if name == "l-smash"@ {
        Ok(ChunkMethod::LSMASH)
    } else {
        chunk_method_named(name)
    }
}

/// The chunk method that a choice stands for.
fn chunk_method_of(name: &str) -> (r: Result<ChunkMethod, ParseError>)
    ensures
        r == chunk_method_choice(name@),
{
    if same_text(name, "l-smash") {
        Ok(ChunkMethod::LSMASH)
    } else {
        ChunkMethod::from_str(name)
    }
}

/// Whatever chunk method can be chosen exists, and no two choices are the same.
pub proof fn law_chunk_method_choices_exist(i: int, j: int)
    requires
        0 <= i < j < chunk_method_choices_view().len(),
    ensures
        chunk_method_choice(chunk_method_choices_view()[i]@) is Ok,
        chunk_method_choice(chunk_method_choices_view()[j]@) is Ok,
        chunk_method_choice(chunk_method_choices_view()[i]@) != chunk_method_choice(
            chunk_method_choices_view()[j]@,
        ),
{
    reveal_strlit("hybrid");
    reveal_strlit("select");
    reveal_strlit("ffms2");
    reveal_strlit("lsmash");
    reveal_strlit("l-smash");
    assert("hybrid"@[0] == 'h' && "select"@[0] == 's' && "ffms2"@[0] == 'f' && "lsmash"@[0] == 'l'
        && "l-smash"@[0] == 'l');
}

/// The chunk method that is asked for. A name that stands for none is no choice.
pub open spec fn chosen_chunk_method(matches: CliMatches) -> ChunkMethod {
    match matches.chunk_method {
        Some(name) => match chunk_method_choice(name@) {
            Ok(method) => method,
            Err(_) => ChunkMethod::Hybrid,
        },
        None => ChunkMethod::Hybrid,
    }
}

/// The video parameters when none are given.
pub open spec fn default_video_params() -> Seq<Seq<char>> {
    seq![
        "--threads=8"@,
        "-b"@,
        "10"@,
        "--cpu-used=6"@,
        "--end-usage=q"@,
        "--cq-level=30"@,
        "--tile-columns=2"@,
        "--tile-rows=1"@,
    ]
}

/// The audio parameters when none are given.
pub open spec fn default_audio_params() -> Seq<Seq<char>> {
    seq!["-c:a"@, "copy"@]
}

/// The given parameters, or the default ones.
pub open spec fn params_or(given: Option<Vec<String>>, default: Seq<Seq<char>>) -> Seq<Seq<char>> {
    match given {
        Some(params) => strings_view(params@),
        None => default,
    }
}

/// The options that follow from what was given, with a temporary directory and a number of
/// workers for when they were not.
pub open spec fn are_options(
    options: CliOptions,
    matches: CliMatches,
    input: Input,
    default_temp_dir: Seq<char>,
    default_workers: usize,
) -> bool {
    &&& options.input == input
    &&& options.output@ == matches.output@
    &&& options.keep == matches.keep
    &&& options.temp_dir@ == match matches.temp_dir {
        Some(dir) => dir@,
        None => default_temp_dir,
    }
    &&& Some(options.encoder) == chosen_encoder(matches)
    &&& strings_view(options.video_params@) == params_or(
        matches.video_params,
        default_video_params(),
    )
    &&& strings_view(options.audio_params@) == params_or(
        matches.audio_params,
        default_audio_params(),
    )
    &&& match matches.workers {
        Some(s) => parse_number(encode_utf8(s@), usize::MAX as nat) == Ok::<
            nat,
            crate::text::NumberError,
        >(options.workers as nat),
        None => options.workers == default_workers,
    }
    &&& options.concat_method == ConcatMethod::FFmpeg
    &&& options.chunk_method == chosen_chunk_method(matches)
}

/// Tells whether the number of workers was given, and is none.
pub open spec fn workers_are_bad(matches: CliMatches) -> bool {
    matches.workers matches Some(s) && parse_number(encode_utf8(s@), usize::MAX as nat) is Err
}

/// Tells whether an error is the one for a bad number of workers.
pub open spec fn is_workers_error(error: CliError<'_>, matches: CliMatches) -> bool {
    &&& error matches CliError::ParseError { arg, msg }
    &&& arg@ == "--workers"@
    &&& matches.workers matches Some(s)
    &&& parse_number(encode_utf8(s@), usize::MAX as nat) matches Err(e)
    &&& msg@ == e.text()
}

/// Strings for fixed texts.
fn owned(texts: &[&str]) -> (r: Vec<String>)
    ensures
        strings_view(r@) == Seq::new(texts@.len(), |i: int| texts@[i]@),
{
    let mut list: Vec<String> = Vec::new();
    let mut i: usize = 0;
    while i < texts.len()
        invariant
            i <= texts.len(),
            strings_view(list@) == Seq::new(i as nat, |k: int| texts@[k]@),
        decreases texts.len() - i,
    {
        let ghost before = list@;
        list.push(texts[i].to_owned());
        assert(strings_view(list@) =~= strings_view(before).push(texts@[i as int]@));
        assert(strings_view(list@) =~= Seq::new((i + 1) as nat, |k: int| texts@[k]@));
        i = i + 1;
    }
    list
}

/// Puts the options together from what was given, with a temporary directory and a number of
/// workers for when they were not.
pub fn resolve_options(
    matches: CliMatches,
    input: Input,
    default_temp_dir: String,
    default_workers: usize,
) -> (r: Result<CliOptions, CliError<'static>>)
    requires
        chosen_encoder(matches) is Some,
    ensures
        r is Err <==> workers_are_bad(matches),
        r matches Err(e) ==> is_workers_error(e, matches),
        r matches Ok(options) ==> are_options(
            options,
            matches,
            input,
            default_temp_dir@,
            default_workers,
        ),
{
    let encoder = match &matches.encoder {
        Some(s) => match Encoder::from_str(s.as_str()) {
            Ok(encoder) => encoder,
            Err(_) => Encoder::aom,
        },
        None => Encoder::aom,
    };
    let workers: usize = match &matches.workers {
        Some(s) => match parse_usize(s.as_str()) {
            Ok(workers) => workers,
            Err(e) => {
                return Err(CliError::ParseError { arg: "--workers", msg: e.message().to_owned() });
            },
        },
        None => default_workers,
    };
    let chunk_method = match &matches.chunk_method {
        Some(s) => match chunk_method_of(s.as_str()) {
            Ok(method) => method,
            Err(_) => ChunkMethod::Hybrid,
        },
        None => ChunkMethod::Hybrid,
    };
    let temp_dir = match matches.temp_dir {
        Some(dir) => dir,
        None => default_temp_dir,
    };
    let video_params = match matches.video_params {
        Some(params) => params,
        None => {
            let params = owned(
                &[
                    "--threads=8",
                    "-b",
                    "10",
                    "--cpu-used=6",
                    "--end-usage=q",
                    "--cq-level=30",
                    "--tile-columns=2",
                    "--tile-rows=1",
                ],
            );
            assert(strings_view(params@) =~= default_video_params());
            params
        },
    };
    let audio_params = match matches.audio_params {
        Some(params) => params,
        None => {
            let params = owned(&["-c:a", "copy"]);
            assert(strings_view(params@) =~= default_audio_params());
            params
        },
    };
    Ok(
        CliOptions {
            input,
            output: matches.output,
            keep: matches.keep,
            temp_dir,
            encoder,
            video_params,
            audio_params,
            workers,
            concat_method: ConcatMethod::FFmpeg,
            chunk_method,
        },
    )
}

/// Puts the options together from what was given. Where no temporary directory was given, it is
/// named after the input; where no number of workers was, it is the one that suits the encoder
/// on this machine, for which the bytes of its memory have to be known.
pub fn parse_cli(matches: CliMatches, ram_bytes: Option<u64>) -> (r: Result<
    CliOptions,
    SetupError<'static>,
>)
    requires
        chosen_encoder(matches) is Some,
    ensures
        r matches Err(SetupError::NoTempDir) <==> has_no_temp_dir(matches),
        r matches Err(SetupError::NoMemoryInfo) <==> !has_no_temp_dir(matches)
            && matches.workers is None && ram_bytes is None,
        r matches Err(SetupError::Cli(_)) <==> !has_no_temp_dir(matches) && workers_are_bad(
            matches,
        ),
        r matches Err(SetupError::Cli(e)) ==> is_workers_error(e, matches),
        r matches Ok(options) ==> {
            &&& is_input_at(options.input, matches.input@)
            &&& exists|workers: usize|
                (matches.workers is None ==> workers_suit_a_machine(
                    workers,
                    options.encoder,
                    ram_bytes->0,
                )) && #[trigger] are_options(
                    options,
                    matches,
                    options.input,
                    dir_of_hash(path_hash(matches.input@)),
                    workers,
                )
        },
{
    let input = Input::from(matches.input.as_str());
    let encoder = match &matches.encoder {
        Some(s) => match Encoder::from_str(s.as_str()) {
            Ok(encoder) => encoder,
            Err(_) => Encoder::aom,
        },
        None => Encoder::aom,
    };
    let mut default_temp_dir = String::new();
    if matches.temp_dir.is_none() {
        match hash_path(input.path.as_str()) {
            Some(dir) => {
                default_temp_dir = dir;
            },
            None => {
                return Err(SetupError::NoTempDir);
            },
        }
    }
    let mut default_workers: usize = 1;
    if matches.workers.is_none() {
        match ram_bytes {
            Some(ram_bytes) => {
                default_workers = determine_workers(encoder, ram_bytes) as usize;
            },
            None => {
                return Err(SetupError::NoMemoryInfo);
            },
        }
    }
    match resolve_options(matches, input, default_temp_dir, default_workers) {
        Ok(options) => {
            assert(are_options(
                options,
                matches,
                options.input,
                dir_of_hash(path_hash(matches.input@)),
                default_workers,
            ));
            Ok(options)
        },
        Err(e) => Err(SetupError::Cli(e)),
    }
}

/// Tells whether no temporary directory was given, and the input gives no name for one.
pub open spec fn has_no_temp_dir(matches: CliMatches) -> bool {
    matches.temp_dir is None && hash_dir_name(path_hash(matches.input@)) is None
}

/// The name that a hash gives to a directory, if it gives one.
pub open spec fn dir_of_hash(hash: u64) -> Seq<char> {
    match hash_dir_name(hash) {
        Some(name) => name,
        None => Seq::empty(),
    }
}

/// Tells whether there is a machine with `ram_bytes` bytes of memory that a number of workers
/// suits.
pub open spec fn workers_suit_a_machine(
    workers: usize,
    encoder: Encoder,
    ram_bytes: u64,
) -> bool {
    exists|cpus: usize|
        cpus >= 1 && workers == #[trigger] suitable_workers(
            encoder,
            cpus as nat,
            ram_bytes as nat / crate::GIGABYTE as nat,
        )
}

// ---------------------------------------------------------------------------
// Version
// ---------------------------------------------------------------------------

/// The short version text.
pub fn short_version(branch: &str, profile: &str) -> (r: String)
    ensures
        r@ == "git "@ + branch@ + " ("@ + profile@ + ")"@,
{
    let mut text = "git ".to_owned();
    text.append(branch);
    text.append(" (");
    text.append(profile);
    text.append(")");
    text
}

/// What the program was built from, and with.
#[derive(Debug, Clone, Copy)]
pub struct BuildInfo<'a> {
    pub branch: &'a str,
    pub commit: &'a str,
    pub target: &'a str,
    pub system: &'a str,
    pub compiler: &'a str,
    pub llvm: &'a str,
    pub features: &'a str,
}

/// The long version text.
pub fn long_version(build: &BuildInfo) -> (r: String)
    ensures
        r@ == "experimental "@ + build.branch@ + " branch ("@ + build.commit@
            + ")\n\n   Target:  "@ + build.target@ + " ("@ + build.system@
            + ")\nToolchain:  rustc "@ + build.compiler@ + " (LLVM version "@ + build.llvm@
            + ")\n Features:  "@ + build.features@,
{
    let mut text = "experimental ".to_owned();
    text.append(build.branch);
    text.append(" branch (");
    text.append(build.commit);
    text.append(")\n\n   Target:  ");
    text.append(build.target);
    text.append(" (");
    text.append(build.system);
    text.append(")\nToolchain:  rustc ");
    text.append(build.compiler);
    text.append(" (LLVM version ");
    text.append(build.llvm);
    text.append(")\n Features:  ");
    text.append(build.features);
    text
}

/// What is given is used: every option is what was given for it, in full and unchanged.
pub proof fn law_given_options_are_used(
    options: CliOptions,
    matches: CliMatches,
    input: Input,
    default_temp_dir: Seq<char>,
    default_workers: usize,
    i: int,
)
    requires
        are_options(options, matches, input, default_temp_dir, default_workers),
    ensures
        options.input == input,
        options.output@ == matches.output@,
        options.keep == matches.keep,
        options.concat_method == ConcatMethod::FFmpeg,
        matches.temp_dir matches Some(dir) ==> options.temp_dir@ == dir@,
        matches.encoder matches Some(name) ==> encoder_named(name@) == Ok::<Encoder, ParseError>(
            options.encoder,
        ),
        matches.chunk_method matches Some(name) ==> {
            &&& name@ == "l-smash"@ ==> options.chunk_method == ChunkMethod::LSMASH
            &&& name@ != "l-smash"@ ==> (chunk_method_named(name@) matches Ok(method)
                ==> options.chunk_method == method)
            &&& name@ != "l-smash"@ ==> (chunk_method_named(name@) is Err ==> options.chunk_method
                == ChunkMethod::Hybrid)
        },
        matches.workers matches Some(s) ==> parse_number(encode_utf8(s@), usize::MAX as nat)
            == Ok::<nat, crate::text::NumberError>(options.workers as nat),
        matches.video_params matches Some(params) ==> options.video_params.len() == params.len() && (
        0 <= i < params.len() ==> options.video_params@[i]@ == params@[i]@),
        matches.audio_params matches Some(params) ==> options.audio_params.len() == params.len() && (
        0 <= i < params.len() ==> options.audio_params@[i]@ == params@[i]@),
{
    if let Some(params) = matches.video_params {
        assert(strings_view(options.video_params@).len() == strings_view(params@).len());
        if 0 <= i < params.len() {
            assert(strings_view(options.video_params@)[i] == strings_view(params@)[i]);
        }
    }
    if let Some(params) = matches.audio_params {
        assert(strings_view(options.audio_params@).len() == strings_view(params@).len());
        if 0 <= i < params.len() {
            assert(strings_view(options.audio_params@)[i] == strings_view(params@)[i]);
        }
    }
}

/// What is not given has a default, which nothing else that is given changes.
pub proof fn law_defaults_stand_on_their_own(
    options: CliOptions,
    matches: CliMatches,
    input: Input,
    default_temp_dir: Seq<char>,
    default_workers: usize,
)
    requires
        are_options(options, matches, input, default_temp_dir, default_workers),
    ensures
        matches.temp_dir is None ==> options.temp_dir@ == default_temp_dir,
        matches.workers is None ==> options.workers == default_workers,
        matches.encoder is None ==> options.encoder == Encoder::aom,
        matches.chunk_method is None ==> options.chunk_method == ChunkMethod::Hybrid,
        matches.video_params is None ==> strings_view(options.video_params@) == seq![
            "--threads=8"@,
            "-b"@,
            "10"@,
            "--cpu-used=6"@,
            "--end-usage=q"@,
            "--cq-level=30"@,
            "--tile-columns=2"@,
            "--tile-rows=1"@,
        ],
        matches.audio_params is None ==> strings_view(options.audio_params@) == seq![
            "-c:a"@,
            "copy"@,
        ],
{
}

/// A file is a script exactly when its extension is one of the two for scripts. So a path that ends
/// in a name, a dot and a word is a script for these two words, whatever stands in front, and a
/// video for any other.
pub proof fn law_scripts_are_told_by_their_extension(front: Seq<char>, word: Seq<char>, input: Input)
    requires
        is_input_at(input, front + seq!['.'] + word),
        ends_in_a_name(front),
        !word.contains('.'),
        !word.contains('/'),
        !word.contains('\\'),
        !word.contains(':'),
    ensures
        input.path@ == front + seq!['.'] + word,
        input.input_type is Vapoursynth <==> word == "vpy"@ || word == "py"@,
{
    let path = front + seq!['.'] + word;
    crate::path::lemma_extension_of_a_name(front, word);
    assert(ends_in_a_name(path));
    assert(name_extension(last_part(path)) == Some(word));
}

/// An error says which parameter it is about, and what is wrong with it.
pub proof fn law_errors_name_their_parameter(arg: &str, msg: String)
    ensures
        CliError::InvalidConcatMethod.text()
            == "ivf concatenation can only be used with VP9 and AV1"@,
        (CliError::ParseError { arg, msg }).text() == "Failed to parse parameter `"@ + arg@ + "`: "@
            + msg@,
{
}

/// Any encoder that has a name can be chosen by it, and libaom without choosing.
pub proof fn law_encoders_can_be_chosen(matches: CliMatches)
    ensures
        matches.encoder is None ==> chosen_encoder(matches) == Some(Encoder::aom),
        matches.encoder matches Some(name) ==> (encoder_named(name@) matches Ok(encoder)
            ==> chosen_encoder(matches) == Some(encoder)),
        matches.encoder matches Some(name) ==> (encoder_named(name@) is Err ==> chosen_encoder(
            matches,
        ) is None),
{
}

/// A number of workers is refused when it is given and no number, and never otherwise. The error is
/// about that parameter, and says why it is no number.
pub proof fn law_what_is_refused(matches: CliMatches, error: CliError<'_>)
    ensures
        matches.workers is None ==> !workers_are_bad(matches),
        matches.workers matches Some(s) ==> (workers_are_bad(matches) <==> parse_number(
            encode_utf8(s@),
            usize::MAX as nat,
        ) is Err),
        is_workers_error(error, matches) ==> {
            &&& error matches CliError::ParseError { arg, msg }
            &&& arg@ == "--workers"@
            &&& matches.workers matches Some(s)
            &&& parse_number(encode_utf8(s@), usize::MAX as nat) == Err::<
                nat,
                crate::text::NumberError,
            >(crate::text::NumberError::Empty) ==> msg@ == "cannot parse integer from empty string"@
            &&& parse_number(encode_utf8(s@), usize::MAX as nat) == Err::<
                nat,
                crate::text::NumberError,
            >(crate::text::NumberError::InvalidDigit) ==> msg@ == "invalid digit found in string"@
            &&& parse_number(encode_utf8(s@), usize::MAX as nat) == Err::<
                nat,
                crate::text::NumberError,
            >(crate::text::NumberError::PosOverflow) ==> msg@
                == "number too large to fit in target type"@
        },
{
}

/// There is a temporary directory when one is given, or when the hash of the input has enough digits;
/// then it is named after these.
pub proof fn law_there_is_a_temporary_directory(matches: CliMatches)
    ensures
        matches.temp_dir is Some ==> !has_no_temp_dir(matches),
        path_hash(matches.input@) >= 1_000_000 ==> !has_no_temp_dir(matches),
        path_hash(matches.input@) >= 1_000_000 ==> Some(dir_of_hash(path_hash(matches.input@)))
            == hash_dir_name(path_hash(matches.input@)),
{
    crate::law_names_of_directories(path_hash(matches.input@));
}

/// Scripts are told from videos by two extensions, written in this way and no other.
pub proof fn law_extensions_of_scripts(word: Option<Seq<char>>)
    ensures
        type_of_extension(word) is Vapoursynth <==> word == Some("vpy"@) || word == Some("py"@),
        type_of_extension(None) is Video,
{
}

} // verus!
