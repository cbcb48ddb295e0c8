//! Writing the frames of a clip as a y4m stream.
use crate::sums::{lemma_sum_of_push, sum_of};
use crate::text::{decimal, joined, push_decimal};
use vstd::prelude::*;
use vstd::string::*;
use vstd::utf8::encode_utf8;

verus! {

// ---------------------------------------------------------------------------
// Clips
// ---------------------------------------------------------------------------

/// A property that is the same for the whole clip, or is not.
#[derive(Debug, Clone, Copy, PartialEq, Eq)]
pub enum Property<T> {
    Variable,
    Constant(T),
}

#[derive(Debug, Clone, Copy, PartialEq, Eq, Structural)]
pub enum ColorFamily {
    Gray,
    RGB,
    YUV,
    YCoCg,
    Compat,
}

#[derive(Debug, Clone, Copy, PartialEq, Eq, Structural)]
pub enum SampleType {
    Integer,
    Float,
}

/// How the samples of a frame are stored.
#[derive(Debug, Clone, Copy, PartialEq, Eq, Structural)]
pub struct Format {
    pub color_family: ColorFamily,
    pub sample_type: SampleType,
    pub bits_per_sample: u8,
    /// How often the width is halved for the second and third plane.
    pub sub_sampling_w: u8,
    /// How often the height is halved for the second and third plane.
    pub sub_sampling_h: u8,
    pub plane_count: usize,
}

#[derive(Debug, Clone, Copy, PartialEq, Eq, Structural)]
pub struct Resolution {
    pub width: usize,
    pub height: usize,
}

#[derive(Debug, Clone, Copy, PartialEq, Eq, Structural)]
pub struct Framerate {
    pub numerator: u64,
    pub denominator: u64,
}

/// What is known about a clip.
#[derive(Debug, Clone, Copy, PartialEq, Eq)]
pub struct ClipInfo {
    pub format: Property<Format>,
    pub framerate: Property<Framerate>,
    pub resolution: Property<Resolution>,
    pub num_frames: Property<usize>,
}

/// Why a clip, or a part of it, cannot be written.
#[derive(Debug, Clone, Copy, PartialEq, Eq, Structural)]
pub enum ClipError {
    VaryingFormat,
    VaryingDimensions,
    VaryingFramerate,
    UnknownLength,
    /// The range of frames is empty, or goes beyond the end of the clip.
    BadRange,
    /// There is no y4m identifier for the colour family.
    NoIdentifier,
    /// There is no y4m identifier for the subsampling.
    BadSubsampling,
    /// There is no y4m identifier for floating point samples of this size.
    BadFloatSize,
}

/// The number of frames of a clip. All that a y4m stream states only once has to be constant.
pub open spec fn clip_length(info: ClipInfo) -> Result<usize, ClipError> {
    if info.format is Variable {
        Err(ClipError::VaryingFormat)
    } else if info.resolution is Variable {
        Err(ClipError::VaryingDimensions)
    } else if info.framerate is Variable {
        Err(ClipError::VaryingFramerate)
    } else {
        match info.num_frames {
            Property::Variable => Err(ClipError::UnknownLength),
            Property::Constant(x) => Ok(x),
        }
    }
}

/// The number of frames of a clip.
pub fn get_num_frames(info: &ClipInfo) -> (r: Result<usize, ClipError>)
    ensures
        r == clip_length(*info),
{
    if let Property::Variable = info.format {
        return Err(ClipError::VaryingFormat);
    }
    if let Property::Variable = info.resolution {
        return Err(ClipError::VaryingDimensions);
    }
    if let Property::Variable = info.framerate {
        return Err(ClipError::VaryingFramerate);
    }
    match info.num_frames {
        Property::Variable => Err(ClipError::UnknownLength),
        Property::Constant(x) => Ok(x),
    }
}

// ---------------------------------------------------------------------------
// The header
// ---------------------------------------------------------------------------

/// What y4m calls the subsampling of YUV frames.
pub open spec fn subsampling_name(w: u8, h: u8) -> Option<Seq<char>> {
    if w == 1 && h == 1 {
        Some("420"@)
    } else if w == 1 && h == 0 {
        Some("422"@)
    } else if w == 0 && h == 0 {
        Some("444"@)
    } else if w == 2 && h == 2 {
        Some("410"@)
    } else if w == 2 && h == 0 {
        Some("411"@)
    } else if w == 0 && h == 1 {
        Some("440"@)
    } else {
        None
    }
}

/// What y4m calls the samples of YUV frames: nothing for integers of up to eight bits.
pub open spec fn depth_name(format: Format) -> Option<Seq<char>> {
    if format.sample_type is Integer {
        Some(
            if format.bits_per_sample > 8 {
                "p"@ + decimal(format.bits_per_sample as nat)
            } else {
                Seq::empty()
            },
        )
    } else if format.bits_per_sample == 16 {
        Some("ph"@)
    } else if format.bits_per_sample == 32 {
        Some("ps"@)
    } else if format.bits_per_sample == 64 {
        Some("pd"@)
    } else {
        None
    }
}

/// What y4m calls a format.
pub open spec fn format_name(format: Format) -> Result<Seq<char>, ClipError> {
    match format.color_family {
        ColorFamily::Gray => Ok(
            "mono"@ + (if format.bits_per_sample > 8 {
                decimal(format.bits_per_sample as nat)
            } else {
                Seq::empty()
            }),
        ),
        ColorFamily::YUV => match subsampling_name(format.sub_sampling_w, format.sub_sampling_h) {
            Some(chroma) => match depth_name(format) {
                Some(depth) => Ok(chroma + depth),
                None => Err(ClipError::BadFloatSize),
            },
            None => Err(ClipError::BadSubsampling),
        },
        _ => Err(ClipError::NoIdentifier),
    }
}

/// The header of a y4m stream.
pub open spec fn y4m_header(info: ClipInfo) -> Result<Seq<char>, ClipError> {
    match info.format {
        Property::Variable => Err(ClipError::VaryingFormat),
        Property::Constant(format) => match format_name(format) {
            Err(e) => Err(e),
            Ok(name) => match (info.resolution, info.framerate, info.num_frames) {
                (Property::Variable, _, _) => Err(ClipError::VaryingDimensions),
                (_, Property::Variable, _) => Err(ClipError::VaryingFramerate),
                (_, _, Property::Variable) => Err(ClipError::UnknownLength),
                (
                    Property::Constant(size),
                    Property::Constant(rate),
                    Property::Constant(length),
                ) => Ok(
                    "YUV4MPEG2 C"@ + name + " W"@ + decimal(size.width as nat) + " H"@ + decimal(
                        size.height as nat,
                    ) + " F"@ + decimal(rate.numerator as nat) + ":"@ + decimal(
                        rate.denominator as nat,
                    ) + " Ip A0:0 XLENGTH="@ + decimal(length as nat) + "\n"@,
                ),
            },
        },
    }
}

/// A header is a line of eight words: what it is, the format, width and height, frame rate, that it
/// is progressive, that nothing is said of the shape of its pixels, and its length.
pub proof fn law_header_words(
    format: Format,
    size: Resolution,
    rate: Framerate,
    length: usize,
    name: Seq<char>,
)
    requires
        format_name(format) == Ok::<Seq<char>, ClipError>(name),
    ensures
        y4m_header(
            ClipInfo {
                format: Property::Constant(format),
                framerate: Property::Constant(rate),
                resolution: Property::Constant(size),
                num_frames: Property::Constant(length),
            },
        ) == Ok::<Seq<char>, ClipError>(
            joined(
                seq![
                    "YUV4MPEG2"@,
                    "C"@ + name,
                    "W"@ + decimal(size.width as nat),
                    "H"@ + decimal(size.height as nat),
                    "F"@ + decimal(rate.numerator as nat) + ":"@ + decimal(rate.denominator as nat),
                    "Ip"@,
                    "A0:0"@,
                    "XLENGTH="@ + decimal(length as nat),
                ],
                " "@,
            ) + "\n"@,
        ),
{
    let words = seq![
        "YUV4MPEG2"@,
        "C"@ + name,
        "W"@ + decimal(size.width as nat),
        "H"@ + decimal(size.height as nat),
        "F"@ + decimal(rate.numerator as nat) + ":"@ + decimal(rate.denominator as nat),
        "Ip"@,
        "A0:0"@,
        "XLENGTH="@ + decimal(length as nat),
    ];
    reveal_strlit("YUV4MPEG2 C");
    reveal_strlit("YUV4MPEG2");
    reveal_strlit(" ");
    reveal_strlit("C");
    reveal_strlit(" W");
    reveal_strlit("W");
    reveal_strlit(" H");
    reveal_strlit("H");
    reveal_strlit(" F");
    reveal_strlit("F");
    reveal_strlit(" Ip A0:0 XLENGTH=");
    reveal_strlit("Ip");
    reveal_strlit("A0:0");
    reveal_strlit("XLENGTH=");
    reveal_with_fuel(joined, 9);
    assert(words.drop_last() =~= words.take(7));
    assert(words.take(7).drop_last() =~= words.take(6));
    assert(words.take(6).drop_last() =~= words.take(5));
    assert(words.take(5).drop_last() =~= words.take(4));
    assert(words.take(4).drop_last() =~= words.take(3));
    assert(words.take(3).drop_last() =~= words.take(2));
    assert(words.take(2).drop_last() =~= words.take(1));
    assert("YUV4MPEG2 C"@ =~= "YUV4MPEG2"@ + " "@ + "C"@);
    assert(" W"@ =~= " "@ + "W"@);
    assert(" H"@ =~= " "@ + "H"@);
    assert(" F"@ =~= " "@ + "F"@);
    assert(" Ip A0:0 XLENGTH="@ =~= " "@ + "Ip"@ + " "@ + "A0:0"@ + " "@ + "XLENGTH="@);
    assert(y4m_header(
        ClipInfo {
            format: Property::Constant(format),
            framerate: Property::Constant(rate),
            resolution: Property::Constant(size),
            num_frames: Property::Constant(length),
        },
    )->Ok_0 =~= joined(words, " "@) + "\n"@);
}

/// What has a y4m name, and which: grey frames of any depth; YUV frames with one of six
/// subsamplings, integers of any depth and floating point of three; nothing else. Up to eight bits
/// are not named.
pub proof fn law_formats_with_a_name(format: Format)
    ensures
        format_name(format) is Ok <==> {
            ||| format.color_family == ColorFamily::Gray
            ||| format.color_family == ColorFamily::YUV && subsampling_name(
                format.sub_sampling_w,
                format.sub_sampling_h,
            ) is Some && (format.sample_type == SampleType::Integer || format.bits_per_sample == 16
                || format.bits_per_sample == 32 || format.bits_per_sample == 64)
        },
        format_name(format) matches Ok(name) ==> {
            &&& format.color_family == ColorFamily::Gray ==> name.len() >= 4 && name.take(4)
                == "mono"@ && (format.bits_per_sample <= 8 ==> name.len() == 4) && (
            format.bits_per_sample > 8 ==> name.skip(4) == decimal(format.bits_per_sample as nat))
            &&& format.color_family == ColorFamily::YUV ==> name.len() >= 3 && Some(name.take(3))
                == subsampling_name(format.sub_sampling_w, format.sub_sampling_h)
            &&& format.color_family == ColorFamily::YUV && format.sample_type
                == SampleType::Integer && format.bits_per_sample <= 8 ==> name.len() == 3
            &&& format.color_family == ColorFamily::YUV && format.sample_type
                == SampleType::Integer && format.bits_per_sample > 8 ==> name.skip(3) == "p"@
                + decimal(format.bits_per_sample as nat)
            &&& format.color_family == ColorFamily::YUV && format.sample_type == SampleType::Float
                ==> name.skip(3) == (if format.bits_per_sample == 16 {
                "ph"@
            } else if format.bits_per_sample == 32 {
                "ps"@
            } else {
                "pd"@
            })
        },
        format_name(format) == Err::<Seq<char>, ClipError>(ClipError::NoIdentifier) <==> {
            format.color_family != ColorFamily::Gray && format.color_family != ColorFamily::YUV
        },
{
    reveal_strlit("mono");
    reveal_strlit("420");
    reveal_strlit("422");
    reveal_strlit("444");
    reveal_strlit("410");
    reveal_strlit("411");
    reveal_strlit("440");
    if let Ok(name) = format_name(format) {
        if format.color_family == ColorFamily::Gray {
            assert(name.take(4) =~= "mono"@);
            assert(name.skip(4) =~= (if format.bits_per_sample > 8 {
                decimal(format.bits_per_sample as nat)
            } else {
                Seq::empty()
            }));
        } else {
            let chroma = subsampling_name(format.sub_sampling_w, format.sub_sampling_h)->0;
            assert(chroma.len() == 3);
            assert(name.take(3) =~= chroma);
            assert(name.skip(3) =~= depth_name(format)->0);
        }
    }
}

/// Six subsamplings have a name, and different ones have different names.
pub proof fn law_subsampling_names(w: u8, h: u8, v: u8, g: u8)
    ensures
        subsampling_name(1, 1) == Some("420"@),
        subsampling_name(1, 0) == Some("422"@),
        subsampling_name(0, 0) == Some("444"@),
        subsampling_name(2, 2) == Some("410"@),
        subsampling_name(2, 0) == Some("411"@),
        subsampling_name(0, 1) == Some("440"@),
        subsampling_name(w, h) is Some ==> seq![(1u8, 1u8), (1, 0), (0, 0), (2, 2), (2, 0), (0, 1)].contains(
            (w, h),
        ),
        subsampling_name(w, h) is Some && subsampling_name(w, h) == subsampling_name(v, g) ==> w == v
            && h == g,
{
    reveal_strlit("420");
    reveal_strlit("422");
    reveal_strlit("444");
    reveal_strlit("410");
    reveal_strlit("411");
    reveal_strlit("440");
    let known = seq![(1u8, 1u8), (1, 0), (0, 0), (2, 2), (2, 0), (0, 1)];
    assert(known[0] == (1u8, 1u8) && known[1] == (1u8, 0u8) && known[2] == (0u8, 0u8) && known[3]
        == (2u8, 2u8) && known[4] == (2u8, 0u8) && known[5] == (0u8, 1u8));
    assert("420"@[1] == '2' && "422"@[1] == '2' && "444"@[1] == '4' && "410"@[1] == '1'
        && "411"@[1] == '1' && "440"@[1] == '4');
    assert("420"@[2] == '0' && "422"@[2] == '2' && "444"@[2] == '4' && "410"@[2] == '0'
        && "411"@[2] == '1' && "440"@[2] == '0');
}

/// The length of a clip is known exactly when everything that is stated only once is constant. What
/// varies first, of format, dimensions, frame rate and length, is what is reported.
pub proof fn law_length_of_a_constant_clip(info: ClipInfo)
    ensures
        forall|n: usize|
            clip_length(info) == Ok::<usize, ClipError>(n) <==> info.format is Constant
                && info.resolution is Constant && info.framerate is Constant && info.num_frames
                == Property::Constant(n),
        clip_length(info) == Err::<usize, ClipError>(ClipError::VaryingFormat)
            <==> info.format is Variable,
        clip_length(info) == Err::<usize, ClipError>(ClipError::VaryingDimensions)
            <==> info.format is Constant && info.resolution is Variable,
        clip_length(info) == Err::<usize, ClipError>(ClipError::VaryingFramerate)
            <==> info.format is Constant && info.resolution is Constant
            && info.framerate is Variable,
        clip_length(info) == Err::<usize, ClipError>(ClipError::UnknownLength)
            <==> info.format is Constant && info.resolution is Constant
            && info.framerate is Constant && info.num_frames is Variable,
{
}

/// What y4m calls the subsampling of YUV frames.
fn subsampling_text(w: u8, h: u8) -> (r: Option<&'static str>)
    ensures
        match subsampling_name(w, h) {
            Some(name) => r matches Some(s) && s@ == name,
            None => r is None,
        },
{
    match (w, h) {
        (1, 1) => Some("420"),
        (1, 0) => Some("422"),
        (0, 0) => Some("444"),
        (2, 2) => Some("410"),
        (2, 0) => Some("411"),
        (0, 1) => Some("440"),
        _ => None,
    }
}

/// Writes what y4m calls a format.
fn push_format(out: &mut String, format: &Format) -> (r: Result<(), ClipError>)
    ensures
        match format_name(*format) {
            Ok(name) => r is Ok && final(out)@ == old(out)@ + name,
            Err(e) => r == Err::<(), ClipError>(e),
        },
{
    match format.color_family {
        ColorFamily::Gray => {
            out.append("mono");
            if format.bits_per_sample > 8 {
                push_decimal(out, format.bits_per_sample as u64);
            }
            assert(out@ =~= old(out)@ + format_name(*format)->Ok_0);
            Ok(())
        },
        ColorFamily::YUV => {
            match subsampling_text(format.sub_sampling_w, format.sub_sampling_h) {
                Some(chroma) => out.append(chroma),
                None => {
                    return Err(ClipError::BadSubsampling);
                },
            }
            match format.sample_type {
                SampleType::Integer => {
                    if format.bits_per_sample > 8 {
                        out.append("p");
                        push_decimal(out, format.bits_per_sample as u64);
                    }
                },
                SampleType::Float => match format.bits_per_sample {
                    16 => out.append("ph"),
                    32 => out.append("ps"),
                    64 => out.append("pd"),
                    _ => {
                        return Err(ClipError::BadFloatSize);
                    },
                },
            }
            assert(out@ =~= old(out)@ + format_name(*format)->Ok_0);
            Ok(())
        },
        _ => Err(ClipError::NoIdentifier),
    }
}

/// The header of a y4m stream, with its line feed.
pub fn print_y4m_header(info: &ClipInfo) -> (r: Result<String, ClipError>)
    ensures
        match y4m_header(*info) {
            Ok(header) => r matches Ok(s) && s@ == header,
            Err(e) => r == Err::<String, ClipError>(e),
        },
{
    let format = match info.format {
        Property::Variable => {
            return Err(ClipError::VaryingFormat);
        },
        Property::Constant(format) => format,
    };
    let mut out = "YUV4MPEG2 C".to_owned();
    match push_format(&mut out, &format) {
        Ok(_) => {},
        Err(e) => {
            return Err(e);
        },
    }
    match info.resolution {
        Property::Variable => {
            return Err(ClipError::VaryingDimensions);
        },
        Property::Constant(resolution) => {
            out.append(" W");
            push_decimal(&mut out, resolution.width as u64);
            out.append(" H");
            push_decimal(&mut out, resolution.height as u64);
        },
    }
    match info.framerate {
        Property::Variable => {
            return Err(ClipError::VaryingFramerate);
        },
        Property::Constant(framerate) => {
            out.append(" F");
            push_decimal(&mut out, framerate.numerator);
            out.append(":");
            push_decimal(&mut out, framerate.denominator);
        },
    }
    match info.num_frames {
        Property::Variable => {
            return Err(ClipError::UnknownLength);
        },
        Property::Constant(num_frames) => {
            out.append(" Ip A0:0 XLENGTH=");
            push_decimal(&mut out, num_frames as u64);
            out.append("\n");
        },
    }
    Ok(out)
}

// ---------------------------------------------------------------------------
// Frames
// ---------------------------------------------------------------------------

/// The samples of one plane: in one piece, or row by row where there is padding between rows.
pub enum PlaneData<'a> {
    Packed(&'a [u8]),
    Rows(Vec<&'a [u8]>),
}

/// A frame.
pub struct Frame<'a> {
    pub format: Format,
    pub planes: Vec<PlaneData<'a>>,
}

/// Rows one behind the other.
pub open spec fn rows_bytes(rows: Seq<&[u8]>) -> Seq<u8>
    decreases rows.len(),
{
    if rows.len() == 0 {
        Seq::empty()
    } else {
        rows_bytes(rows.drop_last()) + rows.last()@
    }
}

impl<'a> PlaneData<'a> {
    /// The samples, without padding.
    pub open spec fn bytes(self) -> Seq<u8> {
        match self {
            PlaneData::Packed(data) => data@,
            PlaneData::Rows(rows) => rows_bytes(rows@),
        }
    }
}

/// The lengths of parts.
pub open spec fn lengths_of(parts: Seq<Seq<u8>>) -> Seq<nat> {
    Seq::new(parts.len(), |i: int| parts[i].len())
}

/// Tells whether `whole` consists of `parts`: it is as long as they are together, and each stands in
/// it unchanged, behind all parts in front of it.
pub open spec fn consists_of(whole: Seq<u8>, parts: Seq<Seq<u8>>) -> bool {
    &&& whole.len() == sum_of(lengths_of(parts))
    &&& forall|k: int| 0 <= k < parts.len() ==> #[trigger] is_in_place(whole, parts, k)
}

/// Tells whether a part stands behind all parts in front of it.
pub open spec fn is_in_place(whole: Seq<u8>, parts: Seq<Seq<u8>>, k: int) -> bool {
    let start = sum_of(lengths_of(parts).take(k));
    start + parts[k].len() <= whole.len() && whole.subrange(
        start as int,
        (start + parts[k].len()) as int,
    ) == parts[k]
}

/// One more part at the end.
proof fn lemma_one_more_part(whole: Seq<u8>, parts: Seq<Seq<u8>>, more: Seq<u8>)
    requires
        consists_of(whole, parts),
    ensures
        consists_of(whole + more, parts.push(more)),
{
    let longer = parts.push(more);
    let all = whole + more;
    assert(lengths_of(longer) =~= lengths_of(parts).push(more.len()));
    lemma_sum_of_push(lengths_of(parts), more.len());
    assert forall|k: int| 0 <= k < longer.len() implies #[trigger] is_in_place(all, longer, k) by {
        if k < parts.len() {
            assert(is_in_place(whole, parts, k));
            assert(lengths_of(longer).take(k) =~= lengths_of(parts).take(k));
            let start = sum_of(lengths_of(parts).take(k)) as int;
            assert(all.subrange(start, start + parts[k].len()) =~= whole.subrange(
                start,
                start + parts[k].len(),
            ));
        } else {
            assert(lengths_of(longer).take(k) =~= lengths_of(parts));
            assert(all.subrange(whole.len() as int, all.len() as int) =~= more);
        }
    }
}

/// The bytes of rows.
pub open spec fn row_parts(rows: Seq<&[u8]>) -> Seq<Seq<u8>> {
    Seq::new(rows.len(), |i: int| rows[i]@)
}

/// Every row of a plane is written in full and in order: the plane is as long as its rows are
/// together, and row `r` stands in it unchanged, behind all rows in front of it.
pub proof fn law_every_row_is_written(rows: Vec<&[u8]>, r: int)
    requires
        0 <= r < rows.len(),
    ensures
        ({
            let bytes = PlaneData::Rows(rows).bytes();
            let start = sum_of(Seq::new(r as nat, |i: int| rows@[i]@.len()));
            &&& bytes.len() == sum_of(Seq::new(rows@.len(), |i: int| rows@[i]@.len()))
            &&& start + rows@[r]@.len() <= bytes.len()
            &&& forall|k: int|
                0 <= k < rows@[r]@.len() ==> bytes[start + k] == #[trigger] rows@[r]@[k]
        }),
{
    let bytes = PlaneData::Rows(rows).bytes();
    let parts = row_parts(rows@);
    lemma_rows_are_parts(rows@);
    assert(is_in_place(bytes, parts, r));
    assert(lengths_of(parts) =~= Seq::new(rows@.len(), |i: int| rows@[i]@.len()));
    assert(lengths_of(parts).take(r) =~= Seq::new(r as nat, |i: int| rows@[i]@.len()));
    let start = sum_of(lengths_of(parts).take(r));
    let piece = bytes.subrange(start as int, (start + rows@[r]@.len()) as int);
    assert forall|k: int| 0 <= k < rows@[r]@.len() implies bytes[start + k]
        == #[trigger] rows@[r]@[k] by {
        assert(piece[k] == bytes[start + k]);
    }
}

/// Rows behind other rows are written behind them, and a single row is written as it is.
pub proof fn law_rows_follow_rows(front: Seq<&[u8]>, back: Seq<&[u8]>, row: &[u8])
    ensures
        rows_bytes(front + back) == rows_bytes(front) + rows_bytes(back),
        rows_bytes(seq![row]) == row@,
        rows_bytes(Seq::empty()).len() == 0,
    decreases back.len(),
{
    assert(seq![row].drop_last() =~= Seq::<&[u8]>::empty());
    assert(rows_bytes(Seq::empty()) + row@ =~= row@);
    if back.len() == 0 {
        assert(front + back =~= front);
        assert(rows_bytes(front) + rows_bytes(back) =~= rows_bytes(front));
    } else {
        law_rows_follow_rows(front, back.drop_last(), row);
        assert((front + back).drop_last() =~= front + back.drop_last());
        assert(rows_bytes(front + back) =~= rows_bytes(front) + rows_bytes(back));
    }
}

/// A plane in one piece is written as it is.
pub proof fn law_packed_plane_is_written(data: &[u8])
    ensures
        PlaneData::Packed(data).bytes() == data@,
{
}

/// Rows stand one behind the other.
proof fn lemma_rows_are_parts(rows: Seq<&[u8]>)
    ensures
        consists_of(rows_bytes(rows), row_parts(rows)),
    decreases rows.len(),
{
    if rows.len() > 0 {
        let front = rows.drop_last();
        lemma_rows_are_parts(front);
        lemma_one_more_part(rows_bytes(front), row_parts(front), rows.last()@);
        assert(row_parts(rows) =~= row_parts(front).push(rows.last()@));
    }
}

/// The plane that is written at the given place. The planes of an RGB frame are written in the
/// order green, blue, red.
pub open spec fn plane_at(format: Format, place: int) -> int {
    if format.color_family is RGB {
        if place == 0 {
            1
        } else if place == 1 {
            2
        } else {
            0
        }
    } else {
        place
    }
}

/// The first `count` planes that are written, one behind the other.
pub open spec fn planes_bytes(frame: Frame, count: nat) -> Seq<u8>
    decreases count,
{
    if count == 0 {
        Seq::empty()
    } else {
        planes_bytes(frame, (count - 1) as nat) + frame.planes@[plane_at(
            frame.format,
            count - 1,
        )].bytes()
    }
}

/// A frame with all its planes. An RGB frame has three of them.
pub open spec fn is_whole(frame: Frame) -> bool {
    &&& frame.planes.len() == frame.format.plane_count
    &&& frame.format.color_family is RGB ==> frame.format.plane_count == 0
        || frame.format.plane_count == 3
}

/// Every plane of a frame is written, and none of them twice.
pub proof fn law_every_plane_is_written_once(frame: Frame, plane: int)
    requires
        is_whole(frame),
        0 <= plane < frame.format.plane_count,
    ensures
        exists|place: int|
            0 <= place < frame.format.plane_count && #[trigger] plane_at(frame.format, place)
                == plane,
        forall|a: int, b: int|
            0 <= a < frame.format.plane_count && 0 <= b < frame.format.plane_count
                && #[trigger] plane_at(frame.format, a) == plane && #[trigger] plane_at(
                frame.format,
                b,
            ) == plane ==> a == b,
{
    let place = if frame.format.color_family is RGB {
        if plane == 0 {
            2
        } else {
            plane - 1
        }
    } else {
        plane
    };
    assert(plane_at(frame.format, place) == plane);
}

/// The planes of a frame in the order in which they are written: that of the frame, except that an
/// RGB frame starts with green, goes on with blue, and ends with red.
pub open spec fn plane_parts(frame: Frame, count: nat) -> Seq<Seq<u8>> {
    Seq::new(
        count,
        |place: int|
            if frame.format.color_family == ColorFamily::RGB {
                frame.planes@[(place + 1) % 3].bytes()
            } else {
                frame.planes@[place].bytes()
            },
    )
}

/// Every plane of a frame is written in full and in order. Unless the frame is RGB, it is as long as
/// its planes are together, and plane `p` stands in it unchanged, behind all planes in front of it.
pub proof fn law_every_plane_is_in_place(frame: Frame, p: int)
    requires
        frame.planes.len() == frame.format.plane_count,
        frame.format.color_family != ColorFamily::RGB,
        0 <= p < frame.planes.len(),
    ensures
        ({
            let bytes = planes_bytes(frame, frame.format.plane_count as nat);
            let planes = frame.planes@;
            let start = sum_of(Seq::new(p as nat, |i: int| planes[i].bytes().len()));
            &&& is_whole(frame)
            &&& bytes.len() == sum_of(Seq::new(planes.len(), |i: int| planes[i].bytes().len()))
            &&& start + planes[p].bytes().len() <= bytes.len()
            &&& forall|k: int|
                0 <= k < planes[p].bytes().len() ==> bytes[start + k]
                    == #[trigger] planes[p].bytes()[k]
        }),
{
    let count = frame.format.plane_count as nat;
    let bytes = planes_bytes(frame, count);
    let parts = plane_parts(frame, count);
    let planes = frame.planes@;
    lemma_planes_are_parts(frame, count);
    assert(is_in_place(bytes, parts, p));
    assert(lengths_of(parts) =~= Seq::new(planes.len(), |i: int| planes[i].bytes().len()));
    assert(lengths_of(parts).take(p) =~= Seq::new(p as nat, |i: int| planes[i].bytes().len()));
    let start = sum_of(lengths_of(parts).take(p));
    let piece = bytes.subrange(start as int, (start + planes[p].bytes().len()) as int);
    assert forall|k: int| 0 <= k < planes[p].bytes().len() implies bytes[start + k]
        == #[trigger] planes[p].bytes()[k] by {
        assert(piece[k] == bytes[start + k]);
    }
}

/// The planes of an RGB frame are written in the order green, blue, red.
pub proof fn law_rgb_is_written_green_first(frame: Frame)
    requires
        frame.planes.len() == 3,
        frame.format.plane_count == 3,
        frame.format.color_family == ColorFamily::RGB,
    ensures
        is_whole(frame),
        planes_bytes(frame, 3) == frame.planes@[1].bytes() + frame.planes@[2].bytes()
            + frame.planes@[0].bytes(),
{
    reveal_with_fuel(planes_bytes, 4);
    assert(planes_bytes(frame, 3) =~= frame.planes@[1].bytes() + frame.planes@[2].bytes()
        + frame.planes@[0].bytes());
}

/// Planes stand one behind the other.
proof fn lemma_planes_are_parts(frame: Frame, count: nat)
    requires
        frame.format.color_family == ColorFamily::RGB ==> count <= 3,
    ensures
        consists_of(planes_bytes(frame, count), plane_parts(frame, count)),
    decreases count,
{
    if count > 0 {
        let fewer = (count - 1) as nat;
        let last = frame.planes@[plane_at(frame.format, fewer as int)].bytes();
        lemma_planes_are_parts(frame, fewer);
        lemma_one_more_part(planes_bytes(frame, fewer), plane_parts(frame, fewer), last);
        assert(plane_parts(frame, count) =~= plane_parts(frame, fewer).push(last));
    }
}

/// Appends bytes.
fn push_bytes(out: &mut Vec<u8>, data: &[u8])
    ensures
        final(out)@ == old(out)@ + data@,
{
    out.extend_from_slice(data);
    assert(out@ =~= old(out)@ + data@);
}

/// Writes the samples of a frame, plane by plane.
pub fn print_frame(out: &mut Vec<u8>, frame: &Frame)
    requires
        is_whole(*frame),
    ensures
        final(out)@ == old(out)@ + planes_bytes(*frame, frame.format.plane_count as nat),
{
    let ghost before = out@;
    let mut place: usize = 0;
    assert(out@ =~= before + planes_bytes(*frame, 0));
    while place < frame.format.plane_count
        invariant
            place <= frame.format.plane_count,
            is_whole(*frame),
            out@ == before + planes_bytes(*frame, place as nat),
        decreases frame.format.plane_count - place,
    {
        let plane: usize = match frame.format.color_family {
            ColorFamily::RGB => if place == 0 {
                1
            } else if place == 1 {
                2
            } else {
                0
            },
            _ => place,
        };
        let ghost so_far = out@;
        match &frame.planes[plane] {
            PlaneData::Packed(data) => push_bytes(out, data),
            PlaneData::Rows(rows) => {
                let mut row: usize = 0;
                assert(rows@.take(0) =~= Seq::<&[u8]>::empty());
                assert(out@ =~= so_far + rows_bytes(rows@.take(0)));
                while row < rows.len()
                    invariant
                        row <= rows.len(),
                        out@ == so_far + rows_bytes(rows@.take(row as int)),
                    decreases rows.len() - row,
                {
                    push_bytes(out, rows[row]);
                    assert(rows@.take(row + 1).drop_last() =~= rows@.take(row as int));
                    assert(out@ =~= so_far + rows_bytes(rows@.take(row + 1)));
                    row = row + 1;
                }
                assert(rows@.take(row as int) =~= rows@);
            },
        }
        assert(out@ =~= before + planes_bytes(*frame, (place + 1) as nat));
        place = place + 1;
    }
}

/// The line in front of the samples of a frame.
pub const FRAME_LINE: &'static str = "FRAME\n";

/// A frame, with the line in front of it.
pub open spec fn frame_bytes(frame: Frame) -> Seq<u8> {
    encode_utf8(FRAME_LINE@) + planes_bytes(frame, frame.format.plane_count as nat)
}

/// Writes a frame, with the line in front of it.
pub fn write_frames(out: &mut Vec<u8>, frame: &Frame)
    requires
        is_whole(*frame),
    ensures
        final(out)@ == old(out)@ + frame_bytes(*frame),
{
    push_bytes(out, FRAME_LINE.as_bytes());
    print_frame(out, frame);
    assert(out@ =~= old(out)@ + frame_bytes(*frame));
}

/// A frame starts with its line, whatever it holds: the letters of `FRAME` and a line feed.
pub proof fn law_frames_start_with_their_line(frame: Frame)
    ensures
        frame_bytes(frame).len() == 6 + planes_bytes(frame, frame.format.plane_count as nat).len(),
        frame_bytes(frame).take(6) == seq![70u8, 82, 65, 77, 69, 10],
        frame_bytes(frame).skip(6) == planes_bytes(frame, frame.format.plane_count as nat),
{
    reveal_strlit("FRAME\n");
    let line = FRAME_LINE@;
    assert(vstd::utf8::is_ascii_chars(line));
    vstd::utf8::is_ascii_chars_encode_utf8(line);
    assert(encode_utf8(line) =~= seq![70u8, 82, 65, 77, 69, 10]);
    assert(frame_bytes(frame).take(6) =~= seq![70u8, 82, 65, 77, 69, 10]);
    assert(frame_bytes(frame).skip(6) =~= planes_bytes(frame, frame.format.plane_count as nat));
}

// ---------------------------------------------------------------------------
// Streams
// ---------------------------------------------------------------------------

/// What is written: the frames from `start_frame` to `end_frame`, both included.
#[derive(Debug, Clone, Copy)]
pub struct OutputParameters {
    pub info: ClipInfo,
    pub start_frame: usize,
    pub end_frame: usize,
}

/// What has to be done for a stream.
#[derive(Debug, Clone, Copy, PartialEq, Eq, Structural)]
pub enum OutputAction {
    /// Get the frame, and write it.
    WriteFrame(usize),
    /// Everything is written: flush.
    Flush,
}

/// What follows the header, for which `written` is `None`, or the frame that was written last.
pub open spec fn next_output(parameters: OutputParameters, written: Option<usize>) -> OutputAction {
    let next = match written {
        None => parameters.start_frame as int,
        Some(n) => n + 1,
    };
    if next <= parameters.end_frame {
        OutputAction::WriteFrame(next as usize)
    } else {
        OutputAction::Flush
    }
}

/// Says what follows the header, for which `written` is `None`, or the frame that was written
/// last.
pub fn output(parameters: &OutputParameters, written: Option<usize>) -> (r: OutputAction)
    ensures
        r == next_output(*parameters, written),
{
    match written {
        None => if parameters.start_frame <= parameters.end_frame {
            OutputAction::WriteFrame(parameters.start_frame)
        } else {
            OutputAction::Flush
        },
        Some(n) => if n < parameters.end_frame {
            OutputAction::WriteFrame(n + 1)
        } else {
            OutputAction::Flush
        },
    }
}

/// The range of frames that can be written of a clip.
pub open spec fn output_range(info: ClipInfo, start_frame: usize, end_frame: usize) -> Result<
    OutputParameters,
    ClipError,
> {
    match clip_length(info) {
        Err(e) => Err(e),
        Ok(num_frames) => if end_frame < start_frame || end_frame >= num_frames {
            Err(ClipError::BadRange)
        } else {
            Ok(OutputParameters { info, start_frame, end_frame })
        },
    }
}

/// Checks that a range of frames of a clip can be written.
pub fn run(info: &ClipInfo, start_frame: usize, end_frame: usize) -> (r: Result<
    OutputParameters,
    ClipError,
>)
    ensures
        r == output_range(*info, start_frame, end_frame),
{
    let num_frames = match get_num_frames(info) {
        Ok(num_frames) => num_frames,
        Err(e) => {
            return Err(e);
        },
    };
    // Check if the input start and end frames make sense.
    if end_frame < start_frame || end_frame >= num_frames {
        return Err(ClipError::BadRange);
    }
    Ok(OutputParameters { info: *info, start_frame, end_frame })
}

/// A range can be written exactly when it is not empty and lies inside of the clip, and it is written
/// as it was asked for.
pub proof fn law_ranges_inside_the_clip(info: ClipInfo, start_frame: usize, end_frame: usize)
    ensures
        output_range(info, start_frame, end_frame) is Ok <==> {
            clip_length(info) matches Ok(n) && start_frame <= end_frame && end_frame < n
        },
        output_range(info, start_frame, end_frame) matches Ok(parameters) ==> {
            &&& parameters.info == info
            &&& parameters.start_frame == start_frame
            &&& parameters.end_frame == end_frame
        },
        clip_length(info) matches Err(e) ==> output_range(info, start_frame, end_frame) == Err::<
            OutputParameters,
            ClipError,
        >(e),
{
}

/// The frames of a stream after `steps` actions, or all of them when there are fewer.
pub open spec fn frames_after(parameters: OutputParameters, steps: nat) -> Seq<usize>
    decreases steps,
{
    if steps == 0 {
        Seq::empty()
    } else {
        let before = frames_after(parameters, (steps - 1) as nat);
        let written = if before.len() == 0 {
            None
        } else {
            Some(before.last())
        };
        match next_output(parameters, written) {
            OutputAction::WriteFrame(n) => before.push(n),
            OutputAction::Flush => before,
        }
    }
}

/// A stream consists of exactly the frames that were asked for, in order and without gaps, all of
/// which the clip has; then it is flushed.
pub proof fn law_stream_is_the_range(
    info: ClipInfo,
    start_frame: usize,
    end_frame: usize,
    steps: nat,
)
    requires
        output_range(info, start_frame, end_frame) is Ok,
        steps >= end_frame - start_frame + 1,
    ensures
        ({
            let parameters = output_range(info, start_frame, end_frame)->Ok_0;
            let frames = frames_after(parameters, steps);
            &&& frames.len() == end_frame - start_frame + 1
            &&& forall|i: int| 0 <= i < frames.len() ==> #[trigger] frames[i] == start_frame + i
            &&& forall|i: int|
                0 <= i < frames.len() ==> #[trigger] frames[i] < clip_length(info)->Ok_0
            &&& next_output(parameters, Some(frames.last())) is Flush
        }),
{
    let parameters = output_range(info, start_frame, end_frame)->Ok_0;
    lemma_frames_after(parameters, steps);
}

/// The frames come one by one.
proof fn lemma_frames_after(parameters: OutputParameters, steps: nat)
    requires
        parameters.start_frame <= parameters.end_frame,
    ensures
        ({
            let frames = frames_after(parameters, steps);
            let all = parameters.end_frame - parameters.start_frame + 1;
            &&& frames.len() == if steps < all {
                steps as int
            } else {
                all
            }
            &&& forall|i: int|
                0 <= i < frames.len() ==> #[trigger] frames[i] == parameters.start_frame + i
        }),
    decreases steps,
{
    if steps > 0 {
        lemma_frames_after(parameters, (steps - 1) as nat);
        let before = frames_after(parameters, (steps - 1) as nat);
        if before.len() > 0 {
            assert(before[before.len() - 1] == parameters.start_frame + before.len() - 1);
        }
    }
}

/// What is written after `steps` actions: the header, and what the actions ask for of the clip with
/// the given frames.
pub open spec fn stream_after<'a>(
    parameters: OutputParameters,
    frames: spec_fn(usize) -> Frame<'a>,
    steps: nat,
) -> Seq<u8>
    decreases steps,
{
    if steps == 0 {
        encode_utf8(y4m_header(parameters.info)->Ok_0)
    } else {
        let before = stream_after(parameters, frames, (steps - 1) as nat);
        let done = frames_after(parameters, (steps - 1) as nat);
        let written = if done.len() == 0 {
            None
        } else {
            Some(done.last())
        };
        match next_output(parameters, written) {
            OutputAction::WriteFrame(n) => before + frame_bytes(frames(n)),
            OutputAction::Flush => before,
        }
    }
}

/// The frames from `start` to before `end`, each with the line in front of it.
pub open spec fn frames_bytes<'a>(
    frames: spec_fn(usize) -> Frame<'a>,
    start: int,
    end: int,
) -> Seq<u8>
    decreases end - start,
{
    if end <= start {
        Seq::empty()
    } else {
        frames_bytes(frames, start, end - 1) + frame_bytes(frames((end - 1) as usize))
    }
}

/// A stream is the header and then, for each frame from the first to the last that were asked for,
/// the line in front of a frame and its planes; nothing else, and nothing twice.
pub proof fn law_stream_is_header_and_frames<'a>(
    info: ClipInfo,
    start_frame: usize,
    end_frame: usize,
    frames: spec_fn(usize) -> Frame<'a>,
    steps: nat,
)
    requires
        output_range(info, start_frame, end_frame) is Ok,
        y4m_header(info) is Ok,
        steps >= end_frame - start_frame + 1,
    ensures
        stream_after(output_range(info, start_frame, end_frame)->Ok_0, frames, steps)
            == encode_utf8(y4m_header(info)->Ok_0) + frames_bytes(
            frames,
            start_frame as int,
            end_frame + 1,
        ),
{
    let parameters = output_range(info, start_frame, end_frame)->Ok_0;
    lemma_frames_after(parameters, steps);
    lemma_stream_after(parameters, frames, steps);
}

/// The frames are written one by one.
proof fn lemma_stream_after<'a>(
    parameters: OutputParameters,
    frames: spec_fn(usize) -> Frame<'a>,
    steps: nat,
)
    requires
        parameters.start_frame <= parameters.end_frame,
    ensures
        stream_after(parameters, frames, steps) == encode_utf8(y4m_header(parameters.info)->Ok_0)
            + frames_bytes(
            frames,
            parameters.start_frame as int,
            parameters.start_frame + frames_after(parameters, steps).len(),
        ),
    decreases steps,
{
    let header = encode_utf8(y4m_header(parameters.info)->Ok_0);
    let start = parameters.start_frame as int;
    lemma_frames_after(parameters, steps);
    if steps == 0 {
        assert(header + frames_bytes(frames, start, start) =~= header);
    } else {
        let done = frames_after(parameters, (steps - 1) as nat);
        lemma_frames_after(parameters, (steps - 1) as nat);
        lemma_stream_after(parameters, frames, (steps - 1) as nat);
        if done.len() > 0 {
            assert(done[done.len() - 1] == start + done.len() - 1);
        }
        if frames_after(parameters, steps).len() > done.len() {
            let n = (start + done.len()) as usize;
            assert(header + frames_bytes(frames, start, start + done.len()) + frame_bytes(
                frames(n),
            ) =~= header + frames_bytes(frames, start, start + done.len() + 1));
        }
    }
}

/// A clip that can be written at all has a header, unless y4m has no name for its format.
pub proof fn law_only_the_format_can_be_unnamed(
    info: ClipInfo,
    start_frame: usize,
    end_frame: usize,
)
    requires
        output_range(info, start_frame, end_frame) is Ok,
    ensures
        info.format matches Property::Constant(format) && match format_name(format) {
            Ok(_) => y4m_header(info) is Ok,
            Err(e) => y4m_header(info) == Err::<Seq<char>, ClipError>(e),
        },
{
}

impl ClipError {
    /// What is said about the error.
    pub open spec fn text(self) -> Seq<char> {
        match self {
            ClipError::VaryingFormat => "Cannot output clips with varying format"@,
            ClipError::VaryingDimensions => "Cannot output clips with varying dimensions"@,
            ClipError::VaryingFramerate => "Cannot output clips with varying framerate"@,
            ClipError::UnknownLength => "Cannot output clips with unknown length"@,
            ClipError::BadRange => "The frame range is not part of the clip"@,
            ClipError::NoIdentifier => "No y4m identifier exists for the current format"@,
            ClipError::BadSubsampling => "No y4m identifier exists for the current subsampling"@,
            ClipError::BadFloatSize => "No y4m identifier exists for the current sample size"@,
        }
    }

    /// What is said about the error.
    pub fn message(&self) -> (r: &'static str)
        ensures
            r@ == self.text(),
    {
        match self {
            ClipError::VaryingFormat => "Cannot output clips with varying format",
            ClipError::VaryingDimensions => "Cannot output clips with varying dimensions",
            ClipError::VaryingFramerate => "Cannot output clips with varying framerate",
            ClipError::UnknownLength => "Cannot output clips with unknown length",
            ClipError::BadRange => "The frame range is not part of the clip",
            ClipError::NoIdentifier => "No y4m identifier exists for the current format",
            ClipError::BadSubsampling => "No y4m identifier exists for the current subsampling",
            ClipError::BadFloatSize => "No y4m identifier exists for the current sample size",
        }
    }
}

/// A clip has a header exactly when its format has a name and nothing of it varies. What varies is
/// reported where the header would have stated it.
pub proof fn law_clips_with_a_header(info: ClipInfo)
    ensures
        y4m_header(info) is Ok <==> {
            &&& info.format matches Property::Constant(format)
            &&& format_name(format) is Ok
            &&& info.resolution is Constant
            &&& info.framerate is Constant
            &&& info.num_frames is Constant
        },
        y4m_header(info) == Err::<Seq<char>, ClipError>(ClipError::VaryingFormat)
            <==> info.format is Variable,
        info.format matches Property::Constant(format) ==> (format_name(format) matches Err(e)
            ==> y4m_header(info) == Err::<Seq<char>, ClipError>(e)),
        info.format matches Property::Constant(format) ==> (format_name(format) is Ok ==> {
            &&& y4m_header(info) == Err::<Seq<char>, ClipError>(ClipError::VaryingDimensions)
                <==> info.resolution is Variable
            &&& y4m_header(info) == Err::<Seq<char>, ClipError>(ClipError::VaryingFramerate)
                <==> info.resolution is Constant && info.framerate is Variable
            &&& y4m_header(info) == Err::<Seq<char>, ClipError>(ClipError::UnknownLength)
                <==> info.resolution is Constant && info.framerate is Constant
                && info.num_frames is Variable
        }),
{
}

} // verus!
