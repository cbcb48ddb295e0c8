use av1an::vapoursynth::{
    get_num_frames, output, print_frame, print_y4m_header, run, write_frames, ClipError, ClipInfo,
    ColorFamily, Format, Frame, Framerate, OutputAction, PlaneData, Property, Resolution,
    SampleType,
};

fn format(color_family: ColorFamily, sample_type: SampleType, bits: u8, w: u8, h: u8) -> Format {
    Format {
        color_family,
        sample_type,
        bits_per_sample: bits,
        sub_sampling_w: w,
        sub_sampling_h: h,
        plane_count: if color_family == ColorFamily::Gray { 1 } else { 3 },
    }
}

fn clip(format: Format) -> ClipInfo {
    ClipInfo {
        format: Property::Constant(format),
        framerate: Property::Constant(Framerate { numerator: 24000, denominator: 1001 }),
        resolution: Property::Constant(Resolution { width: 1920, height: 1080 }),
        num_frames: Property::Constant(240),
    }
}

fn yuv(bits: u8, w: u8, h: u8) -> ClipInfo {
    clip(format(ColorFamily::YUV, SampleType::Integer, bits, w, h))
}

fn floats(bits: u8) -> ClipInfo {
    clip(format(ColorFamily::YUV, SampleType::Float, bits, 1, 1))
}

fn header(name: &str) -> Result<String, ClipError> {
    Ok(format!("YUV4MPEG2 C{} W1920 H1080 F24000:1001 Ip A0:0 XLENGTH=240\n", name))
}

#[test]
fn headers() {
    assert_eq!(print_y4m_header(&yuv(8, 1, 1)), header("420"));
    assert_eq!(print_y4m_header(&yuv(8, 1, 0)), header("422"));
    assert_eq!(print_y4m_header(&yuv(8, 0, 0)), header("444"));
    assert_eq!(print_y4m_header(&yuv(8, 2, 2)), header("410"));
    assert_eq!(print_y4m_header(&yuv(8, 2, 0)), header("411"));
    assert_eq!(print_y4m_header(&yuv(8, 0, 1)), header("440"));
    assert_eq!(print_y4m_header(&yuv(10, 1, 1)), header("420p10"));
    assert_eq!(print_y4m_header(&floats(16)), header("420ph"));
    assert_eq!(print_y4m_header(&floats(32)), header("420ps"));
    assert_eq!(print_y4m_header(&floats(64)), header("420pd"));
    let gray = format(ColorFamily::Gray, SampleType::Integer, 8, 0, 0);
    assert_eq!(print_y4m_header(&clip(gray)), header("mono"));
    let gray = format(ColorFamily::Gray, SampleType::Integer, 16, 0, 0);
    assert_eq!(print_y4m_header(&clip(gray)), header("mono16"));
}

#[test]
fn formats_without_a_name() {
    for family in [ColorFamily::RGB, ColorFamily::YCoCg, ColorFamily::Compat] {
        let clip = clip(format(family, SampleType::Integer, 8, 0, 0));
        assert_eq!(print_y4m_header(&clip), Err(ClipError::NoIdentifier));
    }
    assert_eq!(print_y4m_header(&yuv(8, 1, 2)), Err(ClipError::BadSubsampling));
    assert_eq!(print_y4m_header(&floats(24)), Err(ClipError::BadFloatSize));
}

#[test]
fn clips_that_vary() {
    let good = yuv(8, 1, 1);
    let format = ClipInfo { format: Property::Variable, ..good };
    let resolution = ClipInfo { resolution: Property::Variable, ..good };
    let framerate = ClipInfo { framerate: Property::Variable, ..good };
    let length = ClipInfo { num_frames: Property::Variable, ..good };
    for (clip, error) in [
        (format, ClipError::VaryingFormat),
        (resolution, ClipError::VaryingDimensions),
        (framerate, ClipError::VaryingFramerate),
        (length, ClipError::UnknownLength),
    ] {
        assert_eq!(get_num_frames(&clip), Err(error));
        assert_eq!(print_y4m_header(&clip), Err(error));
        assert_eq!(run(&clip, 0, 0).map(|_| ()), Err(error));
    }
    assert_eq!(get_num_frames(&good), Ok(240));
}

#[test]
fn ranges_inside_the_clip() {
    let clip = yuv(8, 1, 1);
    assert!(run(&clip, 0, 239).is_ok());
    assert!(run(&clip, 5, 5).is_ok());
    assert_eq!(run(&clip, 0, 240).map(|_| ()), Err(ClipError::BadRange));
    assert_eq!(run(&clip, 6, 5).map(|_| ()), Err(ClipError::BadRange));
}

#[test]
fn streams_are_the_range() {
    let parameters = run(&yuv(8, 1, 1), 10, 13).unwrap();
    let mut frames = Vec::new();
    let mut written = None;
    while let OutputAction::WriteFrame(n) = output(&parameters, written) {
        frames.push(n);
        written = Some(n);
    }
    assert_eq!(frames, vec![10, 11, 12, 13]);
    assert_eq!(output(&parameters, Some(13)), OutputAction::Flush);
    assert_eq!(output(&parameters, Some(usize::MAX)), OutputAction::Flush);
}

#[test]
fn streams_are_header_and_frames() {
    let gray = clip(format(ColorFamily::Gray, SampleType::Integer, 8, 0, 0));
    let parameters = run(&gray, 2, 4).unwrap();
    let mut out = print_y4m_header(&parameters.info).unwrap().into_bytes();
    let mut written = None;
    while let OutputAction::WriteFrame(n) = output(&parameters, written) {
        let samples = [b'0' + n as u8];
        write_frames(&mut out, &frame(ColorFamily::Gray, vec![PlaneData::Packed(&samples)]));
        written = Some(n);
    }
    let expected = format!("{}FRAME\n2FRAME\n3FRAME\n4", header("mono").unwrap());
    assert_eq!(out, expected.into_bytes());
}

fn frame<'a>(family: ColorFamily, planes: Vec<PlaneData<'a>>) -> Frame<'a> {
    Frame { format: format(family, SampleType::Integer, 8, 0, 0), planes }
}

#[test]
fn planes_are_written_one_by_one() {
    let planes = vec![
        PlaneData::Packed(&[1, 2]),
        PlaneData::Rows(vec![&[3], &[4, 5]]),
        PlaneData::Packed(&[6]),
    ];
    let mut out = vec![0];
    print_frame(&mut out, &frame(ColorFamily::YUV, planes));
    assert_eq!(out, vec![0, 1, 2, 3, 4, 5, 6]);
}

#[test]
fn rgb_planes_are_written_green_blue_red() {
    let planes =
        vec![PlaneData::Packed(&[1]), PlaneData::Packed(&[2]), PlaneData::Packed(&[3])];
    let mut out = Vec::new();
    print_frame(&mut out, &frame(ColorFamily::RGB, planes));
    assert_eq!(out, vec![2, 3, 1]);
}

#[test]
fn frames_have_a_line_in_front() {
    let mut out = Vec::new();
    write_frames(&mut out, &frame(ColorFamily::Gray, vec![PlaneData::Packed(b"xyz")]));
    write_frames(&mut out, &frame(ColorFamily::Gray, vec![PlaneData::Rows(vec![])]));
    assert_eq!(out, b"FRAME\nxyzFRAME\n");
}

#[test]
fn clip_error_messages() {
    assert_eq!(ClipError::VaryingFormat.message(), "Cannot output clips with varying format");
    assert_eq!(
        ClipError::VaryingDimensions.message(),
        "Cannot output clips with varying dimensions"
    );
    assert_eq!(
        ClipError::VaryingFramerate.message(),
        "Cannot output clips with varying framerate"
    );
    assert_eq!(ClipError::UnknownLength.message(), "Cannot output clips with unknown length");
    assert_eq!(
        ClipError::NoIdentifier.message(),
        "No y4m identifier exists for the current format"
    );
}
