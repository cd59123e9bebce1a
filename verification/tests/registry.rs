use icer::decoder::parse_icer;
use icer::encoder::EncodeOptions;
use icer::error::IcerError;
use icer::image::{IcerImage, IcerPixelFormat};
use icer::registry::{frame_format, frame_of_image, Frame, FrameFormat, IcerDecoder, IcerEncoder, StreamParams, VideoFrame};
use icer::CODEC_ID_STR;

fn params(width: u32, height: u32, format: Option<FrameFormat>) -> StreamParams {
    StreamParams {
        codec_id: CODEC_ID_STR.to_string(),
        width: Some(width),
        height: Some(height),
        pixel_format: format,
    }
}

#[test]
fn declared_deep_pixel_format_selects_deep_encode() {
    let mut enc = IcerEncoder::new_from_params(params(8, 6, Some(FrameFormat::Gray12Le)));
    enc.set_options(EncodeOptions::compressed());

    let mut img = IcerImage::zeros(8, 6, IcerPixelFormat::GrayDeep { bits: 12 });
    for y in 0..6u32 {
        for x in 0..8u32 {
            img.set_sample(0, x, y, ((x * 511 + y * 173) % 4096) as u16);
        }
    }
    let frame = frame_of_image(img.clone());
    enc.send_frame(frame).expect("deep send_frame");
    let pkt = enc.receive_packet().expect("deep packet");
    let decoded = parse_icer(&pkt).expect("deep registry stream");
    assert_eq!(decoded.pixel_format, IcerPixelFormat::GrayDeep { bits: 12 });
    assert_eq!(decoded.planes, img.planes);
}

#[test]
fn formats_go_by_depth() {
    assert_eq!(frame_format(IcerPixelFormat::Gray8), FrameFormat::Gray8);
    assert_eq!(frame_format(IcerPixelFormat::Yuv444P), FrameFormat::Yuv444P);
    for bits in 9..=16u8 {
        let expect = match bits {
            10 => FrameFormat::Gray10Le,
            12 => FrameFormat::Gray12Le,
            _ => FrameFormat::Gray16Le,
        };
        assert_eq!(frame_format(IcerPixelFormat::GrayDeep { bits }), expect);
    }
}

#[test]
fn decoder_gives_each_frame_once() {
    let image = IcerImage::zeros(4, 4, IcerPixelFormat::Gray8);
    let mut enc = IcerEncoder::new_from_params(params(4, 4, None));
    enc.send_frame(frame_of_image(image.clone())).unwrap();
    assert_eq!(enc.seq_counter, 1);
    let packet = enc.receive_packet().unwrap();
    assert!(matches!(enc.receive_packet(), Err(IcerError::InvalidData(_))));
    enc.flush().unwrap();

    let mut dec = IcerDecoder::new(CODEC_ID_STR.to_string());
    assert_eq!(dec.codec_id(), "icer");
    assert!(matches!(dec.receive_frame(), Err(IcerError::InvalidData(_))));
    dec.send_packet(&packet).unwrap();
    assert_eq!(dec.send_packet(&packet[..3]), Err(IcerError::Truncated));
    assert_eq!(dec.receive_frame().unwrap(), image);
    assert!(dec.receive_frame().is_err());
    dec.send_packet(&packet).unwrap();
    dec.flush().unwrap();
    assert!(dec.receive_frame().is_err());
}

#[test]
fn frames_that_do_not_fit_are_refused() {
    let image = IcerImage::zeros(4, 4, IcerPixelFormat::Gray8);
    let mut unknown = IcerEncoder::new(CODEC_ID_STR.to_string());
    assert_eq!(unknown.codec_id(), "icer");
    assert!(matches!(
        unknown.send_frame(frame_of_image(image.clone())),
        Err(IcerError::InvalidData(_))
    ));

    let mut enc = IcerEncoder::new_from_params(params(4, 4, None));
    assert_eq!(enc.output_params().width, Some(4));
    assert!(matches!(
        enc.send_frame(Frame::Other),
        Err(IcerError::InvalidData(_))
    ));
    let planes = |n: usize| {
        Frame::Video(VideoFrame {
            pts: None,
            planes: vec![image.planes[0].clone(); n],
        })
    };
    assert!(matches!(enc.send_frame(planes(0)), Err(IcerError::InvalidData(_))));
    assert!(matches!(enc.send_frame(planes(2)), Err(IcerError::Unsupported(_))));
    assert_eq!(enc.seq_counter, 0);
    enc.send_frame(planes(3)).unwrap();
    let back = parse_icer(&enc.receive_packet().unwrap()).unwrap();
    assert_eq!(back.pixel_format, IcerPixelFormat::Yuv444P);
}
