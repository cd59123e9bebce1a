//! A decoder and an encoder that take and give one frame at a time.

use crate::decoder::{holds_pictures, image_decoded, parse_icer, DecodeLimits};
use crate::encoder::{encode_icer, image_encoded, image_ok, usual_options, EncodeOptions, Job, Limits};
use crate::error::{fails_with, Fault, IcerError, Result};
use crate::image::{IcerImage, IcerPixelFormat, IcerPlane};
use crate::roundtrip_image::{allows, images_read_back, pictures_match};
use crate::text::with_number;
use vstd::prelude::*;

verus! {

/// Pixel formats of the frames of a media pipeline, as far as they matter here.
#[derive(Debug, Clone, Copy, PartialEq, Eq, Structural)]
pub enum FrameFormat {
    /// 8-bit gray.
    Gray8,
    /// 8-bit colour without subsampling.
    Yuv444P,
    /// 10-bit gray in words of 16 bits, low byte first.
    Gray10Le,
    /// 12-bit gray in words of 16 bits, low byte first.
    Gray12Le,
    /// 16-bit gray, low byte first.
    Gray16Le,
    /// Any other format.
    Other,
}

/// The pixel format of the frames of an image: deep gray samples that no
/// format is made for come in that of 16 bits.
pub open spec fn carried_format(format: IcerPixelFormat) -> FrameFormat {
    match format {
        IcerPixelFormat::Gray8 => FrameFormat::Gray8,
        IcerPixelFormat::Yuv444P => FrameFormat::Yuv444P,
        IcerPixelFormat::GrayDeep { bits } => if bits == 10 {
            FrameFormat::Gray10Le
        } else if bits == 12 {
            FrameFormat::Gray12Le
        } else {
            FrameFormat::Gray16Le
        },
    }
}

/// The pixel format of the frames of an image.
pub fn frame_format(format: IcerPixelFormat) -> (f: FrameFormat)
    ensures
        f == carried_format(format),
{
    match format {
        IcerPixelFormat::Gray8 => FrameFormat::Gray8,
        IcerPixelFormat::Yuv444P => FrameFormat::Yuv444P,
        IcerPixelFormat::GrayDeep { bits } => {
            if bits == 10 {
                FrameFormat::Gray10Le
            } else if bits == 12 {
                FrameFormat::Gray12Le
            } else {
                FrameFormat::Gray16Le
            }
        },
    }
}

/// The format in which a frame is encoded: by the number of its planes, and
/// where there is one by what is declared of its samples.
pub open spec fn format_of_frame(planes: int, declared: Option<FrameFormat>) -> core::result::Result<
    IcerPixelFormat,
    Fault,
> {
    if planes <= 0 {
        Err(Fault::InvalidData)
    } else if planes == 1 {
        Ok(
            match declared {
                Some(FrameFormat::Gray10Le) => IcerPixelFormat::GrayDeep { bits: 10 },
                Some(FrameFormat::Gray12Le) => IcerPixelFormat::GrayDeep { bits: 12 },
                Some(FrameFormat::Gray16Le) => IcerPixelFormat::GrayDeep { bits: 16 },
                _ => IcerPixelFormat::Gray8,
            },
        )
    } else if planes == 3 {
        Ok(IcerPixelFormat::Yuv444P)
    } else {
        Err(Fault::Unsupported)
    }
}

fn choose_format(planes: usize, declared: Option<FrameFormat>) -> (r: Result<IcerPixelFormat>)
    ensures
        match format_of_frame(planes as int, declared) {
            Err(f) => fails_with(r, f),
            Ok(format) => r is Ok && r->Ok_0 == format,
        },
{
    if planes == 0 {
        return Err(IcerError::invalid("icer encoder: video frame has no planes"));
    }
    if planes == 1 {
        return Ok(
            match declared {
                Some(FrameFormat::Gray10Le) => IcerPixelFormat::GrayDeep { bits: 10 },
                Some(FrameFormat::Gray12Le) => IcerPixelFormat::GrayDeep { bits: 12 },
                Some(FrameFormat::Gray16Le) => IcerPixelFormat::GrayDeep { bits: 16 },
                _ => IcerPixelFormat::Gray8,
            },
        );
    }
    if planes == 3 {
        return Ok(IcerPixelFormat::Yuv444P);
    }
    Err(
        IcerError::unsupported(
            with_number(
                "icer encoder: ",
                planes as u64,
                "-plane frame (only 1 and 3 planes are supported)",
            ).as_str(),
        ),
    )
}

/// **A frame whose format is declared is encoded in the format that its image
/// has**, but for deep samples of depths that no format is made for.
pub proof fn declared_formats_agree(image: IcerImage)
    requires
        image.planes@.len() == image.pixel_format.planes(),
        image.pixel_format matches IcerPixelFormat::GrayDeep { bits } ==> bits == 10 || bits == 12
            || bits == 16,
    ensures
        format_of_frame(
            image.planes@.len() as int,
            Some(carried_format(image.pixel_format)),
        ) == Ok::<IcerPixelFormat, Fault>(image.pixel_format),
{
}

/// A frame of video.
#[derive(Debug, Clone)]
pub struct VideoFrame {
    /// When it is shown, where that is known.
    pub pts: Option<i64>,
    /// Its planes.
    pub planes: Vec<IcerPlane>,
}

/// A frame of a media pipeline.
#[derive(Debug, Clone)]
pub enum Frame {
    /// Video.
    Video(VideoFrame),
    /// Anything else.
    Other,
}

/// An image as a frame.
pub fn frame_of_image(image: IcerImage) -> (f: Frame)
    ensures
        f == Frame::Video(VideoFrame { pts: Some(image.pts), planes: image.planes }),
{
    Frame::Video(VideoFrame { pts: Some(image.pts), planes: image.planes })
}

// ---------------------------------------------------------------------------
// The decoder
// ---------------------------------------------------------------------------

/// A decoder that holds the frame of the last packet.
pub struct IcerDecoder {
    /// The codec under whose name the decoder was made.
    pub codec_id: String,
    /// The frame that was not taken yet.
    pub queued: Option<IcerImage>,
}

impl IcerDecoder {
    /// A decoder without a frame.
    pub fn new(codec_id: String) -> (d: Self)
        ensures
            d.codec_id == codec_id,
            d.queued is None,
    {
        IcerDecoder { codec_id, queued: None }
    }

    /// The codec under whose name the decoder was made.
    pub fn codec_id(&self) -> (id: &str)
        ensures
            id@ == self.codec_id@,
    {
        self.codec_id.as_str()
    }

    /// Decode a packet. Its frame takes the place of one that was not taken;
    /// a packet that cannot be decoded changes nothing.
    pub fn send_packet(&mut self, data: &[u8]) -> (r: Result<()>)
        ensures
            final(self).codec_id == old(self).codec_id,
            match image_decoded(data@, DecodeLimits::usual()) {
                Err(f) => fails_with(r, f) && final(self).queued == old(self).queued,
                Ok((format, pictures)) => r is Ok && final(self).queued is Some && holds_pictures(
                    final(self).queued->0,
                    format,
                    pictures,
                ),
            },
    {
        match parse_icer(data) {
            Ok(image) => {
                self.queued = Some(image);
                Ok(())
            },
            Err(e) => Err(e),
        }
    }

    /// Take the frame. There is one only where a packet was decoded since the
    /// last one was taken.
    pub fn receive_frame(&mut self) -> (r: Result<IcerImage>)
        ensures
            final(self).codec_id == old(self).codec_id,
            final(self).queued is None,
            match old(self).queued {
                Some(image) => r == Ok::<IcerImage, IcerError>(image),
                None => fails_with(r, Fault::InvalidData),
            },
    {
        match self.queued.take() {
            Some(image) => Ok(image),
            None => Err(IcerError::invalid("icer: no frame queued")),
        }
    }

    /// Drop the frame.
    pub fn flush(&mut self) -> (r: Result<()>)
        ensures
            r is Ok,
            final(self).codec_id == old(self).codec_id,
            final(self).queued is None,
    {
        self.queued = None;
        Ok(())
    }
}

// ---------------------------------------------------------------------------
// The encoder
// ---------------------------------------------------------------------------

/// What is known of the frames of a stream.
#[derive(Debug, Clone)]
pub struct StreamParams {
    /// The codec of the stream.
    pub codec_id: String,
    /// Width of the frames.
    pub width: Option<u32>,
    /// Height of the frames.
    pub height: Option<u32>,
    /// Pixel format of the frames.
    pub pixel_format: Option<FrameFormat>,
}

impl StreamParams {
    /// The image of a frame, or why it cannot be encoded.
    pub open spec fn image_of(self, frame: Frame) -> core::result::Result<IcerImage, Fault> {
        match (self.width, self.height, frame) {
            (Some(width), Some(height), Frame::Video(video)) => match format_of_frame(
                video.planes@.len() as int,
                self.pixel_format,
            ) {
                Err(f) => Err(f),
                Ok(pixel_format) => Ok(
                    IcerImage {
                        width,
                        height,
                        pixel_format,
                        planes: video.planes,
                        pts: match video.pts {
                            Some(t) => t,
                            None => 0,
                        },
                    },
                ),
            },
            _ => Err(Fault::InvalidData),
        }
    }

    fn make_image(&self, frame: Frame) -> (r: Result<IcerImage>)
        ensures
            match self.image_of(frame) {
                Err(f) => fails_with(r, f),
                Ok(image) => r == Ok::<IcerImage, IcerError>(image),
            },
    {
        let width: u32 = match self.width {
            Some(w) => w,
            None => return Err(IcerError::invalid("icer encoder: missing width in params")),
        };
        let height: u32 = match self.height {
            Some(h) => h,
            None => return Err(IcerError::invalid("icer encoder: missing height in params")),
        };
        match frame {
            Frame::Video(video) => {
                let pts: i64 = match video.pts {
                    Some(t) => t,
                    None => 0,
                };
                match choose_format(video.planes.len(), self.pixel_format) {
                    Ok(pixel_format) => Ok(
                        IcerImage { width, height, pixel_format, planes: video.planes, pts },
                    ),
                    Err(e) => Err(e),
                }
            },
            Frame::Other => Err(IcerError::invalid("icer encoder: expected a frame of video")),
        }
    }
}

/// An encoder that holds the packet of the last frame.
pub struct IcerEncoder {
    /// What is known of the frames.
    pub output_params: StreamParams,
    /// How frames are encoded.
    pub opts: EncodeOptions,
    /// The packet that was not taken yet.
    pub pending: Option<Vec<u8>>,
    /// Number of frames that were encoded.
    pub seq_counter: u64,
}

impl IcerEncoder {
    /// An encoder for frames of which nothing is known.
    pub fn new(codec_id: String) -> (e: Self)
        ensures
            e.output_params == (StreamParams {
                codec_id,
                width: None,
                height: None,
                pixel_format: None,
            }),
            usual_options(e.opts),
            e.opts.uncompressed,
            e.pending is None,
            e.seq_counter == 0,
    {
        IcerEncoder {
            output_params: StreamParams { codec_id, width: None, height: None, pixel_format: None },
            opts: EncodeOptions::default(),
            pending: None,
            seq_counter: 0,
        }
    }

    /// An encoder for frames that are described.
    pub fn new_from_params(params: StreamParams) -> (e: Self)
        ensures
            e.output_params == params,
            usual_options(e.opts),
            e.opts.uncompressed,
            e.pending is None,
            e.seq_counter == 0,
    {
        IcerEncoder {
            output_params: params,
            opts: EncodeOptions::default(),
            pending: None,
            seq_counter: 0,
        }
    }

    /// Encode frames so from now on.
    pub fn set_options(&mut self, opts: EncodeOptions)
        ensures
            final(self).opts == opts,
            final(self).output_params == old(self).output_params,
            final(self).pending == old(self).pending,
            final(self).seq_counter == old(self).seq_counter,
    {
        self.opts = opts;
    }

    /// The codec of the stream.
    pub fn codec_id(&self) -> (id: &str)
        ensures
            id@ == self.output_params.codec_id@,
    {
        self.output_params.codec_id.as_str()
    }

    /// What is known of the frames.
    pub fn output_params(&self) -> (p: &StreamParams)
        ensures
            *p == self.output_params,
    {
        &self.output_params
    }

    /// The packet of a frame, or why there is none.
    pub open spec fn packet_of(self, frame: Frame) -> core::result::Result<Seq<u8>, Fault> {
        match self.output_params.image_of(frame) {
            Err(f) => Err(f),
            Ok(image) => image_encoded(
                &self.opts,
                Job { filter: None, limits: Limits::Given },
                &image,
            ),
        }
    }

    /// Encode a frame. Its packet takes the place of one that was not taken; a
    /// frame that cannot be encoded changes nothing.
    pub fn send_frame(&mut self, frame: Frame) -> (r: Result<()>)
        requires
            old(self).output_params.image_of(frame) matches Ok(image) ==> image_ok(image),
        ensures
            final(self).output_params == old(self).output_params,
            final(self).opts == old(self).opts,
            match old(self).packet_of(frame) {
                Err(f) => {
                    &&& fails_with(r, f)
                    &&& final(self).pending == old(self).pending
                    &&& final(self).seq_counter == old(self).seq_counter
                },
                Ok(bytes) => {
                    &&& r is Ok
                    &&& final(self).pending is Some
                    &&& final(self).pending->0@ == bytes
                    &&& final(self).seq_counter == (if old(self).seq_counter == u64::MAX {
                        0
                    } else {
                        old(self).seq_counter + 1
                    })
                },
            },
    {
        let image = match self.output_params.make_image(frame) {
            Ok(image) => image,
            Err(e) => return Err(e),
        };
        match encode_icer(&image, &self.opts) {
            Ok(bytes) => {
                self.seq_counter = if self.seq_counter == u64::MAX {
                    0
                } else {
                    self.seq_counter + 1
                };
                self.pending = Some(bytes);
                Ok(())
            },
            Err(e) => Err(e),
        }
    }

    /// Take the packet. There is one only where a frame was encoded since the
    /// last one was taken.
    pub fn receive_packet(&mut self) -> (r: Result<Vec<u8>>)
        ensures
            final(self).output_params == old(self).output_params,
            final(self).opts == old(self).opts,
            final(self).seq_counter == old(self).seq_counter,
            final(self).pending is None,
            match old(self).pending {
                Some(bytes) => r == Ok::<Vec<u8>, IcerError>(bytes),
                None => fails_with(r, Fault::InvalidData),
            },
    {
        match self.pending.take() {
            Some(bytes) => Ok(bytes),
            None => Err(IcerError::invalid("icer encoder: no packet queued")),
        }
    }

    /// Finish the stream; nothing is held back.
    pub fn flush(&mut self) -> (r: Result<()>)
        ensures
            r is Ok,
            *final(self) == *old(self),
    {
        Ok(())
    }
}

/// **The packet of a frame decodes to an image of its format and size, and
/// without a loss to its planes.**
pub proof fn frames_read_back(encoder: IcerEncoder, frame: Frame, limits: DecodeLimits)
    requires
        encoder.output_params.image_of(frame) is Ok,
        image_ok(encoder.output_params.image_of(frame)->Ok_0),
        encoder.opts.sync_prefix != 0,
        allows(limits, encoder.opts, encoder.output_params.image_of(frame)->Ok_0),
        encoder.packet_of(frame) is Ok,
        encoder.packet_of(frame)->Ok_0.len() <= usize::MAX,
    ensures
        ({
            let image = encoder.output_params.image_of(frame)->Ok_0;
            let r = image_decoded(encoder.packet_of(frame)->Ok_0, limits);
            &&& r is Ok
            &&& r->Ok_0.0 == image.pixel_format
            &&& r->Ok_0.1.len() == image.pixel_format.planes()
            &&& pictures_match(encoder.opts, image, r->Ok_0.1)
        }),
{
    let image = encoder.output_params.image_of(frame)->Ok_0;
    images_read_back(&encoder.opts, &image, limits);
}

} // verus!
