//! Export formats, progress reports, and what receives the rendered frames.

use vstd::prelude::*;
use crate::text::{to_ascii_lowercase, str_eq, ascii_lowercase, chars_of, push_char, push_decimal, decimal_chars, decimal_value, lemma_decimal_roundtrip};
use crate::zipio::{lemma_plain_name_fits, MAX_FILE_BYTES, files_fit, file_names, archive_reads_back, ZipOut, zip_out_files, zip_archive, writes_of, zip_out_new, zip_out_start, zip_out_write, zip_out_finish, Compression};
use zip::result::ZipError;
use crate::paths::{plain_file_path, extension_in_name, last_part, is_plain_char, follows_a_dot, lemma_no_separator_start, lemma_last_dot_before};
use crate::assets::opt_view;

verus! {

/// The extension of a path, as `std::path::Path::extension` finds it: of
/// the last component, what follows its last `.` unless that `.` starts
/// it. Which component is last depends on the platform's path syntax; for
/// a portable path to a file it is what follows the last `/`. On every
/// platform the extension is text of the path that follows a `.`.
#[verifier::external_body]
pub(crate) fn path_extension(path: &str) -> (r: Option<String>)
    ensures
        !path@.contains('.') ==> r is None,
        r matches Some(e) ==> follows_a_dot(path@, e@),
        plain_file_path(path@) ==> opt_view(r) == extension_in_name(last_part(path@)),
{
    std::path::Path::new(path).extension().and_then(|e| e.to_str()).map(|e| e.to_string())
}

/// File formats of an export.
#[derive(Clone, Copy, Debug, PartialEq, Eq, Structural)]
pub enum ExportFormat {
    Mp4,
    WebM,
    Gif,
    PngSequence,
}

/// The format a file extension asks for (case does not matter); anything
/// unknown, or no extension, gives a PNG sequence.
pub open spec fn format_for_extension(ext: Option<Seq<char>>) -> ExportFormat {
    match ext {
        Some(e) => {
            let l = ascii_lowercase(e);
            if l == "mp4"@ || l == "mov"@ {
                ExportFormat::Mp4
            } else if l == "webm"@ {
                ExportFormat::WebM
            } else if l == "gif"@ {
                ExportFormat::Gif
            } else {
                ExportFormat::PngSequence
            }
        },
        None => ExportFormat::PngSequence,
    }
}

impl ExportFormat {
    /// Every variant, in menu order.
    pub const ALL: [ExportFormat; 4] = [
        ExportFormat::Mp4,
        ExportFormat::WebM,
        ExportFormat::Gif,
        ExportFormat::PngSequence,
    ];

    /// Name shown in menus.
    pub fn label(self) -> (s: &'static str)
        ensures
            s@ == (match self {
                ExportFormat::Mp4 => "MP4 video (H.264)"@,
                ExportFormat::WebM => "WebM video (VP9)"@,
                ExportFormat::Gif => "Animated GIF"@,
                ExportFormat::PngSequence => "PNG sequence (no ffmpeg needed)"@,
            }),
    {
        match self {
            ExportFormat::Mp4 => "MP4 video (H.264)",
            ExportFormat::WebM => "WebM video (VP9)",
            ExportFormat::Gif => "Animated GIF",
            ExportFormat::PngSequence => "PNG sequence (no ffmpeg needed)",
        }
    }

    /// File extension of the output (none for a PNG sequence, which is a
    /// folder).
    pub fn extension(self) -> (s: &'static str)
        ensures
            s@ == (match self {
                ExportFormat::Mp4 => "mp4"@,
                ExportFormat::WebM => "webm"@,
                ExportFormat::Gif => "gif"@,
                ExportFormat::PngSequence => ""@,
            }),
    {
        match self {
            ExportFormat::Mp4 => "mp4",
            ExportFormat::WebM => "webm",
            ExportFormat::Gif => "gif",
            ExportFormat::PngSequence => "",
        }
    }

    /// Every format but the PNG sequence is encoded by ffmpeg.
    pub fn needs_ffmpeg(self) -> (b: bool)
        ensures
            b == (self != ExportFormat::PngSequence),
    {
        match self {
            ExportFormat::PngSequence => false,
            _ => true,
        }
    }

    /// The format a file extension asks for.
    pub fn from_extension(ext: Option<&str>) -> (f: ExportFormat)
        ensures
            f == format_for_extension(
                match ext {
                    Some(e) => Some(e@),
                    None => None,
                },
            ),
    {
        match ext {
            Some(e) => {
                let l = to_ascii_lowercase(e);
                let l = l.as_str();
                if str_eq(l, "mp4") || str_eq(l, "mov") {
                    ExportFormat::Mp4
                } else if str_eq(l, "webm") {
                    ExportFormat::WebM
                } else if str_eq(l, "gif") {
                    ExportFormat::Gif
                } else {
                    ExportFormat::PngSequence
                }
            },
            None => ExportFormat::PngSequence,
        }
    }

    /// Guess the format from a file name, by its extension (what counts as
    /// the extension follows the platform's path syntax: for a portable path
    /// to a file it is what follows the last `.` of the file name, unless
    /// that `.` starts the name). A path in which no `.` is followed by
    /// `mp4`, `mov`, `webm` or `gif` (in any case) is a frame folder.
    pub fn from_path(path: &str) -> (f: ExportFormat)
        ensures
            plain_file_path(path@) ==> f == format_for_extension(extension_in_name(last_part(path@))),
            f != ExportFormat::PngSequence ==> exists|e: Seq<char>|
                #[trigger] follows_a_dot(path@, e) && f == format_for_extension(Some(e)),
            !path@.contains('.') ==> f == ExportFormat::PngSequence,
    {
        let ext = path_extension(path);
        match &ext {
            Some(e) => ExportFormat::from_extension(Some(e.as_str())),
            None => ExportFormat::from_extension(None),
        }
    }
}

/// The extension of every format that ffmpeg encodes leads back to that
/// format, whatever its case.
pub proof fn law_extension_round_trip(f: ExportFormat, e: Seq<char>)
    requires
        f != ExportFormat::PngSequence,
        ascii_lowercase(e) == (match f {
            ExportFormat::Mp4 => "mp4"@,
            ExportFormat::WebM => "webm"@,
            ExportFormat::Gif => "gif"@,
            ExportFormat::PngSequence => ""@,
        }),
    ensures
        format_for_extension(Some(e)) == f,
{
    reveal_strlit("mp4");
    reveal_strlit("mov");
    reveal_strlit("webm");
    reveal_strlit("gif");
    let l = ascii_lowercase(e);
    match f {
        ExportFormat::Mp4 => {},
        ExportFormat::WebM => {
            assert(l != "mp4"@ && l != "mov"@) by {
                assert(l[0] == 'w');
            }
        },
        ExportFormat::Gif => {
            assert(l != "mp4"@ && l != "mov"@ && l != "webm"@) by {
                assert(l[0] == 'g');
            }
        },
        ExportFormat::PngSequence => {},
    }
}

/// How far an export has come.
#[derive(Clone, Copy, Debug, PartialEq, Eq, Structural)]
pub struct Progress {
    pub frame: u32,
    pub total: u32,
}

/// A step of an export job: still running, or the encoded file.
pub enum JobState {
    Running(Progress),
    Done(Vec<u8>),
}


/// Lets `image::ImageError` stand in signatures.
#[verifier::external_type_specification]
#[verifier::external_body]
pub struct ExImageError(image::ImageError);

/// Why a frame could not be taken or the file finished.
pub enum SinkError {
    /// Encoding an image failed.
    Image(image::ImageError),
    /// Writing the zip failed.
    Zip(ZipError),
    /// Writing bytes failed.
    Io(std::io::Error),
    /// Anything else, as a message.
    Other(String),
}

/// Receives rendered frames (tightly packed sRGB RGBA8) and encodes them
/// into one file.
pub trait FrameSink {
    fn add_frame(&mut self, rgba: &[u8], width: u32, height: u32) -> (r: Result<(), SinkError>)
        requires
            rgba@.len() == 4 * width * height,
    ;

    /// Finish and return the encoded file.
    fn finish(self: Box<Self>) -> (r: Result<Vec<u8>, SinkError>);

    /// Suggested file extension.
    fn extension(&self) -> (s: &'static str);
}

/// The PNG file of a `width` x `height` frame of tightly packed RGBA8
/// pixels, as `image::codecs::png::PngEncoder` writes it with its default
/// settings.
pub uninterp spec fn png_rgba8(rgba: Seq<u8>, width: u32, height: u32) -> Seq<u8>;

/// A PNG image of a tightly packed RGBA8 frame
/// (`image::codecs::png::PngEncoder::write_image`, which panics on a
/// buffer of the wrong length). The same pixels give the same bytes: the
/// encoder and its compressor are deterministic. It refuses an empty
/// width or height, and otherwise succeeds: it writes into memory.
#[verifier::external_body]
fn png_encode(rgba: &[u8], width: u32, height: u32) -> (r: Result<Vec<u8>, image::ImageError>)
    requires
        rgba@.len() == 4 * width * height,
    ensures
        r is Ok <==> (width > 0 && height > 0),
        r matches Ok(b) ==> b@ == png_rgba8(rgba@, width, height),
{
    let mut png = Vec::new();
    image::ImageEncoder::write_image(
        image::codecs::png::PngEncoder::new(&mut png),
        rgba,
        width,
        height,
        image::ExtendedColorType::Rgba8,
    )?;
    Ok(png)
}

/// `d` with zeros in front, to at least `width` characters.
pub open spec fn zero_padded(d: Seq<char>, width: nat) -> Seq<char> {
    if d.len() >= width {
        d
    } else {
        Seq::new((width - d.len()) as nat, |i: int| '0') + d
    }
}

/// Name of frame `i` in a PNG zip: `frame_00007.png`.
pub open spec fn frame_name_of(i: nat) -> Seq<char> {
    seq!['f', 'r', 'a', 'm', 'e', '_'] + zero_padded(decimal_chars(i), 5) + seq!['.', 'p', 'n', 'g']
}

proof fn lemma_zeros_value(z: Seq<char>, d: Seq<char>)
    requires
        forall|i: int| 0 <= i < z.len() ==> z[i] == '0',
    ensures
        decimal_value(z + d) == decimal_value(d),
    decreases d.len(), z.len(),
{
    if d.len() == 0 {
        if z.len() > 0 {
            assert((z + d).drop_last() =~= z.drop_last() + d);
            lemma_zeros_value(z.drop_last(), d);
        } else {
            assert(z + d =~= d);
        }
    } else {
        assert((z + d).drop_last() =~= z + d.drop_last());
        lemma_zeros_value(z, d.drop_last());
    }
}

/// A file named `<stem>.<ext>`, for the extension of a format that ffmpeg
/// encodes in any case, asks for that format: its path is portable and its
/// extension is `ext`.
pub proof fn law_from_path_extension(f: ExportFormat, stem: Seq<char>, e: Seq<char>)
    requires
        f != ExportFormat::PngSequence,
        ascii_lowercase(e) == (match f {
            ExportFormat::Mp4 => "mp4"@,
            ExportFormat::WebM => "webm"@,
            ExportFormat::Gif => "gif"@,
            ExportFormat::PngSequence => ""@,
        }),
        stem.len() > 0,
        forall|k: int| 0 <= k < stem.len() ==> is_plain_char(#[trigger] stem[k]) && stem[k] != '.',
        forall|k: int| 0 <= k < e.len() ==> is_plain_char(#[trigger] e[k]) && e[k] != '.',
    ensures
        plain_file_path(stem + seq!['.'] + e),
        format_for_extension(extension_in_name(last_part(stem + seq!['.'] + e))) == f,
{
    let p = stem + seq!['.'] + e;
    assert forall|k: int| 0 <= k < p.len() implies is_plain_char(#[trigger] p[k]) by {
        if k < stem.len() {
            assert(p[k] == stem[k]);
        } else if k > stem.len() {
            assert(p[k] == e[k - stem.len() - 1]);
        }
    }
    assert(!p.contains('/') && !p.contains('\\') && !p.contains(':')) by {
        if p.contains('/') {
            let k = choose|k: int| 0 <= k < p.len() && p[k] == '/';
            assert(is_plain_char(p[k]));
        }
        if p.contains('\\') {
            let k = choose|k: int| 0 <= k < p.len() && p[k] == '\\';
            assert(is_plain_char(p[k]));
        }
        if p.contains(':') {
            let k = choose|k: int| 0 <= k < p.len() && p[k] == ':';
            assert(is_plain_char(p[k]));
        }
    }
    assert(!e.contains('.')) by {
        if e.contains('.') {
            let k = choose|k: int| 0 <= k < e.len() && e[k] == '.';
            assert(e[k] != '.');
        }
    }
    lemma_no_separator_start(p);
    lemma_last_dot_before(stem, e);
    assert(p[stem.len() as int] == '.');
    assert(p[0] == stem[0]);
    assert(p != seq!['.']);
    assert(p != seq!['.', '.']) by {
        if p.len() == 2 {
            assert(p[0] == stem[0]);
        }
    }
    assert(p.subrange(stem.len() + 1 as int, p.len() as int) =~= e);
    law_extension_round_trip(f, e);
}

/// Ten to the power `k`.
spec fn pow10(k: nat) -> nat
    decreases k,
{
    if k == 0 {
        1
    } else {
        10 * pow10((k - 1) as nat)
    }
}

/// A number below `10^k` has at most `k` digits.
proof fn lemma_decimal_len(n: nat, k: nat)
    requires
        k >= 1,
        n < pow10(k),
    ensures
        decimal_chars(n).len() <= k,
    decreases k,
{
    if n >= 10 {
        if k == 1 {
            assert(pow10(1) == 10) by {
                assert(pow10(0) == 1);
            }
        } else {
            lemma_decimal_len(n / 10, (k - 1) as nat);
        }
    }
}

/// The digits of a number are plain characters.
proof fn lemma_decimal_plain(n: nat)
    ensures
        forall|k: int| 0 <= k < decimal_chars(n).len() ==> is_plain_char(#[trigger] decimal_chars(n)[k]),
    decreases n,
{
    if n >= 10 {
        lemma_decimal_plain(n / 10);
        let d = decimal_chars(n / 10);
        assert forall|k: int| 0 <= k < decimal_chars(n).len() implies is_plain_char(#[trigger] decimal_chars(n)[k]) by {
            if k < d.len() {
                assert(decimal_chars(n)[k] == d[k]);
            }
        }
    }
}

/// A frame name is at most twenty plain characters.
proof fn lemma_frame_name_plain(i: nat)
    requires
        i < 0x1_0000_0000,
    ensures
        frame_name_of(i).len() <= 20,
        forall|k: int| 0 <= k < frame_name_of(i).len() ==> is_plain_char(#[trigger] frame_name_of(i)[k]),
{
    assert(pow10(10) == 10000000000) by {
        reveal_with_fuel(pow10, 11);
    }
    lemma_decimal_len(i, 10);
    lemma_decimal_plain(i);
    let d = decimal_chars(i);
    let p = zero_padded(d, 5);
    assert forall|k: int| 0 <= k < p.len() implies is_plain_char(#[trigger] p[k]) by {
        if d.len() < 5 && k < 5 - d.len() {
        } else if d.len() < 5 {
            assert(p[k] == d[k - (5 - d.len())]);
        }
    }
    let name = frame_name_of(i);
    let head = seq!['f', 'r', 'a', 'm', 'e', '_'];
    let tail = seq!['.', 'p', 'n', 'g'];
    assert forall|k: int| 0 <= k < name.len() implies is_plain_char(#[trigger] name[k]) by {
        if k < 6 {
            assert(name[k] == head[k]);
            if k == 0 {} else if k == 1 {} else if k == 2 {} else if k == 3 {} else if k == 4 {} else {}
        } else if k < 6 + p.len() {
            assert(name[k] == p[k - 6]);
        } else {
            assert(name[k] == tail[k - 6 - p.len()]);
            if k - 6 - p.len() == 0 {} else if k - 6 - p.len() == 1 {} else if k - 6 - p.len() == 2 {} else {}
        }
    }
}

/// Different frames get different names.
pub proof fn law_frame_names_distinct(a: nat, b: nat)
    requires
        a != b,
    ensures
        frame_name_of(a) != frame_name_of(b),
{
    lemma_decimal_roundtrip(a);
    lemma_decimal_roundtrip(b);
    let pa = zero_padded(decimal_chars(a), 5);
    let pb = zero_padded(decimal_chars(b), 5);
    if frame_name_of(a) == frame_name_of(b) {
        let na = frame_name_of(a);
        let nb = frame_name_of(b);
        assert(na.len() == 6 + pa.len() + 4);
        assert(nb.len() == 6 + pb.len() + 4);
        assert(na.subrange(6, 6 + pa.len() as int) =~= pa);
        assert(nb.subrange(6, 6 + pb.len() as int) =~= pb);
        assert(pa == pb);
        let da = decimal_chars(a);
        let db = decimal_chars(b);
        if da.len() < 5 {
            lemma_zeros_value(Seq::new((5 - da.len()) as nat, |i: int| '0'), da);
        }
        if db.len() < 5 {
            lemma_zeros_value(Seq::new((5 - db.len()) as nat, |i: int| '0'), db);
        }
        assert(decimal_value(pa) == decimal_value(pb));
    }
}

/// The name of frame `index` in a PNG zip.
pub fn frame_name(index: u32) -> (s: String)
    ensures
        s@ == frame_name_of(index as nat),
{
    let mut digits: String = String::new();
    push_decimal(&mut digits, index as u128);
    let ds: Vec<char> = chars_of(digits.as_str());
    let mut s: String = String::new();
    push_char(&mut s, 'f');
    push_char(&mut s, 'r');
    push_char(&mut s, 'a');
    push_char(&mut s, 'm');
    push_char(&mut s, 'e');
    push_char(&mut s, '_');
    let ghost head = s@;
    let mut k: usize = ds.len();
    while k < 5
        invariant
            ds@ == decimal_chars(index as nat),
            ds@.len() <= k <= 5 || (k == ds@.len() && k >= 5),
            s@ == head + Seq::new((k - ds@.len()) as nat, |i: int| '0'),
        decreases 5 - k,
    {
        push_char(&mut s, '0');
        k += 1;
        assert(s@ =~= head + Seq::new((k - ds@.len()) as nat, |i: int| '0'));
    }
    let ghost zs = s@;
    let mut i: usize = 0;
    while i < ds.len()
        invariant
            i <= ds@.len(),
            s@ == zs + ds@.take(i as int),
        decreases ds@.len() - i,
    {
        push_char(&mut s, ds[i]);
        i += 1;
        assert(s@ =~= zs + ds@.take(i as int));
    }
    push_char(&mut s, '.');
    push_char(&mut s, 'p');
    push_char(&mut s, 'n');
    push_char(&mut s, 'g');
    proof {
        assert(ds@.take(ds@.len() as int) =~= ds@);
        lemma_decimal_roundtrip(index as nat);
        if ds@.len() >= 5 {
            assert(Seq::new(0nat, |i: int| '0') =~= Seq::<char>::empty());
        }
        assert(s@ =~= frame_name_of(index as nat));
    }
    s
}

/// A zip of numbered PNG frames.
pub struct PngZipSink {
    zip: ZipOut,
    index: u32,
}

impl PngZipSink {
    /// The files in the zip so far (see [`zip_out_files`]).
    pub closed spec fn written(self) -> Seq<(Seq<char>, bool, Seq<Seq<u8>>)> {
        zip_out_files(self.zip)
    }

    /// Number of the next frame.
    pub closed spec fn next_frame(self) -> u32 {
        self.index
    }

    /// An empty zip, starting at frame 0.
    pub fn new() -> (s: PngZipSink)
        ensures
            s.written() == Seq::<(Seq<char>, bool, Seq<Seq<u8>>)>::empty(),
            s.next_frame() == 0,
    {
        PngZipSink { zip: zip_out_new(), index: 0 }
    }
}

impl Default for PngZipSink {
    fn default() -> (s: PngZipSink)
        ensures
            s.written() == Seq::<(Seq<char>, bool, Seq<Seq<u8>>)>::empty(),
            s.next_frame() == 0,
    {
        PngZipSink::new()
    }
}

impl FrameSink for PngZipSink {
    /// Encode the frame as PNG and store it (PNGs are already compressed)
    /// as `frame_<number>.png`. A failure comes from the encoder (an empty
    /// frame) or the zip writer, and leaves the frame number as it was. A
    /// frame with pixels is stored when its name is new and the files fit.
    fn add_frame(&mut self, rgba: &[u8], width: u32, height: u32) -> (r: Result<(), SinkError>)
        ensures
            r is Ok ==> {
                &&& final(self).next_frame() == (old(self).next_frame() as int + 1) % 0x1_0000_0000
                &&& final(self).written() == old(self).written().push(
                    (frame_name_of(old(self).next_frame() as nat), true, writes_of(png_rgba8(rgba@, width, height))),
                )
            },
            r is Err ==> final(self).next_frame() == old(self).next_frame(),
            r matches Err(e) ==> e is Image || e is Zip || e is Io,
            r matches Err(SinkError::Image(_)) ==> final(self).written() == old(self).written(),
            (r matches Err(SinkError::Image(_))) <==> (width == 0 || height == 0),
            width > 0 && height > 0
                && !file_names(old(self).written()).contains(frame_name_of(old(self).next_frame() as nat))
                && files_fit(old(self).written())
                && png_rgba8(rgba@, width, height).len() <= MAX_FILE_BYTES ==> r is Ok,
    {
        let png = match png_encode(rgba, width, height) {
            Ok(p) => p,
            Err(e) => return Err(SinkError::Image(e)),
        };
        let name = frame_name(self.index);
        proof {
            lemma_frame_name_plain(self.index as nat);
            lemma_plain_name_fits(name@);
        }
        match zip_out_start(&mut self.zip, name.as_str(), Compression::Stored) {
            Ok(()) => {},
            Err(e) => return Err(SinkError::Zip(e)),
        }
        assert(Seq::<Seq<u8>>::empty().flatten() =~= Seq::<u8>::empty());
        match zip_out_write(&mut self.zip, png.as_slice()) {
            Ok(()) => {},
            Err(e) => return Err(SinkError::Io(e)),
        }
        proof {
            let now = zip_out_files(self.zip);
            assert(now =~= old(self).written().push(
                (frame_name_of(old(self).next_frame() as nat), true, writes_of(png@)),
            ));
        }
        self.index = self.index.wrapping_add(1);
        Ok(())
    }

    /// The bytes of the zip of the frames written; a failure comes from the
    /// zip writer, and none comes when the files fit. Read back, the zip
    /// lists the frames in order, each holding its PNG.
    fn finish(self: Box<Self>) -> (r: Result<Vec<u8>, SinkError>)
        ensures
            r matches Ok(b) ==> b@ == zip_archive(self.written()),
            r matches Ok(b) ==> archive_reads_back(b@, self.written()),
            files_fit(self.written()) ==> r is Ok,
            r matches Err(e) ==> e is Zip,
    {
        let s = *self;
        match zip_out_finish(s.zip) {
            Ok(bytes) => Ok(bytes),
            Err(e) => Err(SinkError::Zip(e)),
        }
    }

    fn extension(&self) -> (s: &'static str)
        ensures
            s@ == "zip"@,
    {
        "zip"
    }
}


/// A side of the render target: at least 16 pixels, and even (video
/// encoders want even sizes).
pub open spec fn target_side(side: u32) -> u32 {
    let s = if side < 16 { 16 } else { side };
    (s - s % 2) as u32
}

/// How many times the loop is repeated in the file: once for a PNG
/// sequence or a song that does not loop, else the setting (0 counts as
/// 1).
pub fn export_repeats(format: ExportFormat, looped: bool, repeats: u32) -> (n: u32)
    ensures
        n == (if format == ExportFormat::PngSequence || !looped {
            1
        } else if repeats == 0 {
            1
        } else {
            repeats
        }),
{
    if format == ExportFormat::PngSequence || !looped {
        1
    } else if repeats == 0 {
        1
    } else {
        repeats
    }
}

/// The most memory the frames of one loop may take to be kept for the
/// repeats: 2 GiB.
pub const LOOP_CACHE_BYTES: u64 = 0x8000_0000;

/// Whether the RGBA frames of one loop are kept in memory and sent again
/// for each repeat (output frame `i` is then loop frame `i % frames`)
/// rather than rendered again: when the loop repeats and its frames take
/// at most [`LOOP_CACHE_BYTES`]. A frame's size is counted in 32 bits.
pub fn caches_loop(width: u32, height: u32, frames: u32, repeats: u32) -> (b: bool)
    requires
        width * height * 4 <= u32::MAX,
    ensures
        b == (repeats > 1 && width * height * 4 * frames <= LOOP_CACHE_BYTES),
{
    assert(width * height <= u32::MAX) by (nonlinear_arith)
        requires
            width * height * 4 <= u32::MAX,
            width * height >= 0,
    ;
    let frame_bytes: u64 = (width * height * 4) as u64;
    assert(frame_bytes * frames <= u64::MAX) by (nonlinear_arith)
        requires
            frame_bytes <= u32::MAX,
            frames <= u32::MAX,
    ;
    repeats > 1 && frame_bytes * (frames as u64) <= LOOP_CACHE_BYTES
}

/// The render target's size for an export of `width` x `height` pixels.
pub fn target_size(width: u32, height: u32) -> (r: (u32, u32))
    ensures
        r == (target_side(width), target_side(height)),
{
    let w: u32 = if width < 16 { 16 } else { width };
    let h: u32 = if height < 16 { 16 } else { height };
    assert(w & !1u32 == w - w % 2) by (bit_vector);
    assert(h & !1u32 == h - h % 2) by (bit_vector);
    (w & !1u32, h & !1u32)
}

/// Frames an export keeps in flight on the GPU at most.
pub const IN_FLIGHT: usize = 3;

/// What an export does next.
#[derive(Clone, Copy, Debug, PartialEq, Eq, Structural)]
pub enum ExportStep {
    /// Render loop frame `index` for the feedback history only (not kept).
    Warmup { index: u32 },
    /// Render sub-frame `sub` of output frame `frame` and read it back.
    Render { frame: u32, sub: u32 },
    /// Wait for frames in flight.
    Idle,
}

/// The bookkeeping of a frame-by-frame export: which frame to render
/// next, how many sub-frames make a frame (motion blur), the feedback
/// warm-up still to render, and how many frames the sink got.
///
/// Frame `i` of `frames` sits at loop phase `i / frames`: the last frame is
/// not a copy of the first, so the file loops without a seam.
pub struct ExportSchedule {
    frames: u32,
    total: u32,
    next: u32,
    sub: u32,
    subframes: u32,
    warmup: u32,
    read: u64,
    gathered: u32,
    done: u32,
}

impl ExportSchedule {
    #[verifier::type_invariant]
    spec fn wf(self) -> bool {
        &&& self.subframes >= 1
        &&& self.next <= self.total
        &&& self.sub < self.subframes
        &&& self.next == self.total ==> self.sub == 0
        &&& self.warmup <= self.frames
        &&& self.gathered < self.subframes
        &&& self.read == self.done as int * self.subframes as int + self.gathered as int
        &&& self.read <= self.next as int * self.subframes as int + self.sub as int
    }

    /// Frames of one loop (or of the song).
    pub closed spec fn spec_frames(self) -> u32 {
        self.frames
    }

    /// Frames in the file.
    pub closed spec fn spec_total(self) -> u32 {
        self.total
    }

    /// The output frame rendered next.
    pub closed spec fn spec_next(self) -> u32 {
        self.next
    }

    /// The sub-frame of it rendered next.
    pub closed spec fn spec_sub(self) -> u32 {
        self.sub
    }

    /// Sub-frames per output frame.
    pub closed spec fn spec_subframes(self) -> u32 {
        self.subframes
    }

    /// Warm-up frames still to render.
    pub closed spec fn spec_warmup(self) -> u32 {
        self.warmup
    }

    /// Sub-frames read back so far.
    pub closed spec fn spec_read(self) -> int {
        self.read as int
    }

    /// Frames handed to the sink.
    pub closed spec fn spec_done(self) -> u32 {
        self.done
    }

    /// Sub-frames rendered and not yet read back.
    pub open spec fn in_flight(self) -> int {
        self.spec_next() as int * self.spec_subframes() as int + self.spec_sub() as int - self.spec_read()
    }

    /// An export of `frames` frames per loop (or of the whole song when
    /// `looped` is false), repeated `repeats` times when it loops. A loop
    /// with feedback trails first renders one loop of warm-up.
    pub fn new(frames: u32, looped: bool, repeats: u32, uses_feedback: bool) -> (s: ExportSchedule)
        requires
            looped ==> frames as int * (if repeats == 0 { 1 } else { repeats as int }) <= u32::MAX,
        ensures
            s.spec_frames() == frames,
            s.spec_total() == (if looped { frames as int * (if repeats == 0 { 1 } else { repeats as int }) } else { frames as int }),
            s.spec_warmup() == (if looped && uses_feedback { frames } else { 0 }),
            s.spec_next() == 0,
            s.spec_sub() == 0,
            s.spec_subframes() == 1,
            s.spec_read() == 0,
            s.spec_done() == 0,
    {
        let r: u32 = if looped {
            if repeats == 0 { 1 } else { repeats }
        } else {
            1
        };
        assert(frames as int * r as int <= u32::MAX);
        let total: u32 = frames * r;
        ExportSchedule {
            frames,
            total,
            next: 0,
            sub: 0,
            subframes: 1,
            warmup: if looped && uses_feedback { frames } else { 0 },
            read: 0,
            gathered: 0,
            done: 0,
        }
    }

    /// Average `subframes` sub-frames per output frame (motion blur; 0
    /// counts as 1). The schedule starts over.
    pub fn with_motion_blur(self, subframes: u32) -> (s: ExportSchedule)
        ensures
            s.spec_subframes() == (if subframes == 0 { 1 } else { subframes }),
            s.spec_frames() == self.spec_frames(),
            s.spec_total() == self.spec_total(),
            s.spec_warmup() == self.spec_warmup(),
            s.spec_next() == 0,
            s.spec_sub() == 0,
            s.spec_read() == 0,
            s.spec_done() == 0,
    {
        proof {
            use_type_invariant(&self);
        }
        let n: u32 = if subframes == 0 { 1 } else { subframes };
        assert(0 * n == 0);
        ExportSchedule {
            frames: self.frames,
            total: self.total,
            next: 0,
            sub: 0,
            subframes: n,
            warmup: self.warmup,
            read: 0,
            gathered: 0,
            done: 0,
        }
    }

    /// What to render next, with `in_flight` sub-frames still on their way
    /// back: the warm-up loop first, then each output frame's sub-frames in
    /// order, at most [`IN_FLIGHT`] at a time.
    pub fn next_step(&mut self, in_flight: usize) -> (step: ExportStep)
        ensures
            final(self).spec_frames() == old(self).spec_frames(),
            final(self).spec_total() == old(self).spec_total(),
            final(self).spec_subframes() == old(self).spec_subframes(),
            final(self).spec_read() == old(self).spec_read(),
            final(self).spec_done() == old(self).spec_done(),
            old(self).spec_warmup() > 0 ==> {
                &&& step == ExportStep::Warmup { index: (old(self).spec_frames() - old(self).spec_warmup()) as u32 }
                &&& final(self).spec_warmup() == old(self).spec_warmup() - 1
                &&& final(self).spec_next() == old(self).spec_next()
                &&& final(self).spec_sub() == old(self).spec_sub()
            },
            old(self).spec_warmup() == 0 && old(self).spec_next() < old(self).spec_total() && in_flight < IN_FLIGHT ==> {
                &&& step == ExportStep::Render { frame: old(self).spec_next(), sub: old(self).spec_sub() }
                &&& final(self).spec_warmup() == 0
                &&& if old(self).spec_sub() + 1 < old(self).spec_subframes() {
                    final(self).spec_next() == old(self).spec_next() && final(self).spec_sub() == old(self).spec_sub() + 1
                } else {
                    final(self).spec_next() == old(self).spec_next() + 1 && final(self).spec_sub() == 0
                }
            },
            old(self).spec_warmup() == 0 && !(old(self).spec_next() < old(self).spec_total() && in_flight < IN_FLIGHT) ==> {
                &&& step == ExportStep::Idle
                &&& final(self).spec_warmup() == 0
                &&& final(self).spec_next() == old(self).spec_next()
                &&& final(self).spec_sub() == old(self).spec_sub()
            },
    {
        proof {
            use_type_invariant(&*self);
        }
        if self.warmup > 0 {
            let index = self.frames - self.warmup;
            *self = ExportSchedule { warmup: self.warmup - 1, ..*self };
            return ExportStep::Warmup { index };
        }
        if self.next < self.total && in_flight < IN_FLIGHT {
            let step = ExportStep::Render { frame: self.next, sub: self.sub };
            let n0 = self.next;
            let s0 = self.sub;
            let k = self.subframes;
            let (n1, s1) = if s0 + 1 < k { (n0, s0 + 1) } else { (n0 + 1, 0) };
            proof {
                assert(n1 as int * k as int + s1 as int == n0 as int * k as int + s0 as int + 1) by (nonlinear_arith)
                    requires
                        (n1 == n0 && s1 == s0 + 1) || (n1 == n0 + 1 && s1 == 0 && s0 + 1 == k),
                ;
            }
            *self = ExportSchedule { next: n1, sub: s1, ..*self };
            return step;
        }
        ExportStep::Idle
    }

    /// A sub-frame came back from the GPU. True when it completes an output
    /// frame (all its sub-frames are in): that frame goes to the sink.
    pub fn sub_frame_read(&mut self) -> (whole: bool)
        requires
            old(self).in_flight() > 0,
        ensures
            final(self).spec_read() == old(self).spec_read() + 1,
            whole == (final(self).spec_read() % (old(self).spec_subframes() as int) == 0),
            whole ==> final(self).spec_done() == old(self).spec_done() + 1,
            !whole ==> final(self).spec_done() == old(self).spec_done(),
            final(self).spec_frames() == old(self).spec_frames(),
            final(self).spec_total() == old(self).spec_total(),
            final(self).spec_subframes() == old(self).spec_subframes(),
            final(self).spec_next() == old(self).spec_next(),
            final(self).spec_sub() == old(self).spec_sub(),
            final(self).spec_warmup() == old(self).spec_warmup(),
            final(self).spec_done() <= final(self).spec_total(),
    {
        proof {
            use_type_invariant(&*self);
            assert(self.next as int * self.subframes as int + self.sub as int <= self.total as int * self.subframes as int) by (nonlinear_arith)
                requires
                    self.next <= self.total,
                    self.sub < self.subframes,
                    self.next == self.total ==> self.sub == 0,
            ;
            assert(self.read < 0xffff_ffff_0000_0000) by (nonlinear_arith)
                requires
                    self.read < self.total as int * self.subframes as int,
                    self.total <= 0xffff_ffff,
                    self.subframes <= 0xffff_ffff,
            ;
        }
        let read = self.read + 1;
        proof {
            assert(self.done as int * self.subframes as int <= self.total as int * self.subframes as int) by (nonlinear_arith)
                requires
                    self.done as int * self.subframes as int <= self.read,
                    self.read < self.total as int * self.subframes as int,
            ;
            assert(self.done <= self.total) by (nonlinear_arith)
                requires
                    self.done as int * self.subframes as int <= self.total as int * self.subframes as int,
                    self.subframes >= 1,
            ;
        }
        if self.gathered + 1 < self.subframes {
            let gathered = self.gathered + 1;
            proof {
                assert(read as int % self.subframes as int == gathered as int) by (nonlinear_arith)
                    requires
                        read == self.done as int * self.subframes as int + gathered as int,
                        0 < gathered < self.subframes,
                ;
            }
            *self = ExportSchedule { read, gathered, ..*self };
            false
        } else {
            proof {
                assert((self.done as int + 1) * self.subframes as int <= self.total as int * self.subframes as int) by (nonlinear_arith)
                    requires
                        read == self.done as int * self.subframes as int + self.gathered as int + 1,
                        self.gathered + 1 == self.subframes,
                        read <= self.total as int * self.subframes as int,
                ;
                assert(self.done as int + 1 <= self.total) by (nonlinear_arith)
                    requires
                        (self.done as int + 1) * self.subframes as int <= self.total as int * self.subframes as int,
                        self.subframes >= 1,
                ;
                assert(read == (self.done as int + 1) * self.subframes as int) by (nonlinear_arith)
                    requires
                        read == self.done as int * self.subframes as int + self.gathered as int + 1,
                        self.gathered + 1 == self.subframes,
                ;
                assert(read as int % self.subframes as int == 0) by (nonlinear_arith)
                    requires
                        read == (self.done as int + 1) * self.subframes as int,
                        self.subframes >= 1,
                ;
            }
            *self = ExportSchedule { read, gathered: 0, done: self.done + 1, ..*self };
            true
        }
    }

    /// How far the export has come: frames handed to the sink.
    pub fn progress(&self) -> (p: Progress)
        ensures
            p == (Progress { frame: self.spec_done(), total: self.spec_total() }),
    {
        Progress { frame: self.done, total: self.total }
    }

    /// True once every frame of the file went to the sink: the sink can be
    /// finished.
    pub fn is_done(&self) -> (b: bool)
        ensures
            b == (self.spec_done() == self.spec_total()),
            self.spec_done() <= self.spec_total(),
    {
        proof {
            use_type_invariant(self);
            assert(self.done as int * self.subframes as int <= self.total as int * self.subframes as int) by (nonlinear_arith)
                requires
                    self.done as int * self.subframes as int <= self.read,
                    self.read <= self.next as int * self.subframes as int + self.sub as int,
                    self.next <= self.total,
                    self.sub < self.subframes,
                    self.next == self.total ==> self.sub == 0,
            ;
            assert(self.done <= self.total) by (nonlinear_arith)
                requires
                    self.done as int * self.subframes as int <= self.total as int * self.subframes as int,
                    self.subframes >= 1,
            ;
        }
        self.done == self.total
    }
}

} // verus!
