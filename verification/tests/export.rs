use ez_core::export::{
    caches_loop, export_repeats,
    frame_name, ExportFormat, ExportSchedule, ExportStep, FrameSink, JobState, PngZipSink, Progress,
    target_size, SinkError, IN_FLIGHT,
};

#[test]
fn format_from_path() {
    assert_eq!(ExportFormat::from_path("a.GIF"), ExportFormat::Gif);
    assert_eq!(ExportFormat::from_path("out"), ExportFormat::PngSequence);
}

#[test]
fn format_from_other_extensions() {
    assert_eq!(ExportFormat::from_path("clip.mp4"), ExportFormat::Mp4);
    assert_eq!(ExportFormat::from_path("clip.MOV"), ExportFormat::Mp4);
    assert_eq!(ExportFormat::from_path("dir/clip.webm"), ExportFormat::WebM);
    assert_eq!(ExportFormat::from_path("frames.zip"), ExportFormat::PngSequence);
    assert_eq!(ExportFormat::from_extension(Some("GiF")), ExportFormat::Gif);
    assert_eq!(ExportFormat::from_extension(None), ExportFormat::PngSequence);
}

#[test]
fn format_names_and_ffmpeg() {
    assert_eq!(ExportFormat::Mp4.extension(), "mp4");
    assert_eq!(ExportFormat::PngSequence.extension(), "");
    assert_eq!(ExportFormat::Gif.label(), "Animated GIF");
    assert!(ExportFormat::WebM.needs_ffmpeg());
    assert!(!ExportFormat::PngSequence.needs_ffmpeg());
    for f in ExportFormat::ALL {
        if f.needs_ffmpeg() {
            assert_eq!(ExportFormat::from_extension(Some(f.extension())), f);
        }
    }
}

#[test]
fn job_states_carry_progress_and_bytes() {
    let p = Progress { frame: 3, total: 10 };
    match JobState::Running(p) {
        JobState::Running(q) => assert_eq!(q, Progress { frame: 3, total: 10 }),
        JobState::Done(_) => panic!("not done"),
    }
    match JobState::Done(vec![1, 2]) {
        JobState::Done(b) => assert_eq!(b, vec![1, 2]),
        JobState::Running(_) => panic!("done"),
    }
}

#[test]
fn png_zip_frames() {
    assert_eq!(frame_name(7), "frame_00007.png");
    assert_eq!(frame_name(123456), "frame_123456.png");
    let mut sink = PngZipSink::default();
    assert_eq!(sink.extension(), "zip");
    let red = [255u8, 0, 0, 255].repeat(4);
    assert!(sink.add_frame(&red, 2, 2).is_ok());
    assert!(sink.add_frame(&red, 1, 4).is_ok());
    let bytes = match Box::new(sink).finish() {
        Ok(b) => b,
        Err(_) => panic!("finish failed"),
    };
    assert_eq!(&bytes[0..4], b"PK\x03\x04");
    let text = String::from_utf8_lossy(&bytes);
    assert!(text.contains("frame_00000.png") && text.contains("frame_00001.png"));
    assert!(bytes.windows(4).any(|w| w == b"\x89PNG"), "frames are stored as PNG files");
}

/// Runs a schedule to the end, reading a sub-frame back whenever the
/// pipeline is full or nothing else can be rendered.
fn run(mut s: ExportSchedule) -> (Vec<ExportStep>, u32) {
    let mut steps = Vec::new();
    let mut in_flight = 0usize;
    let mut frames_out = 0u32;
    for _ in 0..1000 {
        if s.is_done() {
            break;
        }
        let step = s.next_step(in_flight);
        match step {
            ExportStep::Render { .. } => in_flight += 1,
            ExportStep::Idle => {
                assert!(in_flight > 0);
                in_flight -= 1;
                if s.sub_frame_read() {
                    frames_out += 1;
                }
                continue;
            }
            ExportStep::Warmup { .. } => {}
        }
        steps.push(step);
    }
    assert!(in_flight <= IN_FLIGHT);
    (steps, frames_out)
}

#[test]
fn export_schedule_renders_each_frame_once() {
    let s = ExportSchedule::new(3, true, 2, false);
    assert_eq!(s.progress(), Progress { frame: 0, total: 6 });
    let (steps, out) = run(s);
    let want: Vec<ExportStep> = (0..6).map(|f| ExportStep::Render { frame: f, sub: 0 }).collect();
    assert_eq!(steps, want);
    assert_eq!(out, 6);
}

#[test]
fn export_schedule_warms_up_and_blurs() {
    let s = ExportSchedule::new(2, true, 0, true).with_motion_blur(2);
    let (steps, out) = run(s);
    assert_eq!(
        steps,
        vec![
            ExportStep::Warmup { index: 0 },
            ExportStep::Warmup { index: 1 },
            ExportStep::Render { frame: 0, sub: 0 },
            ExportStep::Render { frame: 0, sub: 1 },
            ExportStep::Render { frame: 1, sub: 0 },
            ExportStep::Render { frame: 1, sub: 1 },
        ]
    );
    assert_eq!(out, 2);
    let song = ExportSchedule::new(5, false, 4, true);
    assert_eq!(song.progress(), Progress { frame: 0, total: 5 });
    let (steps, _) = run(song);
    assert!(steps.iter().all(|s| matches!(s, ExportStep::Render { .. })));
}

#[test]
fn motion_blur_of_zero_subframes_is_one() {
    let plain = run(ExportSchedule::new(2, true, 1, false));
    let zero = run(ExportSchedule::new(2, true, 1, false).with_motion_blur(0));
    assert_eq!(plain, zero);
}

#[test]
fn formats_of_hidden_and_bare_names() {
    assert_eq!(ExportFormat::from_path(".gif"), ExportFormat::PngSequence);
    assert_eq!(ExportFormat::from_path("renders/loop.webm"), ExportFormat::WebM);
    assert_eq!(ExportFormat::from_path("renders/out"), ExportFormat::PngSequence);
}

#[test]
fn empty_frames_cannot_be_encoded() {
    let mut sink = PngZipSink::new();
    match sink.add_frame(&[], 0, 0) {
        Err(SinkError::Image(_)) => {}
        _ => panic!("a PNG needs pixels"),
    }
}

#[test]
fn render_targets_are_even_and_not_tiny() {
    assert_eq!(target_size(1920, 1080), (1920, 1080));
    assert_eq!(target_size(97, 55), (96, 54));
    assert_eq!(target_size(3, 0), (16, 16));
    assert_eq!(target_size(u32::MAX, 17), (u32::MAX - 1, 16));
}

#[test]
fn repeats_and_the_loop_cache() {
    assert_eq!(export_repeats(ExportFormat::PngSequence, true, 4), 1);
    assert_eq!(export_repeats(ExportFormat::Mp4, false, 4), 1);
    assert_eq!(export_repeats(ExportFormat::Mp4, true, 0), 1);
    assert_eq!(export_repeats(ExportFormat::Gif, true, 3), 3);
    assert!(caches_loop(1920, 1080, 60, 2));
    assert!(!caches_loop(1920, 1080, 300, 2));
    assert!(!caches_loop(1920, 1080, 60, 1));
    assert!(caches_loop(16384, 8192, 4, 2));
    assert!(!caches_loop(16384, 8192, 5, 2));
}

#[test]
fn empty_frames_are_refused_and_others_stored() {
    let mut sink = PngZipSink::default();
    assert!(matches!(sink.add_frame(&[], 0, 4), Err(SinkError::Image(_))));
    let px = [1u8, 2, 3, 255].repeat(6);
    assert!(sink.add_frame(&px, 3, 2).is_ok());
    assert!(Box::new(sink).finish().is_ok());
}
