use animator::frames::{
    blit_span, pixel_sample_positions, video_frame_at, PIXEL_HASH_SAMPLES,
};
use animator::text::{
    audio_mix_filter, cache_file_name, maths_latex, rgb24_frame_len, split_ratio, text_latex,
    to_decimal, video_args, LatexImage,
};

#[test]
fn decimal_notation() {
    assert_eq!(to_decimal(0), "0");
    assert_eq!(to_decimal(7), "7");
    assert_eq!(to_decimal(10), "10");
    assert_eq!(to_decimal(8192), "8192");
    assert_eq!(to_decimal(u64::MAX), "18446744073709551615");
}

#[test]
fn latex_wrappers() {
    assert_eq!(text_latex("hi"), r"\text{hi}");
    assert_eq!(maths_latex("x^2"), r"$\displaystyle x^2$");
}

#[test]
fn latex_document_text() {
    let img = LatexImage { scale: 8192, expr: r"\frac{a}{b}".to_string() };
    assert_eq!(
        img.document(),
        "\n\\documentclass[border=1pt]{standalone}\n\\usepackage{amsmath}\n\\usepackage{xcolor}\n\\begin{document}\n$\\frac{a}{b}$\n\\end{document}\n"
    );
    assert_eq!(img.resolution_arg(), "8192");
}

#[test]
fn audio_filter_for_two_clips() {
    assert_eq!(
        audio_mix_filter(&vec![0, 1500]),
        "[1:a]adelay=0|0[a0];[2:a]adelay=1500|1500[a1];[a0][a1]amix=inputs=2[aout];[aout]apad[aout2]"
    );
}

#[test]
fn audio_filter_for_one_clip() {
    assert_eq!(
        audio_mix_filter(&vec![250]),
        "[1:a]adelay=250|250[a0];[a0]amix=inputs=1[aout];[aout]apad[aout2]"
    );
}

#[test]
fn ratio_splitting() {
    assert_eq!(split_ratio("30000/1001"), Some(("30000", "1001")));
    assert_eq!(split_ratio("25/1"), Some(("25", "1")));
    assert_eq!(split_ratio("25"), None);
    assert_eq!(split_ratio("1/2/3"), None);
    assert_eq!(split_ratio("/"), Some(("", "")));
}

#[test]
fn cache_file_names() {
    assert_eq!(cache_file_name(0, "png"), "0.png");
    assert_eq!(cache_file_name(12, "mp4"), "12.mp4");
}

#[test]
fn frame_lengths() {
    assert_eq!(rgb24_frame_len(4, 2), Some(24));
    assert_eq!(rgb24_frame_len(0, 100), Some(0));
    assert_eq!(rgb24_frame_len(1920, 1080), Some(1920 * 1080 * 3));
}

#[test]
fn video_frames_in_range() {
    assert_eq!(video_frame_at(-1, 10), None);
    assert_eq!(video_frame_at(0, 10), Some(0));
    assert_eq!(video_frame_at(9, 10), Some(9));
    assert_eq!(video_frame_at(10, 10), None);
    assert_eq!(video_frame_at(0, 0), None);
}

#[test]
fn blit_spans() {
    // fully inside
    assert_eq!(blit_span(3, 2, 10), (0, 3));
    // sticks out on the left
    assert_eq!(blit_span(5, -2, 10), (2, 5));
    // sticks out on the right
    assert_eq!(blit_span(5, 8, 10), (0, 2));
    // entirely outside
    let (lo, hi) = blit_span(5, 20, 10);
    assert_eq!(lo, hi);
    let (lo, hi) = blit_span(5, -20, 10);
    assert_eq!(lo, hi);
    // extreme offsets do not overflow
    let (lo, hi) = blit_span(5, i64::MIN, 10);
    assert_eq!(lo, hi);
}

#[test]
fn pixel_samples_are_inside_and_reproducible() {
    let a = pixel_sample_positions(100, 50).0;
    assert_eq!(a.len(), PIXEL_HASH_SAMPLES);
    assert!(a.iter().all(|(x, y)| *x < 100 && *y < 50));
    let b = pixel_sample_positions(100, 50).0;
    assert_eq!(a, b);
    // the generator draws different positions, not one repeated value
    assert!(a.iter().any(|p| *p != a[0]));
    assert!(a.iter().any(|p| p.0 != 0));
}

#[test]
fn pixel_samples_of_a_single_pixel() {
    let a = pixel_sample_positions(1, 1).0;
    assert!(a.iter().all(|p| *p == (0, 0)));
}

#[test]
fn pixel_samples_use_both_dimensions() {
    // a tall narrow image: columns stay below 2 but rows spread over the height
    let a = pixel_sample_positions(2, 1000).0;
    assert!(a.iter().all(|p| p.0 < 2 && p.1 < 1000));
    assert!(a.iter().any(|p| p.1 >= 2));
}

#[test]
fn video_args_without_audio() {
    let args = video_args("5", "/tmp/list", &vec![], &vec![], 384, 216, "out.mp4");
    let expected: Vec<&str> = vec![
        "-f", "concat", "-safe", "0", "-r", "5", "-i", "/tmp/list", "-vf", "scale=384:216",
        "-c:v", "libx264", "-c:a", "mp3", "-pix_fmt", "yuv420p", "-y", "out.mp4",
    ];
    assert_eq!(args, expected);
}

#[test]
fn video_args_with_audio() {
    let clips = vec!["a.mp3".to_string(), "b.mp3".to_string()];
    let args = video_args("30", "l", &clips, &vec![0, 1500], 1920, 1080, "o.mp4");
    let expected: Vec<&str> = vec![
        "-f",
        "concat",
        "-safe",
        "0",
        "-r",
        "30",
        "-i",
        "l",
        "-i",
        "a.mp3",
        "-i",
        "b.mp3",
        "-filter_complex",
        "[1:a]adelay=0|0[a0];[2:a]adelay=1500|1500[a1];[a0][a1]amix=inputs=2[aout];[aout]apad[aout2]",
        "-map",
        "0:v",
        "-map",
        "[aout2]",
        "-shortest",
        "-vf",
        "scale=1920:1080",
        "-c:v",
        "libx264",
        "-c:a",
        "mp3",
        "-pix_fmt",
        "yuv420p",
        "-y",
        "o.mp4",
    ];
    assert_eq!(args, expected);
}

#[test]
fn pixel_samples_follow_the_seeded_generator() {
    let mut rng = <rand::rngs::StdRng as rand::SeedableRng>::seed_from_u64(0);
    let expected: Vec<(u32, u32)> = (0..60)
        .map(|_| {
            let x = rand::RngExt::random_range(&mut rng, 0..37u32);
            let y = rand::RngExt::random_range(&mut rng, 0..23u32);
            (x, y)
        })
        .collect();
    assert_eq!(pixel_sample_positions(37, 23).0, expected);
}
