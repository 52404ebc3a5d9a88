use small_world_model::video::{ffmpeg_args, u32_to_string, Codec};

#[test]
fn test_u32_to_string_values() {
    assert_eq!(u32_to_string(0), "0");
    assert_eq!(u32_to_string(7), "7");
    assert_eq!(u32_to_string(10), "10");
    assert_eq!(u32_to_string(1080), "1080");
    assert_eq!(u32_to_string(4294967295), "4294967295");
}

#[test]
fn test_ffmpeg_args_av1() {
    let args = ffmpeg_args(4096, 2048, 30, Codec::Av1, "30", "../public/earth.webm");
    let expected: Vec<&str> = vec![
        "-f", "rawvideo",
        "-pix_fmt", "rgb24",
        "-s", "4096x2048",
        "-r", "30",
        "-i", "-",
        "-c:v", "libaom-av1",
        "-crf", "30",
        "-b:v", "0",
        "-cpu-used", "4",
        "../public/earth.webm",
    ];
    assert_eq!(args.len(), expected.len());
    for (got, want) in args.iter().zip(expected.iter()) {
        assert_eq!(got, want);
    }
}
