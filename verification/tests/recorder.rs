use wincap::recorder::{size_arg, source_arg};
use wincap::{parse_xwininfo, recorder_args, WindowInfo};

fn strings(args: &[&str]) -> Vec<String> {
    args.iter().map(|s| s.to_string()).collect()
}

#[test]
fn arguments_for_a_rectangle_with_passthrough() {
    let info = WindowInfo { x: 10, y: 20, width: 100, height: 200 };
    let args = recorder_args(&info, strings(&["-t", "5"]));
    assert_eq!(
        args,
        strings(&["-video_size", "100x200", "-f", "x11grab", "-i", ":0.0+10,20", "-t", "5"])
    );
    assert_eq!(args.join(" "), "-video_size 100x200 -f x11grab -i :0.0+10,20 -t 5");
}

#[test]
fn arguments_without_passthrough() {
    let info = WindowInfo { x: 3841, y: 21, width: 958, height: 1178 };
    let args = recorder_args(&info, Vec::new());
    assert_eq!(args, strings(&["-video_size", "958x1178", "-f", "x11grab", "-i", ":0.0+3841,21"]));
}

#[test]
fn passthrough_is_kept_verbatim_and_in_order() {
    let info = WindowInfo { x: 0, y: 0, width: 1, height: 1 };
    let rest = strings(&["-i", "", "out file.mkv", "-video_size", "\u{e9}", "-t", "-t"]);
    let args = recorder_args(&info, rest.clone());
    assert_eq!(args.len(), 6 + rest.len());
    assert_eq!(&args[6..], &rest[..]);
}

#[test]
fn negative_offsets_are_written_with_their_sign() {
    let info = WindowInfo { x: -1920, y: -5, width: 640, height: 480 };
    assert_eq!(size_arg(&info), "640x480");
    assert_eq!(source_arg(&info), ":0.0+-1920,-5");
    let wide = WindowInfo { x: i64::MIN, y: i64::MAX, width: i64::MAX, height: i64::MIN };
    assert_eq!(size_arg(&wide), "9223372036854775807x-9223372036854775808");
    assert_eq!(source_arg(&wide), ":0.0+-9223372036854775808,9223372036854775807");
}

#[test]
fn parsed_rectangle_goes_into_the_arguments() {
    let src = "  Absolute upper-left X:  3841\n  Absolute upper-left Y:  21\n  Width: 958\n  Height: 1178\n";
    let info = parse_xwininfo(src.to_string()).unwrap();
    let args = recorder_args(&info, strings(&["out.mkv"]));
    assert_eq!(args.join(" "), "-video_size 958x1178 -f x11grab -i :0.0+3841,21 out.mkv");
}
