//! The command line of the recorder for a window's rectangle.
//!
//! The recorder is `ffmpeg` with the `x11grab` input: it is told the size of
//! the region as `<width>x<height>` and its place as an offset on display
//! `:0.0`, and is handed every further argument as it was given.

use crate::number::{decimal, format_i64};
use crate::xwininfo::WindowInfo;
use vstd::prelude::*;
use vstd::string::StringExecFns;

verus! {

/// The size of the rectangle as the recorder takes it: `<width>x<height>`.
pub open spec fn size_text(info: WindowInfo) -> Seq<char> {
    decimal(info.width as int) + "x"@ + decimal(info.height as int)
}

/// The place of the rectangle as the recorder takes it: `:0.0+<x>,<y>`,
/// screen 0 of display 0, offset by the upper-left corner.
pub open spec fn source_text(info: WindowInfo) -> Seq<char> {
    ":0.0+"@ + decimal(info.x as int) + ","@ + decimal(info.y as int)
}

/// The arguments of the recorder: size, input format, input source, then
/// `passthrough` as it stands.
pub open spec fn argument_texts(info: WindowInfo, passthrough: Seq<Seq<char>>) -> Seq<Seq<char>> {
    seq!["-video_size"@, size_text(info), "-f"@, "x11grab"@, "-i"@, source_text(info)]
        + passthrough
}

/// The value of the size flag.
pub fn size_arg(info: &WindowInfo) -> (s: String)
    ensures
        s@ == size_text(*info),
{
    let mut s = format_i64(info.width);
    s.append("x");
    s.append(format_i64(info.height).as_str());
    s
}

/// The value of the input flag.
pub fn source_arg(info: &WindowInfo) -> (s: String)
    ensures
        s@ == source_text(*info),
{
    let mut s = String::from_str(":0.0+");
    s.append(format_i64(info.x).as_str());
    s.append(",");
    s.append(format_i64(info.y).as_str());
    s
}

/// The arguments with which the recorder is started to capture `info`:
/// `-video_size <width>x<height> -f x11grab -i :0.0+<x>,<y>`, followed by
/// `passthrough` unchanged and in the order given.
pub fn recorder_args(info: &WindowInfo, passthrough: Vec<String>) -> (args: Vec<String>)
    ensures
        args.deep_view() == argument_texts(*info, passthrough.deep_view()),
{
    let mut rest = passthrough;
    let mut args: Vec<String> = Vec::new();
    args.push(String::from_str("-video_size"));
    args.push(size_arg(info));
    args.push(String::from_str("-f"));
    args.push(String::from_str("x11grab"));
    args.push(String::from_str("-i"));
    args.push(source_arg(info));
    args.append(&mut rest);
    proof {
        let expected = argument_texts(*info, passthrough.deep_view());
        assert(args.deep_view().len() == expected.len());
        assert forall|i: int| 0 <= i < expected.len() implies args.deep_view()[i] == expected[i] by {
            if i >= 6 {
                assert(args@[i] == passthrough@[i - 6]);
            }
        }
        assert(args.deep_view() =~= expected);
    }
    args
}

} // verus!
