use vstd::prelude::*;

verus! {

use vstd::string::StringExecFns;

/// Video codecs the argument builder knows how to drive.
pub enum Codec {
    Av1,
}

/// The character of one decimal digit.
pub open spec fn digit_char(d: int) -> char {
    if d == 0 {
        '0'
    } else if d == 1 {
        '1'
    } else if d == 2 {
        '2'
    } else if d == 3 {
        '3'
    } else if d == 4 {
        '4'
    } else if d == 5 {
        '5'
    } else if d == 6 {
        '6'
    } else if d == 7 {
        '7'
    } else if d == 8 {
        '8'
    } else {
        '9'
    }
}

/// The decimal digits of `n`, most significant first.
pub open spec fn dec_digits(n: nat) -> Seq<char>
    decreases n,
{
    if n < 10 {
        seq![digit_char(n as int)]
    } else {
        dec_digits(n / 10).push(digit_char((n % 10) as int))
    }
}

/// The "<width>x<height>" frame-size argument.
pub open spec fn size_chars(w: nat, h: nat) -> Seq<char> {
    dec_digits(w) + seq!['x'] + dec_digits(h)
}

/// One decimal digit as text.
fn digit_str(d: u32) -> (s: &'static str)
    requires
        d < 10,
    ensures
        s@ == seq![digit_char(d as int)],
{
    if d == 0 {
        proof {
            reveal_strlit("0");
        }
        let r = "0";
        assert(r@ =~= seq![digit_char(0)]);
        r
    } else if d == 1 {
        proof {
            reveal_strlit("1");
        }
        let r = "1";
        assert(r@ =~= seq![digit_char(1)]);
        r
    } else if d == 2 {
        proof {
            reveal_strlit("2");
        }
        let r = "2";
        assert(r@ =~= seq![digit_char(2)]);
        r
    } else if d == 3 {
        proof {
            reveal_strlit("3");
        }
        let r = "3";
        assert(r@ =~= seq![digit_char(3)]);
        r
    } else if d == 4 {
        proof {
            reveal_strlit("4");
        }
        let r = "4";
        assert(r@ =~= seq![digit_char(4)]);
        r
    } else if d == 5 {
        proof {
            reveal_strlit("5");
        }
        let r = "5";
        assert(r@ =~= seq![digit_char(5)]);
        r
    } else if d == 6 {
        proof {
            reveal_strlit("6");
        }
        let r = "6";
        assert(r@ =~= seq![digit_char(6)]);
        r
    } else if d == 7 {
        proof {
            reveal_strlit("7");
        }
        let r = "7";
        assert(r@ =~= seq![digit_char(7)]);
        r
    } else if d == 8 {
        proof {
            reveal_strlit("8");
        }
        let r = "8";
        assert(r@ =~= seq![digit_char(8)]);
        r
    } else {
        proof {
            reveal_strlit("9");
        }
        let r = "9";
        assert(r@ =~= seq![digit_char(9)]);
        r
    }
}

/// The decimal rendering of a 32-bit number.
pub fn u32_to_string(n: u32) -> (s: String)
    ensures
        s@ == dec_digits(n as nat),
    decreases n,
{
    if n < 10 {
        String::from_str(digit_str(n))
    } else {
        let mut s = u32_to_string(n / 10);
        s.append(digit_str(n % 10));
        assert(s@ =~= dec_digits(n as nat));
        s
    }
}

/// The ffmpeg invocation that turns raw RGB frames piped on stdin into
/// a compressed video file: format, pixel layout, frame size and rate
/// of the raw input, then codec, quality and output path.
pub fn ffmpeg_args(
    width: u32,
    height: u32,
    fps: u32,
    codec: Codec,
    quality: &str,
    output: &str,
) -> (args: Vec<String>)
    ensures
        args@.len() == 19,
        args@[0]@ == "-f"@,
        args@[1]@ == "rawvideo"@,
        args@[2]@ == "-pix_fmt"@,
        args@[3]@ == "rgb24"@,
        args@[4]@ == "-s"@,
        args@[5]@ == size_chars(width as nat, height as nat),
        args@[6]@ == "-r"@,
        args@[7]@ == dec_digits(fps as nat),
        args@[8]@ == "-i"@,
        args@[9]@ == "-"@,
        args@[10]@ == "-c:v"@,
        args@[11]@ == "libaom-av1"@,
        args@[12]@ == "-crf"@,
        args@[13]@ == quality@,
        args@[14]@ == "-b:v"@,
        args@[15]@ == "0"@,
        args@[16]@ == "-cpu-used"@,
        args@[17]@ == "4"@,
        args@[18]@ == output@,
{
    let mut size = u32_to_string(width);
    proof {
        reveal_strlit("x");
    }
    size.append("x");
    let height_s = u32_to_string(height);
    size.append(height_s.as_str());
    assert(size@ =~= size_chars(width as nat, height as nat)) by {
        assert("x"@ =~= seq!['x']);
    }
    let fps_s = u32_to_string(fps);
    let mut args: Vec<String> = Vec::new();
    match codec {
        Codec::Av1 => {
            args.push(String::from_str("-f"));
            args.push(String::from_str("rawvideo"));
            args.push(String::from_str("-pix_fmt"));
            args.push(String::from_str("rgb24"));
            args.push(String::from_str("-s"));
            args.push(size);
            args.push(String::from_str("-r"));
            args.push(fps_s);
            args.push(String::from_str("-i"));
            args.push(String::from_str("-"));
            args.push(String::from_str("-c:v"));
            args.push(String::from_str("libaom-av1"));
            args.push(String::from_str("-crf"));
            args.push(String::from_str(quality));
            args.push(String::from_str("-b:v"));
            args.push(String::from_str("0"));
            args.push(String::from_str("-cpu-used"));
            args.push(String::from_str("4"));
            args.push(String::from_str(output));
        },
    }
    args
}

} // verus!
