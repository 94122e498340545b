//! Renderings of a value as text.

use crate::ArbitraryFixed;
use vstd::prelude::*;
use vstd::string::StringExecFns;

verus! {

/// The hexadecimal digit, in lower case, of a number below sixteen.
pub open spec fn hex_char(n: int) -> char {
    if n == 0 {
        '0'
    } else if n == 1 {
        '1'
    } else if n == 2 {
        '2'
    } else if n == 3 {
        '3'
    } else if n == 4 {
        '4'
    } else if n == 5 {
        '5'
    } else if n == 6 {
        '6'
    } else if n == 7 {
        '7'
    } else if n == 8 {
        '8'
    } else if n == 9 {
        '9'
    } else if n == 10 {
        'a'
    } else if n == 11 {
        'b'
    } else if n == 12 {
        'c'
    } else if n == 13 {
        'd'
    } else if n == 14 {
        'e'
    } else {
        'f'
    }
}

/// The eight hexadecimal digits of a word, the highest first.
pub open spec fn hex_word(w: u32) -> Seq<char> {
    seq![
        hex_char(((w / 0x1000_0000) % 16) as int),
        hex_char(((w / 0x100_0000) % 16) as int),
        hex_char(((w / 0x10_0000) % 16) as int),
        hex_char(((w / 0x1_0000) % 16) as int),
        hex_char(((w / 0x1000) % 16) as int),
        hex_char(((w / 0x100) % 16) as int),
        hex_char(((w / 0x10) % 16) as int),
        hex_char(((w / 1) % 16) as int),
    ]
}

/// The words of a value between brackets, lowest first, each as eight
/// hexadecimal digits, under the name of the type.
pub open spec fn debug_text(d: Seq<u32>) -> Seq<char> {
    "ArbitraryFixed { data: ["@ + hex_word(d[0]) + ", "@ + hex_word(d[1]) + ", "@ + hex_word(d[2])
        + ", "@ + hex_word(d[3]) + "] }"@
}

/// The declaration of a constant array of four unsigned integers in the
/// shading language, under the name given, with the words of a value,
/// lowest first, as its elements.
pub open spec fn glsl_const_text(name: Seq<char>, d: Seq<u32>) -> Seq<char> {
    "const uint "@ + name + "[4] = uint[4](0x"@ + hex_word(d[0]) + "u, 0x"@ + hex_word(d[1])
        + "u, 0x"@ + hex_word(d[2]) + "u, 0x"@ + hex_word(d[3]) + "u);"@
}

/// The text of one hexadecimal digit.
fn digit_text(n: u32) -> (s: &'static str)
    requires
        n < 16,
    ensures
        s@ =~= seq![hex_char(n as int)],
{
    if n == 0 {
        proof {
            reveal_strlit("0");
        }
        "0"
    } else if n == 1 {
        proof {
            reveal_strlit("1");
        }
        "1"
    } else if n == 2 {
        proof {
            reveal_strlit("2");
        }
        "2"
    } else if n == 3 {
        proof {
            reveal_strlit("3");
        }
        "3"
    } else if n == 4 {
        proof {
            reveal_strlit("4");
        }
        "4"
    } else if n == 5 {
        proof {
            reveal_strlit("5");
        }
        "5"
    } else if n == 6 {
        proof {
            reveal_strlit("6");
        }
        "6"
    } else if n == 7 {
        proof {
            reveal_strlit("7");
        }
        "7"
    } else if n == 8 {
        proof {
            reveal_strlit("8");
        }
        "8"
    } else if n == 9 {
        proof {
            reveal_strlit("9");
        }
        "9"
    } else if n == 10 {
        proof {
            reveal_strlit("a");
        }
        "a"
    } else if n == 11 {
        proof {
            reveal_strlit("b");
        }
        "b"
    } else if n == 12 {
        proof {
            reveal_strlit("c");
        }
        "c"
    } else if n == 13 {
        proof {
            reveal_strlit("d");
        }
        "d"
    } else if n == 14 {
        proof {
            reveal_strlit("e");
        }
        "e"
    } else {
        proof {
            reveal_strlit("f");
        }
        "f"
    }
}

/// Appends the eight hexadecimal digits of a word to a text.
fn push_word(s: &mut String, w: u32)
    ensures
        final(s)@ == old(s)@ + hex_word(w),
{
    s.append(digit_text((w / 0x1000_0000) % 16));
    s.append(digit_text((w / 0x100_0000) % 16));
    s.append(digit_text((w / 0x10_0000) % 16));
    s.append(digit_text((w / 0x1_0000) % 16));
    s.append(digit_text((w / 0x1000) % 16));
    s.append(digit_text((w / 0x100) % 16));
    s.append(digit_text((w / 0x10) % 16));
    s.append(digit_text((w / 1) % 16));
    assert(final(s)@ =~= old(s)@ + hex_word(w));
}

impl ArbitraryFixed {
    /// A rendering for diagnostics: the words, lowest first, each as eight
    /// hexadecimal digits.
    pub fn debug_string(&self) -> (s: String)
        ensures
            s@ == debug_text(self.data@),
    {
        let mut s = String::from_str("ArbitraryFixed { data: [");
        push_word(&mut s, self.data[0]);
        s.append(", ");
        push_word(&mut s, self.data[1]);
        s.append(", ");
        push_word(&mut s, self.data[2]);
        s.append(", ");
        push_word(&mut s, self.data[3]);
        s.append("] }");
        s
    }

    /// The value as a named constant of the shading language: an array of
    /// its words, lowest first. The same value and name give the same text.
    /// The words say nothing of the position of the binary point: the
    /// reader of the constant has to know it.
    pub fn glsl_const(&self, name: &str) -> (s: String)
        ensures
            s@ == glsl_const_text(name@, self.data@),
    {
        let mut s = String::from_str("const uint ");
        s.append(name);
        s.append("[4] = uint[4](0x");
        push_word(&mut s, self.data[0]);
        s.append("u, 0x");
        push_word(&mut s, self.data[1]);
        s.append("u, 0x");
        push_word(&mut s, self.data[2]);
        s.append("u, 0x");
        push_word(&mut s, self.data[3]);
        s.append("u);");
        s
    }
}

} // verus!
