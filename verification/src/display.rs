//! What a list shows beside a file: the icon of its kind, its size in a
//! readable unit, and the date and time of its last change.

use vstd::prelude::*;
use vstd::string::*;
use vstd::arithmetic::div_mod::{lemma_div_denominator, lemma_fundamental_div_mod};
use crate::filter::lowercased_option;
use crate::record::{text_view, FileInfo, Timestamp};
use crate::text::{lowercase, same_text};

verus! {

/// The icon of a file with the given extension, in lower case.
pub open spec fn extension_icon(e: Seq<char>) -> Seq<char> {
    if e == "pdf"@ {
        "📄"@
    } else if e == "doc"@ || e == "docx"@ {
        "📝"@
    } else if e == "txt"@ || e == "md"@ || e == "rtf"@ {
        "📃"@
    } else if e == "xls"@ || e == "xlsx"@ || e == "csv"@ {
        "📊"@
    } else if e == "ppt"@ || e == "pptx"@ {
        "📽️"@
    } else if e == "jpg"@ || e == "jpeg"@ || e == "png"@ || e == "gif"@ || e == "bmp"@
        || e == "svg"@ || e == "webp"@ {
        "🖼️"@
    } else if e == "ico"@ || e == "psd"@ || e == "ai"@ {
        "🎨"@
    } else if e == "mp4"@ || e == "avi"@ || e == "mkv"@ || e == "mov"@ || e == "wmv"@
        || e == "flv"@ {
        "🎬"@
    } else if e == "mp3"@ || e == "wav"@ || e == "flac"@ || e == "aac"@ || e == "ogg"@
        || e == "wma"@ {
        "🎵"@
    } else if e == "rs"@ || e == "py"@ || e == "js"@ || e == "ts"@ || e == "cpp"@ || e == "c"@
        || e == "h"@ {
        "💻"@
    } else if e == "html"@ || e == "css"@ || e == "scss"@ || e == "sass"@ {
        "🌐"@
    } else if e == "json"@ || e == "xml"@ || e == "yaml"@ || e == "toml"@ {
        "⚙️"@
    } else if e == "sql"@ || e == "db"@ {
        "🗄️"@
    } else if e == "zip"@ || e == "rar"@ || e == "7z"@ || e == "tar"@ || e == "gz"@ {
        "📦"@
    } else if e == "exe"@ || e == "msi"@ || e == "bat"@ || e == "cmd"@ {
        "⚡"@
    } else if e == "dll"@ || e == "sys"@ {
        "🔧"@
    } else if e == "log"@ {
        "📋"@
    } else if e == "bak"@ || e == "tmp"@ {
        "💾"@
    } else {
        "📄"@
    }
}

/// The icon of an entry: a folder for a directory, a link for a
/// shortcut, else the icon of the extension, and a plain sheet for a file
/// without one.
pub open spec fn icon_of(
    is_dir: bool,
    is_shortcut: bool,
    extension_lower: Option<Seq<char>>,
) -> Seq<char> {
    if is_dir {
        "📁"@
    } else if is_shortcut {
        "🔗"@
    } else {
        match extension_lower {
            Some(e) => extension_icon(e),
            None => "📄"@,
        }
    }
}

/// The icon of a file with the given extension, in lower case.
pub fn icon_for_extension(e: &str) -> (r: &'static str)
    ensures
        r@ == extension_icon(e@),
{
    if same_text(e, "pdf") {
        "📄"
    } else if same_text(e, "doc") || same_text(e, "docx") {
        "📝"
    } else if same_text(e, "txt") || same_text(e, "md") || same_text(e, "rtf") {
        "📃"
    } else if same_text(e, "xls") || same_text(e, "xlsx") || same_text(e, "csv") {
        "📊"
    } else if same_text(e, "ppt") || same_text(e, "pptx") {
        "📽️"
    } else if same_text(e, "jpg") || same_text(e, "jpeg") || same_text(e, "png")
        || same_text(e, "gif") || same_text(e, "bmp") || same_text(e, "svg")
        || same_text(e, "webp") {
        "🖼️"
    } else if same_text(e, "ico") || same_text(e, "psd") || same_text(e, "ai") {
        "🎨"
    } else if same_text(e, "mp4") || same_text(e, "avi") || same_text(e, "mkv")
        || same_text(e, "mov") || same_text(e, "wmv") || same_text(e, "flv") {
        "🎬"
    } else if same_text(e, "mp3") || same_text(e, "wav") || same_text(e, "flac")
        || same_text(e, "aac") || same_text(e, "ogg") || same_text(e, "wma") {
        "🎵"
    } else if same_text(e, "rs") || same_text(e, "py") || same_text(e, "js")
        || same_text(e, "ts") || same_text(e, "cpp") || same_text(e, "c") || same_text(e, "h") {
        "💻"
    } else if same_text(e, "html") || same_text(e, "css") || same_text(e, "scss")
        || same_text(e, "sass") {
        "🌐"
    } else if same_text(e, "json") || same_text(e, "xml") || same_text(e, "yaml")
        || same_text(e, "toml") {
        "⚙️"
    } else if same_text(e, "sql") || same_text(e, "db") {
        "🗄️"
    } else if same_text(e, "zip") || same_text(e, "rar") || same_text(e, "7z")
        || same_text(e, "tar") || same_text(e, "gz") {
        "📦"
    } else if same_text(e, "exe") || same_text(e, "msi") || same_text(e, "bat")
        || same_text(e, "cmd") {
        "⚡"
    } else if same_text(e, "dll") || same_text(e, "sys") {
        "🔧"
    } else if same_text(e, "log") {
        "📋"
    } else if same_text(e, "bak") || same_text(e, "tmp") {
        "💾"
    } else {
        "📄"
    }
}

/// The time to show for a change at `t`: times before the epoch are not
/// shown.
pub open spec fn shown_time(t: Option<Timestamp>) -> Option<Timestamp> {
    match t {
        Some(time) if time.secs >= 0 => Some(time),
        _ => None,
    }
}

/// The date and time of day, to the minute, of the instant `secs` seconds
/// after the epoch, as `chrono` prints it under the format
/// `%Y-%m-%d %H:%M` in universal time; none where `chrono` has no date
/// for the instant.
pub uninterp spec fn minute_text(secs: i64) -> Option<Seq<char>>;

/// Calls `chrono::DateTime::from_timestamp` and prints the date it
/// gives with `format("%Y-%m-%d %H:%M")`. Nothing is claimed about the
/// calendar: the result is only given the name `minute_text`, and is
/// none where `from_timestamp` gives no date.
#[verifier::external_body]
fn print_minute(secs: i64) -> (r: Option<String>)
    ensures
        text_view(r) == minute_text(secs),
{
    match chrono::DateTime::from_timestamp(secs, 0) {
        Some(date) => Some(date.format("%Y-%m-%d %H:%M").to_string()),
        None => None,
    }
}

/// What is shown for a change at `t` on a clock that is `offset_seconds`
/// ahead of universal time: the date and minute on that clock, and nothing
/// for a time that is not shown or has no date.
pub open spec fn modified_text(t: Option<Timestamp>, offset_seconds: i32) -> Seq<char> {
    match shown_time(t) {
        Some(time) if time.secs + offset_seconds <= i64::MAX => shown_text(
            minute_text((time.secs + offset_seconds) as i64),
        ),
        _ => Seq::empty(),
    }
}

/// A text that may be missing, as it is shown: a missing text is empty.
pub open spec fn shown_text(text: Option<Seq<char>>) -> Seq<char> {
    match text {
        Some(s) => s,
        None => Seq::empty(),
    }
}

/// A text that may be missing, as it is shown: a missing text is empty.
pub fn text_or_empty(text: Option<String>) -> (r: String)
    ensures
        r@ == shown_text(text_view(text)),
{
    match text {
        Some(s) => s,
        None => String::new(),
    }
}

/// The character of a decimal digit.
pub open spec fn digit_char(d: nat) -> char {
    ((48 + d) as u8) as char
}

/// A number written in decimal digits, without leading zeros.
pub open spec fn decimal_text(n: nat) -> Seq<char>
    decreases n,
{
    if n < 10 {
        seq![digit_char(n)]
    } else {
        decimal_text(n / 10).push(digit_char(n % 10))
    }
}

/// `n / d` rounded to the nearest whole number, a tie to the even one.
pub open spec fn half_even(n: nat, d: nat) -> nat {
    let q = n / d;
    let r = n % d;
    if 2 * r > d || (2 * r == d && q % 2 == 1) {
        q + 1
    } else {
        q
    }
}

/// The distance between neighbouring numbers that a double-precision
/// float can hold, at the magnitude of `size`: 1 below 2^53, and twice as
/// much for every further bit.
pub open spec fn spacing(size: nat) -> nat
    decreases size,
{
    if size < 0x20_0000_0000_0000 {
        1
    } else {
        2 * spacing(size / 2)
    }
}

/// The double-precision float nearest to `size`, a tie going to the one
/// with the even mantissa.
pub open spec fn nearest_double(size: u64) -> nat {
    half_even(size as nat, spacing(size as nat)) * spacing(size as nat)
}

/// The unit a size is shown in: 0 for bytes, up to 4 for terabytes.
pub open spec fn unit_index(size: u64) -> nat {
    if size < 0x400 {
        0
    } else if size < 0x10_0000 {
        1
    } else if size < 0x4000_0000 {
        2
    } else if size < 0x100_0000_0000 {
        3
    } else {
        4
    }
}

/// The number of bytes in one of a unit.
pub open spec fn unit_bytes(unit: nat) -> nat {
    if unit == 0 {
        1
    } else if unit == 1 {
        0x400
    } else if unit == 2 {
        0x10_0000
    } else if unit == 3 {
        0x4000_0000
    } else {
        0x100_0000_0000
    }
}

/// The name of a unit.
pub open spec fn unit_name(unit: nat) -> Seq<char> {
    if unit == 0 {
        "B"@
    } else if unit == 1 {
        "KB"@
    } else if unit == 2 {
        "MB"@
    } else if unit == 3 {
        "GB"@
    } else {
        "TB"@
    }
}

/// The size in tenths of its unit: the nearest double to the size,
/// divided by the unit and rounded to one decimal, a tie to the even one.
pub open spec fn size_tenths(size: u64) -> nat {
    half_even(10 * nearest_double(size), unit_bytes(unit_index(size)))
}

/// A size as it is shown: whole bytes below 1024, else one decimal of the
/// largest unit up to terabytes that the size reaches.
pub open spec fn size_text(size: u64) -> Seq<char> {
    if unit_index(size) == 0 {
        decimal_text(size as nat) + " "@ + unit_name(0)
    } else {
        decimal_text(size_tenths(size) / 10) + "."@ + decimal_text(size_tenths(size) % 10) + " "@
            + unit_name(unit_index(size))
    }
}

/// The text of one decimal digit.
fn digit_str(d: u64) -> (r: &'static str)
    requires
        d < 10,
    ensures
        r@ == seq![digit_char(d as nat)],
{
    proof {
        reveal_strlit("0");
        reveal_strlit("1");
        reveal_strlit("2");
        reveal_strlit("3");
        reveal_strlit("4");
        reveal_strlit("5");
        reveal_strlit("6");
        reveal_strlit("7");
        reveal_strlit("8");
        reveal_strlit("9");
    }
    let r = if d == 0 {
        "0"
    } else if d == 1 {
        "1"
    } else if d == 2 {
        "2"
    } else if d == 3 {
        "3"
    } else if d == 4 {
        "4"
    } else if d == 5 {
        "5"
    } else if d == 6 {
        "6"
    } else if d == 7 {
        "7"
    } else if d == 8 {
        "8"
    } else {
        "9"
    };
    assert(r@ =~= seq![digit_char(d as nat)]);
    r
}

/// Writes a number in decimal digits behind a text.
pub fn push_decimal(text: &mut String, n: u64)
    ensures
        final(text)@ == old(text)@ + decimal_text(n as nat),
    decreases n,
{
    if n >= 10 {
        push_decimal(text, n / 10);
    }
    text.append(digit_str(n % 10));
    proof {
        let start = old(text)@;
        if n >= 10 {
            assert(start + decimal_text((n / 10) as nat) + seq![digit_char((n % 10) as nat)]
                =~= start + decimal_text(n as nat));
        }
    }
}

/// `n / d` rounded to the nearest whole number, a tie to the even one.
fn round_half_even(n: u128, d: u64) -> (r: u128)
    requires
        d > 0,
        n < u128::MAX,
    ensures
        r == half_even(n as nat, d as nat),
{
    let q: u128 = n / (d as u128);
    let r: u128 = n % (d as u128);
    if 2 * r > d as u128 || (2 * r == d as u128 && q % 2 == 1) {
        q + 1
    } else {
        q
    }
}

/// The double-precision float nearest to `size`, as a whole number.
pub fn round_to_double(size: u64) -> (r: u128)
    ensures
        r == nearest_double(size),
        size < 0x20_0000_0000_0000 ==> r == size,
        size <= r + 4096,
        r <= size + 4096,
{
    let mut rest: u64 = size;
    let mut step: u64 = 1;
    while rest >= 0x20_0000_0000_0000
        invariant
            step == 1 || step * 0x10_0000_0000_0000 <= size,
            step >= 1,
            spacing(size as nat) == step * spacing(rest as nat),
            rest == size / step,
        decreases rest,
    {
        proof {
            lemma_fundamental_div_mod(size as int, step as int);
            assert(step * 0x20_0000_0000_0000 <= step * rest) by (nonlinear_arith)
                requires
                    rest >= 0x20_0000_0000_0000,
                    step >= 1,
            ;
            assert(step * (2 * spacing((rest / 2) as nat)) == (step * 2) * spacing(
                (rest / 2) as nat,
            )) by (nonlinear_arith);
            lemma_div_denominator(size as int, step as int, 2);
        }
        rest = rest / 2;
        step = step * 2;
    }
    let nearest = round_half_even(size as u128, step);
    proof {
        let q = size as int / step as int;
        lemma_fundamental_div_mod(size as int, step as int);
        assert(nearest * step == step * q || nearest * step == step * q + step) by (nonlinear_arith)
            requires
                nearest == q || nearest == q + 1,
        ;
        assert(spacing(rest as nat) == 1);
        assert(step * 1 == step);
        if step == 1 {
            assert(size as nat % 1 == 0);
        }
    }
    nearest * (step as u128)
}

/// A size as it is shown to the user.
pub fn format_size(size: u64) -> (r: String)
    ensures
        r@ == size_text(size),
{
    let mut text = String::new();
    let (unit, bytes, name): (u64, u64, &str) = if size < 0x400 {
        (0, 1, "B")
    } else if size < 0x10_0000 {
        (1, 0x400, "KB")
    } else if size < 0x4000_0000 {
        (2, 0x10_0000, "MB")
    } else if size < 0x100_0000_0000 {
        (3, 0x4000_0000, "GB")
    } else {
        (4, 0x100_0000_0000, "TB")
    };
    if unit == 0 {
        push_decimal(&mut text, size);
        text.append(" ");
        text.append(name);
        assert(text@ =~= size_text(size));
        return text;
    }
    let nearest = round_to_double(size);
    let tenths = round_half_even(10 * nearest, bytes);
    assert(tenths / 10 <= u64::MAX) by {
        if bytes == 0x400 {
        } else if bytes == 0x10_0000 {
        } else if bytes == 0x4000_0000 {
        } else {
        }
    }
    push_decimal(&mut text, (tenths / 10) as u64);
    text.append(".");
    push_decimal(&mut text, (tenths % 10) as u64);
    text.append(" ");
    text.append(name);
    assert(text@ =~= size_text(size));
    text
}

impl FileInfo {
    /// The icon of the entry.
    pub fn get_icon(&self) -> (r: &'static str)
        ensures
            r@ == icon_of(self.is_dir, self.is_shortcut, lowercased_option(self@.extension)),
    {
        if self.is_dir {
            return "📁";
        }
        if self.is_shortcut {
            return "🔗";
        }
        match &self.extension {
            Some(e) => {
                let lower = lowercase(e.as_str());
                icon_for_extension(lower.as_str())
            },
            None => "📄",
        }
    }

    /// The size as it is shown: nothing for a directory.
    pub fn size_formatted(&self) -> (r: String)
        ensures
            r@ == if self.is_dir {
                Seq::<char>::empty()
            } else {
                size_text(self.size)
            },
    {
        if self.is_dir {
            String::new()
        } else {
            format_size(self.size)
        }
    }

    /// The date and minute of the last change on a clock that is
    /// `offset_seconds` ahead of universal time; empty when there is
    /// nothing to show.
    pub fn modified_formatted(&self, offset_seconds: i32) -> (r: String)
        ensures
            r@ == modified_text(self.modified, offset_seconds),
    {
        match self.modified_since_epoch() {
            Some(time) => {
                let offset: i64 = offset_seconds as i64;
                if offset > 0 && time.secs > i64::MAX - offset {
                    String::new()
                } else {
                    text_or_empty(print_minute(time.secs + offset))
                }
            },
            None => String::new(),
        }
    }

    /// The time of the last change, when it can be shown as a date.
    pub fn modified_since_epoch(&self) -> (r: Option<Timestamp>)
        ensures
            r == shown_time(self.modified),
    {
        match self.modified {
            Some(time) => if time.secs >= 0 {
                Some(time)
            } else {
                None
            },
            None => None,
        }
    }
}

} // verus!
