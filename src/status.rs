use vstd::prelude::*;
use vstd::string::StringSliceAdditionalSpecFns;

verus! {

/// The progress keys that a capture process reports.
#[derive(Clone, Copy, Debug, PartialEq, Eq, Structural)]
pub enum FfmpegStatusField {
    BitRate,
    Duration,
    Fps,
    Frame,
    Size,
    Speed,
}

/// `frame` in ASCII.
pub open spec fn key_frame() -> Seq<u8> {
    seq![102u8, 114u8, 97u8, 109u8, 101u8]
}

/// `fps` in ASCII.
pub open spec fn key_fps() -> Seq<u8> {
    seq![102u8, 112u8, 115u8]
}

/// `size` in ASCII.
pub open spec fn key_size() -> Seq<u8> {
    seq![115u8, 105u8, 122u8, 101u8]
}

/// `time` in ASCII.
pub open spec fn key_time() -> Seq<u8> {
    seq![116u8, 105u8, 109u8, 101u8]
}

/// `bitrate` in ASCII.
pub open spec fn key_bitrate() -> Seq<u8> {
    seq![98u8, 105u8, 116u8, 114u8, 97u8, 116u8, 101u8]
}

/// `speed` in ASCII.
pub open spec fn key_speed() -> Seq<u8> {
    seq![115u8, 112u8, 101u8, 101u8, 100u8]
}

/// Which progress field a key names; keys are matched exactly and
/// case-sensitively.
pub open spec fn kind_of(key: Seq<u8>) -> Option<FfmpegStatusField> {
    if key == key_frame() {
        Some(FfmpegStatusField::Frame)
    } else if key == key_fps() {
        Some(FfmpegStatusField::Fps)
    } else if key == key_size() {
        Some(FfmpegStatusField::Size)
    } else if key == key_time() {
        Some(FfmpegStatusField::Duration)
    } else if key == key_bitrate() {
        Some(FfmpegStatusField::BitRate)
    } else if key == key_speed() {
        Some(FfmpegStatusField::Speed)
    } else {
        None
    }
}

/// Compares `s[from..to]` with `b`.
fn range_equals(s: &[u8], from: usize, to: usize, b: &[u8]) -> (r: bool)
    requires
        from <= to <= s@.len(),
    ensures
        r == (s@.subrange(from as int, to as int) == b@),
{
    if to - from != b.len() {
        return false;
    }
    let mut i: usize = 0;
    while i < b.len()
        invariant
            from <= to <= s@.len(),
            to - from == b@.len(),
            i <= b@.len(),
            forall|j: int| 0 <= j < i ==> s@[from + j] == b@[j],
        decreases b@.len() - i,
    {
        if s[from + i] != b[i] {
            return false;
        }
        i = i + 1;
    }
    assert(s@.subrange(from as int, to as int) =~= b@);
    true
}

/// Field kind of the key `s[from..to]`.
fn key_kind(s: &[u8], from: usize, to: usize) -> (r: Option<FfmpegStatusField>)
    requires
        from <= to <= s@.len(),
    ensures
        r == kind_of(s@.subrange(from as int, to as int)),
{
    // the six keys in ASCII, as `key_frame` and its siblings spell them
    let frame: [u8; 5] = [102u8, 114u8, 97u8, 109u8, 101u8];
    let fps: [u8; 3] = [102u8, 112u8, 115u8];
    let size: [u8; 4] = [115u8, 105u8, 122u8, 101u8];
    let time: [u8; 4] = [116u8, 105u8, 109u8, 101u8];
    let bitrate: [u8; 7] = [98u8, 105u8, 116u8, 114u8, 97u8, 116u8, 101u8];
    let speed: [u8; 5] = [115u8, 112u8, 101u8, 101u8, 100u8];
    assert(frame@ =~= key_frame());
    assert(fps@ =~= key_fps());
    assert(size@ =~= key_size());
    assert(time@ =~= key_time());
    assert(bitrate@ =~= key_bitrate());
    assert(speed@ =~= key_speed());
    if range_equals(s, from, to, &frame) {
        Some(FfmpegStatusField::Frame)
    } else if range_equals(s, from, to, &fps) {
        Some(FfmpegStatusField::Fps)
    } else if range_equals(s, from, to, &size) {
        Some(FfmpegStatusField::Size)
    } else if range_equals(s, from, to, &time) {
        Some(FfmpegStatusField::Duration)
    } else if range_equals(s, from, to, &bitrate) {
        Some(FfmpegStatusField::BitRate)
    } else if range_equals(s, from, to, &speed) {
        Some(FfmpegStatusField::Speed)
    } else {
        None
    }
}

/// Field kind of a key given as bytes.
pub fn field_kind_bytes(s: &[u8]) -> (r: Option<FfmpegStatusField>)
    ensures
        r == kind_of(s@),
{
    proof {
        assert(s@.subrange(0, s@.len() as int) =~= s@);
    }
    key_kind(s, 0, s.len())
}

/// Field kind of a key; `None` for a key that is not a progress field.
pub fn field_kind(s: &str) -> (r: Option<FfmpegStatusField>)
    ensures
        r == kind_of(s.spec_bytes()),
{
    field_kind_bytes(s.as_bytes())
}

/// The byte classes of the progress-line grammar (ASCII only).
#[derive(Clone, Copy, Debug, PartialEq, Eq, Structural)]
pub enum ByteClass {
    /// `0`-`9`
    Digit,
    /// letters, digits and `_`: the bytes of a key
    Word,
    /// word bytes and `.`, `/`, `:`, `-`: the bytes of a value
    Value,
    /// the blank between `=` and a value
    Space,
}

/// ASCII `0` to `9`.
pub open spec fn is_digit(b: u8) -> bool {
    48 <= b <= 57
}

/// ASCII digit, letter or `_`.
pub open spec fn is_word_byte(b: u8) -> bool {
    is_digit(b) || (65 <= b <= 90) || (97 <= b <= 122) || b == 95
}

/// Byte `b` belongs to class `c` (`.` is 46, `/` 47, `:` 58, `-` 45, blank 32).
pub open spec fn in_class(c: ByteClass, b: u8) -> bool {
    match c {
        ByteClass::Digit => is_digit(b),
        ByteClass::Word => is_word_byte(b),
        ByteClass::Value => is_word_byte(b) || b == 46 || b == 47 || b == 58 || b == 45,
        ByteClass::Space => b == 32,
    }
}

fn byte_in_class(c: ByteClass, b: u8) -> (r: bool)
    ensures
        r == in_class(c, b),
{
    let digit = 48 <= b && b <= 57;
    let word = digit || (65 <= b && b <= 90) || (97 <= b && b <= 122) || b == 95;
    match c {
        ByteClass::Digit => digit,
        ByteClass::Word => word,
        ByteClass::Value => word || b == 46 || b == 47 || b == 58 || b == 45,
        ByteClass::Space => b == 32,
    }
}

/// Length of the run of bytes of class `c` that starts at `i`.
pub open spec fn run(s: Seq<u8>, i: int, c: ByteClass) -> nat
    decreases s.len() - i,
{
    if 0 <= i < s.len() && in_class(c, s[i]) {
        1 + run(s, i + 1, c)
    } else {
        0
    }
}

/// A run stays inside `s`, holds only bytes of its class, and ends at a
/// byte of another class or at the end.
pub proof fn lemma_run_bounded(s: Seq<u8>, i: int, c: ByteClass)
    requires
        0 <= i <= s.len(),
    ensures
        i + run(s, i, c) <= s.len(),
        forall|j: int| i <= j < i + run(s, i, c) ==> in_class(c, #[trigger] s[j]),
        i + run(s, i, c) < s.len() ==> !in_class(c, s[i + run(s, i, c)]),
    decreases s.len() - i,
{
    if i < s.len() && in_class(c, s[i]) {
        lemma_run_bounded(s, i + 1, c);
    }
}

/// End of the run of bytes of class `c` that starts at `i`.
fn skip_class(s: &[u8], i: usize, c: ByteClass) -> (e: usize)
    requires
        i <= s@.len(),
    ensures
        e == i + run(s@, i as int, c),
        e <= s@.len(),
{
    proof {
        lemma_run_bounded(s@, i as int, c);
    }
    let mut j: usize = i;
    while j < s.len() && byte_in_class(c, s[j])
        invariant
            i <= j <= s@.len(),
            i + run(s@, i as int, c) == j + run(s@, j as int, c),
        decreases s@.len() - j,
    {
        j = j + 1;
    }
    j
}

/// The number that a run of decimal digits denotes.
pub open spec fn digits_value(s: Seq<u8>) -> int
    decreases s.len(),
{
    if s.len() == 0 {
        0
    } else {
        digits_value(s.drop_last()) * 10 + (s.last() - 48)
    }
}

/// Every byte of `s` is a decimal digit.
pub open spec fn all_digits(s: Seq<u8>) -> bool {
    forall|i: int| 0 <= i < s.len() ==> is_digit(#[trigger] s[i])
}

proof fn lemma_digits_nonneg(s: Seq<u8>)
    requires
        all_digits(s),
    ensures
        digits_value(s) >= 0,
    decreases s.len(),
{
    if s.len() > 0 {
        assert(all_digits(s.drop_last()));
        lemma_digits_nonneg(s.drop_last());
    }
}

proof fn lemma_digits_prefix_le(s: Seq<u8>, j: int)
    requires
        all_digits(s),
        0 <= j <= s.len(),
    ensures
        0 <= digits_value(s.take(j)) <= digits_value(s),
    decreases s.len() - j,
{
    if j < s.len() {
        lemma_digits_prefix_le(s, j + 1);
        assert(s.take(j + 1).drop_last() =~= s.take(j));
        assert(all_digits(s.take(j)));
        lemma_digits_nonneg(s.take(j));
    } else {
        assert(s.take(j) =~= s);
        lemma_digits_nonneg(s);
    }
}

/// The value of the digits `s[from..to]`, or `None` when it exceeds `u32::MAX`.
fn digits_u32(s: &[u8], from: usize, to: usize) -> (r: Option<u32>)
    requires
        from <= to <= s@.len(),
        all_digits(s@.subrange(from as int, to as int)),
    ensures
        r == (if digits_value(s@.subrange(from as int, to as int)) <= u32::MAX {
            Some(digits_value(s@.subrange(from as int, to as int)) as u32)
        } else {
            None
        }),
{
    let ghost d = s@.subrange(from as int, to as int);
    let mut acc: u64 = 0;
    let mut i: usize = from;
    proof {
        assert(d.take(0) =~= Seq::<u8>::empty());
    }
    while i < to
        invariant
            from <= i <= to <= s@.len(),
            d == s@.subrange(from as int, to as int),
            all_digits(d),
            acc == digits_value(d.take(i - from)),
            acc <= u32::MAX,
        decreases to - i,
    {
        proof {
            assert(d.take(i - from + 1).drop_last() =~= d.take(i - from));
            assert(d[i - from] == s@[i as int]);
        }
        acc = acc * 10 + (s[i] - 48u8) as u64;
        i = i + 1;
        if acc > 4294967295u64 {
            proof {
                lemma_digits_prefix_le(d, i - from);
            }
            return None;
        }
    }
    proof {
        assert(d.take(to - from) =~= d);
    }
    Some(acc as u32)
}

/// What a `frame` value decodes to: a non-empty run of decimal digits that
/// fits in `u32`.
pub open spec fn frame_value(v: Seq<u8>) -> Option<u32> {
    if v.len() > 0 && all_digits(v) && digits_value(v) <= u32::MAX {
        Some(digits_value(v) as u32)
    } else {
        None
    }
}

/// Decodes the frame count `s[from..to]`.
fn decode_frame(s: &[u8], from: usize, to: usize) -> (r: Option<u32>)
    requires
        from <= to <= s@.len(),
    ensures
        r == frame_value(s@.subrange(from as int, to as int)),
{
    let ghost v = s@.subrange(from as int, to as int);
    if from == to {
        return None;
    }
    let e = skip_class(s, from, ByteClass::Digit);
    if e < to {
        proof {
            lemma_run_bounded(s@, from as int, ByteClass::Digit);
            assert(!is_digit(v[e - from]));
        }
        return None;
    }
    proof {
        lemma_run_bounded(s@, from as int, ByteClass::Digit);
        assert(all_digits(v));
    }
    digits_u32(s, from, to)
}

/// Digits after the decimal point, cut or padded with `0` to `e` digits.
pub open spec fn padded_fraction(f: Seq<u8>, e: nat) -> Seq<u8> {
    Seq::new(e, |j: int| if j < f.len() { f[j] } else { 48u8 })
}

/// Power of ten that a bit-rate unit letter stands for (`b`, `k` = 107 or
/// 75, `m` = 109 or 77); any other letter, or none, counts as `b`.
pub open spec fn unit_exponent(u: Option<u8>) -> nat {
    match u {
        Some(b) => if b == 107 || b == 75 {
            3
        } else if b == 109 || b == 77 {
            6
        } else {
            0
        },
        None => 0,
    }
}

/// `10^e`.
pub open spec fn pow10(e: nat) -> int
    decreases e,
{
    if e == 0 {
        1
    } else {
        10 * pow10((e - 1) as nat)
    }
}

/// Where the fraction digits of the number `<digits>[.<digits>]` at `i`
/// start (just past its integer digits when it has no point).
pub open spec fn fraction_start(v: Seq<u8>, i: int) -> int {
    let n = i + run(v, i, ByteClass::Digit);
    if n < v.len() && v[n] == 46 {
        n + 1
    } else {
        n
    }
}

/// Where the number `<digits>[.<digits>]` at `i` ends.
pub open spec fn number_end(v: Seq<u8>, i: int) -> int {
    let n = i + run(v, i, ByteClass::Digit);
    if n < v.len() && v[n] == 46 {
        n + 1 + run(v, n + 1, ByteClass::Digit)
    } else {
        n
    }
}

/// The number `<digits>[.<digits>]` at `i` times `10^e`, the fraction
/// truncated; missing digits count as zero.
pub open spec fn scaled_number(v: Seq<u8>, i: int, e: nat) -> int {
    digits_value(v.subrange(i, i + run(v, i, ByteClass::Digit))) * pow10(e) + digits_value(
        padded_fraction(v.subrange(fraction_start(v, i), number_end(v, i)), e),
    )
}

/// The byte right after the number at the start of `v`, if any.
pub open spec fn unit_byte(v: Seq<u8>) -> Option<u8> {
    if number_end(v, 0) < v.len() {
        Some(v[number_end(v, 0)])
    } else {
        None
    }
}

/// Bits per second denoted by a value `<digits>[.<digits>]<unit>...`: the
/// number times the unit's multiplier, with the fraction truncated to whole
/// bits. A value without a leading number counts as zero.
pub open spec fn bitrate_value(v: Seq<u8>) -> int {
    scaled_number(v, 0, unit_exponent(unit_byte(v)))
}

/// What a `bitrate` value decodes to: `None` when it exceeds `u32::MAX`.
pub open spec fn bitrate_of(v: Seq<u8>) -> Option<u32> {
    if bitrate_value(v) <= u32::MAX {
        Some(bitrate_value(v) as u32)
    } else {
        None
    }
}

proof fn lemma_pow10_le(a: nat, b: nat)
    requires
        a <= b,
    ensures
        1 <= pow10(a) <= pow10(b),
    decreases b - a,
{
    if a < b {
        lemma_pow10_le(a, (b - 1) as nat);
    } else {
        lemma_pow10_positive(a);
    }
}

proof fn lemma_pow10_positive(a: nat)
    ensures
        pow10(a) >= 1,
    decreases a,
{
    if a > 0 {
        lemma_pow10_positive((a - 1) as nat);
    }
}

fn unit_exponent_of(u: Option<u8>) -> (e: usize)
    ensures
        e == unit_exponent(u),
{
    match u {
        Some(b) => if b == 107 || b == 75 {
            3
        } else if b == 109 || b == 77 {
            6
        } else {
            0
        },
        None => 0,
    }
}

/// The fraction digits `v[fs..fe]`, padded or cut to `e` digits, as a number.
fn scaled_fraction(v: &[u8], fs: usize, fe: usize, e: usize) -> (r: u64)
    requires
        fs <= fe <= v@.len(),
        e <= 6,
        all_digits(v@.subrange(fs as int, fe as int)),
    ensures
        r == digits_value(padded_fraction(v@.subrange(fs as int, fe as int), e as nat)),
        r < pow10(e as nat),
{
    let ghost f = v@.subrange(fs as int, fe as int);
    let ghost p = padded_fraction(f, e as nat);
    let mut acc: u64 = 0;
    let mut j: usize = 0;
    proof {
        assert(p.take(0) =~= Seq::<u8>::empty());
        lemma_pow10_le(e as nat, 6);
        reveal_with_fuel(pow10, 7);
        assert(pow10(6) == 1000000);
    }
    while j < e
        invariant
            fs <= fe <= v@.len(),
            e <= 6,
            j <= e,
            f == v@.subrange(fs as int, fe as int),
            all_digits(f),
            p == padded_fraction(f, e as nat),
            acc == digits_value(p.take(j as int)),
            acc < pow10(j as nat),
            pow10(e as nat) <= 1000000,
        decreases e - j,
    {
        let d: u8 = if j < fe - fs {
            v[fs + j]
        } else {
            48u8
        };
        proof {
            assert(p[j as int] == d);
            assert(is_digit(d)) by {
                if j < fe - fs {
                    assert(f[j as int] == d);
                }
            }
            assert(p.take(j + 1).drop_last() =~= p.take(j as int));
            lemma_pow10_le((j + 1) as nat, e as nat);
            let a = acc as int;
            let pj = pow10(j as nat);
            assert(a * 10 + (d - 48) < 10 * pj) by (nonlinear_arith)
                requires
                    a < pj,
                    0 <= d - 48 <= 9,
            ;
        }
        acc = acc * 10 + (d - 48u8) as u64;
        j = j + 1;
    }
    proof {
        assert(p.take(e as int) =~= p);
    }
    acc
}

/// End of the number `<digits>[.<digits>]` at `i`.
fn number_end_at(v: &[u8], i: usize) -> (r: usize)
    requires
        i <= v@.len(),
    ensures
        r == number_end(v@, i as int),
        r <= v@.len(),
{
    let n = skip_class(v, i, ByteClass::Digit);
    if n < v.len() && v[n] == 46u8 {
        skip_class(v, n + 1, ByteClass::Digit)
    } else {
        n
    }
}

/// The number `<digits>[.<digits>]` at `i` times `10^e`; `None` when that
/// exceeds `u32::MAX`.
fn scaled_number_at(v: &[u8], i: usize, e: usize) -> (r: Option<u32>)
    requires
        i <= v@.len(),
        e <= 6,
    ensures
        r == (if scaled_number(v@, i as int, e as nat) <= u32::MAX {
            Some(scaled_number(v@, i as int, e as nat) as u32)
        } else {
            None
        }),
{
    let n = skip_class(v, i, ByteClass::Digit);
    proof {
        lemma_run_bounded(v@, i as int, ByteClass::Digit);
        assert(all_digits(v@.subrange(i as int, n as int)));
        lemma_digits_nonneg(v@.subrange(i as int, n as int));
    }
    let int_part = digits_u32(v, i, n);
    let has_point = n < v.len() && v[n] == 46u8;
    let fs: usize = if has_point {
        n + 1
    } else {
        n
    };
    let fe: usize = if has_point {
        skip_class(v, n + 1, ByteClass::Digit)
    } else {
        n
    };
    proof {
        lemma_run_bounded(v@, fs as int, ByteClass::Digit);
        let f = v@.subrange(fs as int, fe as int);
        assert forall|k: int| 0 <= k < f.len() implies is_digit(#[trigger] f[k]) by {
            assert(f[k] == v@[fs + k]);
            assert(in_class(ByteClass::Digit, v@[fs + k]));
        }
    }
    let frac = scaled_fraction(v, fs, fe, e);
    let ghost whole = digits_value(v@.subrange(i as int, n as int));
    let ghost fv = digits_value(padded_fraction(v@.subrange(fs as int, fe as int), e as nat));
    proof {
        lemma_pow10_le(0, e as nat);
        assert(scaled_number(v@, i as int, e as nat) == whole * pow10(e as nat) + fv);
    }
    match int_part {
        None => {
            proof {
                let pf = padded_fraction(v@.subrange(fs as int, fe as int), e as nat);
                assert(all_digits(pf));
                lemma_digits_nonneg(pf);
                let pe = pow10(e as nat);
                assert(whole * pe + fv >= whole) by (nonlinear_arith)
                    requires
                        whole >= 0,
                        pe >= 1,
                        fv >= 0,
                ;
            }
            None
        },
        Some(w) => {
            let mult = pow10_exec(e);
            proof {
                lemma_pow10_le(e as nat, 6);
                reveal_with_fuel(pow10, 7);
                assert((w as u64) * mult <= 4294967295 * 1000000) by (nonlinear_arith)
                    requires
                        w <= 4294967295,
                        mult <= 1000000,
                ;
            }
            let total: u64 = (w as u64) * mult + frac;
            if total > 4294967295u64 {
                None
            } else {
                Some(total as u32)
            }
        },
    }
}

fn pow10_exec(e: usize) -> (r: u64)
    requires
        e <= 6,
    ensures
        r == pow10(e as nat),
{
    let mut r: u64 = 1;
    let mut j: usize = 0;
    while j < e
        invariant
            j <= e <= 6,
            r == pow10(j as nat),
        decreases e - j,
    {
        proof {
            lemma_pow10_le((j + 1) as nat, 6);
            reveal_with_fuel(pow10, 7);
        }
        r = r * 10;
        j = j + 1;
    }
    r
}

/// Decodes a bit rate given as bytes.
pub fn parse_bitrate_bytes(v: &[u8]) -> (r: Option<u32>)
    ensures
        r == bitrate_of(v@),
{
    let end = number_end_at(v, 0);
    let u: Option<u8> = if end < v.len() {
        Some(v[end])
    } else {
        None
    };
    let e = unit_exponent_of(u);
    scaled_number_at(v, 0, e)
}

proof fn lemma_scaled_nonneg(v: Seq<u8>, i: int, e: nat)
    requires
        0 <= i <= v.len(),
    ensures
        scaled_number(v, i, e) >= 0,
{
    lemma_run_bounded(v, i, ByteClass::Digit);
    let d = v.subrange(i, i + run(v, i, ByteClass::Digit));
    assert(all_digits(d));
    lemma_digits_nonneg(d);
    let n = i + run(v, i, ByteClass::Digit);
    if n < v.len() && v[n] == 46 {
        lemma_run_bounded(v, n + 1, ByteClass::Digit);
    }
    let f = v.subrange(fraction_start(v, i), number_end(v, i));
    assert(all_digits(f)) by {
        assert forall|k: int| 0 <= k < f.len() implies is_digit(#[trigger] f[k]) by {
            assert(f[k] == v[fraction_start(v, i) + k]);
        }
    }
    let p = padded_fraction(f, e);
    assert(all_digits(p));
    lemma_digits_nonneg(p);
    lemma_pow10_positive(e);
    let a = digits_value(d);
    let b = pow10(e);
    assert(a * b >= 0) by (nonlinear_arith)
        requires
            a >= 0,
            b >= 1,
    ;
}

/// `v` begins with a decimal digit.
pub open spec fn starts_with_digit(v: Seq<u8>) -> bool {
    v.len() > 0 && is_digit(v[0])
}

/// What an `fps` value decodes to: whole frames per second.
pub open spec fn fps_of(v: Seq<u8>) -> Option<u8> {
    if starts_with_digit(v) && scaled_number(v, 0, 0) <= 255 {
        Some(scaled_number(v, 0, 0) as u8)
    } else {
        None
    }
}

/// What a `speed` value such as `1.25x` decodes to: hundredths of real time.
pub open spec fn speed_of(v: Seq<u8>) -> Option<u32> {
    if starts_with_digit(v) && scaled_number(v, 0, 2) <= u32::MAX {
        Some(scaled_number(v, 0, 2) as u32)
    } else {
        None
    }
}

/// Bytes per unit of a `size` value: `k` for 1024, `m` for 1024 * 1024 (in
/// either case), anything else for bytes.
pub open spec fn size_multiplier(u: Option<u8>) -> int {
    match u {
        Some(b) => if b == 107 || b == 75 {
            1024
        } else if b == 109 || b == 77 {
            1048576
        } else {
            1
        },
        None => 1,
    }
}

/// What a `size` value such as `1024kB` decodes to, in bytes; the number is
/// taken whole and must fit in `u32`.
pub open spec fn size_of(v: Seq<u8>) -> Option<u64> {
    if starts_with_digit(v) && scaled_number(v, 0, 0) <= u32::MAX {
        Some((scaled_number(v, 0, 0) * size_multiplier(unit_byte(v))) as u64)
    } else {
        None
    }
}

/// A `time` value has the shape `<h>:<m>:<s>[.<fraction>]` (`:` is 58), each part with
/// at least one digit.
pub open spec fn time_shape(v: Seq<u8>) -> bool {
    let h = run(v, 0, ByteClass::Digit) as int;
    let m = h + 1 + run(v, h + 1, ByteClass::Digit);
    &&& h > 0
    &&& h < v.len()
    &&& v[h] == 58
    &&& m > h + 1
    &&& m < v.len()
    &&& v[m] == 58
    &&& run(v, m + 1, ByteClass::Digit) > 0
}

/// Milliseconds denoted by a `time` value, the fraction truncated.
pub open spec fn time_millis(v: Seq<u8>) -> int {
    let h = run(v, 0, ByteClass::Digit) as int;
    let m = h + 1 + run(v, h + 1, ByteClass::Digit);
    digits_value(v.subrange(0, h)) * 3600000 + digits_value(v.subrange(h + 1, m)) * 60000
        + scaled_number(v, m + 1, 3)
}

/// What a `time` value decodes to: elapsed milliseconds.
pub open spec fn time_of(v: Seq<u8>) -> Option<u32> {
    if time_shape(v) && time_millis(v) <= u32::MAX {
        Some(time_millis(v) as u32)
    } else {
        None
    }
}

fn decode_fps(v: &[u8]) -> (r: Option<u8>)
    ensures
        r == fps_of(v@),
{
    if v.len() == 0 || !(48u8 <= v[0] && v[0] <= 57u8) {
        return None;
    }
    proof {
        lemma_scaled_nonneg(v@, 0, 0);
    }
    match scaled_number_at(v, 0, 0) {
        Some(n) => if n <= 255 {
            Some(n as u8)
        } else {
            None
        },
        None => None,
    }
}

fn decode_speed(v: &[u8]) -> (r: Option<u32>)
    ensures
        r == speed_of(v@),
{
    if v.len() == 0 || !(48u8 <= v[0] && v[0] <= 57u8) {
        return None;
    }
    scaled_number_at(v, 0, 2)
}

fn decode_size(v: &[u8]) -> (r: Option<u64>)
    ensures
        r == size_of(v@),
{
    if v.len() == 0 || !(48u8 <= v[0] && v[0] <= 57u8) {
        return None;
    }
    let end = number_end_at(v, 0);
    let mult: u64 = if end < v.len() && (v[end] == 107u8 || v[end] == 75u8) {
        1024
    } else if end < v.len() && (v[end] == 109u8 || v[end] == 77u8) {
        1048576
    } else {
        1
    };
    proof {
        lemma_scaled_nonneg(v@, 0, 0);
        assert(mult == size_multiplier(unit_byte(v@)));
    }
    match scaled_number_at(v, 0, 0) {
        Some(n) => {
            proof {
                assert((n as u64) * mult <= 4294967295 * 1048576) by (nonlinear_arith)
                    requires
                        n <= 4294967295,
                        mult <= 1048576,
                ;
            }
            Some((n as u64) * mult)
        },
        None => None,
    }
}

fn decode_time(v: &[u8]) -> (r: Option<u32>)
    ensures
        r == time_of(v@),
{
    let h = skip_class(v, 0, ByteClass::Digit);
    if h == 0 || h >= v.len() || v[h] != 58u8 {
        return None;
    }
    let m = skip_class(v, h + 1, ByteClass::Digit);
    if m == h + 1 || m >= v.len() || v[m] != 58u8 {
        return None;
    }
    if m + 1 >= v.len() || !(48u8 <= v[m + 1] && v[m + 1] <= 57u8) {
        return None;
    }
    proof {
        lemma_run_bounded(v@, 0, ByteClass::Digit);
        lemma_run_bounded(v@, h + 1, ByteClass::Digit);
        assert(all_digits(v@.subrange(0, h as int)));
        assert(all_digits(v@.subrange(h + 1, m as int)));
        lemma_digits_nonneg(v@.subrange(0, h as int));
        lemma_digits_nonneg(v@.subrange(h + 1, m as int));
        lemma_scaled_nonneg(v@, m + 1, 3);
    }
    let hours = digits_u32(v, 0, h);
    let minutes = digits_u32(v, h + 1, m);
    let seconds = scaled_number_at(v, m + 1, 3);
    match (hours, minutes, seconds) {
        (Some(hh), Some(mm), Some(ss)) => {
            let total: u64 = (hh as u64) * 3600000 + (mm as u64) * 60000 + ss as u64;
            if total > 4294967295u64 {
                None
            } else {
                Some(total as u32)
            }
        },
        _ => None,
    }
}

/// Decodes a bit rate such as `128.0kbits/s` to bits per second; `None` when
/// the result does not fit in `u32`.
pub fn parse_bitrate(s: &str) -> (r: Option<u32>)
    ensures
        r == bitrate_of(s.spec_bytes()),
{
    parse_bitrate_bytes(s.as_bytes())
}

/// One progress record, decoded from a status line. A field whose key is
/// absent, or whose value does not decode, is zero.
#[derive(Clone, Copy, Debug, PartialEq, Eq, Structural)]
pub struct CaptureStatus {
    /// Whole frames per second.
    pub fps: u8,
    /// Output size in bytes.
    pub size: u64,
    /// Elapsed encoded time in milliseconds.
    pub time: u32,
    /// Speed relative to real time, in hundredths.
    pub speed: u32,
    /// Frames written so far.
    pub frames: u32,
    /// Bit rate in bits per second.
    pub bitrate: u32,
}

/// The record before any token is applied.
pub open spec fn empty_status() -> CaptureStatus {
    CaptureStatus { fps: 0, size: 0, time: 0, speed: 0, frames: 0, bitrate: 0 }
}

/// A `key=value` token (`=` is 61) starts at `i`: a maximal run of word bytes, `=`,
/// any number of blanks, then at least one value byte.
pub open spec fn token_at(s: Seq<u8>, i: int) -> bool {
    let k = i + run(s, i, ByteClass::Word);
    let v = k + 1 + run(s, k + 1, ByteClass::Space);
    &&& k > i
    &&& k < s.len()
    &&& s[k] == 61
    &&& run(s, v, ByteClass::Value) > 0
}

/// The `(key, value)` tokens of `s` from position `i` on, found left to
/// right without overlap; bytes that start no token are skipped.
pub open spec fn tokens_from(s: Seq<u8>, i: int) -> Seq<(Seq<u8>, Seq<u8>)>
    decreases s.len() - i,
    via tokens_from_decreases
{
    if i < 0 || i >= s.len() {
        seq![]
    } else if token_at(s, i) {
        let k = i + run(s, i, ByteClass::Word);
        let v = k + 1 + run(s, k + 1, ByteClass::Space);
        let e = v + run(s, v, ByteClass::Value);
        seq![(s.subrange(i, k), s.subrange(v, e))] + tokens_from(s, e)
    } else {
        tokens_from(s, i + 1)
    }
}

#[via_fn]
proof fn tokens_from_decreases(s: Seq<u8>, i: int) {
    if 0 <= i < s.len() && token_at(s, i) {
        let k = i + run(s, i, ByteClass::Word);
        lemma_run_bounded(s, i, ByteClass::Word);
        lemma_run_bounded(s, k + 1, ByteClass::Space);
        let v = k + 1 + run(s, k + 1, ByteClass::Space);
        lemma_run_bounded(s, v, ByteClass::Value);
    }
}

/// The `(key, value)` tokens of a whole line.
pub open spec fn tokens(s: Seq<u8>) -> Seq<(Seq<u8>, Seq<u8>)> {
    tokens_from(s, 0)
}

/// The effect of one token on the record being built and on whether a
/// progress key was seen. A value that does not decode leaves its field as
/// it was.
pub open spec fn apply_token(acc: (CaptureStatus, bool), t: (Seq<u8>, Seq<u8>)) -> (
    CaptureStatus,
    bool,
) {
    match kind_of(t.0) {
        None => acc,
        Some(FfmpegStatusField::Frame) => match frame_value(t.1) {
            Some(n) => (CaptureStatus { frames: n, ..acc.0 }, true),
            None => (acc.0, true),
        },
        Some(FfmpegStatusField::BitRate) => match bitrate_of(t.1) {
            Some(b) => (CaptureStatus { bitrate: b, ..acc.0 }, true),
            None => (acc.0, true),
        },
        Some(FfmpegStatusField::Fps) => match fps_of(t.1) {
            Some(f) => (CaptureStatus { fps: f, ..acc.0 }, true),
            None => (acc.0, true),
        },
        Some(FfmpegStatusField::Size) => match size_of(t.1) {
            Some(z) => (CaptureStatus { size: z, ..acc.0 }, true),
            None => (acc.0, true),
        },
        Some(FfmpegStatusField::Duration) => match time_of(t.1) {
            Some(d) => (CaptureStatus { time: d, ..acc.0 }, true),
            None => (acc.0, true),
        },
        Some(FfmpegStatusField::Speed) => match speed_of(t.1) {
            Some(x) => (CaptureStatus { speed: x, ..acc.0 }, true),
            None => (acc.0, true),
        },
    }
}

/// Applies the tokens `ts` in order, starting from `acc`.
pub open spec fn fold_tokens(ts: Seq<(Seq<u8>, Seq<u8>)>, acc: (CaptureStatus, bool)) -> (
    CaptureStatus,
    bool,
)
    decreases ts.len(),
{
    if ts.len() == 0 {
        acc
    } else {
        fold_tokens(ts.drop_first(), apply_token(acc, ts[0]))
    }
}

/// The record a status line decodes to: `None` when no progress key occurs.
pub open spec fn status_of(s: Seq<u8>) -> Option<CaptureStatus> {
    let r = fold_tokens(tokens(s), (empty_status(), false));
    if r.1 {
        Some(r.0)
    } else {
        None
    }
}

/// Decodes a status line given as bytes.
pub fn parse_status_bytes(line: &[u8]) -> (r: Option<CaptureStatus>)
    ensures
        r == status_of(line@),
{
    let ghost s = line@;
    let mut st = CaptureStatus { fps: 0, size: 0, time: 0, speed: 0, frames: 0, bitrate: 0 };
    let mut seen = false;
    let mut i: usize = 0;
    while i < line.len()
        invariant
            s == line@,
            i <= s.len(),
            fold_tokens(tokens(s), (empty_status(), false)) == fold_tokens(
                tokens_from(s, i as int),
                (st, seen),
            ),
        decreases s.len() - i,
    {
        let k = skip_class(line, i, ByteClass::Word);
        if k > i && k < line.len() && line[k] == 61u8 {
            let v = skip_class(line, k + 1, ByteClass::Space);
            let e = skip_class(line, v, ByteClass::Value);
            if e > v {
                let ghost t = (s.subrange(i as int, k as int), s.subrange(v as int, e as int));
                let ghost acc = (st, seen);
                match key_kind(line, i, k) {
                    None => {},
                    Some(FfmpegStatusField::Frame) => {
                        if let Some(n) = decode_frame(line, v, e) {
                            st.frames = n;
                        }
                        seen = true;
                    },
                    Some(FfmpegStatusField::BitRate) => {
                        if let Some(b) = parse_bitrate_bytes(&line[v..e]) {
                            st.bitrate = b;
                        }
                        seen = true;
                    },
                    Some(FfmpegStatusField::Fps) => {
                        if let Some(f) = decode_fps(&line[v..e]) {
                            st.fps = f;
                        }
                        seen = true;
                    },
                    Some(FfmpegStatusField::Size) => {
                        if let Some(z) = decode_size(&line[v..e]) {
                            st.size = z;
                        }
                        seen = true;
                    },
                    Some(FfmpegStatusField::Duration) => {
                        if let Some(d) = decode_time(&line[v..e]) {
                            st.time = d;
                        }
                        seen = true;
                    },
                    Some(FfmpegStatusField::Speed) => {
                        if let Some(x) = decode_speed(&line[v..e]) {
                            st.speed = x;
                        }
                        seen = true;
                    },
                }
                proof {
                    let rest = tokens_from(s, e as int);
                    assert(tokens_from(s, i as int) == seq![t] + rest);
                    assert((seq![t] + rest).drop_first() =~= rest);
                    assert((st, seen) == apply_token(acc, t));
                }
                i = e;
                continue;
            }
        }
        i = i + 1;
    }
    if seen {
        Some(st)
    } else {
        None
    }
}

/// Decodes one framed status line such as
/// `frame=  25 fps= 25 size=  256kB time=00:00:01.00 bitrate=2097.2kbits/s`.
/// Unknown keys are ignored, a value that does not decode leaves its field
/// at zero or at an earlier value, and a line without any progress key
/// gives `None`.
pub fn parse_ffmpeg_statusline(line: &str) -> (r: Option<CaptureStatus>)
    ensures
        r == status_of(line.spec_bytes()),
{
    parse_status_bytes(line.as_bytes())
}

proof fn lemma_fold_without_frame(ts: Seq<(Seq<u8>, Seq<u8>)>, acc: (CaptureStatus, bool))
    requires
        forall|j: int| 0 <= j < ts.len() ==> (#[trigger] ts[j]).0 != key_frame(),
    ensures
        fold_tokens(ts, acc).0.frames == acc.0.frames,
        acc.1 ==> fold_tokens(ts, acc).1,
    decreases ts.len(),
{
    if ts.len() > 0 {
        let rest = ts.drop_first();
        assert forall|j: int| 0 <= j < rest.len() implies (#[trigger] rest[j]).0 != key_frame() by {
            assert(rest[j] == ts[j + 1]);
        }
        assert(ts[0].0 != key_frame());
        lemma_fold_without_frame(rest, apply_token(acc, ts[0]));
    }
}

proof fn lemma_fold_frame(ts: Seq<(Seq<u8>, Seq<u8>)>, acc: (CaptureStatus, bool), n: u32)
    requires
        exists|j: int| 0 <= j < ts.len() && (#[trigger] ts[j]).0 == key_frame(),
        forall|j: int|
            0 <= j < ts.len() && (#[trigger] ts[j]).0 == key_frame() ==> frame_value(ts[j].1)
                == Some(n),
    ensures
        fold_tokens(ts, acc).0.frames == n,
        fold_tokens(ts, acc).1,
    decreases ts.len(),
{
    let rest = ts.drop_first();
    let next = apply_token(acc, ts[0]);
    assert forall|j: int|
        0 <= j < rest.len() && (#[trigger] rest[j]).0 == key_frame() implies frame_value(rest[j].1)
        == Some(n) by {
        assert(rest[j] == ts[j + 1]);
    }
    if ts[0].0 == key_frame() {
        assert(next.0.frames == n && next.1);
        if exists|j: int| 0 <= j < rest.len() && (#[trigger] rest[j]).0 == key_frame() {
            lemma_fold_frame(rest, next, n);
        } else {
            lemma_fold_without_frame(rest, next);
        }
    } else {
        let j = choose|j: int| 0 <= j < ts.len() && (#[trigger] ts[j]).0 == key_frame();
        assert(rest[j - 1] == ts[j]);
        lemma_fold_frame(rest, next, n);
    }
}

/// A status line that holds a `frame` token whose value is the decimal
/// numeral of `n` (and no `frame` token with another value) decodes to a
/// record whose frame count is `n`.
pub proof fn lemma_frame_count_reported(line: Seq<u8>, n: u32)
    requires
        exists|j: int| 0 <= j < tokens(line).len() && (#[trigger] tokens(line)[j]).0 == key_frame(),
        forall|j: int|
            0 <= j < tokens(line).len() && (#[trigger] tokens(line)[j]).0 == key_frame() ==> {
                let v = tokens(line)[j].1;
                v.len() > 0 && all_digits(v) && digits_value(v) == n
            },
    ensures
        status_of(line) is Some,
        status_of(line)->Some_0.frames == n,
{
    let ts = tokens(line);
    assert forall|j: int|
        0 <= j < ts.len() && (#[trigger] ts[j]).0 == key_frame() implies frame_value(ts[j].1)
        == Some(n) by {
        let v = ts[j].1;
        assert(digits_value(v) == n);
    }
    lemma_fold_frame(ts, (empty_status(), false), n);
}

} // verus!
