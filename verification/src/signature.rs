//! Challenge signature: a hash over everything that Cutter Grid planning depends
//! on.
//!
//! A trajectory plan names the signature it was planned against; the server
//! computes it from its own copy of the challenge and refuses a mismatch. The
//! hash is taken over a JSON document whose bytes are fixed here: the order of
//! its keys, the spelling of its numbers and the order of its voxel keys are
//! normative.

use crate::domain::{
    Axis, ChallengeDefinition, JointConfig, Number, RobotGeometryConfig, ServoAxisId, ServoMapping,
    Vec3, VoxelConfig, VoxelCoord,
};
use crate::error::{coord_key, coord_text};
use crate::number::Real;
use crate::text::{
    chars_of, digit_char, hex_text, integer_text, lemma_text_less_asymmetric, lemma_text_less_irreflexive,
    lemma_text_less_total, lemma_text_less_transitive, less, push_hex, push_integer, text_less,
};
use vstd::arithmetic::power2::pow2;
use vstd::prelude::*;
use vstd::relations::{sorted_by, total_ordering};

verus! {

/// What the hash of no units is.
pub const FNV_OFFSET_BASIS: u64 = 14_695_981_039_346_656_037;

/// What the hash is multiplied by after each unit.
pub const FNV_PRIME: u64 = 1_099_511_628_211;

/// The opening of a signature document: profile version, planner version and
/// the planner's search constants. Two planners that search differently can
/// disagree about which programs are reachable, so a plan built under one set of
/// constants must not be replayed as though it were built under another.
pub const DOCUMENT_OPENING: &'static str =
    "{\"profileVersion\":2,\"plannerVersion\":\"cutter-grid-ladder-v2\",\"ladder\":{\"candidateSeedBudgets\":[24,96,384],\"candidateDeduplicationDistance\":0.01,\"candidateLimit\":128,\"entryOptionLimit\":32,\"edgeMaximumJointDeltaDeg\":0.5,\"edgeMaximumEndEffectorDistanceDivisor\":16,\"entryPrmHaltonNodes\":[2048,8192],\"entryPrmNeighbors\":24},\"joints\":[";

/// The UTF-16 units of a character.
pub open spec fn utf16_char(c: char) -> Seq<u16> {
    if (c as int) < 0x1_0000 {
        seq![c as u16]
    } else {
        seq![
            (0xd800 + (c as int - 0x1_0000) / 0x400) as u16,
            (0xdc00 + (c as int - 0x1_0000) % 0x400) as u16,
        ]
    }
}

/// The UTF-16 units of a text.
pub open spec fn utf16(text: Seq<char>) -> Seq<u16>
    decreases text.len(),
{
    if text.len() == 0 {
        Seq::empty()
    } else {
        utf16(text.drop_last()) + utf16_char(text.last())
    }
}

/// One step of the hash.
pub open spec fn fnv_step(value: u64, unit: u16) -> u64 {
    ((value ^ (unit as u64)) * FNV_PRIME % 0x1_0000_0000_0000_0000) as u64
}

/// The hash of some units.
pub open spec fn fnv(units: Seq<u16>) -> u64
    decreases units.len(),
{
    if units.len() == 0 {
        FNV_OFFSET_BASIS
    } else {
        fnv_step(fnv(units.drop_last()), units.last())
    }
}

fn mix(value: u64, unit: u16) -> (r: u64)
    ensures
        r == fnv_step(value, unit),
{
    (value ^ (unit as u64)).wrapping_mul(FNV_PRIME)
}

/// The hash after the units of one more character.
fn mix_char(value: u64, c: char, before: Ghost<Seq<u16>>) -> (r: u64)
    requires
        value == fnv(before@),
    ensures
        r == fnv(before@ + utf16_char(c)),
{
    let ghost after = before@ + utf16_char(c);
    let code: u32 = c as u32;
    if code < 0x1_0000 {
        let unit: u16 = code as u16;
        assert(after.drop_last() =~= before@);
        assert(after.last() == unit);
        mix(value, unit)
    } else {
        let high: u16 = (0xd800 + (code - 0x1_0000) / 0x400) as u16;
        let low: u16 = (0xdc00 + (code - 0x1_0000) % 0x400) as u16;
        assert(after.drop_last() =~= before@.push(high));
        assert(after.last() == low);
        assert(before@.push(high).drop_last() =~= before@);
        let mixed: u64 = mix(value, high);
        assert(mixed == fnv(before@.push(high)));
        mix(mixed, low)
    }
}

/// 64-bit FNV-1a over the UTF-16 units of a text, as sixteen hexadecimal digits.
pub fn fnv1a64(input: &str) -> (r: String)
    ensures
        r@ == hex_text(fnv(utf16(input@)) as nat, 16),
{
    let chars = chars_of(input);
    let mut value: u64 = FNV_OFFSET_BASIS;
    assert(utf16(chars@.take(0)) =~= Seq::<u16>::empty());
    for i in 0..chars.len()
        invariant
            value == fnv(utf16(chars@.take(i as int))),
    {
        value = mix_char(value, chars[i], Ghost(utf16(chars@.take(i as int))));
        assert(chars@.take(i + 1).drop_last() =~= chars@.take(i as int));
    }
    assert(chars@.take(chars@.len() as int) =~= input@);
    let mut out: String = String::new();
    push_hex(&mut out, value, 16);
    assert(out@ =~= hex_text(fnv(utf16(input@)) as nat, 16));
    out
}

/// The whole number that a value stands for.
pub open spec fn signed_whole(value: Real) -> int {
    if value.is_negative() {
        -(value.truncated() as int)
    } else {
        value.truncated() as int
    }
}

/// The bound under which every whole number has a double of its own, so that its
/// digits are its shortest spelling.
pub open spec fn spelling_bound() -> Real {
    Real { bits: 0x4340_0000_0000_0000 }
}

/// The spelling of a number in a signature document: a whole one has no
/// fractional part, any other its shortest decimal. Beyond the bound the shortest
/// decimal of a whole number is no longer all of its digits, and it is taken there
/// too.
pub open spec fn number_text(number: Number) -> Seq<char> {
    if number.value.whole() && number.value.absolute().below(spelling_bound()) {
        integer_text(signed_whole(number.value))
    } else {
        number.shortest@
    }
}

fn write_number(out: &mut String, number: &Number)
    ensures
        final(out)@ == old(out)@ + number_text(*number),
{
    let value = number.value;
    if value.is_whole() && value.abs().lt(Real { bits: 0x4340_0000_0000_0000 }) {
        proof {
            lemma_small_numbers_truncate_to_words(value);
        }
        let magnitude: u64 = value.truncate();
        if value.bits >= crate::number::SIGN_WEIGHT {
            push_integer(out, -(magnitude as i64));
        } else {
            push_integer(out, magnitude as i64);
        }
    } else {
        out.append(number.shortest.as_str());
    }
}

proof fn lemma_small_numbers_truncate_to_words(value: Real)
    requires
        value.magnitude() < 0x4340_0000_0000_0000,
    ensures
        value.truncated() < 0x20_0000_0000_0000,
{
    assert(value.significand() < 0x20_0000_0000_0000);
    assert(value.scale() <= 0);
    if value.scale() == 0 {
        vstd::arithmetic::power2::lemma2_to64();
        assert(value.significand() * 1 == value.significand()) by (nonlinear_arith);
    } else {
        let unit = vstd::arithmetic::power2::pow2((-value.scale()) as nat);
        vstd::arithmetic::power2::lemma_pow2_pos((-value.scale()) as nat);
        vstd::arithmetic::div_mod::lemma_div_is_ordered_by_denominator(
            value.significand() as int,
            1,
            unit as int,
        );
        assert(value.significand() as int / 1 == value.significand());
    }
}

/// A whole number below the bound is spelled by its own digits: the integer written is
/// the value, counted in the smallest step between numbers.
pub proof fn law_whole_numbers_are_spelled_by_their_digits(number: Number)
    requires
        number.value.whole(),
        number.value.absolute().below(spelling_bound()),
    ensures
        number_text(number) == integer_text(signed_whole(number.value)),
        number.value.signed_steps() == signed_whole(number.value) * pow2(1074),
{
    let value = number.value;
    assert(value.scale() <= 0);
    let digits = value.truncated();
    let unit = pow2((-value.scale()) as nat);
    let step = pow2((value.scale() + 1074) as nat);
    vstd::arithmetic::power2::lemma2_to64();
    vstd::arithmetic::power2::lemma_pow2_pos((-value.scale()) as nat);
    vstd::arithmetic::power2::lemma_pow2_adds(
        (-value.scale()) as nat,
        (value.scale() + 1074) as nat,
    );
    vstd::arithmetic::div_mod::lemma_fundamental_div_mod(value.significand() as int, unit as int);
    assert(value.significand() * 1 == value.significand() && value.significand() / 1
        == value.significand()) by (nonlinear_arith);
    assert(value.significand() == unit * digits);
    assert(value.steps() == digits * pow2(1074)) by (nonlinear_arith)
        requires
            value.steps() == value.significand() * step,
            value.significand() == unit * digits,
            pow2(1074) == unit * step,
    ;
    assert((-(digits as int)) * pow2(1074) == -(digits * pow2(1074))) by (nonlinear_arith);
}

/// The spelling of a number in a signature document.
pub fn number(value: &Number) -> (r: String)
    ensures
        r@ == number_text(*value),
{
    let mut out: String = String::new();
    write_number(&mut out, value);
    assert(out@ =~= number_text(*value));
    out
}

/// A character inside of a JSON string.
pub open spec fn escaped_char(c: char) -> Seq<char> {
    if c == '"' {
        "\\\""@
    } else if c == '\\' {
        "\\\\"@
    } else if c == '\n' {
        "\\n"@
    } else if c == '\r' {
        "\\r"@
    } else if c == '\t' {
        "\\t"@
    } else if c == '\u{8}' {
        "\\b"@
    } else if c == '\u{c}' {
        "\\f"@
    } else if (c as int) < 0x20 {
        "\\u"@ + hex_text(c as nat, 4)
    } else {
        seq![c]
    }
}

/// The body of a JSON string.
pub open spec fn escaped_text(text: Seq<char>) -> Seq<char>
    decreases text.len(),
{
    if text.len() == 0 {
        Seq::empty()
    } else {
        escaped_text(text.drop_last()) + escaped_char(text.last())
    }
}

fn write_escaped_char(out: &mut String, c: char)
    ensures
        final(out)@ == old(out)@ + escaped_char(c),
{
    if c == '"' {
        out.append("\\\"");
    } else if c == '\\' {
        out.append("\\\\");
    } else if c == '\n' {
        out.append("\\n");
    } else if c == '\r' {
        out.append("\\r");
    } else if c == '\t' {
        out.append("\\t");
    } else if c == '\u{8}' {
        out.append("\\b");
    } else if c == '\u{c}' {
        out.append("\\f");
    } else {
        let code: u32 = c as u32;
        if code < 0x20 {
            out.append("\\u");
            push_hex(out, code as u64, 4);
            assert(out@ =~= old(out)@ + escaped_char(c));
        } else {
            out.push(c);
        }
    }
}

/// Whether a text was written behind another as the inside of a JSON string.
pub open spec fn appends_escaped(before: Seq<char>, value: Seq<char>, after: Seq<char>) -> bool {
    after == before + escaped_text(value)
}

/// Append a text as the inside of a JSON string.
pub fn write_escaped(out: &mut String, value: &str)
    ensures
        appends_escaped(old(out)@, value@, final(out)@),
{
    let chars = chars_of(value);
    let ghost start = out@;
    assert(out@ =~= start + escaped_text(chars@.take(0)));
    for i in 0..chars.len()
        invariant
            out@ == start + escaped_text(chars@.take(i as int)),
    {
        write_escaped_char(out, chars[i]);
        assert(chars@.take(i + 1).drop_last() =~= chars@.take(i as int));
        assert(out@ =~= start + escaped_text(chars@.take(i + 1)));
    }
    assert(chars@.take(chars@.len() as int) =~= value@);
}

/// The value of a hexadecimal digit, if a character is one.
pub open spec fn hex_value(c: char) -> Option<int> {
    if '0' <= c && c <= '9' {
        Some(c as int - '0' as int)
    } else if 'a' <= c && c <= 'f' {
        Some(c as int - 'a' as int + 10)
    } else if 'A' <= c && c <= 'F' {
        Some(c as int - 'A' as int + 10)
    } else {
        None
    }
}

/// The character that four hexadecimal digits spell, unless it is half of a pair.
pub open spec fn hex_char(digits: Seq<char>) -> Option<char> {
    match (hex_value(digits[0]), hex_value(digits[1]), hex_value(digits[2]), hex_value(digits[3])) {
        (Some(a), Some(b), Some(c), Some(d)) => {
            let code = a * 0x1000 + b * 0x100 + c * 0x10 + d;
            if 0xd800 <= code && code < 0xe000 {
                None
            } else {
                Some(code as char)
            }
        },
        _ => None,
    }
}

/// The character that stands behind a backslash, if it is one of the short escapes.
pub open spec fn short_escape(c: char) -> Option<char> {
    if c == '"' || c == '\\' || c == '/' {
        Some(c)
    } else if c == 'b' {
        Some('\u{8}')
    } else if c == 'f' {
        Some('\u{c}')
    } else if c == 'n' {
        Some('\n')
    } else if c == 'r' {
        Some('\r')
    } else if c == 't' {
        Some('\t')
    } else {
        None
    }
}

/// A text put behind a character, if there is one.
pub open spec fn behind(c: Option<char>, rest: Option<Seq<char>>) -> Option<Seq<char>> {
    match (c, rest) {
        (Some(c), Some(rest)) => Some(seq![c] + rest),
        _ => None,
    }
}

/// The text that the body of a JSON string stands for. A bare quote, a control
/// character and an escape that is none stand for nothing.
pub open spec fn unescaped(body: Seq<char>) -> Option<Seq<char>>
    decreases body.len(),
{
    if body.len() == 0 {
        Some(Seq::empty())
    } else if body[0] == '"' || (body[0] as int) < 0x20 {
        None
    } else if body[0] != '\\' {
        behind(Some(body[0]), unescaped(body.skip(1)))
    } else if body.len() >= 6 && body[1] == 'u' {
        behind(hex_char(body.subrange(2, 6)), unescaped(body.skip(6)))
    } else if body.len() >= 2 {
        behind(short_escape(body[1]), unescaped(body.skip(2)))
    } else {
        None
    }
}

/// Escaping goes character by character: what two texts escape to stands side by
/// side in what both together escape to.
pub proof fn law_escaping_joins(a: Seq<char>, b: Seq<char>)
    ensures
        escaped_text(a + b) == escaped_text(a) + escaped_text(b),
    decreases b.len(),
{
    if b.len() == 0 {
        assert(a + b =~= a);
        assert(escaped_text(a) + escaped_text(b) =~= escaped_text(a));
    } else {
        law_escaping_joins(a, b.drop_last());
        assert((a + b).drop_last() =~= a + b.drop_last());
        assert(escaped_text(a + b) =~= escaped_text(a) + escaped_text(b));
    }
}

/// The pieces of an escaped character: what it starts with, and how it is read.
proof fn lemma_escaped_char_reads_back(c: char, rest: Seq<char>)
    ensures
        escaped_char(c).len() > 0,
        unescaped(escaped_char(c) + rest) == behind(Some(c), unescaped(rest)),
        forall|i: int| 0 <= i < escaped_char(c).len() ==> #[trigger] escaped_char(c)[i] as int >= 0x20,
{
    reveal_strlit("\\\"");
    reveal_strlit("\\\\");
    reveal_strlit("\\n");
    reveal_strlit("\\r");
    reveal_strlit("\\t");
    reveal_strlit("\\b");
    reveal_strlit("\\f");
    reveal_strlit("\\u");
    let piece = escaped_char(c);
    let body = piece + rest;
    if c == '"' || c == '\\' || c == '\n' || c == '\r' || c == '\t' || c == '\u{8}' || c == '\u{c}' {
        assert(piece.len() == 2);
        assert(body.skip(2) =~= rest);
        assert(body[0] == '\\' && short_escape(body[1]) == Some(c));
        assert(body[1] != 'u');
    } else if (c as int) < 0x20 {
        lemma_four_digits(c as nat);
        let digits = hex_text(c as nat, 4);
        assert(piece =~= seq!['\\', 'u'] + digits);
        assert(body.subrange(2, 6) =~= digits);
        assert(body.skip(6) =~= rest);
    } else {
        assert(body.skip(1) =~= rest);
    }
}

/// The four digits of a control character spell it.
proof fn lemma_four_digits(n: nat)
    requires
        n < 0x20,
    ensures
        hex_text(n, 4).len() == 4,
        hex_char(hex_text(n, 4)) == Some(n as char),
        forall|i: int| 0 <= i < 4 ==> #[trigger] hex_text(n, 4)[i] as int >= 0x20,
{
    reveal_with_fuel(hex_text, 5);
    let digits = hex_text(n, 4);
    assert(n / 16 / 16 == 0 && n / 16 / 16 / 16 == 0);
    assert(digits =~= seq!['0', '0', digit_char((n / 16) as int), digit_char((n % 16) as int)]);
}

/// What is escaped reads back: the escaped text is the body of a JSON string that
/// stands for the text, and it holds no control character.
pub proof fn law_escaped_text_reads_back(text: Seq<char>)
    ensures
        unescaped(escaped_text(text)) == Some(text),
        forall|i: int|
            0 <= i < escaped_text(text).len() ==> #[trigger] escaped_text(text)[i] as int >= 0x20,
    decreases text.len(),
{
    if text.len() > 0 {
        let first = seq![text[0]];
        let rest = text.skip(1);
        assert(text =~= first + rest);
        law_escaping_joins(first, rest);
        assert(first.drop_last() =~= Seq::<char>::empty());
        assert(escaped_text(first) =~= escaped_char(text[0])) by {
            assert(escaped_text(first.drop_last()) =~= Seq::<char>::empty());
        }
        law_escaped_text_reads_back(rest);
        lemma_escaped_char_reads_back(text[0], escaped_text(rest));
        let piece = escaped_char(text[0]);
        assert forall|i: int| 0 <= i < escaped_text(text).len() implies #[trigger] escaped_text(
            text,
        )[i] as int >= 0x20 by {
            if i < piece.len() {
                assert(escaped_text(text)[i] == piece[i]);
            } else {
                assert(escaped_text(text)[i] == escaped_text(rest)[i - piece.len()]);
            }
        }
        assert(unescaped(escaped_text(text)) == Some(first + rest));
    }
}

/// Writing two texts one behind the other is writing both of them joined. What is
/// written leaves what was there before, holds no control character, reads back as the
/// text, and is the text itself where nothing in it has to be escaped.
pub proof fn law_escaped_texts_are_written_side_by_side(
    before: Seq<char>,
    first: Seq<char>,
    second: Seq<char>,
    middle: Seq<char>,
    after: Seq<char>,
)
    requires
        appends_escaped(before, first, middle),
        appends_escaped(middle, second, after),
    ensures
        appends_escaped(before, first + second, after),
        before == after.take(before.len() as int),
        unescaped(after.skip(before.len() as int)) == Some(first + second),
        forall|i: int| before.len() <= i < after.len() ==> #[trigger] after[i] as int >= 0x20,
        (forall|i: int|
            0 <= i < (first + second).len() ==> (#[trigger] (first + second)[i]) != '"' && (first
                + second)[i] != '\\' && (first + second)[i] as int >= 0x20) ==> after == before + first
            + second,
{
    let both = first + second;
    law_escaping_joins(first, second);
    law_escaped_text_reads_back(both);
    assert(after =~= before + escaped_text(both));
    assert(after.take(before.len() as int) =~= before);
    assert(after.skip(before.len() as int) =~= escaped_text(both));
    assert forall|i: int| before.len() <= i < after.len() implies #[trigger] after[i] as int >= 0x20 by {
        assert(after[i] == escaped_text(both)[i - before.len()]);
    }
    if forall|i: int|
        0 <= i < both.len() ==> (#[trigger] both[i]) != '"' && both[i] != '\\' && both[i] as int >= 0x20 {
        law_plain_text_is_not_escaped(both);
        assert(after =~= before + first + second);
    }
}

/// A text without quotes, backslashes and control characters is left as it is.
pub proof fn law_plain_text_is_not_escaped(text: Seq<char>)
    requires
        forall|i: int|
            0 <= i < text.len() ==> (#[trigger] text[i]) != '"' && text[i] != '\\' && text[i] as int >= 0x20,
    ensures
        escaped_text(text) == text,
    decreases text.len(),
{
    if text.len() > 0 {
        let before = text.drop_last();
        assert forall|i: int| 0 <= i < before.len() implies (#[trigger] before[i]) != '"' && before[i]
            != '\\' && before[i] as int >= 0x20 by {
            assert(before[i] == text[i]);
        }
        law_plain_text_is_not_escaped(before);
        assert(text.last() == text[text.len() - 1]);
        assert(escaped_text(text) =~= text);
    }
}

/// The spelling of a rotation axis.
pub open spec fn axis_text(axis: Axis) -> Seq<char> {
    match axis {
        Axis::X => "x"@,
        Axis::Y => "y"@,
        Axis::Z => "z"@,
    }
}

/// The spelling of a servo.
pub open spec fn servo_axis_text(axis: ServoAxisId) -> Seq<char> {
    match axis {
        ServoAxisId::X => "X"@,
        ServoAxisId::Y => "Y"@,
        ServoAxisId::Z => "Z"@,
        ServoAxisId::B => "B"@,
        ServoAxisId::E => "E"@,
    }
}

/// A servo mapping in a signature document.
pub open spec fn servo_text(servo: ServoMapping) -> Seq<char> {
    ",\"servo\":{\"axis\":\""@ + servo_axis_text(servo.axis) + "\",\"centerDeg\":"@ + number_text(
        servo.center_deg,
    ) + ",\"direction\":"@ + integer_text(servo.direction as int) + ",\"offsetDeg\":"@
        + number_text(servo.offset_deg) + "}"@
}

/// A joint in a signature document. A joint without a servo has no key for one.
pub open spec fn joint_text(joint: JointConfig) -> Seq<char> {
    "{\"id\":\""@ + escaped_text(joint.id@) + "\",\"axis\":\""@ + axis_text(joint.axis)
        + "\",\"minAngleDeg\":"@ + number_text(joint.min_angle_deg) + ",\"maxAngleDeg\":"@
        + number_text(joint.max_angle_deg) + ",\"initialAngleDeg\":"@ + number_text(
        joint.initial_angle_deg,
    ) + ",\"speedDegPerSec\":"@ + number_text(joint.speed_deg_per_sec) + (match joint.servo {
        Some(servo) => servo_text(servo),
        None => Seq::empty(),
    }) + "}"@
}

/// Joints in a signature document, commas between them.
pub open spec fn joints_text(joints: Seq<JointConfig>) -> Seq<char>
    decreases joints.len(),
{
    if joints.len() == 0 {
        Seq::empty()
    } else if joints.len() == 1 {
        joint_text(joints[0])
    } else {
        joints_text(joints.drop_last()) + ","@ + joint_text(joints.last())
    }
}

/// A point in a signature document.
pub open spec fn vec3_text(value: Seq<Number>) -> Seq<char> {
    "["@ + number_text(value[0]) + ","@ + number_text(value[1]) + ","@ + number_text(value[2]) + "]"@
}

/// The arm's geometry in a signature document.
pub open spec fn geometry_text(geometry: RobotGeometryConfig) -> Seq<char> {
    "{\"basePosition\":"@ + vec3_text(geometry.base_position@) + ",\"shoulderHeight\":"@
        + number_text(geometry.shoulder_height) + ",\"upperArmLength\":"@ + number_text(
        geometry.upper_arm_length,
    ) + ",\"forearmLength\":"@ + number_text(geometry.forearm_length) + ",\"toolLength\":"@
        + number_text(geometry.tool_length) + ",\"toolRadius\":"@ + number_text(geometry.tool_radius)
        + ",\"collision\":{\"linkRadius\":"@ + number_text(geometry.collision.link_radius)
        + ",\"jointRadius\":"@ + number_text(geometry.collision.joint_radius)
        + ",\"toolShaftRadius\":"@ + number_text(geometry.collision.tool_shaft_radius)
        + ",\"headClearance\":"@ + number_text(geometry.collision.head_clearance) + "}}"@
}

/// The lattice placement in a signature document.
pub open spec fn voxel_config_text(config: VoxelConfig) -> Seq<char> {
    "{\"origin\":"@ + vec3_text(config.origin@) + ",\"size\":"@ + number_text(config.size)
        + ",\"headCenter\":"@ + vec3_text(config.head_center@) + ",\"headScale\":"@ + vec3_text(
        config.head_scale@,
    ) + "}"@
}

/// Whether a key may stand before another: not later in dictionary order.
pub open spec fn key_order() -> spec_fn(Seq<char>, Seq<char>) -> bool {
    |a: Seq<char>, b: Seq<char>| !text_less(b, a)
}

/// The keys of some cells, each `x,y,z`.
pub open spec fn cell_keys(cells: Seq<VoxelCoord>) -> Seq<Seq<char>> {
    Seq::new(cells.len(), |i: int| coord_text(seq![cells[i].x, cells[i].y, cells[i].z]))
}

/// The keys of some cells in dictionary order, so that `10,0,0` precedes
/// `2,0,0`.
pub open spec fn sorted_keys(cells: Seq<VoxelCoord>) -> Seq<Seq<char>> {
    cell_keys(cells).sort_by(key_order())
}

/// Keys in quotes, commas between them.
pub open spec fn keys_text(keys: Seq<Seq<char>>) -> Seq<char>
    decreases keys.len(),
{
    if keys.len() == 0 {
        Seq::empty()
    } else if keys.len() == 1 {
        "\""@ + keys[0] + "\""@
    } else {
        keys_text(keys.drop_last()) + ",\""@ + keys.last() + "\""@
    }
}

/// A hairstyle in a signature document.
pub open spec fn hair_text(cells: Seq<VoxelCoord>) -> Seq<char> {
    "["@ + keys_text(sorted_keys(cells)) + "]"@
}

/// The document that a challenge's signature is the hash of.
pub open spec fn document(challenge: ChallengeDefinition) -> Seq<char> {
    DOCUMENT_OPENING@ + joints_text(challenge.robot_config.joints@) + "],\"geometry\":"@
        + geometry_text(challenge.robot_config.geometry) + ",\"voxelConfig\":"@ + voxel_config_text(
        challenge.voxel_config,
    ) + ",\"initialHair\":"@ + hair_text(challenge.initial_hair.voxels@) + ",\"targetHair\":"@
        + hair_text(challenge.target_hair.voxels@) + ",\"cutterRadius\":"@ + number_text(
        challenge.robot_config.geometry.tool_radius,
    ) + "}"@
}

fn servo_json(servo: &ServoMapping) -> (out: String)
    ensures
        out@ == servo_text(*servo),
{
    let mut out: String = ",\"servo\":{\"axis\":\"".to_owned();
    out.append(
        match servo.axis {
            ServoAxisId::X => "X",
            ServoAxisId::Y => "Y",
            ServoAxisId::Z => "Z",
            ServoAxisId::B => "B",
            ServoAxisId::E => "E",
        },
    );
    out.append("\",\"centerDeg\":");
    write_number(&mut out, &servo.center_deg);
    out.append(",\"direction\":");
    push_integer(&mut out, servo.direction as i64);
    out.append(",\"offsetDeg\":");
    write_number(&mut out, &servo.offset_deg);
    out.append("}");
    out
}

fn joint_json(joint: &JointConfig) -> (out: String)
    ensures
        out@ == joint_text(*joint),
{
    let mut out: String = "{\"id\":\"".to_owned();
    write_escaped(&mut out, joint.id.as_str());
    out.append("\",\"axis\":\"");
    out.append(
        match joint.axis {
            Axis::X => "x",
            Axis::Y => "y",
            Axis::Z => "z",
        },
    );
    out.append("\",\"minAngleDeg\":");
    write_number(&mut out, &joint.min_angle_deg);
    out.append(",\"maxAngleDeg\":");
    write_number(&mut out, &joint.max_angle_deg);
    out.append(",\"initialAngleDeg\":");
    write_number(&mut out, &joint.initial_angle_deg);
    out.append(",\"speedDegPerSec\":");
    write_number(&mut out, &joint.speed_deg_per_sec);
    let servo = match &joint.servo {
        Some(servo) => servo_json(servo),
        None => String::new(),
    };
    proof {
        if joint.servo is None {
            assert(servo@ =~= Seq::<char>::empty());
        }
    }
    out.append(servo.as_str());
    out.append("}");
    out
}

fn joints_json(joints: &Vec<JointConfig>) -> (out: String)
    ensures
        out@ == joints_text(joints@),
{
    let mut out: String = String::new();
    assert(out@ =~= joints_text(joints@.take(0)));
    for i in 0..joints.len()
        invariant
            out@ == joints_text(joints@.take(i as int)),
    {
        let joint = joint_json(&joints[i]);
        assert(joints@.take(i + 1).drop_last() =~= joints@.take(i as int));
        if i > 0 {
            out.append(",");
            out.append(joint.as_str());
        } else {
            out = joint;
        }
    }
    assert(joints@.take(joints@.len() as int) =~= joints@);
    out
}

fn vec3_json(value: &Vec3) -> (out: String)
    ensures
        out@ == vec3_text(value@),
{
    let mut out: String = "[".to_owned();
    write_number(&mut out, &value[0]);
    out.append(",");
    write_number(&mut out, &value[1]);
    out.append(",");
    write_number(&mut out, &value[2]);
    out.append("]");
    out
}

fn geometry_json(geometry: &RobotGeometryConfig) -> (out: String)
    ensures
        out@ == geometry_text(*geometry),
{
    let mut out: String = "{\"basePosition\":".to_owned();
    let base = vec3_json(&geometry.base_position);
    out.append(base.as_str());
    out.append(",\"shoulderHeight\":");
    write_number(&mut out, &geometry.shoulder_height);
    out.append(",\"upperArmLength\":");
    write_number(&mut out, &geometry.upper_arm_length);
    out.append(",\"forearmLength\":");
    write_number(&mut out, &geometry.forearm_length);
    out.append(",\"toolLength\":");
    write_number(&mut out, &geometry.tool_length);
    out.append(",\"toolRadius\":");
    write_number(&mut out, &geometry.tool_radius);
    out.append(",\"collision\":{\"linkRadius\":");
    write_number(&mut out, &geometry.collision.link_radius);
    out.append(",\"jointRadius\":");
    write_number(&mut out, &geometry.collision.joint_radius);
    out.append(",\"toolShaftRadius\":");
    write_number(&mut out, &geometry.collision.tool_shaft_radius);
    out.append(",\"headClearance\":");
    write_number(&mut out, &geometry.collision.head_clearance);
    out.append("}}");
    out
}

fn voxel_config_json(config: &VoxelConfig) -> (out: String)
    ensures
        out@ == voxel_config_text(*config),
{
    let mut out: String = "{\"origin\":".to_owned();
    let origin = vec3_json(&config.origin);
    out.append(origin.as_str());
    out.append(",\"size\":");
    write_number(&mut out, &config.size);
    out.append(",\"headCenter\":");
    let centre = vec3_json(&config.head_center);
    out.append(centre.as_str());
    out.append(",\"headScale\":");
    let scale = vec3_json(&config.head_scale);
    out.append(scale.as_str());
    out.append("}");
    out
}

/// Dictionary order is a total order.
pub proof fn law_keys_are_totally_ordered()
    ensures
        total_ordering(key_order()),
{
    let leq = key_order();
    assert forall|a: Seq<char>| #[trigger] leq(a, a) by {
        lemma_text_less_irreflexive(a);
    }
    assert forall|a: Seq<char>, b: Seq<char>| #[trigger] leq(a, b) && #[trigger] leq(b, a) implies a == b by {
        lemma_text_less_total(a, b);
    }
    assert forall|a: Seq<char>, b: Seq<char>, c: Seq<char>|
        #[trigger] leq(a, b) && #[trigger] leq(b, c) implies leq(a, c) by {
        if text_less(c, a) {
            lemma_text_less_total(a, b);
            lemma_text_less_total(b, c);
            if text_less(a, b) {
                lemma_text_less_transitive(c, a, b);
            }
        }
    }
    assert forall|a: Seq<char>, b: Seq<char>| #[trigger] leq(a, b) || #[trigger] leq(b, a) by {
        if text_less(a, b) {
            lemma_text_less_asymmetric(a, b);
        }
    }
}

/// The keys of a hairstyle in its signature document are those of its cells,
/// as often as they occur, in dictionary order.
pub proof fn law_sorted_keys_are_the_keys_in_order(cells: Seq<VoxelCoord>)
    ensures
        sorted_keys(cells).to_multiset() == cell_keys(cells).to_multiset(),
        sorted_by(sorted_keys(cells), key_order()),
{
    law_keys_are_totally_ordered();
    cell_keys(cells).lemma_sort_by_ensures(key_order());
}

spec fn texts(keys: Seq<String>) -> Seq<Seq<char>> {
    Seq::new(keys.len(), |i: int| keys[i]@)
}

/// How many sorted keys may stand before a new one.
fn upper_bound(keys: &Vec<String>, key: &str) -> (r: usize)
    requires
        sorted_by(texts(keys@), key_order()),
    ensures
        r <= keys@.len(),
        forall|i: int| 0 <= i < r ==> !text_less(key@, #[trigger] texts(keys@)[i]),
        forall|i: int| r <= i < keys@.len() ==> text_less(key@, #[trigger] texts(keys@)[i]),
{
    let ghost all = texts(keys@);
    let mut low: usize = 0;
    let mut high: usize = keys.len();
    while low < high
        invariant
            low <= high <= keys@.len(),
            all == texts(keys@),
            sorted_by(all, key_order()),
            forall|i: int| 0 <= i < low ==> !text_less(key@, #[trigger] all[i]),
            forall|i: int| high <= i < keys@.len() ==> text_less(key@, #[trigger] all[i]),
        decreases high - low,
    {
        let middle: usize = low + (high - low) / 2;
        let ghost before_low = low;
        let ghost before_high = high;
        assert(all[middle as int] == keys@[middle as int]@);
        if less(key, keys[middle].as_str()) {
            high = middle;
            assert forall|i: int| high <= i < keys@.len() implies text_less(key@, #[trigger] all[i]) by {
                if i > middle {
                    assert(key_order()(all[middle as int], all[i]));
                    lemma_text_less_total(all[middle as int], all[i]);
                    if text_less(all[middle as int], all[i]) {
                        lemma_text_less_transitive(key@, all[middle as int], all[i]);
                    }
                }
            }
        } else {
            low = middle + 1;
            assert forall|i: int| 0 <= i < low implies !text_less(key@, #[trigger] all[i]) by {
                if i < middle && text_less(key@, all[i]) {
                    assert(key_order()(all[i], all[middle as int]));
                    lemma_text_less_total(all[i], all[middle as int]);
                    if text_less(all[i], all[middle as int]) {
                        lemma_text_less_transitive(key@, all[i], all[middle as int]);
                    }
                }
            }
        }
    }
    low
}

/// The keys of some cells in dictionary order.
fn sort_keys(cells: &Vec<VoxelCoord>) -> (r: Vec<String>)
    ensures
        texts(r@) == sorted_keys(cells@),
{
    let mut keys: Vec<String> = Vec::new();
    assert(texts(keys@) =~= cell_keys(cells@.take(0)));
    for i in 0..cells.len()
        invariant
            texts(keys@).to_multiset() == cell_keys(cells@.take(i as int)).to_multiset(),
            sorted_by(texts(keys@), key_order()),
    {
        let cell = cells[i];
        let key = coord_key(cell.x, cell.y, cell.z);
        let at: usize = upper_bound(&keys, key.as_str());
        let ghost before = texts(keys@);
        let ghost text = key@;
        keys.insert(at, key);
        proof {
            let after = texts(keys@);
            assert(after =~= before.insert(at as int, text));
            vstd::seq_lib::to_multiset_insert(before, at as int, text);
            vstd::seq_lib::to_multiset_build(cell_keys(cells@.take(i as int)), text);
            assert(cell_keys(cells@.take(i + 1)) =~= cell_keys(cells@.take(i as int)).push(text));
            assert forall|p: int, q: int| 0 <= p < q < after.len() implies #[trigger] key_order()(
                after[p],
                after[q],
            ) by {
                let x = if p < at {
                    p
                } else {
                    p - 1
                };
                let y = if q < at {
                    q
                } else {
                    q - 1
                };
                if p == at {
                    assert(after[q] == before[y]);
                    lemma_text_less_asymmetric(text, before[y]);
                } else if q == at {
                    assert(after[p] == before[x]);
                } else {
                    assert(after[p] == before[x] && after[q] == before[y]);
                    assert(key_order()(before[x], before[y]));
                }
            }
        }
    }
    proof {
        assert(cells@.take(cells@.len() as int) =~= cells@);
        law_keys_are_totally_ordered();
        law_sorted_keys_are_the_keys_in_order(cells@);
        vstd::seq_lib::lemma_sorted_unique(texts(keys@), sorted_keys(cells@), key_order());
    }
    keys
}

fn hair_json(cells: &Vec<VoxelCoord>) -> (out: String)
    ensures
        out@ == hair_text(cells@),
{
    let keys = sort_keys(cells);
    let mut listed: String = String::new();
    assert(listed@ =~= keys_text(texts(keys@).take(0)));
    for i in 0..keys.len()
        invariant
            listed@ == keys_text(texts(keys@).take(i as int)),
    {
        assert(texts(keys@).take(i + 1).drop_last() =~= texts(keys@).take(i as int));
        if i > 0 {
            listed.append(",\"");
        } else {
            listed = "\"".to_owned();
        }
        listed.append(keys[i].as_str());
        listed.append("\"");
    }
    assert(texts(keys@).take(keys@.len() as int) =~= texts(keys@));
    let mut out: String = "[".to_owned();
    out.append(listed.as_str());
    out.append("]");
    out
}

/// The document that a challenge's signature is the hash of. Comparing two
/// documents says what changed, where comparing two hashes only says that
/// something did.
pub fn signature_document(challenge: &ChallengeDefinition) -> (r: String)
    ensures
        r@ == document(*challenge),
{
    let joints = joints_json(&challenge.robot_config.joints);
    let geometry = geometry_json(&challenge.robot_config.geometry);
    let lattice = voxel_config_json(&challenge.voxel_config);
    let initial = hair_json(&challenge.initial_hair.voxels);
    let target = hair_json(&challenge.target_hair.voxels);
    let mut out: String = DOCUMENT_OPENING.to_owned();
    out.append(joints.as_str());
    out.append("],\"geometry\":");
    out.append(geometry.as_str());
    out.append(",\"voxelConfig\":");
    out.append(lattice.as_str());
    out.append(",\"initialHair\":");
    out.append(initial.as_str());
    out.append(",\"targetHair\":");
    out.append(target.as_str());
    out.append(",\"cutterRadius\":");
    write_number(&mut out, &challenge.robot_config.geometry.tool_radius);
    out.append("}");
    out
}

/// Signature of a challenge for the ladder planner.
pub fn cutter_grid_challenge_signature_v2(challenge: &ChallengeDefinition) -> (r: String)
    ensures
        r@ == hex_text(fnv(utf16(document(*challenge))) as nat, 16),
{
    let text = signature_document(challenge);
    fnv1a64(text.as_str())
}

/// The order in which a hairstyle lists its cells does not move the signature.
pub proof fn law_cell_order_does_not_matter(a: Seq<VoxelCoord>, b: Seq<VoxelCoord>)
    requires
        cell_keys(a).to_multiset() == cell_keys(b).to_multiset(),
    ensures
        sorted_keys(a) == sorted_keys(b),
        hair_text(a) == hair_text(b),
{
    law_keys_are_totally_ordered();
    law_sorted_keys_are_the_keys_in_order(a);
    law_sorted_keys_are_the_keys_in_order(b);
    vstd::seq_lib::lemma_sorted_unique(sorted_keys(a), sorted_keys(b), key_order());
}

proof fn lemma_same_ending(a: Seq<char>, b: Seq<char>, ending: Seq<char>)
    requires
        a + ending == b + ending,
    ensures
        a == b,
{
    assert((a + ending).len() == (b + ending).len());
    assert(a =~= (a + ending).take(a.len() as int));
    assert(b =~= (b + ending).take(b.len() as int));
}

proof fn lemma_same_opening(opening: Seq<char>, a: Seq<char>, b: Seq<char>)
    requires
        opening + a == opening + b,
    ensures
        a == b,
{
    assert((opening + a).len() == (opening + b).len());
    assert(a =~= (opening + a).skip(opening.len() as int));
    assert(b =~= (opening + b).skip(opening.len() as int));
}

proof fn lemma_joint_shows_travel(a: JointConfig, b: JointConfig)
    requires
        b == (JointConfig { max_angle_deg: b.max_angle_deg, ..a }),
        joint_text(a) == joint_text(b),
    ensures
        number_text(a.max_angle_deg) == number_text(b.max_angle_deg),
{
    let opening = "{\"id\":\""@ + escaped_text(a.id@) + "\",\"axis\":\""@ + axis_text(a.axis)
        + "\",\"minAngleDeg\":"@ + number_text(a.min_angle_deg) + ",\"maxAngleDeg\":"@;
    let x1 = opening + number_text(a.max_angle_deg);
    let y1 = opening + number_text(b.max_angle_deg);
    let x2 = x1 + ",\"initialAngleDeg\":"@;
    let y2 = y1 + ",\"initialAngleDeg\":"@;
    let initial = number_text(a.initial_angle_deg);
    let speed = number_text(a.speed_deg_per_sec);
    let servo = match a.servo {
        Some(servo) => servo_text(servo),
        None => Seq::empty(),
    };
    let x3 = x2 + initial;
    let y3 = y2 + initial;
    let x4 = x3 + ",\"speedDegPerSec\":"@;
    let y4 = y3 + ",\"speedDegPerSec\":"@;
    let x5 = x4 + speed;
    let y5 = y4 + speed;
    let x6 = x5 + servo;
    let y6 = y5 + servo;
    assert(joint_text(a) == x6 + "}"@ && joint_text(b) == y6 + "}"@);
    lemma_same_ending(x6, y6, "}"@);
    lemma_same_ending(x5, y5, servo);
    lemma_same_ending(x4, y4, speed);
    lemma_same_ending(x3, y3, ",\"speedDegPerSec\":"@);
    lemma_same_ending(x2, y2, initial);
    lemma_same_ending(x1, y1, ",\"initialAngleDeg\":"@);
    lemma_same_opening(opening, number_text(a.max_angle_deg), number_text(b.max_angle_deg));
}

proof fn lemma_joints_show_travel(a: Seq<JointConfig>, b: Seq<JointConfig>, i: int)
    requires
        0 <= i < a.len(),
        a.len() == b.len(),
        forall|j: int| 0 <= j < a.len() && j != i ==> a[j] == b[j],
        b[i] == (JointConfig { max_angle_deg: b[i].max_angle_deg, ..a[i] }),
        joints_text(a) == joints_text(b),
    ensures
        number_text(a[i].max_angle_deg) == number_text(b[i].max_angle_deg),
    decreases a.len(),
{
    let last = a.len() - 1;
    if a.len() == 1 {
        lemma_joint_shows_travel(a[0], b[0]);
    } else if i == last {
        assert(a.drop_last() =~= b.drop_last());
        lemma_same_opening(joints_text(a.drop_last()) + ","@, joint_text(a[i]), joint_text(b[i]));
        lemma_joint_shows_travel(a[i], b[i]);
    } else {
        lemma_same_ending(
            joints_text(a.drop_last()) + ","@,
            joints_text(b.drop_last()) + ","@,
            joint_text(a[last]),
        );
        lemma_same_ending(joints_text(a.drop_last()), joints_text(b.drop_last()), ","@);
        lemma_joints_show_travel(a.drop_last(), b.drop_last(), i);
    }
}

proof fn lemma_document_shows_joints(a: ChallengeDefinition, b: ChallengeDefinition)
    requires
        a.robot_config.geometry == b.robot_config.geometry,
        a.voxel_config == b.voxel_config,
        a.initial_hair == b.initial_hair,
        a.target_hair == b.target_hair,
        document(a) == document(b),
    ensures
        joints_text(a.robot_config.joints@) == joints_text(b.robot_config.joints@),
{
    let opening = DOCUMENT_OPENING@;
    let geometry = geometry_text(a.robot_config.geometry);
    let lattice = voxel_config_text(a.voxel_config);
    let initial = hair_text(a.initial_hair.voxels@);
    let target = hair_text(a.target_hair.voxels@);
    let radius = number_text(a.robot_config.geometry.tool_radius);
    let x0 = opening + joints_text(a.robot_config.joints@);
    let y0 = opening + joints_text(b.robot_config.joints@);
    let x1 = x0 + "],\"geometry\":"@;
    let y1 = y0 + "],\"geometry\":"@;
    let x2 = x1 + geometry;
    let y2 = y1 + geometry;
    let x3 = x2 + ",\"voxelConfig\":"@;
    let y3 = y2 + ",\"voxelConfig\":"@;
    let x4 = x3 + lattice;
    let y4 = y3 + lattice;
    let x5 = x4 + ",\"initialHair\":"@;
    let y5 = y4 + ",\"initialHair\":"@;
    let x6 = x5 + initial;
    let y6 = y5 + initial;
    let x7 = x6 + ",\"targetHair\":"@;
    let y7 = y6 + ",\"targetHair\":"@;
    let x8 = x7 + target;
    let y8 = y7 + target;
    let x9 = x8 + ",\"cutterRadius\":"@;
    let y9 = y8 + ",\"cutterRadius\":"@;
    let x10 = x9 + radius;
    let y10 = y9 + radius;
    assert(document(a) == x10 + "}"@ && document(b) == y10 + "}"@);
    lemma_same_ending(x10, y10, "}"@);
    lemma_same_ending(x9, y9, radius);
    lemma_same_ending(x8, y8, ",\"cutterRadius\":"@);
    lemma_same_ending(x7, y7, target);
    lemma_same_ending(x6, y6, ",\"targetHair\":"@);
    lemma_same_ending(x5, y5, initial);
    lemma_same_ending(x4, y4, ",\"initialHair\":"@);
    lemma_same_ending(x3, y3, lattice);
    lemma_same_ending(x2, y2, ",\"voxelConfig\":"@);
    lemma_same_ending(x1, y1, geometry);
    lemma_same_ending(x0, y0, "],\"geometry\":"@);
    lemma_same_opening(
        opening,
        joints_text(a.robot_config.joints@),
        joints_text(b.robot_config.joints@),
    );
}

/// Changing how far a joint may travel changes the document that the signature
/// is the hash of, so that plans made before are no longer about the challenge.
pub proof fn law_joint_travel_shows_in_the_document(
    before: ChallengeDefinition,
    after: ChallengeDefinition,
    i: int,
)
    requires
        before.robot_config.joints@.len() == after.robot_config.joints@.len(),
        0 <= i < before.robot_config.joints@.len(),
        forall|j: int|
            0 <= j < before.robot_config.joints@.len() && j != i
                ==> before.robot_config.joints@[j] == after.robot_config.joints@[j],
        after.robot_config.joints@[i] == (JointConfig {
            max_angle_deg: after.robot_config.joints@[i].max_angle_deg,
            ..before.robot_config.joints@[i]
        }),
        after.robot_config.geometry == before.robot_config.geometry,
        after.voxel_config == before.voxel_config,
        after.initial_hair == before.initial_hair,
        after.target_hair == before.target_hair,
        number_text(before.robot_config.joints@[i].max_angle_deg) != number_text(
            after.robot_config.joints@[i].max_angle_deg,
        ),
    ensures
        document(before) != document(after),
{
    if document(before) == document(after) {
        lemma_document_shows_joints(before, after);
        lemma_joints_show_travel(before.robot_config.joints@, after.robot_config.joints@, i);
    }
}


/// A character beyond the first plane is written as two surrogates that spell it, any other as itself.
pub proof fn law_units_spell_their_character(c: char)
    ensures
        (c as int) < 0x1_0000 ==> utf16_char(c).len() == 1 && utf16_char(c)[0] == c as int,
        (c as int) >= 0x1_0000 ==> {
            let (high, low) = (utf16_char(c)[0] as int, utf16_char(c)[1] as int);
            &&& utf16_char(c).len() == 2
            &&& 0xd800 <= high < 0xdc00 <= low < 0xe000
            &&& 0x1_0000 + (high - 0xd800) * 0x400 + (low - 0xdc00) == c as int
        },
{
}

/// Axes are spelled by their letter: rotation axes small, servos in capitals.
pub proof fn law_axes_are_spelled_by_their_letter()
    ensures
        axis_text(Axis::X) == seq!['x'],
        axis_text(Axis::Y) == seq!['y'],
        axis_text(Axis::Z) == seq!['z'],
        servo_axis_text(ServoAxisId::X) == seq!['X'],
        servo_axis_text(ServoAxisId::Y) == seq!['Y'],
        servo_axis_text(ServoAxisId::Z) == seq!['Z'],
        servo_axis_text(ServoAxisId::B) == seq!['B'],
        servo_axis_text(ServoAxisId::E) == seq!['E'],
{
    reveal_strlit("x");
    reveal_strlit("y");
    reveal_strlit("z");
    reveal_strlit("X");
    reveal_strlit("Y");
    reveal_strlit("Z");
    reveal_strlit("B");
    reveal_strlit("E");
    assert(axis_text(Axis::X) =~= seq!['x'] && axis_text(Axis::Y) =~= seq!['y']);
    assert(axis_text(Axis::Z) =~= seq!['z'] && servo_axis_text(ServoAxisId::X) =~= seq!['X']);
    assert(servo_axis_text(ServoAxisId::Y) =~= seq!['Y']);
    assert(servo_axis_text(ServoAxisId::Z) =~= seq!['Z']);
    assert(servo_axis_text(ServoAxisId::B) =~= seq!['B']);
    assert(servo_axis_text(ServoAxisId::E) =~= seq!['E']);
}

}
