//! The wire format of the strip's firmware.
//!
//! A frame is one message of comma-separated decimal numbers; the announcements are JSON.

use vstd::prelude::*;
use vstd::string::*;

use crate::pipeline::LedColor;
use crate::text;
use crate::text::decimal_text;

verus! {

/// A colour as one number: red, green and blue from the top byte down.
pub open spec fn packed(c: LedColor) -> int {
    0x1_0000 * c.r + 0x100 * c.g + c.b
}

/// The colour that a number stands for.
pub open spec fn unpacked(n: int) -> LedColor {
    LedColor { r: (n / 0x1_0000) as u8, g: (n / 0x100 % 0x100) as u8, b: (n % 0x100) as u8 }
}

/// The colours of a stream message, each after a comma.
pub open spec fn color_list(leds: Seq<LedColor>) -> Seq<char>
    decreases leds.len(),
{
    if leds.len() == 0 {
        Seq::empty()
    } else {
        color_list(leds.drop_last()) + (","@ + text::decimal(packed(leds.last())))
    }
}

/// A stream message: the number of LEDs, the brightness, the colours and a closing zero.
pub open spec fn stream_text(leds: Seq<LedColor>, brightness: u8) -> Seq<char> {
    text::decimal(leds.len() as u32 as int) + ","@ + text::decimal(brightness as int) + color_list(
        leds,
    ) + ",0"@
}

/// The device's address in an announcement, if it is scoped to one.
pub open spec fn mac_text(mac: Option<Seq<char>>) -> Seq<char> {
    match mac {
        Some(m) => ",\"MAC\":\""@ + m + "\""@,
        None => Seq::empty(),
    }
}

/// The announcement that puts the firmware into stream mode.
pub open spec fn state_on_text(mac: Option<Seq<char>>, brightness: u8) -> Seq<char> {
    "{\"state\":\"ON\",\"effect\":\"GlowWormWifi\",\"ffeffect\":\"Bias light\""@ + mac_text(mac)
        + ",\"brightness\":"@ + text::decimal(brightness as int) + "}"@
}

/// The announcement that turns the strip off.
pub open spec fn state_off_text(mac: Option<Seq<char>>) -> Seq<char> {
    "{\"state\":\"OFF\",\"effect\":\"solid\""@ + mac_text(mac) + ",\"brightness\":0}"@
}

/// The text of an optional string.
pub open spec fn optional_text(s: Option<&str>) -> Option<Seq<char>> {
    match s {
        Some(t) => Some(t@),
        None => None,
    }
}

/// Writes a stream message over what `scratch` holds.
pub fn encode_stream(leds: &[LedColor], brightness: u8, scratch: &mut String)
    ensures
        final(scratch)@ == stream_text(leds@, brightness),
{
    scratch.clear();
    scratch.append(decimal_text(leds.len() as u32).as_str());
    scratch.append(",");
    scratch.append(decimal_text(brightness as u32).as_str());
    let ghost head = text::decimal(leds@.len() as u32 as int) + ","@ + text::decimal(
        brightness as int,
    );
    assert(scratch@ =~= head);
    assert(color_list(leds@.take(0)) =~= Seq::<char>::empty());
    let mut i: usize = 0;
    while i < leds.len()
        invariant
            i <= leds@.len(),
            scratch@ == head + color_list(leds@.take(i as int)),
        decreases leds@.len() - i,
    {
        let led: LedColor = leds[i];
        let n: u32 = 0x1_0000 * led.r as u32 + 0x100 * led.g as u32 + led.b as u32;
        scratch.append(",");
        scratch.append(decimal_text(n).as_str());
        proof {
            let taken = leds@.take(i + 1);
            assert(taken.drop_last() =~= leds@.take(i as int));
            assert(scratch@ =~= head + color_list(taken));
        }
        i += 1;
    }
    assert(leds@.take(i as int) =~= leds@);
    scratch.append(",0");
}

fn append_mac(scratch: &mut String, mac: Option<&str>)
    ensures
        final(scratch)@ == old(scratch)@ + mac_text(optional_text(mac)),
{
    if let Some(m) = mac {
        scratch.append(",\"MAC\":\"");
        scratch.append(m);
        scratch.append("\"");
    }
    assert(scratch@ =~= old(scratch)@ + mac_text(optional_text(mac)));
}

/// Writes the announcement that puts the firmware into stream mode over what `scratch` holds.
pub fn encode_state_on(scratch: &mut String, mac: Option<&str>, brightness: u8)
    ensures
        final(scratch)@ == state_on_text(optional_text(mac), brightness),
{
    scratch.clear();
    scratch.append("{\"state\":\"ON\",\"effect\":\"GlowWormWifi\",\"ffeffect\":\"Bias light\"");
    append_mac(scratch, mac);
    scratch.append(",\"brightness\":");
    scratch.append(decimal_text(brightness as u32).as_str());
    scratch.append("}");
    assert(scratch@ =~= state_on_text(optional_text(mac), brightness));
}

/// Writes the announcement that turns the strip off over what `scratch` holds.
pub fn encode_state_off(scratch: &mut String, mac: Option<&str>)
    ensures
        final(scratch)@ == state_off_text(optional_text(mac)),
{
    scratch.clear();
    scratch.append("{\"state\":\"OFF\",\"effect\":\"solid\"");
    append_mac(scratch, mac);
    scratch.append(",\"brightness\":0}");
    assert(scratch@ =~= state_off_text(optional_text(mac)));
}

/// A packed colour gives the colour back.
pub proof fn unpacking_undoes_packing(c: LedColor)
    ensures
        unpacked(packed(c)) == c,
        0 <= packed(c) < 0x100_0000,
{
}

/// What a reader has of comma-separated numbers after one more character.
pub open spec fn read_char(fields: Seq<int>, c: char) -> Seq<int> {
    if c == ',' {
        fields.push(0)
    } else {
        fields.update(fields.len() - 1, 10 * fields.last() + (c as int - 48))
    }
}

/// What a reader has after a text.
pub open spec fn read_on(fields: Seq<int>, t: Seq<char>) -> Seq<int>
    decreases t.len(),
{
    if t.len() == 0 {
        fields
    } else {
        read_char(read_on(fields, t.drop_last()), t.last())
    }
}

/// The comma-separated numbers in a text.
pub open spec fn fields(t: Seq<char>) -> Seq<int> {
    read_on(seq![0], t)
}

proof fn lemma_read_concat(f: Seq<int>, a: Seq<char>, b: Seq<char>)
    ensures
        read_on(f, a + b) == read_on(read_on(f, a), b),
    decreases b.len(),
{
    if b.len() == 0 {
        assert(a + b =~= a);
    } else {
        assert((a + b).drop_last() =~= a + b.drop_last());
        lemma_read_concat(f, a, b.drop_last());
    }
}

proof fn lemma_read_decimal(f: Seq<int>, n: int)
    requires
        f.len() > 0,
        f.last() == 0,
        0 <= n,
    ensures
        read_on(f, text::decimal(n)) == f.update(f.len() - 1, n),
    decreases n,
{
    let t = text::decimal(n);
    reveal_with_fuel(read_on, 2);
    if n < 10 {
        assert(t.drop_last() =~= Seq::<char>::empty());
    } else {
        lemma_read_decimal(f, n / 10);
        assert(t.drop_last() =~= text::decimal(n / 10));
        assert(read_on(f, t) =~= f.update(f.len() - 1, n));
    }
}

proof fn lemma_read_comma(f: Seq<int>)
    ensures
        read_on(f, ","@) == f.push(0),
{
    reveal_strlit(",");
    reveal_with_fuel(read_on, 2);
    assert(","@.drop_last() =~= Seq::<char>::empty());
}

/// The packed colours of a strip.
pub open spec fn packed_colors(leds: Seq<LedColor>) -> Seq<int> {
    Seq::new(leds.len(), |i: int| packed(leds[i]))
}

proof fn lemma_read_colors(f: Seq<int>, leds: Seq<LedColor>)
    requires
        f.len() > 0,
    ensures
        read_on(f, color_list(leds)) == f + packed_colors(leds),
    decreases leds.len(),
{
    if leds.len() == 0 {
        assert(f + packed_colors(leds) =~= f);
    } else {
        let rest = leds.drop_last();
        let n = packed(leds.last());
        lemma_read_colors(f, rest);
        lemma_read_concat(f, color_list(rest), ","@ + text::decimal(n));
        let g = f + packed_colors(rest);
        lemma_read_concat(g, ","@, text::decimal(n));
        lemma_read_comma(g);
        lemma_read_decimal(g.push(0), n);
        assert(g.push(0).update(g.len() as int, n) =~= f + packed_colors(leds));
    }
}

/// A stream message reads back as the number of LEDs, the brightness, every packed colour and a
/// closing zero. Messages of 2^32 LEDs and more are left out: their count is cut to 32 bits.
pub proof fn stream_reads_back(leds: Seq<LedColor>, brightness: u8)
    requires
        leds.len() <= u32::MAX,
    ensures
        fields(stream_text(leds, brightness)) == seq![leds.len() as int, brightness as int]
            + packed_colors(leds) + seq![0int],
{
    let n = leds.len() as int;
    let t1 = text::decimal(n);
    let t2 = t1 + ","@;
    let t3 = t2 + text::decimal(brightness as int);
    let t4 = t3 + color_list(leds);
    let start = seq![0int];
    lemma_read_decimal(start, n);
    let f1 = start.update(0, n);
    lemma_read_concat(start, t1, ","@);
    lemma_read_comma(f1);
    lemma_read_concat(start, t2, text::decimal(brightness as int));
    lemma_read_decimal(f1.push(0), brightness as int);
    let f3 = f1.push(0).update(1, brightness as int);
    assert(f3 =~= seq![n, brightness as int]);
    lemma_read_concat(start, t3, color_list(leds));
    lemma_read_colors(f3, leds);
    let f4 = f3 + packed_colors(leds);
    lemma_read_concat(start, t4, ",0"@);
    reveal_strlit(",0");
    reveal_strlit(",");
    assert(",0"@ =~= ","@ + text::decimal(0));
    lemma_read_concat(f4, ","@, text::decimal(0));
    lemma_read_comma(f4);
    lemma_read_decimal(f4.push(0), 0);
    assert(f4.push(0).update(f4.len() as int, 0) =~= f4 + seq![0int]);
}

} // verus!
