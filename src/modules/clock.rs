//! A clock showing the time of day as `HH:MM:SS`.
use crate::draw::{
    glyph_of,
    in_rect,
    lemma_fill_rect_stays_inside,
    pixel_of,
    rect_fill_byte,
    text_pixels,
    Canvas,
    Glyph,
};
use crate::module::interface::{table_keys, Module, ModuleError, ModuleEvent, Rect};
use vstd::prelude::*;

verus! {

/// Relies on `std::time::SystemTime::elapsed` of `UNIX_EPOCH`: whole
/// seconds since the Unix epoch, or nothing for a clock set before it.
#[verifier::external_body]
fn secs_since_epoch() -> (r: Option<u64>) {
    std::time::UNIX_EPOCH.elapsed().ok().map(|d| d.as_secs())
}

/// Relies on `toml::map::Map::get`: the value stored under `key`, if the
/// table holds that key.
#[verifier::external_body]
fn table_get<'t>(t: &'t toml::Table, key: &str) -> (r: Option<&'t toml::Value>)
    ensures
        r is Some == table_keys(*t).contains(key@),
{
    t.get(key)
}

/// Relies on `toml::Value::as_array`: the items of an array value.
#[verifier::external_body]
fn value_array<'v>(v: &'v toml::Value) -> (r: Option<&'v Vec<toml::Value>>) {
    v.as_array()
}

/// Relies on `toml::Value::as_integer`: the number of an integer value.
#[verifier::external_body]
fn value_integer(v: &toml::Value) -> (r: Option<i64>) {
    v.as_integer()
}

/// Relies on `toml::Value::as_str`: the text of a string value.
#[verifier::external_body]
fn value_text<'v>(v: &'v toml::Value) -> (r: Option<&'v str>) {
    v.as_str()
}

/// The items of an array value, each as an integer where it is one.
fn value_integers(v: &toml::Value) -> (r: Option<Vec<Option<i64>>>) {
    match value_array(v) {
        Some(items) => {
            let mut out: Vec<Option<i64>> = Vec::new();
            let mut i: usize = 0;
            while i < items.len()
                invariant
                    0 <= i <= items@.len(),
                    out@.len() == i,
                decreases items@.len() - i,
            {
                out.push(value_integer(&items[i]));
                i = i + 1;
            }
            Some(out)
        },
        None => None,
    }
}

/// Relies on `toml::Value::as_float`: a float value as whole pixels,
/// rounded toward zero and held within `u16`.
#[verifier::external_body]
fn value_pixels(v: &toml::Value) -> (r: Option<u16>) {
    v.as_float().map(|f| f as u16)
}

/// The color given by a list of configured components: with at least four
/// items, each of the first four that is an integer replaces its channel
/// (keeping its low eight bits); otherwise the color is kept.
pub open spec fn color_with(color: [u8; 4], items: Seq<Option<i64>>) -> [u8; 4] {
    if items.len() >= 4 {
        [
            channel_with(color@[0], items[0]),
            channel_with(color@[1], items[1]),
            channel_with(color@[2], items[2]),
            channel_with(color@[3], items[3]),
        ]
    } else {
        color
    }
}

/// One channel after a configured component.
pub open spec fn channel_with(c: u8, item: Option<i64>) -> u8 {
    match item {
        Some(v) => v as u8,
        None => c,
    }
}

fn apply_channel(c: u8, item: Option<i64>) -> (r: u8)
    ensures
        r == channel_with(c, item),
{
    match item {
        Some(v) => #[verifier::truncate]
        (v as u8),
        None => c,
    }
}

/// The color given by a list of configured components.
pub fn apply_color(color: [u8; 4], items: &Vec<Option<i64>>) -> (r: [u8; 4])
    ensures
        r == color_with(color, items@),
{
    if items.len() >= 4 {
        let r = [
            apply_channel(color[0], items[0]),
            apply_channel(color[1], items[1]),
            apply_channel(color[2], items[2]),
            apply_channel(color[3], items[3]),
        ];
        assert(r@ =~= color_with(color, items@)@);
        r
    } else {
        color
    }
}

/// The two decimal digits of `n` (below 100).
pub open spec fn two_digits(n: int) -> Seq<char> {
    seq!["0123456789"@[n / 10], "0123456789"@[n % 10]]
}

/// The time of day `secs` seconds after the epoch, as `HH:MM:SS`.
pub open spec fn clock_text_spec(secs: int) -> Seq<char> {
    two_digits((secs / 3600) % 24) + ":"@ + two_digits((secs / 60) % 60) + ":"@ + two_digits(
        secs % 60,
    )
}

/// Appends the two digits of `n` to `s`.
fn push_two_digits(s: &mut String, n: u64)
    requires
        n < 100,
    ensures
        final(s)@ == old(s)@ + two_digits(n as int),
{
    let digits = "0123456789";
    proof {
        reveal_strlit("0123456789");
    }
    let hi = (n / 10) as usize;
    let lo = (n % 10) as usize;
    s.append(digits.substring_char(hi, hi + 1));
    s.append(digits.substring_char(lo, lo + 1));
    assert(final(s)@ =~= old(s)@ + two_digits(n as int));
}

/// The time of day `secs` seconds after the epoch, as `HH:MM:SS`.
pub fn clock_text(secs: u64) -> (r: String)
    ensures
        r@ == clock_text_spec(secs as int),
{
    let mut s = String::new();
    push_two_digits(&mut s, (secs / 3600) % 24);
    s.append(":");
    push_two_digits(&mut s, (secs / 60) % 60);
    s.append(":");
    push_two_digits(&mut s, secs % 60);
    proof {
        reveal_strlit(":");
    }
    assert(s@ =~= clock_text_spec(secs as int));
    s
}

/// The canvas after the clock's background `bg` is filled into `area`:
/// only when the background is not fully transparent.
pub open spec fn background_fill(before: Seq<u8>, w: int, h: int, area: Rect, bg: [u8; 4]) -> Seq<
    u8,
> {
    if bg@[3] > 0 {
        Seq::new(
            before.len(),
            |b: int|
                rect_fill_byte(
                    before,
                    w,
                    h,
                    area.x as int,
                    area.y as int,
                    area.width as int,
                    area.height as int,
                    bg,
                    b,
                ),
        )
    } else {
        before
    }
}

/// The font size used in an area `height` pixels tall: the configured size,
/// at most four fifths of the height.
pub open spec fn fitted_size(font_size: u16, height: u32) -> u16 {
    if font_size as int <= height as int * 4 / 5 {
        font_size
    } else {
        (height as int * 4 / 5) as u16
    }
}

/// Where the clock's text starts in `area`: 10 pixels in, vertically
/// centred for the fitted size (held within `i32`).
pub open spec fn text_origin(area: Rect, size: u16) -> (int, int) {
    (
        crate::draw::clamp_i32(area.x + 10),
        crate::draw::clamp_i32(area.y + (area.height - size) / 2),
    )
}

/// The built-in clock module.
pub struct ClockModule {
    id: String,
    name: String,
    color: [u8; 4],
    format: String,
    font_size: u16,
    background_color: [u8; 4],
}

impl ClockModule {
    /// Text color.
    pub closed spec fn spec_color(&self) -> [u8; 4] {
        self.color
    }

    /// Background color of its area (drawn only when not fully transparent).
    pub closed spec fn spec_background(&self) -> [u8; 4] {
        self.background_color
    }

    /// Font size in pixels per em.
    pub closed spec fn spec_font_size(&self) -> u16 {
        self.font_size
    }

    /// A clock with id "clock", white text of size 16 and no background.
    pub fn new() -> (r: Self)
        ensures
            r.spec_id() == "clock"@,
            r.spec_color() == [255u8, 255u8, 255u8, 255u8],
            r.spec_background() == [0u8, 0u8, 0u8, 0u8],
            r.spec_font_size() == 16,
    {
        proof {
            reveal_strlit("clock");
        }
        ClockModule {
            id: "clock".to_owned(),
            name: "Clock".to_owned(),
            color: [255, 255, 255, 255],
            format: "%H:%M:%S".to_owned(),
            font_size: 16,
            background_color: [0, 0, 0, 0],
        }
    }

    /// Apply configuration read from a table: `color` and
    /// `background_color` as lists of integers, `format` as text,
    /// `font_size` as a float.
    pub fn apply_settings(
        &mut self,
        color: Option<Vec<Option<i64>>>,
        format: Option<String>,
        font_size: Option<u16>,
        background: Option<Vec<Option<i64>>>,
    )
        ensures
            final(self).spec_id() == old(self).spec_id(),
            final(self).spec_color() == match color {
                Some(items) => color_with(old(self).spec_color(), items@),
                None => old(self).spec_color(),
            },
            final(self).spec_background() == match background {
                Some(items) => color_with(old(self).spec_background(), items@),
                None => old(self).spec_background(),
            },
            final(self).spec_font_size() == match font_size {
                Some(s) => s,
                None => old(self).spec_font_size(),
            },
    {
        if let Some(items) = color {
            self.color = apply_color(self.color, &items);
        }
        if let Some(f) = format {
            self.format = f;
        }
        if let Some(s) = font_size {
            self.font_size = s;
        }
        if let Some(items) = background {
            self.background_color = apply_color(self.background_color, &items);
        }
    }

    /// The current time as `HH:MM:SS` (UTC).
    fn get_current_time(&self) -> (r: String)
        ensures
            exists|secs: u64| r@ == clock_text_spec(secs as int),
    {
        let secs = match secs_since_epoch() {
            Some(s) => s,
            None => 0,
        };
        clock_text(secs)
    }
}

impl Module for ClockModule {
    closed spec fn spec_id(&self) -> Seq<char> {
        self.id@
    }

    closed spec fn spec_preferred_size(&self) -> (u32, u32) {
        (100, 30)
    }

    closed spec fn spec_handles(&self, event: ModuleEvent, area: Rect) -> bool {
        event == ModuleEvent::Update || event == ModuleEvent::UpdateExpanded
    }

    closed spec fn spec_init_ok(&self, config: toml::Table) -> bool {
        true
    }

    /// The background is filled into the area when not fully transparent;
    /// then, with a text renderer, the time of some moment is drawn over it,
    /// clipped to the area.
    closed spec fn spec_draws(
        &self,
        before: Seq<u8>,
        after: Seq<u8>,
        w: int,
        h: int,
        text: Option<Seq<u8>>,
        area: Rect,
    ) -> bool {
        let filled = background_fill(before, w, h, area, self.background_color);
        let size = fitted_size(self.font_size, area.height);
        let origin = text_origin(area, size);
        match text {
            None => after == filled,
            Some(font) => exists|secs: u64, gs: Seq<Glyph>|
                {
                    &&& gs.len() == clock_text_spec(secs as int).len()
                    &&& forall|i: int|
                        0 <= i < gs.len() ==> (#[trigger] gs[i]).wf() && gs[i]@ == glyph_of(
                            font,
                            clock_text_spec(secs as int)[i],
                            size,
                        )
                    &&& after == text_pixels(
                        filled,
                        w,
                        h,
                        area,
                        gs,
                        origin.0,
                        origin.1,
                        self.color,
                    )
                },
        }
    }

    fn id(&self) -> (r: &str) {
        self.id.as_str()
    }

    fn name(&self) -> &str {
        self.name.as_str()
    }

    fn init(&mut self, config: &toml::Table) -> (r: Result<(), ModuleError>)
        ensures
            r is Ok,
    {
        let color = match table_get(config, "color") {
            Some(v) => value_integers(v),
            None => None,
        };
        let format = match table_get(config, "format") {
            Some(v) => match value_text(v) {
                Some(t) => Some(t.to_owned()),
                None => None,
            },
            None => None,
        };
        let font_size = match table_get(config, "font_size") {
            Some(v) => value_pixels(v),
            None => None,
        };
        let background = match table_get(config, "background_color") {
            Some(v) => value_integers(v),
            None => None,
        };
        self.apply_settings(color, format, font_size, background);
        Ok(())
    }

    fn draw(&self, canvas: &mut Canvas, area: Rect) -> (r: Result<(), ModuleError>)
        ensures
            r is Ok,
    {
        let ghost before = canvas.pixels();
        let ghost w = canvas.spec_width() as int;
        if self.background_color[3] > 0 {
            canvas.fill_rect(area.x, area.y, area.width, area.height, self.background_color);
            assert forall|b: int|
                0 <= b < before.len() && !in_rect(pixel_of(b), w, area) implies #[trigger] canvas.pixels()[b]
                == before[b] by {
                lemma_fill_rect_stays_inside(
                    before,
                    w,
                    old(canvas).spec_height() as int,
                    area.x as int,
                    area.y as int,
                    area.width as int,
                    area.height as int,
                    self.background_color,
                    b,
                );
            }
        }
        let ghost filled = canvas.pixels();
        proof {
            assert(filled =~= background_fill(
                before,
                w,
                old(canvas).spec_height() as int,
                area,
                self.background_color,
            ));
        }
        let time_str = self.get_current_time();
        let ghost secs = choose|s: u64| time_str@ == clock_text_spec(s as int);
        let limit: u64 = area.height as u64 * 4 / 5;
        let size: u16 = if (self.font_size as u64) <= limit {
            self.font_size
        } else {
            limit as u16
        };
        let x = clamp_i64_to_i32(area.x as i64 + 10);
        let y = clamp_i64_to_i32(area.y as i64 + (area.height as i64 - size as i64) / 2);
        assert(size == fitted_size(self.font_size, area.height));
        assert((x as int, y as int) == text_origin(area, size));
        let ghost src = canvas.text_source();
        assert(src == old(canvas).text_source());
        canvas.draw_text_clipped(area, x, y, time_str.as_str(), self.color, size);
        proof {
            let hh = old(canvas).spec_height() as int;
            if let Some(font) = src {
                let gs = choose|gs: Seq<Glyph>|
                    {
                        &&& gs.len() == time_str@.len()
                        &&& forall|i: int|
                            0 <= i < gs.len() ==> (#[trigger] gs[i]).wf() && gs[i]@ == glyph_of(
                                font,
                                time_str@[i],
                                size,
                            )
                        &&& canvas.pixels() == text_pixels(
                            filled,
                            w,
                            hh,
                            area,
                            gs,
                            x as int,
                            y as int,
                            self.color,
                        )
                    };
                assert(time_str@ == clock_text_spec(secs as int));
                assert(filled == background_fill(before, w, hh, area, self.background_color));
                let origin = text_origin(area, size);
                assert(origin.0 == x as int && origin.1 == y as int);
                assert(canvas.pixels() == text_pixels(
                    filled,
                    w,
                    hh,
                    area,
                    gs,
                    origin.0,
                    origin.1,
                    self.color,
                ));
                assert(forall|i: int|
                    0 <= i < gs.len() ==> (#[trigger] gs[i]).wf() && gs[i]@ == glyph_of(
                        font,
                        clock_text_spec(secs as int)[i],
                        fitted_size(self.font_size, area.height),
                    ));
                assert(self.spec_draws(before, canvas.pixels(), w, hh, src, area));
            } else {
                assert(canvas.pixels() == filled);
            }
        }
        assert forall|b: int|
            0 <= b < before.len() && !in_rect(pixel_of(b), w, area) implies #[trigger] canvas.pixels()[b]
            == before[b] by {
            assert(canvas.pixels()[b] == filled[b]);
        }
        Ok(())
    }

    fn handle_event(&mut self, event: &ModuleEvent, area: Rect) -> (r: bool)
        ensures
            r == (*event == ModuleEvent::Update || *event == ModuleEvent::UpdateExpanded),
    {
        match event {
            ModuleEvent::Update | ModuleEvent::UpdateExpanded => true,
            _ => false,
        }
    }

    fn preferred_size(&self) -> (r: (u32, u32)) {
        (100, 30)
    }
}

/// `v` held within `i32`.
fn clamp_i64_to_i32(v: i64) -> (r: i32)
    ensures
        r == crate::draw::clamp_i32(v as int),
{
    if v < i32::MIN as i64 {
        i32::MIN
    } else if v > i32::MAX as i64 {
        i32::MAX
    } else {
        v as i32
    }
}

} // verus!
