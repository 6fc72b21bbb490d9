//! The siren light.

use vstd::prelude::*;

pub mod laws;

verus! {

/// How many ticks a color lasts.
pub const FLASH_TICKS: u32 = 3;

/// The siren light.
#[derive(Clone, Copy, Debug, PartialEq, Eq, Structural)]
pub struct SirenState {
    /// Whether the siren is commanded on.
    pub enabled: bool,
    /// Whether the flash is red; blue otherwise.
    pub flash_on: bool,
    /// Ticks since the siren was switched on.
    pub flash_counter: u32,
    /// The flash that the marker shows.
    pub prev_flash_on: bool,
    /// Whether the siren was on at the last tick.
    pub prev_enabled: bool,
}

/// What the marker on the robot shows.
#[derive(Clone, Copy, Debug, PartialEq, Eq, Structural)]
pub enum Marker {
    Red,
    Blue,
    Hidden,
}

/// What one tick of the siren leads to.
#[derive(Clone, Copy, Debug)]
pub struct SirenOutput {
    /// The marker to set, where it changes.
    pub marker: Option<Marker>,
    /// The published description of the light.
    pub visual: &'static str,
    /// The published state.
    pub enabled: bool,
}

/// The siren after an on or off command.
pub open spec fn after_switch(s: SirenState, on: bool) -> SirenState {
    SirenState {
        enabled: on,
        flash_counter: if on && !s.enabled { 0 } else { s.flash_counter },
        flash_on: s.flash_on && (on || !s.enabled),
        ..s
    }
}

/// Whether the flash is red after a tick: it changes every third tick of a siren that is
/// on.
pub open spec fn flash_after(s: SirenState) -> bool {
    if !s.enabled {
        false
    } else if (s.flash_counter + 1) % FLASH_TICKS as int == 0 {
        !s.flash_on
    } else {
        s.flash_on
    }
}

/// The siren after a tick.
pub open spec fn after_siren_tick(s: SirenState) -> SirenState {
    SirenState {
        enabled: s.enabled,
        flash_on: flash_after(s),
        flash_counter: if s.enabled { (s.flash_counter + 1) as u32 } else { s.flash_counter },
        prev_flash_on: if s.enabled { flash_after(s) } else { s.prev_flash_on && !s.prev_enabled },
        prev_enabled: s.enabled,
    }
}

/// The marker that a tick sets: the color where it changes, and none once the siren goes
/// off.
pub open spec fn marker_change(s: SirenState) -> Option<Marker> {
    if s.enabled {
        if flash_after(s) == s.prev_flash_on {
            None
        } else if flash_after(s) {
            Some(Marker::Red)
        } else {
            Some(Marker::Blue)
        }
    } else if s.prev_enabled {
        Some(Marker::Hidden)
    } else {
        None
    }
}

/// The published description of the light after a tick.
pub open spec fn visual_of(s: SirenState) -> Seq<char> {
    if !s.enabled {
        "SIREN:OFF"@
    } else if flash_after(s) {
        "SIREN:RED"@
    } else {
        "SIREN:BLUE"@
    }
}

impl Default for SirenState {
    /// Off.
    fn default() -> (r: Self)
        ensures
            r == (SirenState {
                enabled: false,
                flash_on: false,
                flash_counter: 0,
                prev_flash_on: false,
                prev_enabled: false,
            }),
    {
        SirenState { enabled: false, flash_on: false, flash_counter: 0, prev_flash_on: false, prev_enabled: false }
    }
}

impl SirenState {
    /// Switches the siren on or off.
    pub fn switch(&mut self, on: bool)
        ensures
            *final(self) == after_switch(*old(self), on),
    {
        let was_enabled: bool = self.enabled;
        self.enabled = on;
        if on && !was_enabled {
            self.flash_counter = 0;
        } else if !on && was_enabled {
            self.flash_on = false;
        }
    }

    /// One tick of the flash timer.
    pub fn tick(&mut self) -> (r: SirenOutput)
        requires
            old(self).enabled ==> old(self).flash_counter < u32::MAX,
        ensures
            *final(self) == after_siren_tick(*old(self)),
            r.marker == marker_change(*old(self)),
            r.visual@ == visual_of(*old(self)),
            r.enabled == old(self).enabled,
    {
        let mut marker: Option<Marker> = None;
        let visual: &'static str;
        if self.enabled {
            self.flash_counter = self.flash_counter + 1;
            if self.flash_counter % FLASH_TICKS == 0 {
                self.flash_on = !self.flash_on;
            }
            if self.flash_on != self.prev_flash_on {
                marker = Some(if self.flash_on { Marker::Red } else { Marker::Blue });
                self.prev_flash_on = self.flash_on;
            }
            visual = if self.flash_on { "SIREN:RED" } else { "SIREN:BLUE" };
        } else {
            if self.prev_enabled {
                marker = Some(Marker::Hidden);
                self.prev_flash_on = false;
            }
            self.flash_on = false;
            visual = "SIREN:OFF";
        }
        self.prev_enabled = self.enabled;
        SirenOutput { marker, visual, enabled: self.enabled }
    }
}

/// A color: its red, green and blue between 0 and 1, in decimals.
#[derive(Clone, Copy, Debug)]
pub struct Color<'a> {
    pub r: &'a str,
    pub g: &'a str,
    pub b: &'a str,
}

/// The red, green and blue of a marker, in decimals.
pub open spec fn marker_color(marker: Marker) -> (Seq<char>, Seq<char>, Seq<char>) {
    match marker {
        Marker::Red => ("1"@, "0"@, "0"@),
        Marker::Blue => ("0"@, "0.2"@, "1"@),
        Marker::Hidden => ("0"@, "0"@, "0"@),
    }
}

impl Marker {
    /// The color of the marker.
    pub fn color(self) -> (r: Color<'static>)
        ensures
            (r.r@, r.g@, r.b@) == marker_color(self),
    {
        match self {
            Marker::Red => Color { r: "1", g: "0", b: "0" },
            Marker::Blue => Color { r: "0", g: "0.2", b: "1" },
            Marker::Hidden => Color { r: "0", g: "0", b: "0" },
        }
    }

    /// Whether the marker can be seen.
    pub fn is_visible(self) -> (r: bool)
        ensures
            r == !(self is Hidden),
    {
        match self {
            Marker::Red | Marker::Blue => true,
            Marker::Hidden => false,
        }
    }
}

/// The diameter (m) of a marker, in decimals: a hidden one is too small to be seen.
pub open spec fn marker_scale(visible: bool) -> Seq<char> {
    if visible {
        "0.06"@
    } else {
        "0.001"@
    }
}

/// A color in the syntax of the marker service.
pub open spec fn color_text(name: Seq<char>, color: (Seq<char>, Seq<char>, Seq<char>)) -> Seq<char> {
    name + ": {r: "@ + color.0 + ", g: "@ + color.1 + ", b: "@ + color.2 + ", a: 1}"@
}

/// The part of a request that comes before its scale: a sphere at the origin of the link
/// that carries the siren.
pub open spec fn marker_head() -> Seq<char> {
    "action: ADD_MODIFY, ns: \"siren\", id: 1, type: SPHERE, "@ + "parent: \"go2::siren_link\", "@
        + "pose: {position: {x: 0, y: 0, z: 0}}, "@
}

/// The part of a request that says how large the sphere is.
pub open spec fn scale_text(visible: bool) -> Seq<char> {
    let s = marker_scale(visible);
    "scale: {x: "@ + s + ", y: "@ + s + ", z: "@ + s + "}, "@
}

/// The part of a request that says which color the sphere has, in every light.
pub open spec fn material_text(color: (Seq<char>, Seq<char>, Seq<char>)) -> Seq<char> {
    "material: {"@ + color_text("ambient"@, color) + ", "@ + color_text("diffuse"@, color) + ", "@ + color_text(
        "emissive"@,
        color,
    ) + "}"@
}

/// The request that gives the marker a color and shows or hides it.
pub open spec fn marker_text(color: (Seq<char>, Seq<char>, Seq<char>), visible: bool) -> Seq<char> {
    marker_head() + scale_text(visible) + material_text(color)
}

/// Appends a color in the syntax of the marker service.
fn append_color(text: &mut String, name: &str, color: Color)
    ensures
        final(text)@ == old(text)@ + color_text(name@, (color.r@, color.g@, color.b@)),
{
    text.append(name);
    text.append(": {r: ");
    text.append(color.r);
    text.append(", g: ");
    text.append(color.g);
    text.append(", b: ");
    text.append(color.b);
    text.append(", a: 1}");
    proof {
        assert(text@ =~= old(text)@ + color_text(name@, (color.r@, color.g@, color.b@)));
    }
}

/// The request to the marker service that gives the marker a color and shows or hides it.
pub fn marker_request(color: Color, visible: bool) -> (r: String)
    ensures
        r@ == marker_text((color.r@, color.g@, color.b@), visible),
{
    let scale: &str = if visible { "0.06" } else { "0.001" };
    let mut text: String = "action: ADD_MODIFY, ns: \"siren\", id: 1, type: SPHERE, ".to_owned();
    text.append("parent: \"go2::siren_link\", ");
    text.append("pose: {position: {x: 0, y: 0, z: 0}}, ");
    text.append("scale: {x: ");
    text.append(scale);
    text.append(", y: ");
    text.append(scale);
    text.append(", z: ");
    text.append(scale);
    text.append("}, ");
    text.append("material: {");
    append_color(&mut text, "ambient", color);
    text.append(", ");
    append_color(&mut text, "diffuse", color);
    text.append(", ");
    append_color(&mut text, "emissive", color);
    text.append("}");
    proof {
        assert(text@ =~= marker_text((color.r@, color.g@, color.b@), visible));
    }
    text
}

} // verus!
