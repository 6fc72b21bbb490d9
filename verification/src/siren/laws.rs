//! What holds of the siren light as a whole.

use vstd::prelude::*;
use crate::siren::{
    after_siren_tick, after_switch, color_text, marker_change, marker_color, marker_head, marker_text, material_text,
    scale_text, visual_of, Marker, SirenState,
};

verus! {

/// A siren that is on changes its color once in any three ticks.
pub proof fn law_color_lasts_three_ticks(s: SirenState)
    requires
        s.enabled,
        s.flash_counter <= u32::MAX - 3,
    ensures
        ({
            let one = after_siren_tick(s);
            let two = after_siren_tick(one);
            let three = after_siren_tick(two);
            let first = one.flash_on != s.flash_on;
            let second = two.flash_on != one.flash_on;
            let third = three.flash_on != two.flash_on;
            &&& first || second || third
            &&& !(first && second) && !(second && third) && !(first && third)
            &&& three.flash_counter == s.flash_counter + 3
            &&& three.enabled
        }),
{
}

/// Telling a siren again what it does already changes nothing.
pub proof fn law_repeated_commands_change_nothing(s: SirenState)
    ensures
        after_switch(s, s.enabled) == s,
        after_switch(after_switch(s, true), true) == after_switch(s, true),
        after_switch(after_switch(s, false), false) == after_switch(s, false),
{
}

/// While the siren is on, the marker is set exactly where it does not show the color of
/// the light yet, and then to the color that is published.
pub proof fn law_marker_follows_the_color(s: SirenState)
    requires
        s.enabled,
    ensures
        ({
            let after = after_siren_tick(s);
            &&& after.prev_flash_on == after.flash_on
            &&& after.flash_on == s.prev_flash_on <==> marker_change(s) is None
            &&& marker_change(s) == Some(Marker::Red) ==> visual_of(s) == "SIREN:RED"@
            &&& marker_change(s) == Some(Marker::Blue) ==> visual_of(s) == "SIREN:BLUE"@
        }),
{
}

/// A siren that is switched off hides its marker at the next tick and leaves it alone from
/// then on.
pub proof fn law_marker_is_hidden_once(s: SirenState)
    requires
        s.enabled,
        s.flash_counter < u32::MAX,
    ensures
        ({
            let off = after_switch(after_siren_tick(s), false);
            let after = after_siren_tick(off);
            &&& marker_change(off) == Some(Marker::Hidden)
            &&& visual_of(off) == "SIREN:OFF"@
            &&& marker_change(after) is None
            &&& visual_of(after) == "SIREN:OFF"@
            &&& after_siren_tick(after) == after
            &&& !after.flash_on && !after.prev_flash_on
        }),
{
}

/// A dark siren that is switched on turns red at its third tick, and blue at its sixth.
pub proof fn law_siren_starts_with_red(s: SirenState)
    requires
        !s.enabled,
        !s.flash_on,
        !s.prev_flash_on,
    ensures
        ({
            let on = after_switch(s, true);
            let one = after_siren_tick(on);
            let two = after_siren_tick(one);
            let three = after_siren_tick(two);
            let four = after_siren_tick(three);
            let five = after_siren_tick(four);
            &&& marker_change(on) is None
            &&& marker_change(one) is None
            &&& marker_change(two) == Some(Marker::Red)
            &&& marker_change(three) is None
            &&& marker_change(four) is None
            &&& marker_change(five) == Some(Marker::Blue)
        }),
{
}

/// A marker that is shown and then hidden without changing its color differs in its scale
/// only, and hangs on the siren's link both times.
pub proof fn law_hiding_changes_the_scale_only(color: (Seq<char>, Seq<char>, Seq<char>))
    ensures
        marker_text(color, true) == marker_head() + scale_text(true) + material_text(color),
        marker_text(color, false) == marker_head() + scale_text(false) + material_text(color),
        scale_text(true) != scale_text(false),
{
    reveal_strlit("scale: {x: ");
    reveal_strlit(", y: ");
    reveal_strlit(", z: ");
    reveal_strlit("}, ");
    reveal_strlit("0.06");
    reveal_strlit("0.001");
    assert(scale_text(true).len() < scale_text(false).len());
}

/// A command switches the siren on or off and nothing else, but for two things: one that is
/// switched on starts to count anew, and one that is switched off goes dark.
pub proof fn law_switching(s: SirenState, on: bool)
    ensures
        ({
            let after = after_switch(s, on);
            &&& after.enabled == on
            &&& after.flash_counter == if on && !s.enabled { 0u32 } else { s.flash_counter }
            &&& after.flash_on == if s.enabled && !on { false } else { s.flash_on }
            &&& after.prev_flash_on == s.prev_flash_on && after.prev_enabled == s.prev_enabled
        }),
{
}

/// A siren that is on counts its ticks and changes its color at every third of them; it
/// remembers the color that the marker shows.
pub proof fn law_flashing(s: SirenState)
    requires
        s.enabled,
        s.flash_counter < u32::MAX,
    ensures
        ({
            let after = after_siren_tick(s);
            &&& after.enabled && after.prev_enabled
            &&& after.flash_counter == s.flash_counter + 1
            &&& after.flash_on != s.flash_on <==> after.flash_counter % 3 == 0
            &&& after.prev_flash_on == after.flash_on
        }),
{
}

/// A siren that is off is dark and does not count.
pub proof fn law_dark(s: SirenState)
    requires
        !s.enabled,
    ensures
        ({
            let after = after_siren_tick(s);
            &&& !after.enabled && !after.prev_enabled && !after.flash_on
            &&& after.flash_counter == s.flash_counter
            &&& s.prev_enabled ==> !after.prev_flash_on
            &&& !s.prev_enabled ==> after.prev_flash_on == s.prev_flash_on
        }),
{
}

/// The marker turns red or blue exactly where a siren that is on shows that color and the
/// marker does not yet, and is hidden exactly at the first tick after the siren went off.
pub proof fn law_marker(s: SirenState)
    ensures
        ({
            let red = after_siren_tick(s).flash_on;
            &&& marker_change(s) == Some(Marker::Red) <==> s.enabled && red && !s.prev_flash_on
            &&& marker_change(s) == Some(Marker::Blue) <==> s.enabled && !red && s.prev_flash_on
            &&& marker_change(s) == Some(Marker::Hidden) <==> !s.enabled && s.prev_enabled
        }),
{
}

/// The published description tells a dark siren, a red and a blue one apart.
pub proof fn law_description(s: SirenState)
    ensures
        !s.enabled ==> visual_of(s) == "SIREN:OFF"@,
        s.enabled && after_siren_tick(s).flash_on ==> visual_of(s) == "SIREN:RED"@,
        s.enabled && !after_siren_tick(s).flash_on ==> visual_of(s) == "SIREN:BLUE"@,
{
}

/// The red marker is pure red, the blue one blue with a touch of green, the hidden one black.
pub proof fn law_colors()
    ensures
        marker_color(Marker::Red) == ("1"@, "0"@, "0"@),
        marker_color(Marker::Blue) == ("0"@, "0.2"@, "1"@),
        marker_color(Marker::Hidden) == ("0"@, "0"@, "0"@),
{
}

/// A request adds or changes the one sphere at the siren's link: 6 cm wide where it is to be
/// seen and 1 mm where not, of one color in every light.
pub proof fn law_request(color: (Seq<char>, Seq<char>, Seq<char>), visible: bool)
    ensures
        ({
            let d = if visible { "0.06"@ } else { "0.001"@ };
            let c = ": {r: "@ + color.0 + ", g: "@ + color.1 + ", b: "@ + color.2 + ", a: 1}"@;
            marker_text(color, visible) == "action: ADD_MODIFY, ns: \"siren\", id: 1, type: SPHERE, "@
                + "parent: \"go2::siren_link\", pose: {position: {x: 0, y: 0, z: 0}}, scale: {x: "@ + d + ", y: "@ + d
                + ", z: "@ + d + "}, material: {ambient"@ + c + ", diffuse"@ + c + ", emissive"@ + c + "}"@
        }),
{
    reveal_strlit("parent: \"go2::siren_link\", ");
    reveal_strlit("pose: {position: {x: 0, y: 0, z: 0}}, ");
    reveal_strlit("scale: {x: ");
    reveal_strlit("parent: \"go2::siren_link\", pose: {position: {x: 0, y: 0, z: 0}}, scale: {x: ");
    reveal_strlit("}, ");
    reveal_strlit("material: {");
    reveal_strlit("ambient");
    reveal_strlit("}, material: {ambient");
    reveal_strlit(", ");
    reveal_strlit("diffuse");
    reveal_strlit(", diffuse");
    reveal_strlit("emissive");
    reveal_strlit(", emissive");
    assert("parent: \"go2::siren_link\", pose: {position: {x: 0, y: 0, z: 0}}, scale: {x: "@
        =~= "parent: \"go2::siren_link\", "@ + "pose: {position: {x: 0, y: 0, z: 0}}, "@ + "scale: {x: "@);
    assert("}, material: {ambient"@ =~= "}, "@ + "material: {"@ + "ambient"@);
    assert(", diffuse"@ =~= ", "@ + "diffuse"@);
    assert(", emissive"@ =~= ", "@ + "emissive"@);
    let d = if visible { "0.06"@ } else { "0.001"@ };
    let c = ": {r: "@ + color.0 + ", g: "@ + color.1 + ", b: "@ + color.2 + ", a: 1}"@;
    assert(color_text("ambient"@, color) =~= "ambient"@ + c);
    assert(color_text("diffuse"@, color) =~= "diffuse"@ + c);
    assert(color_text("emissive"@, color) =~= "emissive"@ + c);
    assert(marker_text(color, visible) =~= "action: ADD_MODIFY, ns: \"siren\", id: 1, type: SPHERE, "@
        + "parent: \"go2::siren_link\", pose: {position: {x: 0, y: 0, z: 0}}, scale: {x: "@ + d + ", y: "@ + d + ", z: "@ + d
        + "}, material: {ambient"@ + c + ", diffuse"@ + c + ", emissive"@ + c + "}"@);
}

} // verus!
