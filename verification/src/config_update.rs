//! What a new configuration changes in a window.

use crate::arithmetic::law_named_numbers;
use crate::arithmetic::law_signs;
use crate::exact::exact_difference;
use crate::laws::lemma_ratio_settled;
use crate::layout::ratio_differs;
use crate::single::lemma_order;
use crate::single::one;
use crate::single::Single;
use crate::single::EPSILON;
use crate::single::ONE;
use vstd::prelude::*;

verus! {

/// What a window reads of its configuration.
pub struct WindowConfig {
    pub cursor_thickness: Single,
    /// Horizontal and vertical padding at a scale factor of 1.
    pub padding: (Single, Single),
    pub dynamic_padding: bool,
    pub resize_increments: bool,
    pub dynamic_title: bool,
    pub title: String,
    pub opacity: Single,
}

/// The font of a window beside that of its configuration.
#[derive(Debug, Clone, Copy, PartialEq, Eq, Structural)]
pub struct FontChange {
    /// Whether the font differs between the two configurations.
    pub changed: bool,
    /// Whether the window still has the font size of the old configuration.
    pub size_follows_config: bool,
}

/// What has to be done for a new configuration.
#[derive(Debug, Clone, Copy, PartialEq, Eq, Structural)]
pub struct ConfigUpdate {
    /// The cursor has to be drawn anew.
    pub cursor_dirty: bool,
    /// The font size of the new configuration has to be taken over.
    pub rescale_font: bool,
    /// The font has to be loaded anew.
    pub update_font: bool,
    /// The display has to be updated.
    pub display_dirty: bool,
    /// The title of the new configuration has to be shown.
    pub set_title: bool,
    /// The window lets its background through.
    pub transparent: bool,
}

/// Whether the two paddings are equal.
pub open spec fn same_padding(old: WindowConfig, new: WindowConfig) -> bool {
    old.padding.0.equals(new.padding.0) && old.padding.1.equals(new.padding.1)
}

/// What has to be done for a new configuration. The title stays where it was given for this window,
/// or where the terminal has set it and may.
pub open spec fn spec_config_update(
    old: WindowConfig,
    new: WindowConfig,
    font: FontChange,
    preserve_title: bool,
    shown_title: Seq<char>,
) -> ConfigUpdate {
    ConfigUpdate {
        cursor_dirty: ratio_differs(old.cursor_thickness, new.cursor_thickness),
        rescale_font: font.changed && font.size_follows_config,
        update_font: font.changed,
        display_dirty: !same_padding(old, new) || old.dynamic_padding != new.dynamic_padding
            || old.resize_increments != new.resize_increments,
        set_title: !preserve_title && (!new.dynamic_title || shown_title == old.title@),
        transparent: !Single::from_bits(ONE).le(new.opacity),
    }
}

/// What has to be done for a new configuration.
pub fn config_update(
    old: &WindowConfig,
    new: &WindowConfig,
    font: FontChange,
    preserve_title: bool,
    shown_title: &String,
) -> (update: ConfigUpdate)
    ensures
        update == spec_config_update(*old, *new, font, preserve_title, shown_title@),
{
    let cursor_dirty: bool = Single::from_bits(EPSILON).lt(
        old.cursor_thickness.minus(new.cursor_thickness).abs(),
    );
    let same_padding: bool = old.padding.0.equals(new.padding.0) && old.padding.1.equals(
        new.padding.1,
    );
    let display_dirty: bool = !same_padding || old.dynamic_padding != new.dynamic_padding
        || old.resize_increments != new.resize_increments;
    let set_title: bool = !preserve_title && (!new.dynamic_title || *shown_title == old.title);
    let opaque: bool = Single::from_bits(ONE).le(new.opacity);
    ConfigUpdate {
        cursor_dirty,
        rescale_font: font.changed && font.size_follows_config,
        update_font: font.changed,
        display_dirty,
        set_title,
        transparent: !opaque,
    }
}

/// The configuration that a window has already changes neither cursor, nor font, nor display.
pub proof fn law_same_config_keeps_display(
    config: WindowConfig,
    size_follows_config: bool,
    preserve_title: bool,
    shown_title: Seq<char>,
)
    requires
        !config.padding.0.nan(),
        !config.padding.1.nan(),
    ensures
        ({
            let font = FontChange { changed: false, size_follows_config };
            let update = spec_config_update(config, config, font, preserve_title, shown_title);
            !update.cursor_dirty && !update.rescale_font && !update.update_font
                && !update.display_dirty
        }),
{
    lemma_ratio_settled(config.cursor_thickness);
}

/// A title that was given for the window stays. Without one, the title of the new configuration is
/// shown where the terminal may not set titles, and also where the window still shows that of the
/// old configuration, whatever the new one is; a title that the terminal has set and may set stays.
pub proof fn law_title_follows_config(
    old: WindowConfig,
    new: WindowConfig,
    font: FontChange,
    shown_title: Seq<char>,
)
    ensures
        ({
            let given = spec_config_update(old, new, font, true, shown_title);
            let free = spec_config_update(old, new, font, false, shown_title);
            &&& !given.set_title
            &&& shown_title == old.title@ ==> free.set_title
            &&& !new.dynamic_title ==> free.set_title
            &&& new.dynamic_title && shown_title != old.title@ ==> !free.set_title
        }),
{
}

/// The font is loaded anew where it differs, and only then; its size is taken over with it, but
/// only where the window had the size of its configuration.
pub proof fn law_font_follows_config(
    old: WindowConfig,
    new: WindowConfig,
    font: FontChange,
    preserve_title: bool,
    shown_title: Seq<char>,
)
    ensures
        ({
            let update = spec_config_update(old, new, font, preserve_title, shown_title);
            &&& font.changed ==> update.update_font && update.rescale_font
                == font.size_follows_config
            &&& !font.changed ==> !update.update_font && !update.rescale_font
        }),
{
}

/// The display is updated exactly where one of the paddings differs in value, or where one of the
/// two settings of the window's size was switched; a padding that is no number always differs.
pub proof fn law_display_follows_config(
    old: WindowConfig,
    new: WindowConfig,
    font: FontChange,
    preserve_title: bool,
    shown_title: Seq<char>,
)
    ensures
        ({
            let dirty = spec_config_update(
                old,
                new,
                font,
                preserve_title,
                shown_title,
            ).display_dirty;
            let finite = old.padding.0.finite() && old.padding.1.finite() && new.padding.0.finite()
                && new.padding.1.finite();
            &&& finite ==> (dirty <==> {
                ||| old.padding.0.units() != new.padding.0.units()
                ||| old.padding.1.units() != new.padding.1.units()
                ||| old.dynamic_padding != new.dynamic_padding
                ||| old.resize_increments != new.resize_increments
            })
            &&& old.padding.0.nan() || old.padding.1.nan() ==> dirty
            &&& new.padding.0.nan() || new.padding.1.nan() ==> dirty
        }),
{
    if old.padding.0.finite() && new.padding.0.finite() {
        lemma_order(old.padding.0, new.padding.0);
    }
    if old.padding.1.finite() && new.padding.1.finite() {
        lemma_order(old.padding.1, new.padding.1);
    }
}

/// The cursor is drawn anew exactly where its thickness has changed by more than the rounding of a
/// number near 1.
pub proof fn law_cursor_follows_config(
    old: WindowConfig,
    new: WindowConfig,
    font: FontChange,
    preserve_title: bool,
    shown_title: Seq<char>,
)
    ensures
        ({
            let dirty = spec_config_update(
                old,
                new,
                font,
                preserve_title,
                shown_title,
            ).cursor_dirty;
            let (a, b) = (old.cursor_thickness, new.cursor_thickness);
            let least = Single::from_bits(EPSILON).units();
            &&& exact_difference(a, b) ==> (dirty <==> a.units() - b.units() > least || b.units()
                - a.units() > least)
            &&& dirty <==> Single::from_bits(EPSILON).lt(a.minus(b).abs())
        }),
{
    let epsilon = Single::from_bits(EPSILON);
    let difference = old.cursor_thickness.minus(new.cursor_thickness);
    law_signs(difference);
    law_named_numbers(difference);
    if difference.finite() {
        lemma_order(epsilon, difference.abs());
    }
}

/// The background shows through exactly where the opacity lies below 1, or is no number.
pub proof fn law_opacity_decides_transparency(
    old: WindowConfig,
    new: WindowConfig,
    font: FontChange,
    preserve_title: bool,
    shown_title: Seq<char>,
)
    ensures
        ({
            let transparent = spec_config_update(
                old,
                new,
                font,
                preserve_title,
                shown_title,
            ).transparent;
            &&& new.opacity.finite() ==> (transparent <==> new.opacity.units() < one())
            &&& new.opacity.nan() ==> transparent
            &&& new.opacity.infinite() ==> transparent == new.opacity.negative()
        }),
{
    let whole = Single::from_bits(ONE);
    law_named_numbers(whole);
    if new.opacity.finite() {
        lemma_order(whole, new.opacity);
    }
}

} // verus!
