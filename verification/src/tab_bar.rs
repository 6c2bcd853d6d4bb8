//! The tab bar of a tabbed container: its items, how a bar of a given
//! size is divided among them, and which tab a click lands on.
use vstd::prelude::*;

use crate::geometry::Rect;

verus! {

/// A single tab displayed in a tab bar.
#[derive(Clone, Debug)]
pub struct TabBarItem {
    pub id: String,
    pub title: String,
    pub is_active: bool,
}

/// The tab under horizontal position `x` of a bar `width` wide holding
/// `count` tabs of equal width: positions left of the bar count as its
/// left edge, and positions past the last tab as the last tab.
pub open spec fn spec_tab_index_at(x: i32, width: i32, count: usize) -> Option<usize> {
    if count == 0 {
        None
    } else {
        let x0: int = if x < 0 { 0 } else { x as int };
        let w: int = if width < 1 { 1 } else { width as int };
        let i = x0 * count / w;
        Some(if i < count - 1 { i as usize } else { (count - 1) as usize })
    }
}

/// The tab under horizontal position `x` of a bar `width` wide holding
/// `count` tabs.
pub fn tab_index_at_point(x: i32, width: i32, count: usize) -> (r: Option<usize>)
    ensures
        r == spec_tab_index_at(x, width, count),
{
    if count == 0 {
        return None;
    }
    let x0: u128 = if x < 0 {
        0
    } else {
        x as u128
    };
    let w: u128 = if width < 1 {
        1
    } else {
        width as u128
    };
    proof {
        assert(x0 * (count as u128) <= 0x8000_0000u128 * 0x1_0000_0000_0000_0000u128) by (nonlinear_arith)
            requires
                x0 <= 0x8000_0000u128,
                count <= 0x1_0000_0000_0000_0000u128,
        ;
    }
    let i: u128 = x0 * (count as u128) / w;
    if i < (count - 1) as u128 {
        Some(i as usize)
    } else {
        Some(count - 1)
    }
}

/// Where the parts of tab `index` of `count` go in a bar filling `client`.
#[derive(Clone, Copy, Debug, PartialEq, Eq, Structural)]
pub struct TabItemLayout {
    /// The whole tab.
    pub item: Rect,
    /// The separator at the tab's right edge, for all tabs but the last.
    pub separator: Option<Rect>,
    /// The area for the tab's icon and title, inside its padding.
    pub content: Rect,
    /// The square for the tab's icon, where it has one and it fits.
    pub icon: Option<Rect>,
    /// The area left for the title.
    pub title: Rect,
}

/// `x` kept between `lo` and `hi`.
pub open spec fn clamp_between(x: int, lo: int, hi: int) -> int {
    if x < lo { lo } else if x > hi { hi } else { x }
}

/// The layout of tab `index` of `count` in a bar filling `client`, with
/// an icon where `has_icon`: tabs share the bar's width equally (edges
/// rounded toward zero); a separator `height / 24` wide (at least one
/// pixel) and inset by `height / 6` (at least two) marks each tab's right
/// edge but the last's; the content is inset by `height / 3` kept between
/// six and twelve; an icon two thirds of the height tall, centred
/// vertically, takes the content's left end where it fits, followed by
/// half the padding (at least three) before the title.
pub open spec fn spec_tab_item_layout(client: Rect, count: int, index: int, has_icon: bool) -> TabItemLayout {
    let width: int = if client.right - client.left < 1 { 1 } else { client.right - client.left };
    let height: int = if client.bottom - client.top < 0 { 0 } else { client.bottom - client.top };
    let left = client.left + width * index / count;
    let right = client.left + width * (index + 1) / count;
    let item = Rect { left: left as i32, top: client.top, right: right as i32, bottom: client.bottom };
    let sep_w: int = if height / 24 < 1 { 1 } else { height / 24 };
    let sep_m: int = if height / 6 < 2 { 2 } else { height / 6 };
    let separator = if index + 1 < count {
        Some(Rect {
            left: (right - sep_w) as i32,
            top: (client.top + sep_m) as i32,
            right: right as i32,
            bottom: (client.bottom - sep_m) as i32,
        })
    } else {
        None
    };
    let pad = clamp_between(height / 3, 6, 12);
    let content = Rect { left: (left + pad) as i32, top: client.top, right: (right - pad) as i32, bottom: client.bottom };
    let icon_size = height * 2 / 3;
    let fits = has_icon && icon_size > 0 && content.right - content.left >= icon_size;
    let icon_top = client.top + (height - icon_size) / 2;
    let gap: int = if pad / 2 < 3 { 3 } else { pad / 2 };
    TabItemLayout {
        item,
        separator,
        content,
        icon: if fits {
            Some(Rect {
                left: content.left,
                top: icon_top as i32,
                right: (content.left + icon_size) as i32,
                bottom: (icon_top + icon_size) as i32,
            })
        } else {
            None
        },
        title: if fits {
            Rect { left: (content.left + icon_size + gap) as i32, ..content }
        } else {
            content
        },
    }
}

/// Whether every coordinate of the layout of a tab in `client` fits in
/// an `i32`.
pub open spec fn layout_fits(client: Rect, count: int) -> bool {
    let width: int = if client.right - client.left < 1 { 1 } else { client.right - client.left };
    &&& 0 <= client.left
    &&& client.left + width <= i32::MAX
    &&& width * count <= i32::MAX
    &&& client.top <= client.bottom
    &&& client.bottom - client.top <= i32::MAX
    &&& 0 <= client.top
}

/// The layout of tab `index` of `count` in a bar filling `client`.
pub fn tab_item_layout(client: Rect, count: i32, index: i32, has_icon: bool) -> (r: TabItemLayout)
    requires
        0 <= index < count,
        layout_fits(client, count as int),
    ensures
        r == spec_tab_item_layout(client, count as int, index as int, has_icon),
{
    let w0: i64 = client.right as i64 - client.left as i64;
    let width: i64 = if w0 < 1 {
        1
    } else {
        w0
    };
    let h0: i64 = client.bottom as i64 - client.top as i64;
    let height: i64 = if h0 < 0 {
        0
    } else {
        h0
    };
    proof {
        assert(width * (index as i64) <= width * (count as i64)) by (nonlinear_arith)
            requires
                width >= 1,
                0 <= index < count,
        ;
        assert(width * ((index + 1) as i64) <= width * (count as i64)) by (nonlinear_arith)
            requires
                width >= 1,
                0 <= index < count,
        ;
        assert((width as int) * (index as int) / (count as int) <= width as int) by (nonlinear_arith)
            requires
                width >= 1,
                0 <= index < count,
        ;
        assert((width as int) * ((index + 1) as int) / (count as int) <= width as int) by (nonlinear_arith)
            requires
                width >= 1,
                0 <= index < count,
        ;
        assert((width as int) * (index as int) / (count as int) >= 0) by (nonlinear_arith)
            requires
                width >= 1,
                0 <= index < count,
        ;
        assert((width as int) * ((index + 1) as int) / (count as int) >= 0) by (nonlinear_arith)
            requires
                width >= 1,
                0 <= index < count,
        ;
    }
    let left: i64 = client.left as i64 + width * (index as i64) / (count as i64);
    let right: i64 = client.left as i64 + width * ((index + 1) as i64) / (count as i64);
    let item = Rect { left: left as i32, top: client.top, right: right as i32, bottom: client.bottom };
    let sep_w: i64 = if height / 24 < 1 {
        1
    } else {
        height / 24
    };
    let sep_m: i64 = if height / 6 < 2 {
        2
    } else {
        height / 6
    };
    let separator = if index + 1 < count {
        Some(Rect {
            left: (right - sep_w) as i32,
            top: (client.top as i64 + sep_m) as i32,
            right: right as i32,
            bottom: (client.bottom as i64 - sep_m) as i32,
        })
    } else {
        None
    };
    let p0: i64 = height / 3;
    let pad: i64 = if p0 < 6 {
        6
    } else if p0 > 12 {
        12
    } else {
        p0
    };
    let content = Rect { left: (left + pad) as i32, top: client.top, right: (right - pad) as i32, bottom: client.bottom };
    let icon_size: i64 = height * 2 / 3;
    let fits = has_icon && icon_size > 0 && content.right as i64 - content.left as i64 >= icon_size;
    let icon_top: i64 = client.top as i64 + (height - icon_size) / 2;
    let gap: i64 = if pad / 2 < 3 {
        3
    } else {
        pad / 2
    };
    TabItemLayout {
        item,
        separator,
        content,
        icon: if fits {
            Some(Rect {
                left: content.left,
                top: icon_top as i32,
                right: (content.left as i64 + icon_size) as i32,
                bottom: (icon_top + icon_size) as i32,
            })
        } else {
            None
        },
        title: if fits {
            Rect { left: (content.left as i64 + icon_size + gap) as i32, ..content }
        } else {
            content
        },
    }
}


/// The colours a tab bar is painted with, as `0x00BBGGRR` values.
#[derive(Clone, Copy, Debug, PartialEq, Eq, Structural)]
pub struct TabColors {
    /// The fill of the tab's rectangle.
    pub fill: u32,
    /// The colour of the tab's title.
    pub text: u32,
}

/// The background of the whole bar.
pub const TAB_BAR_BACKGROUND: u32 = 0x0020_2020u32;

/// The fill of the separator between two tabs.
pub const TAB_SEPARATOR_COLOR: u32 = 0x0070_7070u32;

/// The colours of a tab: the active one is filled blue with a white title,
/// the others dark grey with a light grey title.
pub fn tab_colors(is_active: bool) -> (r: TabColors)
    ensures
        is_active ==> r == (TabColors { fill: 0x0050_78A0u32, text: 0x00FF_FFFFu32 }),
        !is_active ==> r == (TabColors { fill: 0x0030_3030u32, text: 0x00C8_C8C8u32 }),
{
    if is_active {
        TabColors { fill: 0x0050_78A0, text: 0x00FF_FFFF }
    } else {
        TabColors { fill: 0x0030_3030, text: 0x00C8_C8C8 }
    }
}


/// A mouse message that a tab bar acts on.
#[derive(Clone, Copy, Debug, PartialEq, Eq, Structural)]
pub enum TabBarMouse {
    /// The left button went down over tab `0`, or over no tab.
    LeftDown(Option<usize>),
    /// The left button came up over tab `0`, or over no tab.
    LeftUp(Option<usize>),
}

/// What a tab bar does with mouse message `event`, holding `pressed`, the
/// tab the left button went down on: the tab it now holds as pressed, and
/// the tab that was clicked, if any. A click is a press and a release over
/// the same tab; a release always clears the press.
pub fn tab_bar_mouse(pressed: Option<usize>, event: TabBarMouse) -> (r: (Option<usize>, Option<usize>))
    ensures
        event matches TabBarMouse::LeftDown(i) ==> r == (i, None::<usize>),
        event matches TabBarMouse::LeftUp(i) ==> r == (None::<usize>, if i == pressed {
            i
        } else {
            None
        }),
{
    match event {
        TabBarMouse::LeftDown(i) => (i, None),
        TabBarMouse::LeftUp(i) => {
            let same = match (i, pressed) {
                (Some(a), Some(b)) => a == b,
                (None, None) => true,
                _ => false,
            };
            (None, if same {
                i
            } else {
                None
            })
        },
    }
}

/// Whether a tab bar lets hit tests through to what lies below it: it
/// does while it holds no tab.
pub fn tab_bar_transparent(item_count: usize) -> (r: bool)
    ensures
        r == (item_count == 0),
{
    item_count == 0
}

} // verus!
