//! The tray icon, drawn as 32×32 RGBA pixels: a ring with a route mark inside.
use vstd::prelude::*;

verus! {

/// The icon is `ICON_SIZE` pixels wide and high.
pub const ICON_SIZE: usize = 32;

/// The pixel at column `x` and row `y` is painted: it lies on the ring around the centre or on
/// the route mark.
pub open spec fn icon_visible(x: int, y: int) -> bool {
    let dx = x - 16;
    let dy = y - 16;
    let radius_squared = dx * dx + dy * dy;
    let route = (8 <= x <= 24 && 13 <= y <= 17) || (20 <= x <= 24 && 8 <= y <= 17);
    (94 <= radius_squared <= 177) || route
}

/// Channel `c` of a painted pixel: a teal colour, fully opaque.
pub open spec fn paint_channel(c: int) -> u8 {
    if c == 0 {
        23
    } else if c == 1 {
        108
    } else if c == 2 {
        98
    } else {
        255
    }
}

/// Byte `i` of the icon: painted pixels carry the teal colour, all others are transparent.
pub open spec fn icon_byte(i: int) -> u8 {
    let p = i / 4;
    if icon_visible(p % 32, p / 32) {
        paint_channel(i % 4)
    } else {
        0
    }
}

/// Every pixel of the icon is either fully transparent, all four bytes zero, or the opaque
/// teal `(23, 108, 98, 255)`; the corners are left transparent.
pub proof fn lemma_icon_pixels_are_solid(p: int)
    requires
        0 <= p < 1024,
    ensures
        (icon_byte(4 * p) == 0 && icon_byte(4 * p + 1) == 0 && icon_byte(4 * p + 2) == 0
            && icon_byte(4 * p + 3) == 0) || (icon_byte(4 * p) == 23 && icon_byte(4 * p + 1) == 108
            && icon_byte(4 * p + 2) == 98 && icon_byte(4 * p + 3) == 255),
        icon_byte(3) == 0,
        icon_byte(4095) == 0,
{
    assert((4 * p) / 4 == p && (4 * p + 1) / 4 == p && (4 * p + 2) / 4 == p && (4 * p + 3) / 4
        == p);
    assert((4 * p) % 4 == 0 && (4 * p + 1) % 4 == 1 && (4 * p + 2) % 4 == 2 && (4 * p + 3) % 4
        == 3);
    assert(3int / 4 == 0 && 3int % 4 == 3);
    assert(4095int / 4 == 1023 && 4095int % 4 == 3);
    assert(1023int % 32 == 31 && 1023int / 32 == 31);
}

fn visible(x: u32, y: u32) -> (r: bool)
    requires
        x < 32,
        y < 32,
    ensures
        r == icon_visible(x as int, y as int),
{
    let dx = x as i64 - 16;
    let dy = y as i64 - 16;
    assert(0 <= dx * dx <= 256) by (nonlinear_arith)
        requires
            -16 <= dx <= 16,
    ;
    assert(0 <= dy * dy <= 256) by (nonlinear_arith)
        requires
            -16 <= dy <= 16,
    ;
    let radius_squared = dx * dx + dy * dy;
    let route = (8 <= x && x <= 24 && 13 <= y && y <= 17) || (20 <= x && x <= 24 && 8 <= y && y
        <= 17);
    (94 <= radius_squared && radius_squared <= 177) || route
}

/// The RGBA bytes of the tray icon, row by row.
pub fn relay_icon_rgba() -> (rgba: Vec<u8>)
    ensures
        rgba@.len() == 4096,
        forall|i: int| 0 <= i < 4096 ==> #[trigger] rgba@[i] == icon_byte(i),
{
    let mut rgba: Vec<u8> = vec![0u8; 4096];
    let mut y: u32 = 0;
    while y < 32
        invariant
            y <= 32,
            rgba@.len() == 4096,
            forall|i: int| 0 <= i < (y as int) * 128 ==> #[trigger] rgba@[i] == icon_byte(i),
            forall|i: int| (y as int) * 128 <= i < 4096 ==> #[trigger] rgba@[i] == 0,
        decreases 32 - y,
    {
        let mut x: u32 = 0;
        while x < 32
            invariant
                x <= 32,
                y < 32,
                rgba@.len() == 4096,
                forall|i: int|
                    0 <= i < (y as int) * 128 + (x as int) * 4 ==> #[trigger] rgba@[i]
                        == icon_byte(i),
                forall|i: int|
                    (y as int) * 128 + (x as int) * 4 <= i < 4096 ==> #[trigger] rgba@[i] == 0,
            decreases 32 - x,
        {
            let index = ((y * 32 + x) * 4) as usize;
            let painted = visible(x, y);
            if painted {
                rgba.set(index, 23);
                rgba.set(index + 1, 108);
                rgba.set(index + 2, 98);
                rgba.set(index + 3, 255);
            }
            proof {
                let base = (y as int) * 128 + (x as int) * 4;
                assert(index == base);
                assert forall|c: int| 0 <= c < 4 implies #[trigger] rgba@[base + c] == icon_byte(
                    base + c,
                ) by {
                    let p = (base + c) / 4;
                    assert(p == (y as int) * 32 + (x as int));
                    assert(p % 32 == x as int);
                    assert(p / 32 == y as int);
                    assert((base + c) % 4 == c);
                }
            }
            x = x + 1;
            assert forall|i: int|
                0 <= i < (y as int) * 128 + (x as int) * 4 implies #[trigger] rgba@[i]
                == icon_byte(i) by {
                let base = (y as int) * 128 + (x as int - 1) * 4;
                if i >= base {
                    assert(rgba@[base + (i - base)] == icon_byte(base + (i - base)));
                }
            }
        }
        y = y + 1;
    }
    rgba
}

} // verus!
