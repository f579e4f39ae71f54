use vstd::prelude::*;

verus! {

/// One colour with 8-bit channels.
#[derive(Clone, Copy, Debug, PartialEq, Eq, Structural)]
pub struct Color {
    pub r: u8,
    pub g: u8,
    pub b: u8,
    pub a: u8,
}

/// An 8-bit channel scaled to the 6-bit range: `round(c / 255 * 63)`.
/// No value of `c` lies exactly half way, so this floor form is exact.
pub open spec fn six_bit(c: u8) -> u8 {
    ((c as int * 126 + 255) / 510) as u8
}

/// The hardware colour for a true colour: every channel scaled to six bits, opaque.
pub open spec fn hardware_color(c: Color) -> Color {
    Color { r: six_bit(c.r), g: six_bit(c.g), b: six_bit(c.b), a: 255 }
}

/// The 8-bit colour that a hardware colour is shown as: every channel times four.
pub open spec fn render_color(c: Color) -> Color {
    Color { r: (c.r * 4) as u8, g: (c.g * 4) as u8, b: (c.b * 4) as u8, a: 255 }
}

pub open spec fn black() -> Color {
    Color { r: 0, g: 0, b: 0, a: 255 }
}

/// The hardware palette made from a true-colour palette of at most 16 entries,
/// padded with opaque black.
pub open spec fn hardware_palette(colors: Seq<Color>) -> Seq<Color> {
    Seq::new(16, |i: int| if i < colors.len() { hardware_color(colors[i]) } else { black() })
}

/// The hardware palette and the palette it is rendered with.
pub struct Palettes {
    /// 16 colours with channels in `0..=63`.
    pub vga: Vec<Color>,
    /// `vga` with every channel multiplied by four.
    pub rgba: Vec<Color>,
}

impl Palettes {
    /// Both palettes have 16 entries, every hardware channel is at most 63, and
    /// the render palette is the hardware palette times four, channel by channel.
    pub open spec fn wf(&self) -> bool {
        &&& self.vga@.len() == 16
        &&& self.rgba@.len() == 16
        &&& forall|i: int|
            0 <= i < 16 ==> {
                &&& #[trigger] self.vga@[i].r <= 63
                &&& self.vga@[i].g <= 63
                &&& self.vga@[i].b <= 63
                &&& self.vga@[i].a == 255
            }
        &&& forall|i: int| 0 <= i < 16 ==> #[trigger] self.rgba@[i] == render_color(self.vga@[i])
    }

    /// Derives both palettes from the quantizer's palette of at most 16 colours.
    pub fn new(colors: &[Color]) -> (p: Palettes)
        requires
            colors@.len() <= 16,
        ensures
            p.wf(),
            p.vga@ == hardware_palette(colors@),
            forall|i: int|
                0 <= i < 16 ==> #[trigger] p.rgba@[i] == render_color(hardware_palette(colors@)[i]),
    {
        let mut vga: Vec<Color> = Vec::new();
        let mut i: usize = 0;
        while i < 16
            invariant
                i <= 16,
                colors@.len() <= 16,
                vga@.len() == i,
                forall|j: int| 0 <= j < i ==> #[trigger] vga@[j] == hardware_palette(colors@)[j],
            decreases 16 - i,
        {
            let c = if i < colors.len() {
                let src = colors[i];
                Color {
                    r: scale_to_six_bits(src.r),
                    g: scale_to_six_bits(src.g),
                    b: scale_to_six_bits(src.b),
                    a: 255,
                }
            } else {
                Color { r: 0, g: 0, b: 0, a: 255 }
            };
            vga.push(c);
            i = i + 1;
        }
        let mut rgba: Vec<Color> = Vec::new();
        let mut k: usize = 0;
        while k < 16
            invariant
                k <= 16,
                vga@ == hardware_palette(colors@),
                rgba@.len() == k,
                forall|j: int| 0 <= j < k ==> #[trigger] rgba@[j] == render_color(vga@[j]),
            decreases 16 - k,
        {
            let c = vga[k];
            proof {
                lemma_six_bit_max(c.r);
            }
            rgba.push(Color { r: c.r * 4, g: c.g * 4, b: c.b * 4, a: 255 });
            k = k + 1;
        }
        assert(vga@ =~= hardware_palette(colors@));
        Palettes { vga, rgba }
    }
}

proof fn lemma_six_bit_max(c: u8)
    ensures
        six_bit(c) <= 63,
{
}

fn scale_to_six_bits(c: u8) -> (r: u8)
    ensures
        r == six_bit(c),
        r <= 63,
{
    (((c as u32) * 126 + 255) / 510) as u8
}

} // verus!
